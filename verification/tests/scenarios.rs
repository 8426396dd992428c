//! The three analysis scenarios, each checked twice: once through the
//! persisted-facts path (dump, reload, solve — compared as a set of
//! name pairs), and once through the direct path (parse, solve, report
//! — compared as exact report text).

use borrow_check::parser::InputParser;
use borrow_check::solve::{borrow_live_at, region_computation};
use borrow_check::tab_delim::{dump_facts, execute_from_facts};

const CARRY_NEST: &str = "
// two borrows in one block, with nested scopes
block B0 {
    statement(borrow(B_foo as foo) post(foo: foo_s))
    statement(live(foo_s))
    statement(live(foo_s) borrow(B_bar as bar) post(bar: bar_s))
    statement(live(foo_s) live(bar_s))
    statement(live(foo_s))
    statement(live(foo_s))
}
";

const PROBLEM_CASE_1: &str = "
block B1 {
    statement(borrow(B0 as r0) post(r0: r1))
    statement()
    statement(live(r1))
}
";

const ISSUE_47680: &str = "
// a loop in which the borrow is not live around the back-edge
block B {
    statement(borrow(B_x as x) post(x: x_s))
    statement(live(x_s))
    goto(C)
}

block C {
    statement(live(x_s))
    goto(B D)
}

block D {
    statement()
}
";

/// Dumps an input to the six tab-delimited file contents, reloads them
/// into a fresh fact store, solves, and returns the answer as a set
/// (sorted pairs) of borrow and point names.
fn solve_via_files(input: &str) -> Vec<(String, String)> {
    let parser = InputParser::new();
    let ir = parser.parse(input).expect("input must parse");
    let files = dump_facts(&ir);
    let (tables, facts, _lines) = execute_from_facts(&files).expect("facts must load");
    let answer = borrow_live_at(&facts);
    let mut out: Vec<(String, String)> = answer
        .iter()
        .map(|t| {
            (
                tables.borrows.untern(t.0.index).to_string(),
                tables.points.untern(t.1.index).to_string(),
            )
        })
        .collect();
    out.sort();
    out
}

/// Parses an input, solves it, and returns the full report section.
fn report_section(input: &str) -> String {
    let parser = InputParser::new();
    let ir = parser.parse(input).expect("input must parse");
    let (_tables, _facts, lines) = region_computation(&ir);
    let mut out = String::new();
    out.push_str("vvv borrowLiveAt vvv\n");
    for line in &lines {
        out.push_str(line);
        out.push('\n');
    }
    out.push_str("^^^ borrowLiveAt ^^^\n");
    out
}

fn sorted_pairs(pairs: &[(&str, &str)]) -> Vec<(String, String)> {
    let mut v: Vec<(String, String)> = pairs
        .iter()
        .map(|(b, p)| (b.to_string(), p.to_string()))
        .collect();
    v.sort();
    v
}

#[test]
fn carry_nest() {
    let expected = sorted_pairs(&[
        ("B_foo", "B0/1"),
        ("B_foo", "B0/2"),
        ("B_bar", "B0/3"),
        ("B_foo", "B0/3"),
        ("B_foo", "B0/4"),
        ("B_foo", "B0/5"),
    ]);
    assert_eq!(solve_via_files(CARRY_NEST), expected);
}

#[test]
fn carry_nest_differential() {
    assert_eq!(
        report_section(CARRY_NEST),
        "vvv borrowLiveAt vvv\n\
         borrow B_foo live at B0/2\n\
         borrow B_foo live at B0/1\n\
         borrow B_foo live at B0/3\n\
         borrow B_foo live at B0/4\n\
         borrow B_foo live at B0/5\n\
         borrow B_bar live at B0/3\n\
         ^^^ borrowLiveAt ^^^\n"
    );
}

#[test]
fn problem_case_1() {
    let expected = sorted_pairs(&[("B0", "B1/2")]);
    assert_eq!(solve_via_files(PROBLEM_CASE_1), expected);
}

#[test]
fn problem_case_1_differential() {
    assert_eq!(
        report_section(PROBLEM_CASE_1),
        "vvv borrowLiveAt vvv\nborrow B0 live at B1/2\n^^^ borrowLiveAt ^^^\n"
    );
}

#[test]
fn issue_47680() {
    let expected = sorted_pairs(&[("B_x", "B/1"), ("B_x", "C/0"), ("B_x", "B/2")]);
    assert_eq!(solve_via_files(ISSUE_47680), expected);
}

#[test]
fn issue_47680_differential() {
    assert_eq!(
        report_section(ISSUE_47680),
        "vvv borrowLiveAt vvv\n\
         borrow B_x live at B/1\n\
         borrow B_x live at B/2\n\
         borrow B_x live at C/0\n\
         ^^^ borrowLiveAt ^^^\n"
    );
}

#[test]
fn issue_47680_not_live_elsewhere() {
    // The borrow must not be live at any other point of the loop body.
    let got = solve_via_files(ISSUE_47680);
    for (_, point) in &got {
        assert!(point == "B/1" || point == "B/2" || point == "C/0");
    }
    assert!(!got.iter().any(|(_, p)| p == "B/0" || p == "C/1" || p == "D/0" || p == "D/1"));
}
