//! Concrete checks of the solver's laws: monotonicity in the outlives
//! relation, purity of repeated runs, and suppression of flow by kills.

use borrow_check::parser::InputParser;
use borrow_check::solve::region_computation;

fn answer_pairs(input: &str) -> Vec<(String, String)> {
    let parser = InputParser::new();
    let ir = parser.parse(input).expect("input must parse");
    let (tables, facts, _lines) = region_computation(&ir);
    let answer = borrow_check::solve::borrow_live_at(&facts);
    answer
        .iter()
        .map(|t| {
            (
                tables.borrows.untern(t.0.index).to_string(),
                tables.points.untern(t.1.index).to_string(),
            )
        })
        .collect()
}

const WITHOUT_EXTRA_OUTLIVES: &str = "
block B1 {
    statement(borrow(B0 as r0) post(r0: r1))
    statement()
    statement(live(r1) live(r9))
    statement(live(r9))
}
";

// The same fact store, except that one more outlives edge flows r1
// into r9 at the second statement.
const WITH_EXTRA_OUTLIVES: &str = "
block B1 {
    statement(borrow(B0 as r0) post(r0: r1))
    statement(post(r1: r9))
    statement(live(r1) live(r9))
    statement(live(r9))
}
";

#[test]
fn monotone_in_outlives() {
    let small = answer_pairs(WITHOUT_EXTRA_OUTLIVES);
    let large = answer_pairs(WITH_EXTRA_OUTLIVES);
    // Everything derivable before is still derivable.
    for pair in &small {
        assert!(large.contains(pair));
    }
    // And here the extra edge carries the borrow one point further.
    assert_eq!(small, vec![("B0".to_string(), "B1/2".to_string())]);
    assert!(large.contains(&("B0".to_string(), "B1/3".to_string())));
    assert_eq!(large.len(), 2);
}

#[test]
fn solving_twice_is_identical() {
    let parser = InputParser::new();
    let ir1 = parser.parse(WITH_EXTRA_OUTLIVES).expect("input must parse");
    let ir2 = parser.parse(WITH_EXTRA_OUTLIVES).expect("input must parse");
    let (_, _, lines1) = region_computation(&ir1);
    let (_, _, lines2) = region_computation(&ir2);
    assert_eq!(lines1, lines2);
    assert_eq!(answer_pairs(WITH_EXTRA_OUTLIVES), answer_pairs(WITH_EXTRA_OUTLIVES));
}

const WITH_KILL: &str = "
block A {
    statement(borrow(B as r) post(r: r2) kill(B))
    statement(live(r2))
}
";

const WITHOUT_KILL: &str = "
block A {
    statement(borrow(B as r) post(r: r2))
    statement(live(r2))
}
";

#[test]
fn kill_suppresses_flow() {
    // Invalidated at the borrow's own point, the borrow restricts
    // nothing downstream: the answer is empty.
    assert_eq!(answer_pairs(WITH_KILL), Vec::<(String, String)>::new());
    // Without the kill the restriction flows into r2 at A/1.
    assert_eq!(answer_pairs(WITHOUT_KILL), vec![("B".to_string(), "A/1".to_string())]);
}

#[test]
fn empty_input_has_empty_answer() {
    assert_eq!(answer_pairs(""), Vec::<(String, String)>::new());
    assert_eq!(answer_pairs("// nothing but a comment"), Vec::<(String, String)>::new());
}

#[test]
fn duplicate_rows_collapse() {
    // Two identical borrows and liveness facts derive the same single
    // answer tuple as one of each: relations are sets.
    let once = "
block A {
    statement(borrow(B as r) post(r: r2))
    statement(live(r2))
}
";
    let twice = "
block A {
    statement(borrow(B as r) borrow(B as r) post(r: r2) post(r: r2))
    statement(live(r2) live(r2))
}
";
    assert_eq!(answer_pairs(once), answer_pairs(twice));
}
