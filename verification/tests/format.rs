//! The tab-delimited codec, the interner, the point-naming convention,
//! and the grammar's acceptance and rejection behaviour.

use borrow_check::intern::{Interner, InternerTables};
use borrow_check::parser::{InputParser, ParseError};
use borrow_check::tab_delim::{
    decode_file, dump_facts, encode_rel2, load_tab_delimited_facts, FactsText, Relation,
};
use borrow_check::text::{point_name, usize_to_dec};

#[test]
fn round_trip_tab_delimited() {
    let rows: Vec<(String, String)> = vec![
        ("B_x".to_string(), "B/1".to_string()),
        ("B_x".to_string(), "C/0".to_string()),
        ("a name with spaces".to_string(), "p".to_string()),
    ];
    let text = encode_rel2(&rows);
    assert_eq!(text, "\"B_x\"\t\"B/1\"\n\"B_x\"\t\"C/0\"\n\"a name with spaces\"\t\"p\"\n");
    let back = decode_file(&text, 2).expect("written rows must re-read");
    let pairs: Vec<(String, String)> = back
        .iter()
        .map(|r| (r[0].clone(), r[1].clone()))
        .collect();
    assert_eq!(pairs, rows);
}

#[test]
fn empty_relation_round_trips() {
    let rows: Vec<(String, String)> = Vec::new();
    let text = encode_rel2(&rows);
    assert_eq!(text, "");
    let back = decode_file(&text, 2).expect("empty file is an empty relation");
    assert_eq!(back.len(), 0);
}

#[test]
fn wrong_column_count_is_fatal_with_line_number() {
    // Extra trailing column on the second row.
    assert_eq!(decode_file("\"a\"\t\"b\"\n\"a\"\t\"b\"\t\"c\"\n", 2), Err(2));
    // Missing column on the first row.
    assert_eq!(decode_file("\"a\"\n", 2), Err(1));
}

#[test]
fn unparseable_column_is_fatal_with_line_number() {
    // An unquoted value.
    assert_eq!(decode_file("\"a\"\tb\n", 2), Err(1));
    // A bare quote.
    assert_eq!(decode_file("\"\t\"b\"\n", 2), Err(1));
    // An empty line.
    assert_eq!(decode_file("\"a\"\t\"b\"\n\n", 2), Err(2));
}

#[test]
fn load_reports_file_and_line() {
    let text = FactsText {
        borrow_region: "\"r\"\t\"B\"\t\"A/0\"\n".to_string(),
        next_statement: "\"A/0\"\t\"A/1\"\n".to_string(),
        goto: String::new(),
        region_live_on_entry: "\"r\"\t\"A/1\"\n".to_string(),
        killed: "\"B\"\t\"A/0\"\nbroken row\n".to_string(),
        outlives: String::new(),
    };
    let mut tables = InternerTables::new();
    match load_tab_delimited_facts(&mut tables, &text) {
        Err(err) => {
            assert_eq!(err.relation, Relation::Killed);
            assert_eq!(err.line, 2);
        }
        Ok(_) => panic!("bad row must be fatal"),
    }
}

#[test]
fn dump_writes_the_conventional_rows() {
    let parser = InputParser::new();
    let ir = parser
        .parse("block B1 { statement(borrow(B0 as r0) post(r0: r1)) statement() statement(live(r1)) }")
        .expect("input must parse");
    let files = dump_facts(&ir);
    assert_eq!(files.borrow_region, "\"r0\"\t\"B0\"\t\"B1/0\"\n");
    assert_eq!(
        files.next_statement,
        "\"B1/0\"\t\"B1/1\"\n\"B1/1\"\t\"B1/2\"\n\"B1/2\"\t\"B1/3\"\n"
    );
    assert_eq!(files.goto, "");
    assert_eq!(files.region_live_on_entry, "\"r1\"\t\"B1/2\"\n");
    assert_eq!(files.killed, "");
    assert_eq!(files.outlives, "\"B1/0\"\t\"r0\"\t\"r1\"\t\"B1/1\"\n");
}

#[test]
fn goto_targets_enter_at_index_zero() {
    let parser = InputParser::new();
    let ir = parser
        .parse("block A { statement() goto(B C) } block B { statement() } block C { statement() }")
        .expect("input must parse");
    let files = dump_facts(&ir);
    // The terminator of A is A/1 (one statement), targets enter at /0.
    assert_eq!(files.goto, "\"A/1\"\t\"B/0\"\n\"A/1\"\t\"C/0\"\n");
}

#[test]
fn interner_allocates_dense_first_seen_identifiers() {
    let mut i = Interner::new();
    let a = i.intern("alpha");
    let b = i.intern("beta");
    let a2 = i.intern("alpha");
    assert_eq!(a, 0);
    assert_eq!(b, 1);
    assert_eq!(a2, a);
    assert_eq!(i.untern(a), "alpha");
    assert_eq!(i.untern(b), "beta");
}

#[test]
fn point_names_follow_the_convention() {
    assert_eq!(point_name("B0", 0), "B0/0");
    assert_eq!(point_name("B0", 12), "B0/12");
    assert_eq!(point_name("START", 907), "START/907");
    assert_eq!(usize_to_dec(0), "0");
    assert_eq!(usize_to_dec(10), "10");
    assert_eq!(usize_to_dec(65535), "65535");
}

#[test]
fn grammar_accepts_comments_before_statements() {
    let parser = InputParser::new();
    let ir = parser
        .parse("// heading\n// more\nblock A {\n// before a statement\nstatement() }")
        .expect("comments before statements are part of the grammar");
    assert_eq!(ir.blocks.len(), 1);
    assert_eq!(ir.blocks[0].name, "A");
    assert_eq!(ir.blocks[0].statements.len(), 1);
}

#[test]
fn grammar_rejects_misplaced_input() {
    let parser = InputParser::new();
    // A keyword cannot name a block.
    assert!(parser.parse("block block { }").is_err());
    // An unterminated block.
    assert!(parser.parse("block A {").is_err());
    // A dangling comment inside a block body.
    assert!(parser.parse("block A { statement() // dangling\n }").is_err());
    // Stray text after the blocks.
    assert!(parser.parse("block A { } nonsense").is_err());
    // A character no token starts with.
    match parser.parse("block A ! { }") {
        Err(e) => assert_eq!(e, ParseError::InvalidToken { location: 8 }),
        Ok(_) => panic!("an unreadable character must be rejected"),
    }
}

#[test]
fn parser_reads_every_effect_form() {
    let parser = InputParser::new();
    let ir = parser
        .parse(
            "block A { statement(borrow(B as r) live(r) kill(B) pre(r: s) post(s: t)) goto(A) }",
        )
        .expect("all effect forms must parse");
    assert_eq!(ir.blocks[0].statements[0].effects.len(), 5);
    assert_eq!(ir.blocks[0].goto, vec!["A".to_string()]);
}
