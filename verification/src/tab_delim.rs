//! The tab-delimited persisted fact format: one line per tuple, columns
//! separated by tabs, each value a quoted entity name.

use vstd::prelude::*;
use vstd::string::StrSliceExecFns;
use vstd::string::StringExecFns;
use crate::facts::AllFacts;
use crate::intern::InternerTables;

verus! {

/// A name that survives the format: it holds no tab and no newline.
pub open spec fn name_wf(name: Seq<char>) -> bool {
    forall|i: int| 0 <= i < name.len() ==> name[i] != '\t' && name[i] != '\n'
}

/// A name wrapped in double quotes.
pub open spec fn quoted(name: Seq<char>) -> Seq<char> {
    seq!['"'] + name + seq!['"']
}

/// One line: the quoted columns, tab-separated.
pub open spec fn encode_cols(cols: Seq<Seq<char>>) -> Seq<char>
    decreases cols.len(),
{
    if cols.len() == 0 {
        seq![]
    } else if cols.len() == 1 {
        quoted(cols[0])
    } else {
        quoted(cols.first()) + seq!['\t'] + encode_cols(cols.drop_first())
    }
}

/// A whole file: one line per row, each terminated by a newline.
pub open spec fn encode_file(rows: Seq<Seq<Seq<char>>>) -> Seq<char>
    decreases rows.len(),
{
    if rows.len() == 0 {
        seq![]
    } else {
        encode_cols(rows.first()) + seq!['\n'] + encode_file(rows.drop_first())
    }
}

/// The position of the first occurrence of `c` in `s`, or `s.len()`.
pub open spec fn first_at(s: Seq<char>, c: char) -> int
    decreases s.len(),
{
    if s.len() == 0 {
        0
    } else if s[0] == c {
        0
    } else {
        1 + first_at(s.drop_first(), c)
    }
}

/// The lines of a text: segments between newlines; a trailing newline
/// opens no further empty line.
pub open spec fn split_lines(text: Seq<char>) -> Seq<Seq<char>>
    decreases text.len(),
{
    if text.len() == 0 {
        seq![]
    } else {
        let k = first_at(text, '\n');
        if k < 0 || k >= text.len() {
            seq![text]
        } else {
            seq![text.take(k)] + split_lines(text.skip(k + 1))
        }
    }
}

/// The tab-separated segments of a line; always at least one.
pub open spec fn split_cols(line: Seq<char>) -> Seq<Seq<char>>
    decreases line.len(),
{
    let k = first_at(line, '\t');
    if k < 0 || k >= line.len() {
        seq![line]
    } else {
        seq![line.take(k)] + split_cols(line.skip(k + 1))
    }
}

/// Strips the surrounding quotes of a column, if they are there.
pub open spec fn parse_col(col: Seq<char>) -> Option<Seq<char>> {
    if col.len() >= 2 && col[0] == '"' && col[col.len() - 1] == '"' {
        Some(col.subrange(1, col.len() - 1))
    } else {
        None
    }
}

/// Unquotes every column of a split line.
pub open spec fn parse_all_cols(cols: Seq<Seq<char>>) -> Option<Seq<Seq<char>>>
    decreases cols.len(),
{
    if cols.len() == 0 {
        Some(seq![])
    } else {
        match parse_col(cols.first()) {
            Option::None => Option::None,
            Option::Some(name) => match parse_all_cols(cols.drop_first()) {
                Option::None => Option::None,
                Option::Some(names) => Option::Some(seq![name] + names),
            },
        }
    }
}

/// One line as a row of names, or nothing if a column is malformed.
pub open spec fn parse_line(line: Seq<char>) -> Option<Seq<Seq<char>>> {
    parse_all_cols(split_cols(line))
}

/// Decodes a list of lines into rows of `arity` names; on the first bad
/// line — a malformed column, or the wrong column count — the result is
/// that line's (1-based) number.
pub open spec fn decode_lines(lines: Seq<Seq<char>>, arity: int, idx: int) -> Result<
    Seq<Seq<Seq<char>>>,
    int,
>
    decreases lines.len(),
{
    if lines.len() == 0 {
        Ok(seq![])
    } else {
        match parse_line(lines.first()) {
            Option::None => Err(idx),
            Option::Some(row) => if row.len() != arity {
                Err(idx)
            } else {
                match decode_lines(lines.drop_first(), arity, idx + 1) {
                    Ok(rows) => Ok(seq![row] + rows),
                    Err(e) => Err(e),
                }
            },
        }
    }
}

/// Decodes a whole file into rows of `arity` names.
pub open spec fn decode_file_spec(text: Seq<char>, arity: int) -> Result<Seq<Seq<Seq<char>>>, int> {
    decode_lines(split_lines(text), arity, 1)
}

// ------------------------------------------------------------------
// The round-trip law.
// ------------------------------------------------------------------

/// In `a + [c] + b`, with no `c` inside `a`, the first `c` sits right
/// after `a`.
proof fn lemma_first_at_concat(a: Seq<char>, b: Seq<char>, c: char)
    requires
        forall|i: int| 0 <= i < a.len() ==> a[i] != c,
    ensures
        first_at(a + seq![c] + b, c) == a.len(),
    decreases a.len(),
{
    let s = a + seq![c] + b;
    if a.len() == 0 {
        assert(s[0] == c);
    } else {
        assert(s[0] == a[0]);
        lemma_first_at_concat(a.drop_first(), b, c);
        assert(s.drop_first() =~= a.drop_first() + seq![c] + b);
    }
}

/// A text without `c` has its first `c` at the end.
proof fn lemma_first_at_absent(s: Seq<char>, c: char)
    requires
        forall|i: int| 0 <= i < s.len() ==> s[i] != c,
    ensures
        first_at(s, c) == s.len(),
    decreases s.len(),
{
    if s.len() > 0 {
        lemma_first_at_absent(s.drop_first(), c);
    }
}

/// An encoded line of well-formed names holds neither tab outside the
/// separators nor any newline; in particular, no newline at all, and
/// no tab before the first separator.
proof fn lemma_encode_cols_chars(cols: Seq<Seq<char>>)
    requires
        forall|j: int| 0 <= j < cols.len() ==> name_wf(#[trigger] cols[j]),
    ensures
        forall|i: int| 0 <= i < encode_cols(cols).len() ==> encode_cols(cols)[i] != '\n',
        forall|i: int|
            0 <= i < quoted(cols[0]).len() && cols.len() >= 1 ==> quoted(cols[0])[i] != '\t',
    decreases cols.len(),
{
    if cols.len() == 0 {
    } else if cols.len() == 1 {
        assert(name_wf(cols[0]));
        assert forall|i: int| 0 <= i < encode_cols(cols).len() implies encode_cols(cols)[i]
            != '\n' by {
            let q = quoted(cols[0]);
            if 0 < i < q.len() - 1 {
                assert(q[i] == cols[0][i - 1]);
            }
        }
        assert forall|i: int| 0 <= i < quoted(cols[0]).len() implies quoted(cols[0])[i]
            != '\t' by {
            let q = quoted(cols[0]);
            if 0 < i < q.len() - 1 {
                assert(q[i] == cols[0][i - 1]);
            }
        }
    } else {
        lemma_encode_cols_chars(cols.drop_first());
        assert(name_wf(cols[0]));
        let q = quoted(cols.first());
        let rest = encode_cols(cols.drop_first());
        assert(encode_cols(cols) == q + seq!['\t'] + rest);
        assert forall|i: int| 0 <= i < q.len() implies q[i] != '\t' && q[i] != '\n' by {
            if 0 < i < q.len() - 1 {
                assert(q[i] == cols[0][i - 1]);
            }
        }
        assert forall|i: int| 0 <= i < encode_cols(cols).len() implies encode_cols(cols)[i]
            != '\n' by {
            if i < q.len() {
                assert(encode_cols(cols)[i] == q[i]);
            } else if i == q.len() {
                assert(encode_cols(cols)[i] == '\t');
            } else {
                assert(encode_cols(cols)[i] == rest[i - q.len() - 1]);
                assert(cols.drop_first()[0] == cols[1]);
            }
        }
    }
}

/// Unquoting undoes quoting.
proof fn lemma_parse_col_quoted(name: Seq<char>)
    ensures
        parse_col(quoted(name)) == Some(name),
{
    let q = quoted(name);
    assert(q[0] == '"');
    assert(q[q.len() - 1] == '"');
    assert(q.subrange(1, q.len() - 1) =~= name);
}

/// Splitting and unquoting an encoded line gives back its columns.
proof fn lemma_parse_line_encoded(cols: Seq<Seq<char>>)
    requires
        cols.len() >= 1,
        forall|j: int| 0 <= j < cols.len() ==> name_wf(#[trigger] cols[j]),
    ensures
        parse_line(encode_cols(cols)) == Some(cols),
    decreases cols.len(),
{
    let line = encode_cols(cols);
    lemma_encode_cols_chars(cols);
    let q = quoted(cols[0]);
    if cols.len() == 1 {
        lemma_first_at_absent(line, '\t');
        assert(split_cols(line) =~= seq![line]);
        lemma_parse_col_quoted(cols[0]);
        let sc = split_cols(line);
        assert(sc.first() == line);
        assert(sc.drop_first() =~= Seq::<Seq<char>>::empty());
        assert(parse_all_cols(sc.drop_first()) == Some(Seq::<Seq<char>>::empty()));
        assert(parse_all_cols(sc) == Some(seq![cols[0]] + Seq::<Seq<char>>::empty()));
        assert(seq![cols[0]] + Seq::<Seq<char>>::empty() =~= cols);
    } else {
        let rest = encode_cols(cols.drop_first());
        assert(line == q + seq!['\t'] + rest);
        lemma_first_at_concat(q, rest, '\t');
        assert(first_at(line, '\t') == q.len());
        assert(q.len() >= 2);
        assert(q.len() < line.len());
        assert(line.take(q.len() as int) =~= q);
        assert(line.skip(q.len() as int + 1) =~= rest);
        assert(split_cols(line) == seq![q] + split_cols(rest));
        lemma_parse_line_encoded(cols.drop_first());
        lemma_parse_col_quoted(cols[0]);
        let sc = split_cols(line);
        assert(sc.first() == q);
        assert(sc.drop_first() =~= split_cols(rest));
        assert(parse_all_cols(split_cols(rest)) == Some(cols.drop_first()));
        assert(parse_all_cols(sc) == Some(seq![cols[0]] + cols.drop_first()));
        assert(seq![cols[0]] + cols.drop_first() =~= cols);
    }
}

/// Round-trip: re-reading a written relation yields exactly the rows
/// that were written, whatever their order, provided every name is
/// free of tabs and newlines.
pub proof fn lemma_tab_round_trip(rows: Seq<Seq<Seq<char>>>, arity: int, idx: int)
    requires
        arity >= 1,
        forall|i: int| 0 <= i < rows.len() ==> (#[trigger] rows[i]).len() == arity,
        forall|i: int, j: int|
            0 <= i < rows.len() && 0 <= j < arity ==> name_wf(#[trigger] rows[i][j]),
    ensures
        decode_lines(split_lines(encode_file(rows)), arity, idx) == Ok::<Seq<Seq<Seq<char>>>, int>(rows),
    decreases rows.len(),
{
    if rows.len() == 0 {
        assert(rows =~= Seq::<Seq<Seq<char>>>::empty());
        assert(encode_file(rows).len() == 0);
    } else {
        let cols = rows.first();
        let line = encode_cols(cols);
        let rest = encode_file(rows.drop_first());
        let text = encode_file(rows);
        assert(text == line + seq!['\n'] + rest);
        lemma_encode_cols_chars(cols);
        lemma_first_at_concat(line, rest, '\n');
        assert(first_at(text, '\n') == line.len());
        assert(line.len() < text.len());
        assert(text.take(line.len() as int) =~= line);
        assert(text.skip(line.len() as int + 1) =~= rest);
        assert(split_lines(text) == seq![line] + split_lines(rest));
        assert forall|j: int| 0 <= j < cols.len() implies name_wf(#[trigger] cols[j]) by {
            assert(rows[0][j] == cols[j]);
        }
        lemma_parse_line_encoded(cols);
        assert forall|i: int|
            0 <= i < rows.drop_first().len() implies (#[trigger] rows.drop_first()[i]).len()
            == arity by {
            assert(rows.drop_first()[i] == rows[i + 1]);
        }
        assert forall|i: int, j: int|
            0 <= i < rows.drop_first().len() && 0 <= j < arity implies name_wf(
            #[trigger] rows.drop_first()[i][j],
        ) by {
            assert(rows.drop_first()[i] == rows[i + 1]);
            assert(rows[i + 1][j] == rows.drop_first()[i][j]);
        }
        lemma_tab_round_trip(rows.drop_first(), arity, idx + 1);
        let ls = split_lines(text);
        assert(ls == seq![line] + split_lines(rest));
        assert(ls.first() == line);
        assert(ls.len() > 0);
        assert(ls.drop_first() =~= split_lines(rest));
        assert(parse_line(ls.first()) == Some(cols));
        assert(cols.len() == arity) by {
            assert(rows[0] == cols);
        }
        assert(decode_lines(split_lines(rest), arity, idx + 1) == Ok::<Seq<Seq<Seq<char>>>, int>(rows.drop_first()));
        assert(decode_lines(ls.drop_first(), arity, idx + 1) == Ok::<Seq<Seq<Seq<char>>>, int>(rows.drop_first()));
        assert(decode_lines(ls, arity, idx) == Ok::<Seq<Seq<Seq<char>>>, int>(seq![cols] + rows.drop_first()));
        assert(seq![cols] + rows.drop_first() =~= rows);
    }
}

// ------------------------------------------------------------------
// Writing.
// ------------------------------------------------------------------

/// Pairs of names as rows of columns.
pub open spec fn cols2(rows: Seq<(Seq<char>, Seq<char>)>) -> Seq<Seq<Seq<char>>> {
    rows.map_values(|t: (Seq<char>, Seq<char>)| seq![t.0, t.1])
}

/// Triples of names as rows of columns.
pub open spec fn cols3(rows: Seq<(Seq<char>, Seq<char>, Seq<char>)>) -> Seq<Seq<Seq<char>>> {
    rows.map_values(|t: (Seq<char>, Seq<char>, Seq<char>)| seq![t.0, t.1, t.2])
}

/// Quadruples of names as rows of columns.
pub open spec fn cols4(
    rows: Seq<(Seq<char>, Seq<char>, Seq<char>, Seq<char>)>,
) -> Seq<Seq<Seq<char>>> {
    rows.map_values(|t: (Seq<char>, Seq<char>, Seq<char>, Seq<char>)| seq![t.0, t.1, t.2, t.3])
}

/// Encoding one more row appends its line.
proof fn lemma_encode_file_push(rows: Seq<Seq<Seq<char>>>, r: Seq<Seq<char>>)
    ensures
        encode_file(rows.push(r)) == encode_file(rows) + encode_cols(r) + seq!['\n'],
    decreases rows.len(),
{
    if rows.len() == 0 {
        assert(rows.push(r).first() == r);
        assert(rows.push(r).drop_first() =~= Seq::<Seq<Seq<char>>>::empty());
        assert(encode_file(rows.push(r).drop_first()).len() == 0);
        assert(encode_file(rows.push(r)) =~= encode_file(rows) + encode_cols(r) + seq!['\n']);
    } else {
        assert(rows.push(r).first() == rows.first());
        assert(rows.push(r).drop_first() =~= rows.drop_first().push(r));
        lemma_encode_file_push(rows.drop_first(), r);
        assert(encode_file(rows.push(r)) =~= encode_file(rows) + encode_cols(r) + seq!['\n']);
    }
}

/// Appends `"name"` to the buffer.
fn append_quoted(s: &mut String, name: &str)
    ensures
        final(s)@ == old(s)@ + quoted(name@),
{
    proof {
        reveal_strlit("\"");
        assert(("\"")@ =~= seq!['"']);
    }
    s.append("\"");
    s.append(name);
    s.append("\"");
    proof {
        assert(s@ =~= old(s)@ + quoted(name@));
    }
}

/// Appends a tab separator.
fn append_tab(s: &mut String)
    ensures
        final(s)@ == old(s)@ + seq!['\t'],
{
    proof {
        reveal_strlit("\t");
        assert(("\t")@ =~= seq!['\t']);
    }
    s.append("\t");
}

/// Appends a line terminator.
fn append_newline(s: &mut String)
    ensures
        final(s)@ == old(s)@ + seq!['\n'],
{
    proof {
        reveal_strlit("\n");
        assert(("\n")@ =~= seq!['\n']);
    }
    s.append("\n");
}

/// Writes a two-column relation in the tab-delimited format.
pub fn encode_rel2(rows: &Vec<(String, String)>) -> (r: String)
    ensures
        r@ == encode_file(cols2(crate::lower::views2(rows@))),
{
    let ghost cl = cols2(crate::lower::views2(rows@));
    let mut s = String::new();
    let mut i: usize = 0;
    while i < rows.len()
        invariant
            i <= rows@.len(),
            cl == cols2(crate::lower::views2(rows@)),
            cl.len() == rows@.len(),
            s@ == encode_file(cl.take(i as int)),
        decreases rows@.len() - i,
    {
        append_quoted(&mut s, rows[i].0.as_str());
        append_tab(&mut s);
        append_quoted(&mut s, rows[i].1.as_str());
        append_newline(&mut s);
        proof {
            let c = cl[i as int];
            assert(c == seq![rows@[i as int].0@, rows@[i as int].1@]);
            assert(c.drop_first() =~= seq![c[1]]);
            assert(encode_cols(c.drop_first()) == quoted(c[1]));
            assert(encode_cols(c) == quoted(c[0]) + seq!['\t'] + quoted(c[1]));
            assert(cl.take(i as int + 1) =~= cl.take(i as int).push(c));
            lemma_encode_file_push(cl.take(i as int), c);
            assert(s@ =~= encode_file(cl.take(i as int + 1)));
        }
        i = i + 1;
    }
    proof {
        assert(cl.take(rows@.len() as int) =~= cl);
    }
    s
}

/// Writes a three-column relation in the tab-delimited format.
pub fn encode_rel3(rows: &Vec<(String, String, String)>) -> (r: String)
    ensures
        r@ == encode_file(cols3(crate::lower::views3(rows@))),
{
    let ghost cl = cols3(crate::lower::views3(rows@));
    let mut s = String::new();
    let mut i: usize = 0;
    while i < rows.len()
        invariant
            i <= rows@.len(),
            cl == cols3(crate::lower::views3(rows@)),
            cl.len() == rows@.len(),
            s@ == encode_file(cl.take(i as int)),
        decreases rows@.len() - i,
    {
        append_quoted(&mut s, rows[i].0.as_str());
        append_tab(&mut s);
        append_quoted(&mut s, rows[i].1.as_str());
        append_tab(&mut s);
        append_quoted(&mut s, rows[i].2.as_str());
        append_newline(&mut s);
        proof {
            let c = cl[i as int];
            assert(c == seq![rows@[i as int].0@, rows@[i as int].1@, rows@[i as int].2@]);
            assert(c.drop_first() =~= seq![c[1], c[2]]);
            assert(c.drop_first().drop_first() =~= seq![c[2]]);
            assert(encode_cols(c.drop_first().drop_first()) == quoted(c[2]));
            assert(encode_cols(c.drop_first()) == quoted(c[1]) + seq!['\t'] + quoted(c[2]));
            assert(encode_cols(c) == quoted(c[0]) + seq!['\t'] + encode_cols(c.drop_first()));
            assert(cl.take(i as int + 1) =~= cl.take(i as int).push(c));
            lemma_encode_file_push(cl.take(i as int), c);
            assert(s@ =~= encode_file(cl.take(i as int + 1)));
        }
        i = i + 1;
    }
    proof {
        assert(cl.take(rows@.len() as int) =~= cl);
    }
    s
}

/// Writes a four-column relation in the tab-delimited format.
pub fn encode_rel4(rows: &Vec<(String, String, String, String)>) -> (r: String)
    ensures
        r@ == encode_file(cols4(crate::lower::views4(rows@))),
{
    let ghost cl = cols4(crate::lower::views4(rows@));
    let mut s = String::new();
    let mut i: usize = 0;
    while i < rows.len()
        invariant
            i <= rows@.len(),
            cl == cols4(crate::lower::views4(rows@)),
            cl.len() == rows@.len(),
            s@ == encode_file(cl.take(i as int)),
        decreases rows@.len() - i,
    {
        append_quoted(&mut s, rows[i].0.as_str());
        append_tab(&mut s);
        append_quoted(&mut s, rows[i].1.as_str());
        append_tab(&mut s);
        append_quoted(&mut s, rows[i].2.as_str());
        append_tab(&mut s);
        append_quoted(&mut s, rows[i].3.as_str());
        append_newline(&mut s);
        proof {
            let c = cl[i as int];
            assert(c == seq![
                rows@[i as int].0@,
                rows@[i as int].1@,
                rows@[i as int].2@,
                rows@[i as int].3@,
            ]);
            assert(c.drop_first() =~= seq![c[1], c[2], c[3]]);
            assert(c.drop_first().drop_first() =~= seq![c[2], c[3]]);
            assert(c.drop_first().drop_first().drop_first() =~= seq![c[3]]);
            assert(encode_cols(c.drop_first().drop_first().drop_first()) == quoted(c[3]));
            assert(encode_cols(c.drop_first().drop_first()) == quoted(c[2]) + seq!['\t']
                + encode_cols(c.drop_first().drop_first().drop_first()));
            assert(encode_cols(c.drop_first()) == quoted(c[1]) + seq!['\t'] + encode_cols(
                c.drop_first().drop_first(),
            ));
            assert(encode_cols(c) == quoted(c[0]) + seq!['\t'] + encode_cols(c.drop_first()));
            assert(cl.take(i as int + 1) =~= cl.take(i as int).push(c));
            lemma_encode_file_push(cl.take(i as int), c);
            assert(s@ =~= encode_file(cl.take(i as int + 1)));
        }
        i = i + 1;
    }
    proof {
        assert(cl.take(rows@.len() as int) =~= cl);
    }
    s
}

/// The contents of the six persisted fact files of one analysis run.
pub struct FactsText {
    pub borrow_region: String,
    pub next_statement: String,
    pub goto: String,
    pub region_live_on_entry: String,
    pub killed: String,
    pub outlives: String,
}

/// Lowers an input and renders each base relation in the tab-delimited
/// format, one file content per relation.
pub fn dump_facts(input: &crate::ir::Input) -> (r: FactsText)
    ensures
        r.borrow_region@ == encode_file(
            cols3(crate::lower::borrow_region_of_blocks(input@.blocks)),
        ),
        r.next_statement@ == encode_file(
            cols2(crate::lower::next_statement_of_blocks(input@.blocks)),
        ),
        r.goto@ == encode_file(cols2(crate::lower::goto_of_blocks(input@.blocks))),
        r.region_live_on_entry@ == encode_file(
            cols2(crate::lower::region_live_of_blocks(input@.blocks)),
        ),
        r.killed@ == encode_file(cols2(crate::lower::killed_of_blocks(input@.blocks))),
        r.outlives@ == encode_file(cols4(crate::lower::outlives_of_blocks(input@.blocks))),
{
    let br = input.borrow_region_facts();
    let ns = input.next_statement_facts();
    let gt = input.goto_facts();
    let rl = input.region_live_on_entry_facts();
    let kl = input.killed_facts();
    let ol = input.outlives_facts();
    FactsText {
        borrow_region: encode_rel3(&br),
        next_statement: encode_rel2(&ns),
        goto: encode_rel2(&gt),
        region_live_on_entry: encode_rel2(&rl),
        killed: encode_rel2(&kl),
        outlives: encode_rel4(&ol),
    }
}

// ------------------------------------------------------------------
// Reading.
// ------------------------------------------------------------------

/// The first occurrence of `c` is at `m` when nothing before `m` is `c`
/// and either `m` is the end or `c` sits there.
proof fn lemma_first_at_is(s: Seq<char>, c: char, m: int)
    requires
        0 <= m <= s.len(),
        forall|j: int| 0 <= j < m ==> s[j] != c,
        m < s.len() ==> s[m] == c,
    ensures
        first_at(s, c) == m,
    decreases m,
{
    if m == 0 {
    } else {
        lemma_first_at_is(s.drop_first(), c, m - 1);
    }
}

/// Splits one line at its tabs and unquotes every column.
pub fn parse_cols(line: &str) -> (r: Option<Vec<String>>)
    ensures
        match r {
            Some(cols) => parse_line(line@) == Some(cols.deep_view()),
            None => parse_line(line@) is None,
        },
{
    let nl = line.unicode_len();
    let mut out: Vec<String> = Vec::new();
    let mut pos: usize = 0;
    proof {
        assert(line@.skip(0) =~= line@);
    }
    loop
        invariant
            nl == line@.len(),
            pos <= nl,
            parse_all_cols(split_cols(line@.skip(pos as int))) is Some ==> parse_line(line@)
                == Some(
                out.deep_view() + parse_all_cols(split_cols(line@.skip(pos as int)))->Some_0,
            ),
            parse_all_cols(split_cols(line@.skip(pos as int))) is None ==> parse_line(line@)
                is None,
        decreases nl - pos,
    {
        let mut k: usize = pos;
        while k < nl
            invariant
                nl == line@.len(),
                pos <= k <= nl,
                forall|j: int| pos <= j < k ==> line@[j] != '\t',
            ensures
                pos <= k <= nl,
                nl == line@.len(),
                forall|j: int| pos <= j < k ==> line@[j] != '\t',
                k < nl ==> line@[k as int] == '\t',
            decreases nl - k,
        {
            if line.get_char(k) == '\t' {
                break;
            }
            k = k + 1;
        }
        let ghost rem = line@.skip(pos as int);
        let ghost col = rem.take(k - pos);
        proof {
            assert(forall|j: int| 0 <= j < rem.len() ==> rem[j] == line@[pos + j]);
            lemma_first_at_is(rem, '\t', k - pos);
            assert(col.len() == k - pos);
            assert(forall|j: int| 0 <= j < col.len() ==> col[j] == line@[pos + j]);
            if k == nl {
                assert(col =~= rem);
            }
        }
        if k - pos >= 2 && line.get_char(pos) == '"' && line.get_char(k - 1) == '"' {
            let name = line.substring_char(pos + 1, k - 1).to_owned();
            proof {
                assert(col[0] == line@[pos as int]);
                assert(col[col.len() - 1] == line@[k - 1]);
                assert(name@ == line@.subrange(pos + 1, k - 1));
                assert(col.subrange(1, col.len() - 1) =~= name@);
                assert(parse_col(col) == Some(name@));
            }
            let ghost out_pre = out.deep_view();
            out.push(name);
            proof {
                assert(out.deep_view() =~= out_pre.push(name@));
            }
            if k < nl {
                proof {
                    assert(rem.len() > 0);
                    assert(first_at(rem, '\t') == k - pos < rem.len());
                    assert(rem.skip(k - pos + 1) =~= line@.skip(k + 1));
                    assert(split_cols(rem) == seq![col] + split_cols(line@.skip(k + 1)));
                    let sc = split_cols(rem);
                    assert(sc.first() == col);
                    assert(sc.drop_first() =~= split_cols(line@.skip(k + 1)));
                    let x = parse_all_cols(split_cols(line@.skip(k + 1)));
                    if x is Some {
                        assert(parse_all_cols(sc) == Some(seq![name@] + x->Some_0));
                        assert(out_pre + (seq![name@] + x->Some_0) =~= out.deep_view()
                            + x->Some_0);
                    } else {
                        assert(parse_all_cols(sc) is None);
                    }
                }
                pos = k + 1;
            } else {
                proof {
                    assert(first_at(rem, '\t') == rem.len());
                    assert(split_cols(rem) == seq![rem]);
                    let sc = split_cols(rem);
                    assert(sc.first() == rem);
                    assert(col =~= rem);
                    assert(sc.drop_first() =~= Seq::<Seq<char>>::empty());
                    assert(parse_all_cols(sc.drop_first()) == Some(Seq::<Seq<char>>::empty()));
                    assert(parse_all_cols(sc) == Some(seq![name@] + Seq::<Seq<char>>::empty()));
                    assert(out_pre + (seq![name@] + Seq::<Seq<char>>::empty()) =~= out.deep_view());
                    assert(parse_line(line@) == Some(out.deep_view()));
                }
                return Some(out);
            }
        } else {
            proof {
                assert(parse_col(col) is None) by {
                    if col.len() >= 2 {
                        assert(col[0] == line@[pos as int]);
                        assert(col[col.len() - 1] == line@[k - 1]);
                    }
                }
                if k < nl {
                    assert(rem.skip(k - pos + 1) =~= line@.skip(k + 1));
                    assert(split_cols(rem) == seq![col] + split_cols(line@.skip(k + 1)));
                    assert(split_cols(rem).first() == col);
                } else {
                    assert(first_at(rem, '\t') == rem.len());
                    assert(split_cols(rem) == seq![rem]);
                    assert(split_cols(rem).first() == rem);
                    assert(col =~= rem);
                }
                assert(parse_all_cols(split_cols(rem)) is None);
            }
            return None;
        }
    }
}

/// Decodes a whole tab-delimited file into rows of `arity` names; on
/// the first malformed or wrong-arity line, its 1-based number.
pub fn decode_file(text: &str, arity: usize) -> (r: Result<Vec<Vec<String>>, usize>)
    ensures
        match r {
            Ok(rows) => decode_file_spec(text@, arity as int) == Ok::<Seq<Seq<Seq<char>>>, int>(
                rows.deep_view(),
            ),
            Err(n) => decode_file_spec(text@, arity as int) == Err::<Seq<Seq<Seq<char>>>, int>(
                n as int,
            ),
        },
{
    let n = text.unicode_len();
    let mut rows: Vec<Vec<String>> = Vec::new();
    let mut pos: usize = 0;
    proof {
        assert(text@.skip(0) =~= text@);
    }
    while pos < n
        invariant
            n == text@.len(),
            pos <= n,
            rows@.len() <= pos,
            decode_lines(split_lines(text@.skip(pos as int)), arity as int, rows@.len() as int + 1)
                is Ok ==> decode_file_spec(text@, arity as int) == Ok::<Seq<Seq<Seq<char>>>, int>(
                rows.deep_view() + decode_lines(
                    split_lines(text@.skip(pos as int)),
                    arity as int,
                    rows@.len() as int + 1,
                )->Ok_0,
            ),
            decode_lines(split_lines(text@.skip(pos as int)), arity as int, rows@.len() as int + 1)
                is Err ==> decode_file_spec(text@, arity as int) == decode_lines(
                split_lines(text@.skip(pos as int)),
                arity as int,
                rows@.len() as int + 1,
            ),
        decreases n - pos,
    {
        let ghost ln: int = rows@.len() as int + 1;
        let mut k: usize = pos;
        while k < n
            invariant
                n == text@.len(),
                pos <= k <= n,
                forall|j: int| pos <= j < k ==> text@[j] != '\n',
            ensures
                pos <= k <= n,
                n == text@.len(),
                forall|j: int| pos <= j < k ==> text@[j] != '\n',
                k < n ==> text@[k as int] == '\n',
            decreases n - k,
        {
            if text.get_char(k) == '\n' {
                break;
            }
            k = k + 1;
        }
        let ghost rem = text@.skip(pos as int);
        let line = text.substring_char(pos, k);
        let ghost lv = rem.take(k - pos);
        proof {
            assert(forall|j: int| 0 <= j < rem.len() ==> rem[j] == text@[pos + j]);
            lemma_first_at_is(rem, '\n', k - pos);
            assert(line@ == text@.subrange(pos as int, k as int));
            assert(line@ =~= lv);
            assert(rem.len() > 0);
            if k < n {
                assert(first_at(rem, '\n') < rem.len());
                assert(rem.skip(k - pos + 1) =~= text@.skip(k + 1));
                assert(split_lines(rem) == seq![lv] + split_lines(text@.skip(k + 1)));
                assert(split_lines(rem).first() == lv);
                assert(split_lines(rem).drop_first() =~= split_lines(text@.skip(k + 1)));
            } else {
                assert(first_at(rem, '\n') == rem.len());
                assert(split_lines(rem) == seq![rem]);
                assert(lv =~= rem);
                assert(split_lines(rem).first() == lv);
                assert(split_lines(rem).drop_first() =~= Seq::<Seq<char>>::empty());
                assert(text@.skip(n as int) =~= Seq::<char>::empty());
                assert(split_lines(text@.skip(n as int)) =~= Seq::<Seq<char>>::empty());
            }
        }
        let parsed = parse_cols(line);
        match parsed {
            Option::None => {
                proof {
                    assert(decode_lines(split_lines(rem), arity as int, ln)
                        == Err::<Seq<Seq<Seq<char>>>, int>(ln));
                }
                return Err(rows.len() + 1);
            },
            Option::Some(cols) => {
                if cols.len() != arity {
                    proof {
                        assert(parse_line(lv) == Some(cols.deep_view()));
                        assert(cols.deep_view().len() != arity);
                        assert(decode_lines(split_lines(rem), arity as int, ln)
                            == Err::<Seq<Seq<Seq<char>>>, int>(ln));
                    }
                    return Err(rows.len() + 1);
                }
                let ghost rows_pre = rows.deep_view();
                let ghost cv = cols.deep_view();
                rows.push(cols);
                proof {
                    assert(rows.deep_view() =~= rows_pre.push(cv));
                    let nxt = if k < n {
                        text@.skip(k as int + 1)
                    } else {
                        text@.skip(n as int)
                    };
                    let x = decode_lines(split_lines(nxt), arity as int, ln + 1);
                    assert(split_lines(rem).drop_first() =~= split_lines(nxt));
                    if x is Ok {
                        assert(decode_lines(split_lines(rem), arity as int, ln)
                            == Ok::<Seq<Seq<Seq<char>>>, int>(seq![cv] + x->Ok_0));
                        assert(rows_pre + (seq![cv] + x->Ok_0) =~= rows.deep_view() + x->Ok_0);
                    } else {
                        assert(decode_lines(split_lines(rem), arity as int, ln) == x);
                    }
                }
                if k < n {
                    pos = k + 1;
                } else {
                    pos = n;
                }
            },
        }
    }
    proof {
        assert(text@.skip(pos as int) =~= Seq::<char>::empty());
        assert(split_lines(text@.skip(pos as int)) =~= Seq::<Seq<char>>::empty());
        assert(decode_lines(
            split_lines(text@.skip(pos as int)),
            arity as int,
            rows@.len() as int + 1,
        ) == Ok::<Seq<Seq<Seq<char>>>, int>(Seq::<Seq<Seq<char>>>::empty()));
        assert(rows.deep_view() + Seq::<Seq<Seq<char>>>::empty() =~= rows.deep_view());
    }
    Ok(rows)
}

/// Rows of two names, as pairs.
pub open spec fn tuples2(rows: Seq<Seq<Seq<char>>>) -> Seq<(Seq<char>, Seq<char>)> {
    rows.map_values(|r: Seq<Seq<char>>| (r[0], r[1]))
}

/// Rows of three names, as triples.
pub open spec fn tuples3(rows: Seq<Seq<Seq<char>>>) -> Seq<(Seq<char>, Seq<char>, Seq<char>)> {
    rows.map_values(|r: Seq<Seq<char>>| (r[0], r[1], r[2]))
}

/// Rows of four names, as quadruples.
pub open spec fn tuples4(rows: Seq<Seq<Seq<char>>>) -> Seq<
    (Seq<char>, Seq<char>, Seq<char>, Seq<char>),
> {
    rows.map_values(|r: Seq<Seq<char>>| (r[0], r[1], r[2], r[3]))
}

/// Every row of a successful decode has exactly `arity` columns.
proof fn lemma_decode_lines_arity(lines: Seq<Seq<char>>, arity: int, idx: int)
    ensures
        decode_lines(lines, arity, idx) is Ok ==> forall|i: int|
            0 <= i < decode_lines(lines, arity, idx)->Ok_0.len() ==> (#[trigger] decode_lines(
                lines,
                arity,
                idx,
            )->Ok_0[i]).len() == arity,
    decreases lines.len(),
{
    if lines.len() > 0 {
        lemma_decode_lines_arity(lines.drop_first(), arity, idx + 1);
        if decode_lines(lines, arity, idx) is Ok {
            let row = parse_line(lines.first())->Some_0;
            let rest = decode_lines(lines.drop_first(), arity, idx + 1)->Ok_0;
            assert(decode_lines(lines, arity, idx)->Ok_0 == seq![row] + rest);
            assert forall|i: int|
                0 <= i < decode_lines(lines, arity, idx)->Ok_0.len() implies (
            #[trigger] decode_lines(lines, arity, idx)->Ok_0[i]).len() == arity by {
                if i > 0 {
                    assert((seq![row] + rest)[i] == rest[i - 1]);
                }
            }
        }
    }
}

/// Decoded rows, repacked as pairs of names.
fn rows_to_pairs(rows: &Vec<Vec<String>>) -> (r: Vec<(String, String)>)
    requires
        forall|i: int| 0 <= i < rows@.len() ==> (#[trigger] rows@[i])@.len() == 2,
    ensures
        crate::lower::views2(r@) == tuples2(rows.deep_view()),
{
    let mut r: Vec<(String, String)> = Vec::new();
    let mut i: usize = 0;
    while i < rows.len()
        invariant
            i <= rows@.len(),
            forall|j: int| 0 <= j < rows@.len() ==> (#[trigger] rows@[j])@.len() == 2,
            crate::lower::views2(r@) == tuples2(rows.deep_view().take(i as int)),
        decreases rows@.len() - i,
    {
        let a = rows[i][0].clone();
        let b = rows[i][1].clone();
        let ghost r_pre = r@;
        r.push((a, b));
        proof {
            assert(crate::lower::views2(r@) =~= crate::lower::views2(r_pre).push(
                (rows@[i as int]@[0]@, rows@[i as int]@[1]@),
            ));
            assert(rows@[i as int].deep_view() == rows.deep_view()[i as int]);
            assert(rows@[i as int].deep_view()[0] == rows@[i as int]@[0]@);
            assert(rows@[i as int].deep_view()[1] == rows@[i as int]@[1]@);
            assert(crate::lower::views2(r@) =~= tuples2(rows.deep_view().take(i as int + 1)));
        }
        i = i + 1;
    }
    proof {
        assert(rows.deep_view().take(rows@.len() as int) =~= rows.deep_view());
    }
    r
}

/// Decoded rows, repacked as triples of names.
fn rows_to_triples(rows: &Vec<Vec<String>>) -> (r: Vec<(String, String, String)>)
    requires
        forall|i: int| 0 <= i < rows@.len() ==> (#[trigger] rows@[i])@.len() == 3,
    ensures
        crate::lower::views3(r@) == tuples3(rows.deep_view()),
{
    let mut r: Vec<(String, String, String)> = Vec::new();
    let mut i: usize = 0;
    while i < rows.len()
        invariant
            i <= rows@.len(),
            forall|j: int| 0 <= j < rows@.len() ==> (#[trigger] rows@[j])@.len() == 3,
            crate::lower::views3(r@) == tuples3(rows.deep_view().take(i as int)),
        decreases rows@.len() - i,
    {
        let a = rows[i][0].clone();
        let b = rows[i][1].clone();
        let c = rows[i][2].clone();
        let ghost r_pre = r@;
        r.push((a, b, c));
        proof {
            assert(crate::lower::views3(r@) =~= crate::lower::views3(r_pre).push(
                (rows@[i as int]@[0]@, rows@[i as int]@[1]@, rows@[i as int]@[2]@),
            ));
            assert(rows@[i as int].deep_view() == rows.deep_view()[i as int]);
            assert(rows@[i as int].deep_view()[0] == rows@[i as int]@[0]@);
            assert(rows@[i as int].deep_view()[1] == rows@[i as int]@[1]@);
            assert(rows@[i as int].deep_view()[2] == rows@[i as int]@[2]@);
            assert(crate::lower::views3(r@) =~= tuples3(rows.deep_view().take(i as int + 1)));
        }
        i = i + 1;
    }
    proof {
        assert(rows.deep_view().take(rows@.len() as int) =~= rows.deep_view());
    }
    r
}

/// Decoded rows, repacked as quadruples of names.
fn rows_to_quads(rows: &Vec<Vec<String>>) -> (r: Vec<(String, String, String, String)>)
    requires
        forall|i: int| 0 <= i < rows@.len() ==> (#[trigger] rows@[i])@.len() == 4,
    ensures
        crate::lower::views4(r@) == tuples4(rows.deep_view()),
{
    let mut r: Vec<(String, String, String, String)> = Vec::new();
    let mut i: usize = 0;
    while i < rows.len()
        invariant
            i <= rows@.len(),
            forall|j: int| 0 <= j < rows@.len() ==> (#[trigger] rows@[j])@.len() == 4,
            crate::lower::views4(r@) == tuples4(rows.deep_view().take(i as int)),
        decreases rows@.len() - i,
    {
        let a = rows[i][0].clone();
        let b = rows[i][1].clone();
        let c = rows[i][2].clone();
        let d = rows[i][3].clone();
        let ghost r_pre = r@;
        r.push((a, b, c, d));
        proof {
            assert(crate::lower::views4(r@) =~= crate::lower::views4(r_pre).push(
                (
                    rows@[i as int]@[0]@,
                    rows@[i as int]@[1]@,
                    rows@[i as int]@[2]@,
                    rows@[i as int]@[3]@,
                ),
            ));
            assert(rows@[i as int].deep_view() == rows.deep_view()[i as int]);
            assert(rows@[i as int].deep_view()[0] == rows@[i as int]@[0]@);
            assert(rows@[i as int].deep_view()[1] == rows@[i as int]@[1]@);
            assert(rows@[i as int].deep_view()[2] == rows@[i as int]@[2]@);
            assert(rows@[i as int].deep_view()[3] == rows@[i as int]@[3]@);
            assert(crate::lower::views4(r@) =~= tuples4(rows.deep_view().take(i as int + 1)));
        }
        i = i + 1;
    }
    proof {
        assert(rows.deep_view().take(rows@.len() as int) =~= rows.deep_view());
    }
    r
}

/// Which persisted relation an ingestion error belongs to.
#[derive(Clone, Copy, PartialEq, Eq, Structural, Debug)]
pub enum Relation {
    BorrowRegion,
    NextStatement,
    Goto,
    RegionLiveOnEntry,
    Killed,
    Outlives,
}

/// A malformed input row: the relation it sits in, and its 1-based line
/// number.  Processing of that relation's input is aborted.
#[derive(Clone, Copy, PartialEq, Eq, Structural, Debug)]
pub struct LoadError {
    pub relation: Relation,
    pub line: usize,
}

/// The six base relations decoded without error.
pub open spec fn all_files_decode(t: FactsText) -> bool {
    &&& decode_file_spec(t.borrow_region@, 3) is Ok
    &&& decode_file_spec(t.next_statement@, 2) is Ok
    &&& decode_file_spec(t.goto@, 2) is Ok
    &&& decode_file_spec(t.region_live_on_entry@, 2) is Ok
    &&& decode_file_spec(t.killed@, 2) is Ok
    &&& decode_file_spec(t.outlives@, 4) is Ok
}

/// The name rows of the six decoded relations, as tuples.
pub open spec fn decoded_br(t: FactsText) -> Seq<(Seq<char>, Seq<char>, Seq<char>)> {
    tuples3(decode_file_spec(t.borrow_region@, 3)->Ok_0)
}

pub open spec fn decoded_ns(t: FactsText) -> Seq<(Seq<char>, Seq<char>)> {
    tuples2(decode_file_spec(t.next_statement@, 2)->Ok_0)
}

pub open spec fn decoded_gt(t: FactsText) -> Seq<(Seq<char>, Seq<char>)> {
    tuples2(decode_file_spec(t.goto@, 2)->Ok_0)
}

pub open spec fn decoded_rl(t: FactsText) -> Seq<(Seq<char>, Seq<char>)> {
    tuples2(decode_file_spec(t.region_live_on_entry@, 2)->Ok_0)
}

pub open spec fn decoded_kl(t: FactsText) -> Seq<(Seq<char>, Seq<char>)> {
    tuples2(decode_file_spec(t.killed@, 2)->Ok_0)
}

pub open spec fn decoded_ol(t: FactsText) -> Seq<(Seq<char>, Seq<char>, Seq<char>, Seq<char>)> {
    tuples4(decode_file_spec(t.outlives@, 4)->Ok_0)
}

/// Reads the six persisted relations and interns them into a fact
/// store.  A malformed row is fatal for its relation: the first one, in
/// relation order, is reported with its line number, and the tables are
/// left untouched.
pub fn load_tab_delimited_facts(tables: &mut InternerTables, text: &FactsText) -> (r: Result<
    AllFacts,
    LoadError,
>)
    requires
        old(tables).wf(),
    ensures
        match r {
            Ok(f) => {
                &&& all_files_decode(*text)
                &&& final(tables).wf()
                &&& final(tables).regions@ == crate::intern::intern_all(
                    old(tables).regions@,
                    crate::intern::triple_firsts(decoded_br(*text)) + crate::intern::pair_firsts(
                        decoded_rl(*text),
                    ) + crate::intern::quad_regions(decoded_ol(*text)),
                )
                &&& final(tables).borrows@ == crate::intern::intern_all(
                    old(tables).borrows@,
                    crate::intern::triple_seconds(decoded_br(*text))
                        + crate::intern::pair_firsts(decoded_kl(*text)),
                )
                &&& final(tables).points@ == crate::intern::intern_all(
                    old(tables).points@,
                    crate::intern::triple_thirds(decoded_br(*text)) + crate::intern::pair_both(
                        decoded_ns(*text),
                    ) + crate::intern::pair_both(decoded_gt(*text))
                        + crate::intern::pair_seconds(decoded_rl(*text))
                        + crate::intern::pair_seconds(decoded_kl(*text))
                        + crate::intern::quad_points(decoded_ol(*text)),
                )
                &&& crate::solve::facts_match_rows(
                    f,
                    final(tables).regions@,
                    final(tables).borrows@,
                    final(tables).points@,
                    decoded_br(*text),
                    decoded_ns(*text),
                    decoded_gt(*text),
                    decoded_rl(*text),
                    decoded_kl(*text),
                    decoded_ol(*text),
                )
            },
            Err(e) => {
                &&& *final(tables) == *old(tables)
                &&& match e.relation {
                    Relation::BorrowRegion => decode_file_spec(text.borrow_region@, 3) == Err::<
                        Seq<Seq<Seq<char>>>,
                        int,
                    >(e.line as int),
                    Relation::NextStatement => decode_file_spec(text.borrow_region@, 3) is Ok
                        && decode_file_spec(text.next_statement@, 2) == Err::<
                        Seq<Seq<Seq<char>>>,
                        int,
                    >(e.line as int),
                    Relation::Goto => decode_file_spec(text.borrow_region@, 3) is Ok
                        && decode_file_spec(text.next_statement@, 2) is Ok && decode_file_spec(
                        text.goto@,
                        2,
                    ) == Err::<Seq<Seq<Seq<char>>>, int>(e.line as int),
                    Relation::RegionLiveOnEntry => decode_file_spec(text.borrow_region@, 3) is Ok
                        && decode_file_spec(text.next_statement@, 2) is Ok && decode_file_spec(
                        text.goto@,
                        2,
                    ) is Ok && decode_file_spec(text.region_live_on_entry@, 2) == Err::<
                        Seq<Seq<Seq<char>>>,
                        int,
                    >(e.line as int),
                    Relation::Killed => decode_file_spec(text.borrow_region@, 3) is Ok
                        && decode_file_spec(text.next_statement@, 2) is Ok && decode_file_spec(
                        text.goto@,
                        2,
                    ) is Ok && decode_file_spec(text.region_live_on_entry@, 2) is Ok
                        && decode_file_spec(text.killed@, 2) == Err::<Seq<Seq<Seq<char>>>, int>(
                        e.line as int,
                    ),
                    Relation::Outlives => decode_file_spec(text.borrow_region@, 3) is Ok
                        && decode_file_spec(text.next_statement@, 2) is Ok && decode_file_spec(
                        text.goto@,
                        2,
                    ) is Ok && decode_file_spec(text.region_live_on_entry@, 2) is Ok
                        && decode_file_spec(text.killed@, 2) is Ok && decode_file_spec(
                        text.outlives@,
                        4,
                    ) == Err::<Seq<Seq<Seq<char>>>, int>(e.line as int),
                }
            },
        },
{
    let br = match decode_file(text.borrow_region.as_str(), 3) {
        Ok(v) => v,
        Err(n) => {
            return Err(LoadError { relation: Relation::BorrowRegion, line: n });
        },
    };
    let ns = match decode_file(text.next_statement.as_str(), 2) {
        Ok(v) => v,
        Err(n) => {
            return Err(LoadError { relation: Relation::NextStatement, line: n });
        },
    };
    let gt = match decode_file(text.goto.as_str(), 2) {
        Ok(v) => v,
        Err(n) => {
            return Err(LoadError { relation: Relation::Goto, line: n });
        },
    };
    let rl = match decode_file(text.region_live_on_entry.as_str(), 2) {
        Ok(v) => v,
        Err(n) => {
            return Err(LoadError { relation: Relation::RegionLiveOnEntry, line: n });
        },
    };
    let kl = match decode_file(text.killed.as_str(), 2) {
        Ok(v) => v,
        Err(n) => {
            return Err(LoadError { relation: Relation::Killed, line: n });
        },
    };
    let ol = match decode_file(text.outlives.as_str(), 4) {
        Ok(v) => v,
        Err(n) => {
            return Err(LoadError { relation: Relation::Outlives, line: n });
        },
    };
    proof {
        lemma_decode_lines_arity(split_lines(text.borrow_region@), 3, 1);
        lemma_decode_lines_arity(split_lines(text.next_statement@), 2, 1);
        lemma_decode_lines_arity(split_lines(text.goto@), 2, 1);
        lemma_decode_lines_arity(split_lines(text.region_live_on_entry@), 2, 1);
        lemma_decode_lines_arity(split_lines(text.killed@), 2, 1);
        lemma_decode_lines_arity(split_lines(text.outlives@), 4, 1);
        assert(decode_file_spec(text.borrow_region@, 3)->Ok_0 == br.deep_view());
        assert forall|i: int| 0 <= i < br@.len() implies (#[trigger] br@[i])@.len() == 3 by {
            assert(decode_lines(split_lines(text.borrow_region@), 3, 1)->Ok_0[i].len() == 3);
            assert(br.deep_view()[i] == br@[i].deep_view());
        }
        assert(decode_file_spec(text.next_statement@, 2)->Ok_0 == ns.deep_view());
        assert forall|i: int| 0 <= i < ns@.len() implies (#[trigger] ns@[i])@.len() == 2 by {
            assert(decode_lines(split_lines(text.next_statement@), 2, 1)->Ok_0[i].len() == 2);
            assert(ns.deep_view()[i] == ns@[i].deep_view());
        }
        assert(decode_file_spec(text.goto@, 2)->Ok_0 == gt.deep_view());
        assert forall|i: int| 0 <= i < gt@.len() implies (#[trigger] gt@[i])@.len() == 2 by {
            assert(decode_lines(split_lines(text.goto@), 2, 1)->Ok_0[i].len() == 2);
            assert(gt.deep_view()[i] == gt@[i].deep_view());
        }
        assert(decode_file_spec(text.region_live_on_entry@, 2)->Ok_0 == rl.deep_view());
        assert forall|i: int| 0 <= i < rl@.len() implies (#[trigger] rl@[i])@.len() == 2 by {
            assert(decode_lines(split_lines(text.region_live_on_entry@), 2, 1)->Ok_0[i].len() == 2);
            assert(rl.deep_view()[i] == rl@[i].deep_view());
        }
        assert(decode_file_spec(text.killed@, 2)->Ok_0 == kl.deep_view());
        assert forall|i: int| 0 <= i < kl@.len() implies (#[trigger] kl@[i])@.len() == 2 by {
            assert(decode_lines(split_lines(text.killed@), 2, 1)->Ok_0[i].len() == 2);
            assert(kl.deep_view()[i] == kl@[i].deep_view());
        }
        assert(decode_file_spec(text.outlives@, 4)->Ok_0 == ol.deep_view());
        assert forall|i: int| 0 <= i < ol@.len() implies (#[trigger] ol@[i])@.len() == 4 by {
            assert(decode_lines(split_lines(text.outlives@), 4, 1)->Ok_0[i].len() == 4);
            assert(ol.deep_view()[i] == ol@[i].deep_view());
        }
    }
    let brt = rows_to_triples(&br);
    let nst = rows_to_pairs(&ns);
    let gtt = rows_to_pairs(&gt);
    let rlt = rows_to_pairs(&rl);
    let klt = rows_to_pairs(&kl);
    let olt = rows_to_quads(&ol);
    let f = crate::solve::intern_facts(tables, &brt, &nst, &gtt, &rlt, &klt, &olt);
    Ok(f)
}

/// The whole run on six persisted fact files: intern them into a fresh
/// fact store, solve, and render the report.  Returns the frozen
/// tables, the fact store, and the report lines; or the first
/// malformed row.
pub fn execute_from_facts(text: &FactsText) -> (r: Result<
    (InternerTables, AllFacts, Vec<String>),
    LoadError,
>)
    ensures
        match r {
            Ok(out) => {
                &&& all_files_decode(*text)
                &&& out.0.wf()
                &&& crate::solve::facts_match_rows(
                    out.1,
                    out.0.regions@,
                    out.0.borrows@,
                    out.0.points@,
                    decoded_br(*text),
                    decoded_ns(*text),
                    decoded_gt(*text),
                    decoded_rl(*text),
                    decoded_kl(*text),
                    decoded_ol(*text),
                )
                &&& out.2.deep_view() == crate::solve::report_seq(
                    out.0.borrows@,
                    out.0.points@,
                    crate::solve::sorted_borrow_live_at(out.1),
                )
            },
            Err(e) => !all_files_decode(*text),
        },
{
    let mut tables = InternerTables::new();
    let facts = match load_tab_delimited_facts(&mut tables, text) {
        Ok(f) => f,
        Err(e) => {
            proof {
                assert(!all_files_decode(*text)) by {
                    match e.relation {
                        Relation::BorrowRegion => {},
                        Relation::NextStatement => {},
                        Relation::Goto => {},
                        Relation::RegionLiveOnEntry => {},
                        Relation::Killed => {},
                        Relation::Outlives => {},
                    }
                }
            }
            return Err(e);
        },
    };
    proof {
        crate::solve::lemma_match_rows_ids_below(
            facts,
            tables.regions@,
            tables.borrows@,
            tables.points@,
            decoded_br(*text),
            decoded_ns(*text),
            decoded_gt(*text),
            decoded_rl(*text),
            decoded_kl(*text),
            decoded_ol(*text),
        );
    }
    let lines = crate::solve::region_computation_from_facts(&tables, &facts);
    Ok((tables, facts, lines))
}

} // verus!
