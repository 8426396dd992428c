//! The textual input grammar:
//!
//! ```text
//! Input      := Comment* Block*
//! Block      := "block" Name "{" Statement* GotoClause "}"
//! GotoClause := "goto" "(" Name* ")" | nothing
//! Statement  := Comment* "statement" "(" Effect* ")"
//! Effect     := "borrow" "(" Name "as" Name ")"
//!             | "live" "(" Name ")"
//!             | "kill" "(" Name ")"
//!             | "pre" "(" Name ":" Name ")"
//!             | "post" "(" Name ":" Name ")"
//! ```
//!
//! A `Name` is an identifier of letters, digits and underscores, not
//! starting with a digit; a `Comment` runs from `//` to the end of its
//! line.  Keywords are reserved.

use vstd::prelude::*;
use vstd::string::StrSliceExecFns;
use crate::ir::{Block, Effect, Input, OutlivesTime, Statement};
use crate::text::str_eq;

verus! {

/// The kind of one token.
#[derive(Clone, Copy, PartialEq, Eq, Structural, Debug)]
pub enum TokenKind {
    Comment,
    Ident,
    LParen,
    RParen,
    Colon,
    LBrace,
    RBrace,
    KwAs,
    KwBlock,
    KwBorrow,
    KwGoto,
    KwKill,
    KwLive,
    KwPost,
    KwPre,
    KwStatement,
}

/// One token: its kind and its text.
#[derive(Clone, Debug)]
pub struct Token {
    pub kind: TokenKind,
    pub text: String,
}

impl View for Token {
    type V = (TokenKind, Seq<char>);

    open spec fn view(&self) -> (TokenKind, Seq<char>) {
        (self.kind, self.text@)
    }
}

/// Whitespace between tokens.
pub open spec fn is_space(c: char) -> bool {
    c == ' ' || c == '\t' || c == '\r' || c == '\n'
}

/// A character that may open an identifier.
pub open spec fn is_ident_start(c: char) -> bool {
    ('a' as int <= c as int && c as int <= 'z' as int) || ('A' as int <= c as int && c as int
        <= 'Z' as int) || c == '_'
}

/// A character that may continue an identifier.
pub open spec fn is_ident_char(c: char) -> bool {
    is_ident_start(c) || ('0' as int <= c as int && c as int <= '9' as int)
}

/// The first position at or after `i` that is not whitespace.
pub open spec fn skip_spaces(s: Seq<char>, i: int) -> int
    decreases s.len() - i,
    when 0 <= i <= s.len()
{
    if i < 0 || i >= s.len() {
        i
    } else if is_space(s[i]) {
        skip_spaces(s, i + 1)
    } else {
        i
    }
}

/// The first position at or after `i` that cannot continue an
/// identifier.
pub open spec fn ident_end(s: Seq<char>, i: int) -> int
    decreases s.len() - i,
    when 0 <= i <= s.len()
{
    if i < 0 || i >= s.len() {
        i
    } else if is_ident_char(s[i]) {
        ident_end(s, i + 1)
    } else {
        i
    }
}

/// The first position at or after `i` that ends a comment: a newline
/// or the end of the text.
pub open spec fn comment_end(s: Seq<char>, i: int) -> int
    decreases s.len() - i,
    when 0 <= i <= s.len()
{
    if i < 0 || i >= s.len() {
        i
    } else if s[i] == '\n' {
        i
    } else {
        comment_end(s, i + 1)
    }
}

/// The token kind of an identifier: a keyword where it is one.
pub open spec fn keyword_kind(w: Seq<char>) -> TokenKind {
    if w == ("as")@ {
        TokenKind::KwAs
    } else if w == ("block")@ {
        TokenKind::KwBlock
    } else if w == ("borrow")@ {
        TokenKind::KwBorrow
    } else if w == ("goto")@ {
        TokenKind::KwGoto
    } else if w == ("kill")@ {
        TokenKind::KwKill
    } else if w == ("live")@ {
        TokenKind::KwLive
    } else if w == ("post")@ {
        TokenKind::KwPost
    } else if w == ("pre")@ {
        TokenKind::KwPre
    } else if w == ("statement")@ {
        TokenKind::KwStatement
    } else {
        TokenKind::Ident
    }
}

/// The token starting at the non-space position `j`: its kind and its
/// end position; or nothing when no token starts there.
pub open spec fn token_at(s: Seq<char>, j: int) -> Option<(TokenKind, int)> {
    let c = s[j];
    if c == '(' {
        Option::Some((TokenKind::LParen, j + 1))
    } else if c == ')' {
        Option::Some((TokenKind::RParen, j + 1))
    } else if c == ':' {
        Option::Some((TokenKind::Colon, j + 1))
    } else if c == '{' {
        Option::Some((TokenKind::LBrace, j + 1))
    } else if c == '}' {
        Option::Some((TokenKind::RBrace, j + 1))
    } else if c == '/' {
        if j + 1 < s.len() && s[j + 1] == '/' {
            Option::Some((TokenKind::Comment, comment_end(s, j + 2)))
        } else {
            Option::None
        }
    } else if is_ident_start(c) {
        Option::Some(
            (keyword_kind(s.subrange(j, ident_end(s, j + 1))), ident_end(s, j + 1)),
        )
    } else {
        Option::None
    }
}

/// The token stream of the text from position `i` on, or nothing on
/// the first unreadable character.
pub open spec fn tokenize_spec(s: Seq<char>, i: int) -> Option<Seq<(TokenKind, Seq<char>)>>
    decreases s.len() - i,
    when 0 <= i <= s.len()
{
    if i < 0 || i > s.len() {
        Option::None
    } else {
        let j = skip_spaces(s, i);
        if j < i || j >= s.len() {
            Option::Some(seq![])
        } else {
            match token_at(s, j) {
                Option::None => Option::None,
                Option::Some((kind, e)) => if j < e <= s.len() {
                    match tokenize_spec(s, e) {
                        Option::None => Option::None,
                        Option::Some(ts) => Option::Some(
                            seq![(kind, s.subrange(j, e))] + ts,
                        ),
                    }
                } else {
                    Option::None
                },
            }
        }
    }
}

/// `skip_spaces` names the position an executable scan stops at.
proof fn lemma_skip_spaces_is(s: Seq<char>, i: int, j: int)
    requires
        0 <= i <= j <= s.len(),
        forall|k: int| i <= k < j ==> is_space(s[k]),
        j < s.len() ==> !is_space(s[j]),
    ensures
        skip_spaces(s, i) == j,
    decreases j - i,
{
    if i < j {
        lemma_skip_spaces_is(s, i + 1, j);
    }
}

/// `ident_end` names the position an executable scan stops at.
proof fn lemma_ident_end_is(s: Seq<char>, i: int, j: int)
    requires
        0 <= i <= j <= s.len(),
        forall|k: int| i <= k < j ==> is_ident_char(s[k]),
        j < s.len() ==> !is_ident_char(s[j]),
    ensures
        ident_end(s, i) == j,
    decreases j - i,
{
    if i < j {
        lemma_ident_end_is(s, i + 1, j);
    }
}

/// `comment_end` names the position an executable scan stops at.
proof fn lemma_comment_end_is(s: Seq<char>, i: int, j: int)
    requires
        0 <= i <= j <= s.len(),
        forall|k: int| i <= k < j ==> s[k] != '\n',
        j < s.len() ==> s[j] == '\n',
    ensures
        comment_end(s, i) == j,
    decreases j - i,
{
    if i < j {
        lemma_comment_end_is(s, i + 1, j);
    }
}

/// Decides [`is_space`].
fn is_space_exec(c: char) -> (r: bool)
    ensures
        r == is_space(c),
{
    c == ' ' || c == '\t' || c == '\r' || c == '\n'
}

/// Decides [`is_ident_start`].
fn is_ident_start_exec(c: char) -> (r: bool)
    ensures
        r == is_ident_start(c),
{
    ('a' <= c && c <= 'z') || ('A' <= c && c <= 'Z') || c == '_'
}

/// Decides [`is_ident_char`].
fn is_ident_char_exec(c: char) -> (r: bool)
    ensures
        r == is_ident_char(c),
{
    is_ident_start_exec(c) || ('0' <= c && c <= '9')
}

/// Classifies an identifier's text.
fn keyword_kind_exec(w: &str) -> (r: TokenKind)
    ensures
        r == keyword_kind(w@),
{
    if str_eq(w, "as") {
        TokenKind::KwAs
    } else if str_eq(w, "block") {
        TokenKind::KwBlock
    } else if str_eq(w, "borrow") {
        TokenKind::KwBorrow
    } else if str_eq(w, "goto") {
        TokenKind::KwGoto
    } else if str_eq(w, "kill") {
        TokenKind::KwKill
    } else if str_eq(w, "live") {
        TokenKind::KwLive
    } else if str_eq(w, "post") {
        TokenKind::KwPost
    } else if str_eq(w, "pre") {
        TokenKind::KwPre
    } else if str_eq(w, "statement") {
        TokenKind::KwStatement
    } else {
        TokenKind::Ident
    }
}

/// The view of a token vector.
pub open spec fn tokens_view(ts: Seq<Token>) -> Seq<(TokenKind, Seq<char>)> {
    ts.map_values(|t: Token| t@)
}

/// Scans the whole text into tokens, or reports the position of the
/// first unreadable character.
pub fn tokenize(text: &str) -> (r: Result<Vec<Token>, usize>)
    ensures
        match r {
            Ok(ts) => tokenize_spec(text@, 0) == Option::Some(tokens_view(ts@)),
            Err(_) => tokenize_spec(text@, 0) is None,
        },
{
    let n = text.unicode_len();
    let mut out: Vec<Token> = Vec::new();
    let mut i: usize = 0;
    loop
        invariant
            n == text@.len(),
            i <= n,
            tokenize_spec(text@, i as int) is Some ==> tokenize_spec(text@, 0)
                == Option::Some(tokens_view(out@) + tokenize_spec(text@, i as int)->Some_0),
            tokenize_spec(text@, i as int) is None ==> tokenize_spec(text@, 0) is None,
        decreases n - i,
    {
        // Whitespace.
        let mut j: usize = i;
        while j < n
            invariant
                n == text@.len(),
                i <= j <= n,
                forall|k: int| i <= k < j ==> is_space(text@[k]),
            ensures
                i <= j <= n,
                n == text@.len(),
                forall|k: int| i <= k < j ==> is_space(text@[k]),
                j < n ==> !is_space(text@[j as int]),
            decreases n - j,
        {
            if !is_space_exec(text.get_char(j)) {
                break;
            }
            j = j + 1;
        }
        proof {
            lemma_skip_spaces_is(text@, i as int, j as int);
        }
        if j >= n {
            proof {
                assert(tokenize_spec(text@, i as int) == Option::Some(
                    Seq::<(TokenKind, Seq<char>)>::empty(),
                ));
                assert(tokens_view(out@) + Seq::<(TokenKind, Seq<char>)>::empty()
                    =~= tokens_view(out@));
            }
            return Ok(out);
        }
        let c = text.get_char(j);
        let kind: TokenKind;
        let e: usize;
        if c == '(' {
            kind = TokenKind::LParen;
            e = j + 1;
        } else if c == ')' {
            kind = TokenKind::RParen;
            e = j + 1;
        } else if c == ':' {
            kind = TokenKind::Colon;
            e = j + 1;
        } else if c == '{' {
            kind = TokenKind::LBrace;
            e = j + 1;
        } else if c == '}' {
            kind = TokenKind::RBrace;
            e = j + 1;
        } else if c == '/' {
            if j + 1 < n && text.get_char(j + 1) == '/' {
                let mut k: usize = j + 2;
                while k < n
                    invariant
                        n == text@.len(),
                        j + 2 <= k <= n,
                        forall|m: int| j + 2 <= m < k ==> text@[m] != '\n',
                    ensures
                        j + 2 <= k <= n,
                        n == text@.len(),
                        forall|m: int| j + 2 <= m < k ==> text@[m] != '\n',
                        k < n ==> text@[k as int] == '\n',
                    decreases n - k,
                {
                    if text.get_char(k) == '\n' {
                        break;
                    }
                    k = k + 1;
                }
                proof {
                    lemma_comment_end_is(text@, j as int + 2, k as int);
                }
                kind = TokenKind::Comment;
                e = k;
            } else {
                proof {
                    assert(tokenize_spec(text@, i as int) is None);
                }
                return Err(j);
            }
        } else if is_ident_start_exec(c) {
            let mut k: usize = j + 1;
            while k < n
                invariant
                    n == text@.len(),
                    j + 1 <= k <= n,
                    forall|m: int| j + 1 <= m < k ==> is_ident_char(text@[m]),
                ensures
                    j + 1 <= k <= n,
                    n == text@.len(),
                    forall|m: int| j + 1 <= m < k ==> is_ident_char(text@[m]),
                    k < n ==> !is_ident_char(text@[k as int]),
                decreases n - k,
            {
                if !is_ident_char_exec(text.get_char(k)) {
                    break;
                }
                k = k + 1;
            }
            proof {
                lemma_ident_end_is(text@, j as int + 1, k as int);
            }
            let w = text.substring_char(j, k);
            kind = keyword_kind_exec(w);
            e = k;
        } else {
            proof {
                assert(tokenize_spec(text@, i as int) is None);
            }
            return Err(j);
        }
        let tok_text = text.substring_char(j, e).to_owned();
        proof {
            assert(tok_text@ == text@.subrange(j as int, e as int));
            assert(token_at(text@, j as int) == Option::Some((kind, e as int)));
        }
        let ghost out_pre = tokens_view(out@);
        out.push(Token { kind, text: tok_text });
        proof {
            assert(tokens_view(out@) =~= out_pre.push((kind, text@.subrange(j as int, e as int))));
            let rest = tokenize_spec(text@, e as int);
            if rest is Some {
                assert(tokenize_spec(text@, i as int) == Option::Some(
                    seq![(kind, text@.subrange(j as int, e as int))] + rest->Some_0,
                ));
                assert(out_pre + (seq![(kind, text@.subrange(j as int, e as int))] + rest->Some_0)
                    =~= tokens_view(out@) + rest->Some_0);
            }
        }
        i = e;
    }
}

// ------------------------------------------------------------------
// Recursive descent over the token stream.
// ------------------------------------------------------------------

/// A rejected input: an unreadable character, an unexpected token, or
/// an input that ends too early.
#[derive(Clone, Copy, PartialEq, Eq, Structural, Debug)]
pub enum ParseError {
    /// No token starts at this character position.
    InvalidToken { location: usize },
    /// The token at this index does not fit the grammar.
    UnexpectedToken { index: usize },
    /// The input ended where the grammar needs more.
    UnexpectedEnd,
}

/// The first position at or after `i` that is no comment token.
pub open spec fn skip_comments(ts: Seq<(TokenKind, Seq<char>)>, i: int) -> int
    decreases ts.len() - i,
    when 0 <= i <= ts.len()
{
    if i < 0 || i >= ts.len() {
        i
    } else if ts[i].0 == TokenKind::Comment {
        skip_comments(ts, i + 1)
    } else {
        i
    }
}

/// A token kind that opens an effect.
pub open spec fn is_effect_start(k: TokenKind) -> bool {
    k == TokenKind::KwBorrow || k == TokenKind::KwLive || k == TokenKind::KwKill || k
        == TokenKind::KwPre || k == TokenKind::KwPost
}

/// One effect, and the position after it.
pub open spec fn parse_effect_spec(ts: Seq<(TokenKind, Seq<char>)>, i: int) -> Option<
    (crate::ir::EffectView, int),
> {
    if i < 0 || i >= ts.len() {
        Option::None
    } else if ts[i].0 == TokenKind::KwBorrow {
        if i + 6 <= ts.len() && ts[i + 1].0 == TokenKind::LParen && ts[i + 2].0
            == TokenKind::Ident && ts[i + 3].0 == TokenKind::KwAs && ts[i + 4].0
            == TokenKind::Ident && ts[i + 5].0 == TokenKind::RParen {
            Option::Some(
                (
                    crate::ir::EffectView::Borrow { borrow: ts[i + 2].1, region: ts[i + 4].1 },
                    i + 6,
                ),
            )
        } else {
            Option::None
        }
    } else if ts[i].0 == TokenKind::KwLive {
        if i + 4 <= ts.len() && ts[i + 1].0 == TokenKind::LParen && ts[i + 2].0
            == TokenKind::Ident && ts[i + 3].0 == TokenKind::RParen {
            Option::Some((crate::ir::EffectView::LiveOnEntry { region: ts[i + 2].1 }, i + 4))
        } else {
            Option::None
        }
    } else if ts[i].0 == TokenKind::KwKill {
        if i + 4 <= ts.len() && ts[i + 1].0 == TokenKind::LParen && ts[i + 2].0
            == TokenKind::Ident && ts[i + 3].0 == TokenKind::RParen {
            Option::Some((crate::ir::EffectView::Kill { borrow: ts[i + 2].1 }, i + 4))
        } else {
            Option::None
        }
    } else if ts[i].0 == TokenKind::KwPre {
        if i + 6 <= ts.len() && ts[i + 1].0 == TokenKind::LParen && ts[i + 2].0
            == TokenKind::Ident && ts[i + 3].0 == TokenKind::Colon && ts[i + 4].0
            == TokenKind::Ident && ts[i + 5].0 == TokenKind::RParen {
            Option::Some(
                (
                    crate::ir::EffectView::Outlives {
                        time: OutlivesTime::Pre,
                        a: ts[i + 2].1,
                        b: ts[i + 4].1,
                    },
                    i + 6,
                ),
            )
        } else {
            Option::None
        }
    } else if ts[i].0 == TokenKind::KwPost {
        if i + 6 <= ts.len() && ts[i + 1].0 == TokenKind::LParen && ts[i + 2].0
            == TokenKind::Ident && ts[i + 3].0 == TokenKind::Colon && ts[i + 4].0
            == TokenKind::Ident && ts[i + 5].0 == TokenKind::RParen {
            Option::Some(
                (
                    crate::ir::EffectView::Outlives {
                        time: OutlivesTime::Post,
                        a: ts[i + 2].1,
                        b: ts[i + 4].1,
                    },
                    i + 6,
                ),
            )
        } else {
            Option::None
        }
    } else {
        Option::None
    }
}

/// As many effects as open at `i`, and the position after them.
pub open spec fn parse_effects_spec(ts: Seq<(TokenKind, Seq<char>)>, i: int) -> Option<
    (Seq<crate::ir::EffectView>, int),
>
    decreases ts.len() - i,
    when 0 <= i <= ts.len()
{
    if i < 0 || i > ts.len() {
        Option::None
    } else if i < ts.len() && is_effect_start(ts[i].0) {
        match parse_effect_spec(ts, i) {
            Option::None => Option::None,
            Option::Some((e, n)) => if i < n <= ts.len() {
                match parse_effects_spec(ts, n) {
                    Option::None => Option::None,
                    Option::Some((es, m)) => Option::Some((seq![e] + es, m)),
                }
            } else {
                Option::None
            },
        }
    } else {
        Option::Some((seq![], i))
    }
}

/// One statement — its leading comments, the `statement` keyword, and
/// its parenthesised effects — and the position after it.
pub open spec fn parse_statement_spec(ts: Seq<(TokenKind, Seq<char>)>, i: int) -> Option<
    (crate::ir::StatementView, int),
> {
    let j = skip_comments(ts, i);
    if j + 2 <= ts.len() && ts[j].0 == TokenKind::KwStatement && ts[j + 1].0
        == TokenKind::LParen {
        match parse_effects_spec(ts, j + 2) {
            Option::None => Option::None,
            Option::Some((es, n)) => if n < ts.len() && ts[n].0 == TokenKind::RParen {
                Option::Some((crate::ir::StatementView { effects: es }, n + 1))
            } else {
                Option::None
            },
        }
    } else {
        Option::None
    }
}

/// As many statements as open at `i`, and the position after them.
/// Comments may only stand before a statement's keyword.
pub open spec fn parse_statements_spec(ts: Seq<(TokenKind, Seq<char>)>, i: int) -> Option<
    (Seq<crate::ir::StatementView>, int),
>
    decreases ts.len() - i,
    when 0 <= i <= ts.len()
{
    if i < 0 || i > ts.len() {
        Option::None
    } else {
        let j = skip_comments(ts, i);
        if j < ts.len() && ts[j].0 == TokenKind::KwStatement {
            match parse_statement_spec(ts, i) {
                Option::None => Option::None,
                Option::Some((st, n)) => if i < n <= ts.len() {
                    match parse_statements_spec(ts, n) {
                        Option::None => Option::None,
                        Option::Some((ss, m)) => Option::Some((seq![st] + ss, m)),
                    }
                } else {
                    Option::None
                },
            }
        } else if j != i {
            Option::None
        } else {
            Option::Some((seq![], i))
        }
    }
}

/// As many names as stand at `i`, and the position after them.
pub open spec fn parse_names_spec(ts: Seq<(TokenKind, Seq<char>)>, i: int) -> (Seq<Seq<char>>, int)
    decreases ts.len() - i,
    when 0 <= i <= ts.len()
{
    if 0 <= i < ts.len() && ts[i].0 == TokenKind::Ident {
        let (ns, m) = parse_names_spec(ts, i + 1);
        (seq![ts[i].1] + ns, m)
    } else {
        (seq![], i)
    }
}

/// The goto clause of a block — possibly absent — and the position
/// after it.
pub open spec fn parse_goto_spec(ts: Seq<(TokenKind, Seq<char>)>, i: int) -> Option<
    (Seq<Seq<char>>, int),
>
    decreases ts.len() - i,
    when 0 <= i <= ts.len()
{
    if 0 <= i < ts.len() && ts[i].0 == TokenKind::KwGoto {
        if i + 1 < ts.len() && ts[i + 1].0 == TokenKind::LParen {
            let (ns, n) = parse_names_spec(ts, i + 2);
            if 0 <= n < ts.len() && ts[n].0 == TokenKind::RParen {
                Option::Some((ns, n + 1))
            } else {
                Option::None
            }
        } else {
            Option::None
        }
    } else {
        Option::Some((seq![], i))
    }
}

/// One block, and the position after it.
pub open spec fn parse_block_spec(ts: Seq<(TokenKind, Seq<char>)>, i: int) -> Option<
    (crate::ir::BlockView, int),
>
    decreases ts.len() - i,
    when 0 <= i <= ts.len()
{
    if i + 3 <= ts.len() && 0 <= i && ts[i].0 == TokenKind::KwBlock && ts[i + 1].0
        == TokenKind::Ident && ts[i + 2].0 == TokenKind::LBrace {
        match parse_statements_spec(ts, i + 3) {
            Option::None => Option::None,
            Option::Some((ss, n)) => if i + 3 <= n <= ts.len() {
                match parse_goto_spec(ts, n) {
                    Option::None => Option::None,
                    Option::Some((gs, m)) => if m < ts.len() && ts[m].0 == TokenKind::RBrace {
                        Option::Some(
                            (
                                crate::ir::BlockView {
                                    name: ts[i + 1].1,
                                    statements: ss,
                                    goto: gs,
                                },
                                m + 1,
                            ),
                        )
                    } else {
                        Option::None
                    },
                }
            } else {
                Option::None
            },
        }
    } else {
        Option::None
    }
}

/// All remaining blocks; anything else before the end of the stream is
/// rejected.
pub open spec fn parse_blocks_spec(ts: Seq<(TokenKind, Seq<char>)>, i: int) -> Option<
    Seq<crate::ir::BlockView>,
>
    decreases ts.len() - i,
    when 0 <= i <= ts.len()
{
    if i < 0 || i > ts.len() {
        Option::None
    } else if i == ts.len() {
        Option::Some(seq![])
    } else if ts[i].0 == TokenKind::KwBlock {
        match parse_block_spec(ts, i) {
            Option::None => Option::None,
            Option::Some((b, n)) => if i < n <= ts.len() {
                match parse_blocks_spec(ts, n) {
                    Option::None => Option::None,
                    Option::Some(bs) => Option::Some(seq![b] + bs),
                }
            } else {
                Option::None
            },
        }
    } else {
        Option::None
    }
}

/// A whole input: leading comments, then blocks to the end of the
/// stream.
pub open spec fn parse_input_spec(ts: Seq<(TokenKind, Seq<char>)>) -> Option<
    crate::ir::InputView,
> {
    match parse_blocks_spec(ts, skip_comments(ts, 0)) {
        Option::None => Option::None,
        Option::Some(bs) => Option::Some(crate::ir::InputView { blocks: bs }),
    }
}

/// A whole input from raw text: tokenize, then parse.
pub open spec fn parse_text_spec(s: Seq<char>) -> Option<crate::ir::InputView> {
    match tokenize_spec(s, 0) {
        Option::None => Option::None,
        Option::Some(ts) => parse_input_spec(ts),
    }
}

/// Decides [`is_effect_start`].
fn is_effect_start_exec(k: TokenKind) -> (r: bool)
    ensures
        r == is_effect_start(k),
{
    k == TokenKind::KwBorrow || k == TokenKind::KwLive || k == TokenKind::KwKill || k
        == TokenKind::KwPre || k == TokenKind::KwPost
}

/// Skips comment tokens.
fn skip_comments_exec(ts: &Vec<Token>, i: usize) -> (r: usize)
    requires
        i <= ts@.len(),
    ensures
        i <= r <= ts@.len(),
        r as int == skip_comments(tokens_view(ts@), i as int),
{
    let ghost tv = tokens_view(ts@);
    let mut r: usize = i;
    while r < ts.len()
        invariant
            i <= r <= ts@.len(),
            tv == tokens_view(ts@),
            skip_comments(tv, i as int) == skip_comments(tv, r as int),
        ensures
            i <= r <= ts@.len(),
            skip_comments(tv, i as int) == skip_comments(tv, r as int),
            r < ts@.len() ==> ts@[r as int].kind != TokenKind::Comment,
        decreases ts@.len() - r,
    {
        if ts[r].kind != TokenKind::Comment {
            break;
        }
        proof {
            assert(tv[r as int].0 == TokenKind::Comment);
        }
        r = r + 1;
    }
    proof {
        if r < ts@.len() {
            assert(tv[r as int].0 != TokenKind::Comment);
        }
        assert(skip_comments(tv, r as int) == r as int);
    }
    r
}

/// Parses one effect.
fn parse_effect_exec(ts: &Vec<Token>, i: usize) -> (r: Result<(Effect, usize), ParseError>)
    requires
        i <= ts@.len(),
    ensures
        match r {
            Ok(p) => parse_effect_spec(tokens_view(ts@), i as int) == Option::Some(
                (p.0@, p.1 as int),
            ) && i < p.1 <= ts@.len(),
            Err(_) => parse_effect_spec(tokens_view(ts@), i as int) is None,
        },
{
    let n = ts.len();
    if i >= n {
        return Err(ParseError::UnexpectedEnd);
    }
    let k = ts[i].kind;
    if k == TokenKind::KwBorrow {
        if n - i >= 6 && ts[i + 1].kind == TokenKind::LParen && ts[i + 2].kind
            == TokenKind::Ident && ts[i + 3].kind == TokenKind::KwAs && ts[i + 4].kind
            == TokenKind::Ident && ts[i + 5].kind == TokenKind::RParen {
            let e = Effect::Borrow {
                borrow: ts[i + 2].text.clone(),
                region: ts[i + 4].text.clone(),
            };
            return Ok((e, i + 6));
        }
        return Err(ParseError::UnexpectedToken { index: i });
    }
    if k == TokenKind::KwLive {
        if n - i >= 4 && ts[i + 1].kind == TokenKind::LParen && ts[i + 2].kind
            == TokenKind::Ident && ts[i + 3].kind == TokenKind::RParen {
            let e = Effect::LiveOnEntry { region: ts[i + 2].text.clone() };
            return Ok((e, i + 4));
        }
        return Err(ParseError::UnexpectedToken { index: i });
    }
    if k == TokenKind::KwKill {
        if n - i >= 4 && ts[i + 1].kind == TokenKind::LParen && ts[i + 2].kind
            == TokenKind::Ident && ts[i + 3].kind == TokenKind::RParen {
            let e = Effect::Kill { borrow: ts[i + 2].text.clone() };
            return Ok((e, i + 4));
        }
        return Err(ParseError::UnexpectedToken { index: i });
    }
    if k == TokenKind::KwPre {
        if n - i >= 6 && ts[i + 1].kind == TokenKind::LParen && ts[i + 2].kind
            == TokenKind::Ident && ts[i + 3].kind == TokenKind::Colon && ts[i + 4].kind
            == TokenKind::Ident && ts[i + 5].kind == TokenKind::RParen {
            let e = Effect::Outlives {
                time: OutlivesTime::Pre,
                a: ts[i + 2].text.clone(),
                b: ts[i + 4].text.clone(),
            };
            return Ok((e, i + 6));
        }
        return Err(ParseError::UnexpectedToken { index: i });
    }
    if k == TokenKind::KwPost {
        if n - i >= 6 && ts[i + 1].kind == TokenKind::LParen && ts[i + 2].kind
            == TokenKind::Ident && ts[i + 3].kind == TokenKind::Colon && ts[i + 4].kind
            == TokenKind::Ident && ts[i + 5].kind == TokenKind::RParen {
            let e = Effect::Outlives {
                time: OutlivesTime::Post,
                a: ts[i + 2].text.clone(),
                b: ts[i + 4].text.clone(),
            };
            return Ok((e, i + 6));
        }
        return Err(ParseError::UnexpectedToken { index: i });
    }
    Err(ParseError::UnexpectedToken { index: i })
}

/// Parses `Effect*`.
fn parse_effects_exec(ts: &Vec<Token>, i: usize) -> (r: Result<
    (Vec<Effect>, usize),
    ParseError,
>)
    requires
        i <= ts@.len(),
    ensures
        match r {
            Ok(p) => parse_effects_spec(tokens_view(ts@), i as int) == Option::Some(
                (p.0@.map_values(|e: Effect| e@), p.1 as int),
            ) && i <= p.1 <= ts@.len(),
            Err(_) => parse_effects_spec(tokens_view(ts@), i as int) is None,
        },
{
    let ghost tv = tokens_view(ts@);
    let mut acc: Vec<Effect> = Vec::new();
    let mut cur: usize = i;
    loop
        invariant
            i <= cur <= ts@.len(),
            tv == tokens_view(ts@),
            parse_effects_spec(tv, cur as int) is Some ==> parse_effects_spec(tv, i as int)
                == Option::Some(
                (
                    acc@.map_values(|e: Effect| e@) + parse_effects_spec(
                        tv,
                        cur as int,
                    )->Some_0.0,
                    parse_effects_spec(tv, cur as int)->Some_0.1,
                ),
            ),
            parse_effects_spec(tv, cur as int) is None ==> parse_effects_spec(tv, i as int)
                is None,
        decreases ts@.len() - cur,
    {
        let proceed = cur < ts.len() && is_effect_start_exec(ts[cur].kind);
        if !proceed {
            proof {
                assert(cur < ts@.len() ==> tv[cur as int].0 == ts@[cur as int].kind);
                assert(parse_effects_spec(tv, cur as int) == Option::Some(
                    (Seq::<crate::ir::EffectView>::empty(), cur as int),
                ));
                assert(acc@.map_values(|e: Effect| e@) + Seq::<crate::ir::EffectView>::empty()
                    =~= acc@.map_values(|e: Effect| e@));
            }
            return Ok((acc, cur));
        }
        match parse_effect_exec(ts, cur) {
            Ok(p) => {
                let (e, nxt) = p;
                let ghost acc_pre = acc@.map_values(|e: Effect| e@);
                let ghost ev = e@;
                acc.push(e);
                proof {
                    assert(acc@.map_values(|e: Effect| e@) =~= acc_pre.push(ev));
                    assert(tv[cur as int].0 == ts@[cur as int].kind);
                    assert(is_effect_start(tv[cur as int].0));
                    let x = parse_effects_spec(tv, nxt as int);
                    assert(parse_effects_spec(tv, cur as int) == (match x {
                        Option::None => Option::None,
                        Option::Some((es, m)) => Option::Some((seq![ev] + es, m)),
                    }));
                    if x is Some {
                        assert(acc_pre + (seq![ev] + x->Some_0.0) =~= acc@.map_values(
                            |e: Effect| e@,
                        ) + x->Some_0.0);
                    }
                }
                cur = nxt;
            },
            Err(er) => {
                proof {
                    assert(tv[cur as int].0 == ts@[cur as int].kind);
                    assert(parse_effects_spec(tv, cur as int) is None);
                }
                return Err(er);
            },
        }
    }
}

/// Parses one statement.
fn parse_statement_exec(ts: &Vec<Token>, i: usize) -> (r: Result<
    (Statement, usize),
    ParseError,
>)
    requires
        i <= ts@.len(),
    ensures
        match r {
            Ok(p) => parse_statement_spec(tokens_view(ts@), i as int) == Option::Some(
                (p.0@, p.1 as int),
            ) && i < p.1 <= ts@.len(),
            Err(_) => parse_statement_spec(tokens_view(ts@), i as int) is None,
        },
{
    let ghost tv = tokens_view(ts@);
    let j = skip_comments_exec(ts, i);
    let n = ts.len();
    if !(n - j >= 2 && ts[j].kind == TokenKind::KwStatement && ts[j + 1].kind
        == TokenKind::LParen) {
        proof {
            if j < ts@.len() {
                assert(tv[j as int].0 == ts@[j as int].kind);
            }
            if j + 1 < ts@.len() {
                assert(tv[j as int + 1].0 == ts@[j as int + 1].kind);
            }
            assert(parse_statement_spec(tv, i as int) is None);
        }
        if j >= n {
            return Err(ParseError::UnexpectedEnd);
        }
        return Err(ParseError::UnexpectedToken { index: j });
    }
    match parse_effects_exec(ts, j + 2) {
        Ok(p) => {
            let (es, m) = p;
            if m < n && ts[m].kind == TokenKind::RParen {
                let st = Statement { effects: es };
                proof {
                    assert(tv[m as int].0 == ts@[m as int].kind);
                    assert(parse_statement_spec(tv, i as int) == Option::Some(
                        (st@, m as int + 1),
                    ));
                }
                Ok((st, m + 1))
            } else {
                proof {
                    if m < ts@.len() {
                        assert(tv[m as int].0 == ts@[m as int].kind);
                    }
                    assert(parse_statement_spec(tv, i as int) is None);
                }
                if m >= n {
                    Err(ParseError::UnexpectedEnd)
                } else {
                    Err(ParseError::UnexpectedToken { index: m })
                }
            }
        },
        Err(er) => {
            proof {
                assert(parse_statement_spec(tv, i as int) is None);
            }
            Err(er)
        },
    }
}

/// Parses `Statement*`.
fn parse_statements_exec(ts: &Vec<Token>, i: usize) -> (r: Result<
    (Vec<Statement>, usize),
    ParseError,
>)
    requires
        i <= ts@.len(),
    ensures
        match r {
            Ok(p) => parse_statements_spec(tokens_view(ts@), i as int) == Option::Some(
                (p.0@.map_values(|s: Statement| s@), p.1 as int),
            ) && i <= p.1 <= ts@.len(),
            Err(_) => parse_statements_spec(tokens_view(ts@), i as int) is None,
        },
{
    let ghost tv = tokens_view(ts@);
    let mut acc: Vec<Statement> = Vec::new();
    let mut cur: usize = i;
    loop
        invariant
            i <= cur <= ts@.len(),
            tv == tokens_view(ts@),
            parse_statements_spec(tv, cur as int) is Some ==> parse_statements_spec(
                tv,
                i as int,
            ) == Option::Some(
                (
                    acc@.map_values(|s: Statement| s@) + parse_statements_spec(
                        tv,
                        cur as int,
                    )->Some_0.0,
                    parse_statements_spec(tv, cur as int)->Some_0.1,
                ),
            ),
            parse_statements_spec(tv, cur as int) is None ==> parse_statements_spec(
                tv,
                i as int,
            ) is None,
        decreases ts@.len() - cur,
    {
        let j = skip_comments_exec(ts, cur);
        if j < ts.len() && ts[j].kind == TokenKind::KwStatement {
            proof {
                assert(tv[j as int].0 == ts@[j as int].kind);
            }
            match parse_statement_exec(ts, cur) {
                Ok(p) => {
                    let (st, nxt) = p;
                    let ghost acc_pre = acc@.map_values(|s: Statement| s@);
                    let ghost sv = st@;
                    acc.push(st);
                    proof {
                        assert(acc@.map_values(|s: Statement| s@) =~= acc_pre.push(sv));
                        let x = parse_statements_spec(tv, nxt as int);
                        assert(parse_statements_spec(tv, cur as int) == (match x {
                            Option::None => Option::None,
                            Option::Some((ss, m)) => Option::Some((seq![sv] + ss, m)),
                        }));
                        if x is Some {
                            assert(acc_pre + (seq![sv] + x->Some_0.0) =~= acc@.map_values(
                                |s: Statement| s@,
                            ) + x->Some_0.0);
                        }
                    }
                    cur = nxt;
                },
                Err(er) => {
                    proof {
                        assert(parse_statements_spec(tv, cur as int) is None);
                    }
                    return Err(er);
                },
            }
        } else if j != cur {
            proof {
                if j < ts@.len() {
                    assert(tv[j as int].0 == ts@[j as int].kind);
                }
                assert(parse_statements_spec(tv, cur as int) is None);
            }
            if j >= ts.len() {
                return Err(ParseError::UnexpectedEnd);
            }
            return Err(ParseError::UnexpectedToken { index: j });
        } else {
            proof {
                if j < ts@.len() {
                    assert(tv[j as int].0 == ts@[j as int].kind);
                }
                assert(parse_statements_spec(tv, cur as int) == Option::Some(
                    (Seq::<crate::ir::StatementView>::empty(), cur as int),
                ));
                assert(acc@.map_values(|s: Statement| s@)
                    + Seq::<crate::ir::StatementView>::empty() =~= acc@.map_values(
                    |s: Statement| s@,
                ));
            }
            return Ok((acc, cur));
        }
    }
}

/// Parses `Name*`.
fn parse_names_exec(ts: &Vec<Token>, i: usize) -> (r: (Vec<String>, usize))
    requires
        i <= ts@.len(),
    ensures
        parse_names_spec(tokens_view(ts@), i as int) == (
            r.0@.map_values(|s: String| s@),
            r.1 as int,
        ),
        i <= r.1 <= ts@.len(),
{
    let ghost tv = tokens_view(ts@);
    let mut acc: Vec<String> = Vec::new();
    let mut cur: usize = i;
    loop
        invariant
            i <= cur <= ts@.len(),
            tv == tokens_view(ts@),
            parse_names_spec(tv, i as int) == (
                acc@.map_values(|s: String| s@) + parse_names_spec(tv, cur as int).0,
                parse_names_spec(tv, cur as int).1,
            ),
        decreases ts@.len() - cur,
    {
        if cur < ts.len() && ts[cur].kind == TokenKind::Ident {
            proof {
                assert(tv[cur as int].0 == ts@[cur as int].kind);
            }
            let ghost acc_pre = acc@.map_values(|s: String| s@);
            let ghost nv = ts@[cur as int].text@;
            acc.push(ts[cur].text.clone());
            proof {
                assert(acc@.map_values(|s: String| s@) =~= acc_pre.push(nv));
                let x = parse_names_spec(tv, cur as int + 1);
                assert(parse_names_spec(tv, cur as int) == (seq![nv] + x.0, x.1));
                assert(acc_pre + (seq![nv] + x.0) =~= acc@.map_values(|s: String| s@) + x.0);
            }
            cur = cur + 1;
        } else {
            proof {
                if cur < ts@.len() {
                    assert(tv[cur as int].0 == ts@[cur as int].kind);
                }
                assert(parse_names_spec(tv, cur as int) == (
                    Seq::<Seq<char>>::empty(),
                    cur as int,
                ));
                assert(acc@.map_values(|s: String| s@) + Seq::<Seq<char>>::empty()
                    =~= acc@.map_values(|s: String| s@));
            }
            return (acc, cur);
        }
    }
}

/// Parses the optional goto clause.
fn parse_goto_exec(ts: &Vec<Token>, i: usize) -> (r: Result<(Vec<String>, usize), ParseError>)
    requires
        i <= ts@.len(),
    ensures
        match r {
            Ok(p) => parse_goto_spec(tokens_view(ts@), i as int) == Option::Some(
                (p.0@.map_values(|s: String| s@), p.1 as int),
            ) && i <= p.1 <= ts@.len(),
            Err(_) => parse_goto_spec(tokens_view(ts@), i as int) is None,
        },
{
    let ghost tv = tokens_view(ts@);
    if i < ts.len() && ts[i].kind == TokenKind::KwGoto {
        proof {
            assert(tv[i as int].0 == ts@[i as int].kind);
        }
        if i + 1 < ts.len() && ts[i + 1].kind == TokenKind::LParen {
            proof {
                assert(tv[i as int + 1].0 == ts@[i as int + 1].kind);
            }
            let p = parse_names_exec(ts, i + 2);
            let (ns, m) = p;
            if m < ts.len() && ts[m].kind == TokenKind::RParen {
                proof {
                    assert(tv[m as int].0 == ts@[m as int].kind);
                    assert(parse_goto_spec(tv, i as int) == Option::Some(
                        (ns@.map_values(|s: String| s@), m as int + 1),
                    ));
                }
                Ok((ns, m + 1))
            } else {
                proof {
                    if m < ts@.len() {
                        assert(tv[m as int].0 == ts@[m as int].kind);
                    }
                    assert(parse_goto_spec(tv, i as int) is None);
                }
                if m >= ts.len() {
                    Err(ParseError::UnexpectedEnd)
                } else {
                    Err(ParseError::UnexpectedToken { index: m })
                }
            }
        } else {
            proof {
                if i + 1 < ts@.len() {
                    assert(tv[i as int + 1].0 == ts@[i as int + 1].kind);
                }
                assert(parse_goto_spec(tv, i as int) is None);
            }
            if i + 1 >= ts.len() {
                Err(ParseError::UnexpectedEnd)
            } else {
                Err(ParseError::UnexpectedToken { index: i + 1 })
            }
        }
    } else {
        proof {
            if i < ts@.len() {
                assert(tv[i as int].0 == ts@[i as int].kind);
            }
            assert(parse_goto_spec(tv, i as int) == Option::Some(
                (Seq::<Seq<char>>::empty(), i as int),
            ));
        }
        let ns: Vec<String> = Vec::new();
        proof {
            assert(ns@.map_values(|s: String| s@) =~= Seq::<Seq<char>>::empty());
        }
        Ok((ns, i))
    }
}

/// Parses one block.
fn parse_block_exec(ts: &Vec<Token>, i: usize) -> (r: Result<(Block, usize), ParseError>)
    requires
        i <= ts@.len(),
    ensures
        match r {
            Ok(p) => parse_block_spec(tokens_view(ts@), i as int) == Option::Some(
                (p.0@, p.1 as int),
            ) && i < p.1 <= ts@.len(),
            Err(_) => parse_block_spec(tokens_view(ts@), i as int) is None,
        },
{
    let ghost tv = tokens_view(ts@);
    let n = ts.len();
    if !(n - i >= 3 && ts[i].kind == TokenKind::KwBlock && ts[i + 1].kind == TokenKind::Ident
        && ts[i + 2].kind == TokenKind::LBrace) {
        proof {
            if i < ts@.len() {
                assert(tv[i as int].0 == ts@[i as int].kind);
            }
            if i + 1 < ts@.len() {
                assert(tv[i as int + 1].0 == ts@[i as int + 1].kind);
            }
            if i + 2 < ts@.len() {
                assert(tv[i as int + 2].0 == ts@[i as int + 2].kind);
            }
            assert(parse_block_spec(tv, i as int) is None);
        }
        if i >= n {
            return Err(ParseError::UnexpectedEnd);
        }
        return Err(ParseError::UnexpectedToken { index: i });
    }
    let name = ts[i + 1].text.clone();
    match parse_statements_exec(ts, i + 3) {
        Ok(p) => {
            let (ss, m) = p;
            match parse_goto_exec(ts, m) {
                Ok(q) => {
                    let (gs, m2) = q;
                    if m2 < n && ts[m2].kind == TokenKind::RBrace {
                        let b = Block { name, statements: ss, goto: gs };
                        proof {
                            assert(tv[m2 as int].0 == ts@[m2 as int].kind);
                            assert(parse_block_spec(tv, i as int) == Option::Some(
                                (b@, m2 as int + 1),
                            ));
                        }
                        Ok((b, m2 + 1))
                    } else {
                        proof {
                            if m2 < ts@.len() {
                                assert(tv[m2 as int].0 == ts@[m2 as int].kind);
                            }
                            assert(parse_block_spec(tv, i as int) is None);
                        }
                        if m2 >= n {
                            Err(ParseError::UnexpectedEnd)
                        } else {
                            Err(ParseError::UnexpectedToken { index: m2 })
                        }
                    }
                },
                Err(er) => {
                    proof {
                        assert(parse_block_spec(tv, i as int) is None);
                    }
                    Err(er)
                },
            }
        },
        Err(er) => {
            proof {
                assert(parse_block_spec(tv, i as int) is None);
            }
            Err(er)
        },
    }
}

/// Parses `Block*` up to the end of the stream.
fn parse_blocks_exec(ts: &Vec<Token>, i: usize) -> (r: Result<Vec<Block>, ParseError>)
    requires
        i <= ts@.len(),
    ensures
        match r {
            Ok(bs) => parse_blocks_spec(tokens_view(ts@), i as int) == Option::Some(
                bs@.map_values(|b: Block| b@),
            ),
            Err(_) => parse_blocks_spec(tokens_view(ts@), i as int) is None,
        },
{
    let ghost tv = tokens_view(ts@);
    let mut acc: Vec<Block> = Vec::new();
    let mut cur: usize = i;
    loop
        invariant
            i <= cur <= ts@.len(),
            tv == tokens_view(ts@),
            parse_blocks_spec(tv, cur as int) is Some ==> parse_blocks_spec(tv, i as int)
                == Option::Some(
                acc@.map_values(|b: Block| b@) + parse_blocks_spec(tv, cur as int)->Some_0,
            ),
            parse_blocks_spec(tv, cur as int) is None ==> parse_blocks_spec(tv, i as int)
                is None,
        decreases ts@.len() - cur,
    {
        if cur >= ts.len() {
            proof {
                assert(parse_blocks_spec(tv, cur as int) == Option::Some(
                    Seq::<crate::ir::BlockView>::empty(),
                ));
                assert(acc@.map_values(|b: Block| b@) + Seq::<crate::ir::BlockView>::empty()
                    =~= acc@.map_values(|b: Block| b@));
            }
            return Ok(acc);
        }
        if ts[cur].kind != TokenKind::KwBlock {
            proof {
                assert(tv[cur as int].0 == ts@[cur as int].kind);
                assert(parse_blocks_spec(tv, cur as int) is None);
            }
            return Err(ParseError::UnexpectedToken { index: cur });
        }
        proof {
            assert(tv[cur as int].0 == ts@[cur as int].kind);
        }
        match parse_block_exec(ts, cur) {
            Ok(p) => {
                let (b, nxt) = p;
                let ghost acc_pre = acc@.map_values(|b: Block| b@);
                let ghost bv = b@;
                acc.push(b);
                proof {
                    assert(acc@.map_values(|b: Block| b@) =~= acc_pre.push(bv));
                    let x = parse_blocks_spec(tv, nxt as int);
                    assert(parse_blocks_spec(tv, cur as int) == (match x {
                        Option::None => Option::None,
                        Option::Some(bs) => Option::Some(seq![bv] + bs),
                    }));
                    if x is Some {
                        assert(acc_pre + (seq![bv] + x->Some_0) =~= acc@.map_values(
                            |b: Block| b@,
                        ) + x->Some_0);
                    }
                }
                cur = nxt;
            },
            Err(er) => {
                proof {
                    assert(parse_blocks_spec(tv, cur as int) is None);
                }
                return Err(er);
            },
        }
    }
}

/// The grammar's entry point.
pub struct InputParser {}

impl InputParser {
    /// A parser for the input grammar.
    pub fn new() -> (r: InputParser) {
        InputParser {  }
    }

    /// Parses a whole input text, or rejects it: the result is the
    /// parsed representation exactly when the text tokenizes and
    /// derives from the grammar, and an error otherwise.
    pub fn parse(&self, input: &str) -> (r: Result<Input, ParseError>)
        ensures
            match r {
                Ok(v) => parse_text_spec(input@) == Option::Some(v@),
                Err(_) => parse_text_spec(input@) is None,
            },
    {
        let toks = match tokenize(input) {
            Ok(ts) => ts,
            Err(at) => {
                return Err(ParseError::InvalidToken { location: at });
            },
        };
        let start = skip_comments_exec(&toks, 0);
        match parse_blocks_exec(&toks, start) {
            Ok(bs) => {
                let v = Input { blocks: bs };
                proof {
                    assert(parse_input_spec(tokens_view(toks@)) == Option::Some(v@));
                }
                Ok(v)
            },
            Err(er) => {
                proof {
                    assert(parse_input_spec(tokens_view(toks@)) is None);
                }
                Err(er)
            },
        }
    }
}

} // verus!
