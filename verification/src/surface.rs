//! The surface tokens: integers, strings, the four operators of arithmetic
//! and parentheses, with a token that marks the end of the line.
//!
//! What a text means as surface tokens is said by `surface_scan` (one token)
//! and `surface_lex` (all of them up to the end of the line). `Lexer` reads
//! them with `get_next_token` and `get_all_next_tokens`.

use vstd::prelude::*;
use crate::lexer::{
    digits_end,
    is_digit,
    lemma_runs_bounded,
    lemma_runs_hold,
    lemma_runs_stop,
    quote_position,
};

verus! {

/// An operator of arithmetic, as a token names it.
#[derive(Debug, Clone, Copy, PartialEq, Eq, Structural)]
pub enum OpCode {
    Add,
    Subtract,
    Multiply,
    Divide,
}

/// An operator as it stands in an expression.
#[derive(Debug, Clone, Copy, PartialEq, Eq, Structural)]
pub enum Operator {
    Add,
}

/// A surface token. An integer keeps its digits as written.
#[derive(Debug, PartialEq)]
pub enum SurfaceToken {
    /// The end of the line.
    EOL,
    Integer(String),
    String(String),
    Operator(OpCode),
    OpenParen,
    CloseParen,
}

/// A surface token as contracts speak of it.
pub enum SpecSurfaceToken {
    EOL,
    Integer(Seq<char>),
    String(Seq<char>),
    Operator(OpCode),
    OpenParen,
    CloseParen,
}

impl View for SurfaceToken {
    type V = SpecSurfaceToken;

    open spec fn view(&self) -> SpecSurfaceToken {
        match self {
            SurfaceToken::EOL => SpecSurfaceToken::EOL,
            SurfaceToken::Integer(s) => SpecSurfaceToken::Integer(s@),
            SurfaceToken::String(s) => SpecSurfaceToken::String(s@),
            SurfaceToken::Operator(op) => SpecSurfaceToken::Operator(*op),
            SurfaceToken::OpenParen => SpecSurfaceToken::OpenParen,
            SurfaceToken::CloseParen => SpecSurfaceToken::CloseParen,
        }
    }
}

impl Clone for SurfaceToken {
    fn clone(&self) -> (copy: SurfaceToken)
        ensures
            copy@ == self@,
    {
        match self {
            SurfaceToken::EOL => SurfaceToken::EOL,
            SurfaceToken::Integer(s) => SurfaceToken::Integer(s.clone()),
            SurfaceToken::String(s) => SurfaceToken::String(s.clone()),
            SurfaceToken::Operator(op) => SurfaceToken::Operator(*op),
            SurfaceToken::OpenParen => SurfaceToken::OpenParen,
            SurfaceToken::CloseParen => SurfaceToken::CloseParen,
        }
    }
}

/// The views of a sequence of surface tokens, in order.
pub open spec fn surface_views(tokens: Seq<SurfaceToken>) -> Seq<SpecSurfaceToken> {
    tokens.map_values(|t: SurfaceToken| t@)
}

/// The operator that `c` writes, if it writes one.
pub open spec fn operator_of(c: char) -> Option<OpCode> {
    if c == '+' {
        Some(OpCode::Add)
    } else if c == '-' {
        Some(OpCode::Subtract)
    } else if c == '*' {
        Some(OpCode::Multiply)
    } else if c == '/' {
        Some(OpCode::Divide)
    } else {
        None
    }
}

/// `c` is a character that no surface token holds or begins with: it is
/// passed over and reported.
pub open spec fn is_passed_over(c: char) -> bool {
    !is_digit(c) && operator_of(c) is None && c != '(' && c != ')' && c != '"' && c != ' '
}

/// What reading one surface token gives: the token, the position behind it,
/// and the characters that were passed over on the way, each with its
/// position.
pub struct SurfaceScan {
    pub token: SpecSurfaceToken,
    pub end: int,
    pub skipped: Seq<(usize, char)>,
}

/// The text does not end inside a string that the token read from position
/// `i` opens.
pub open spec fn reads_on(s: Seq<char>, i: int) -> bool
    decreases s.len() - i,
{
    if i < 0 || i >= s.len() {
        true
    } else if s[i] == '"' {
        quote_position(s, i + 1) < s.len()
    } else if s[i] == ' ' || is_passed_over(s[i]) {
        reads_on(s, i + 1)
    } else {
        true
    }
}

/// The first surface token of `s` from position `i` on.
///
/// Spaces separate tokens. A digit starts an integer, which runs over digits.
/// `+`, `-`, `*` and `/` are operators. A double quote starts a string, which
/// holds every character up to the next double quote. Any other character is
/// passed over. At the end of the text, and past it, the token is `EOL`, and
/// reading it moves one position on.
pub open spec fn surface_scan(s: Seq<char>, i: int) -> SurfaceScan
    decreases s.len() - i,
{
    if i < 0 || i >= s.len() {
        SurfaceScan { token: SpecSurfaceToken::EOL, end: i + 1, skipped: Seq::empty() }
    } else if is_digit(s[i]) {
        let j = digits_end(s, i);
        SurfaceScan {
            token: SpecSurfaceToken::Integer(s.subrange(i, j)),
            end: j,
            skipped: Seq::empty(),
        }
    } else if operator_of(s[i]) is Some {
        SurfaceScan {
            token: SpecSurfaceToken::Operator(operator_of(s[i])->Some_0),
            end: i + 1,
            skipped: Seq::empty(),
        }
    } else if s[i] == '(' {
        SurfaceScan { token: SpecSurfaceToken::OpenParen, end: i + 1, skipped: Seq::empty() }
    } else if s[i] == ')' {
        SurfaceScan { token: SpecSurfaceToken::CloseParen, end: i + 1, skipped: Seq::empty() }
    } else if s[i] == '"' {
        let j = quote_position(s, i + 1);
        SurfaceScan {
            token: SpecSurfaceToken::String(s.subrange(i + 1, j)),
            end: j + 1,
            skipped: Seq::empty(),
        }
    } else if s[i] == ' ' {
        surface_scan(s, i + 1)
    } else {
        let rest = surface_scan(s, i + 1);
        SurfaceScan {
            token: rest.token,
            end: rest.end,
            skipped: seq![(i as usize, s[i])] + rest.skipped,
        }
    }
}

/// `rest` with the characters `skipped` put in front of those it passed over.
pub open spec fn passing(skipped: Seq<(usize, char)>, rest: SurfaceScan) -> SurfaceScan {
    SurfaceScan { token: rest.token, end: rest.end, skipped: skipped + rest.skipped }
}

/// What reading a line gives: its tokens, the last of them `EOL`, the
/// position behind them, and the characters that were passed over.
pub struct SurfaceLine {
    pub tokens: Seq<SpecSurfaceToken>,
    pub end: int,
    pub skipped: Seq<(usize, char)>,
}

/// The text does not end inside a string, read from position `i` on.
pub open spec fn reads_to_the_end(s: Seq<char>, i: int) -> bool
    decreases s.len() - i,
{
    let one = surface_scan(s, i);
    &&& reads_on(s, i)
    &&& one.token !is EOL && i < one.end <= s.len() ==> reads_to_the_end(s, one.end)
}

/// The surface tokens of `s` from position `i` on, up to `EOL` and with it.
pub open spec fn surface_lex(s: Seq<char>, i: int) -> SurfaceLine
    decreases s.len() - i,
{
    let one = surface_scan(s, i);
    if one.token !is EOL && i < one.end <= s.len() {
        let rest = surface_lex(s, one.end);
        SurfaceLine {
            tokens: seq![one.token] + rest.tokens,
            end: rest.end,
            skipped: one.skipped + rest.skipped,
        }
    } else {
        SurfaceLine { tokens: seq![one.token], end: one.end, skipped: one.skipped }
    }
}

/// `rest` with the tokens `done` and the characters `skipped` put in front.
pub open spec fn following(
    done: Seq<SpecSurfaceToken>,
    skipped: Seq<(usize, char)>,
    rest: SurfaceLine,
) -> SurfaceLine {
    SurfaceLine { tokens: done + rest.tokens, end: rest.end, skipped: skipped + rest.skipped }
}

/// A surface token other than `EOL` is not empty and lies within the text,
/// where the text does not end inside a string.
pub proof fn lemma_surface_scan_advances(s: Seq<char>, i: int)
    requires
        0 <= i,
        reads_on(s, i),
    ensures
        surface_scan(s, i).token !is EOL ==> i < surface_scan(s, i).end <= s.len(),
        surface_scan(s, i).token is EOL ==> surface_scan(s, i).end > s.len(),
    decreases s.len() - i,
{
    if i < s.len() {
        lemma_runs_bounded(s, i + 1);
        if !is_digit(s[i]) && operator_of(s[i]) is None && s[i] != '(' && s[i] != ')' && s[i]
            != '"' {
            lemma_surface_scan_advances(s, i + 1);
        }
    }
}

/// The line ends with `EOL`, and no token before the last is `EOL`.
pub proof fn lemma_line_ends_once(s: Seq<char>, i: int)
    requires
        0 <= i,
        reads_to_the_end(s, i),
    ensures
        surface_lex(s, i).tokens.len() > 0,
        surface_lex(s, i).tokens.last() is EOL,
        forall|k: int|
            0 <= k < surface_lex(s, i).tokens.len() - 1 ==> !(
            #[trigger] surface_lex(s, i).tokens[k] is EOL),
    decreases s.len() - i,
{
    let one = surface_scan(s, i);
    lemma_surface_scan_advances(s, i);
    if one.token !is EOL {
        lemma_line_ends_once(s, one.end);
    }
}

/// From position `i` on, where `i` stands outside any string, every string
/// that the text opens is closed: the double quotes come in pairs.
pub open spec fn quotes_pair_up(s: Seq<char>, i: int) -> bool
    decreases s.len() - i, 0int,
{
    if i < 0 || i >= s.len() {
        true
    } else if s[i] == '"' {
        quote_closes(s, i + 1)
    } else {
        quotes_pair_up(s, i + 1)
    }
}

/// From position `i` on, where `i` stands inside a string, that string is
/// closed, and so is every string that the text opens behind it.
pub open spec fn quote_closes(s: Seq<char>, i: int) -> bool
    decreases s.len() - i, 1int,
{
    if i < 0 || i >= s.len() {
        false
    } else if s[i] == '"' {
        quotes_pair_up(s, i + 1)
    } else {
        quote_closes(s, i + 1)
    }
}

/// Over characters that are no double quotes, nothing changes for the pairs.
pub proof fn lemma_pairs_pass_over(s: Seq<char>, i: int, j: int)
    requires
        0 <= i <= j <= s.len(),
        forall|k: int| i <= k < j ==> s[k] != '"',
    ensures
        quotes_pair_up(s, i) == quotes_pair_up(s, j),
        quote_closes(s, i) == quote_closes(s, j),
    decreases j - i,
{
    if i < j {
        lemma_pairs_pass_over(s, i + 1, j);
    }
}

/// The text can be read to the end of the line exactly where its double
/// quotes come in pairs.
pub proof fn lemma_reads_where_quotes_pair_up(s: Seq<char>, i: int)
    requires
        0 <= i,
    ensures
        reads_to_the_end(s, i) == quotes_pair_up(s, i),
    decreases s.len() - i,
{
    if i < s.len() {
        lemma_runs_bounded(s, i + 1);
        if s[i] == '"' {
            let j = quote_position(s, i + 1);
            assert forall|k: int| i + 1 <= k < j implies s[k] != '"' by {
                lemma_runs_hold(s, i + 1, k);
            }
            lemma_pairs_pass_over(s, i + 1, j);
            lemma_runs_stop(s, i + 1);
            if j < s.len() {
                lemma_reads_where_quotes_pair_up(s, j + 1);
            }
        } else if is_digit(s[i]) {
            let j = digits_end(s, i);
            assert forall|k: int| i <= k < j implies s[k] != '"' by {
                lemma_runs_hold(s, i, k);
            }
            lemma_pairs_pass_over(s, i, j);
            lemma_reads_where_quotes_pair_up(s, j);
        } else if s[i] == ' ' || is_passed_over(s[i]) {
            lemma_reads_where_quotes_pair_up(s, i + 1);
            if reads_on(s, i + 1) {
                lemma_surface_scan_advances(s, i + 1);
            }
        } else {
            lemma_reads_where_quotes_pair_up(s, i + 1);
        }
    }
}

} // verus!
