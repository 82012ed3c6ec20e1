//! The lexer: characters in, tokens out.
//!
//! What a text means as tokens is said by `scan` (one token) and `lex` (all of
//! them), directly over the characters. The executable lexer is a small state
//! machine over a stack of contexts; its contract is that it computes `scan`.

use vstd::prelude::*;
use crate::surface::{
    OpCode,
    SpecSurfaceToken,
    SurfaceLine,
    SurfaceScan,
    SurfaceToken,
    following,
    is_passed_over,
    lemma_line_ends_once,
    lemma_reads_where_quotes_pair_up,
    lemma_surface_scan_advances,
    passing,
    quote_closes,
    quotes_pair_up,
    reads_on,
    reads_to_the_end,
    surface_lex,
    surface_scan,
    surface_views,
};
use crate::text::{characters, string_of};

verus! {

/// How the lexer reads the next character.
#[derive(Debug, Clone, Copy, PartialEq, Eq, Structural)]
pub enum Context {
    /// Between tokens.
    Default,
    /// Inside a symbol.
    Symbol,
    /// Inside the digits of a number, before any decimal point.
    Digits,
    /// Inside the digits that follow a decimal point.
    FloatDigits,
    /// Inside a string literal, after the opening quote.
    String,
}

/// A token. Numbers keep their text as written.
#[derive(Debug, PartialEq)]
pub enum Token {
    ParenOpen,
    ParenClose,
    Symbol(String),
    Integer(String),
    Float(String),
    StringLiteral(String),
}

/// A token as contracts speak of it: its text is a sequence of characters.
pub enum SpecToken {
    ParenOpen,
    ParenClose,
    Symbol(Seq<char>),
    Integer(Seq<char>),
    Float(Seq<char>),
    StringLiteral(Seq<char>),
}

impl View for Token {
    type V = SpecToken;

    open spec fn view(&self) -> SpecToken {
        match self {
            Token::ParenOpen => SpecToken::ParenOpen,
            Token::ParenClose => SpecToken::ParenClose,
            Token::Symbol(s) => SpecToken::Symbol(s@),
            Token::Integer(s) => SpecToken::Integer(s@),
            Token::Float(s) => SpecToken::Float(s@),
            Token::StringLiteral(s) => SpecToken::StringLiteral(s@),
        }
    }
}

impl Clone for Token {
    fn clone(&self) -> (copy: Token)
        ensures
            copy@ == self@,
    {
        match self {
            Token::ParenOpen => Token::ParenOpen,
            Token::ParenClose => Token::ParenClose,
            Token::Symbol(s) => Token::Symbol(s.clone()),
            Token::Integer(s) => Token::Integer(s.clone()),
            Token::Float(s) => Token::Float(s.clone()),
            Token::StringLiteral(s) => Token::StringLiteral(s.clone()),
        }
    }
}

/// The views of a sequence of tokens, in order.
pub open spec fn token_views(tokens: Seq<Token>) -> Seq<SpecToken> {
    tokens.map_values(|t: Token| t@)
}

/// Why a text could not be cut into tokens.
#[derive(Debug, Clone, Copy, PartialEq, Eq, Structural)]
pub enum LexerError {
    /// `#` or `'` where a token starts: syntax kept for later.
    UnimplementedToken,
    /// The text ended inside a string literal.
    UnexpectedEOF,
    /// The context stack ran empty. The lexer never reports it.
    EmptyContextStack,
    /// A number ran into this character, at this position.
    InvalidCharacter(usize, char),
}

/// `c` is one of the ten decimal digits.
pub open spec fn is_digit(c: char) -> bool {
    '0' <= c <= '9'
}

/// A number stops at `c` without complaint.
pub open spec fn closes_number(c: char) -> bool {
    c == ' ' || c == ')'
}

/// A symbol stops at `c`.
pub open spec fn closes_symbol(c: char) -> bool {
    c == ' ' || c == '#' || c == '\'' || c == '(' || c == ')'
}

/// The first position from `i` on that holds no digit.
pub open spec fn digits_end(s: Seq<char>, i: int) -> int
    decreases s.len() - i,
{
    if 0 <= i < s.len() && is_digit(s[i]) {
        digits_end(s, i + 1)
    } else {
        i
    }
}

/// The first position from `i` on at which a symbol stops.
pub open spec fn symbol_end(s: Seq<char>, i: int) -> int
    decreases s.len() - i,
{
    if 0 <= i < s.len() && !closes_symbol(s[i]) {
        symbol_end(s, i + 1)
    } else {
        i
    }
}

/// The first position from `i` on that holds a double quote.
pub open spec fn quote_position(s: Seq<char>, i: int) -> int
    decreases s.len() - i,
{
    if 0 <= i < s.len() && s[i] != '"' {
        quote_position(s, i + 1)
    } else {
        i
    }
}

/// What reading one token gives.
pub enum Scan {
    /// A token, and the position behind it.
    Token { token: SpecToken, end: int },
    /// Nothing but spaces was left.
    End,
    /// An error, and the position at which reading stopped.
    Error { error: LexerError, at: int },
}

/// The number that starts at `i`, where `s[i]` is a digit.
pub open spec fn scan_number(s: Seq<char>, i: int) -> Scan {
    let j = digits_end(s, i);
    if j < s.len() && s[j] == '.' {
        let k = digits_end(s, j + 1);
        if k >= s.len() || closes_number(s[k]) {
            Scan::Token { token: SpecToken::Float(s.subrange(i, k)), end: k }
        } else {
            Scan::Error { error: LexerError::InvalidCharacter(k as usize, s[k]), at: k }
        }
    } else if j >= s.len() || closes_number(s[j]) {
        Scan::Token { token: SpecToken::Integer(s.subrange(i, j)), end: j }
    } else {
        Scan::Error { error: LexerError::InvalidCharacter(j as usize, s[j]), at: j }
    }
}

/// The first token of `s` from position `i` on.
///
/// Spaces separate tokens. A digit starts a number, which runs over digits,
/// may hold one point followed by more digits, and must stop at a space, a
/// closing parenthesis or the end. A double quote starts a string literal,
/// which holds every character up to the next double quote. `#` and `'` are
/// not tokens yet. Anything else starts a symbol, which runs up to a space, a
/// parenthesis, `#`, `'` or the end.
pub open spec fn scan(s: Seq<char>, i: int) -> Scan
    decreases s.len() - i,
{
    if i < 0 || i >= s.len() {
        Scan::End
    } else if s[i] == ' ' {
        scan(s, i + 1)
    } else if is_digit(s[i]) {
        scan_number(s, i)
    } else if s[i] == '"' {
        let j = quote_position(s, i + 1);
        if j < s.len() {
            Scan::Token { token: SpecToken::StringLiteral(s.subrange(i + 1, j)), end: j + 1 }
        } else {
            Scan::Error { error: LexerError::UnexpectedEOF, at: j }
        }
    } else if s[i] == '(' {
        Scan::Token { token: SpecToken::ParenOpen, end: i + 1 }
    } else if s[i] == ')' {
        Scan::Token { token: SpecToken::ParenClose, end: i + 1 }
    } else if s[i] == '#' || s[i] == '\'' {
        Scan::Error { error: LexerError::UnimplementedToken, at: i }
    } else {
        let j = symbol_end(s, i);
        Scan::Token { token: SpecToken::Symbol(s.subrange(i, j)), end: j }
    }
}

/// Where a lexer that read from position `i` stands when nothing is left to
/// read: at the end of the text, or where it was if that is past the end.
pub open spec fn resting_place(s: Seq<char>, i: int) -> int {
    if i > s.len() {
        i
    } else {
        s.len() as int
    }
}

/// What reading all tokens gives: the tokens or the first error, and the
/// position at which reading stopped.
pub struct Lexing {
    pub outcome: Result<Seq<SpecToken>, LexerError>,
    pub end: int,
}

/// All tokens of `s` from position `i` on, or the first error.
pub open spec fn lex(s: Seq<char>, i: int) -> Lexing
    decreases s.len() - i,
{
    match scan(s, i) {
        Scan::End => Lexing { outcome: Ok(Seq::empty()), end: resting_place(s, i) },
        Scan::Error { error, at } => Lexing { outcome: Err(error), end: at },
        Scan::Token { token, end } => {
            if i < end <= s.len() {
                let rest = lex(s, end);
                match rest.outcome {
                    Ok(tokens) => Lexing { outcome: Ok(seq![token] + tokens), end: rest.end },
                    Err(error) => rest,
                }
            } else {
                Lexing { outcome: Ok(seq![token]), end: end }
            }
        },
    }
}

/// The tokens of a whole text.
pub open spec fn tokens_of(s: Seq<char>) -> Result<Seq<SpecToken>, LexerError> {
    lex(s, 0).outcome
}

/// `digits_end` is the place where the digits stop.
pub proof fn lemma_digits_end(s: Seq<char>, i: int, j: int)
    requires
        0 <= i <= j <= s.len(),
        forall|k: int| i <= k < j ==> is_digit(s[k]),
        j == s.len() || !is_digit(s[j]),
    ensures
        digits_end(s, i) == j,
    decreases j - i,
{
    if i < j {
        lemma_digits_end(s, i + 1, j);
    }
}

/// `symbol_end` is the place where the symbol stops.
pub proof fn lemma_symbol_end(s: Seq<char>, i: int, j: int)
    requires
        0 <= i <= j <= s.len(),
        forall|k: int| i <= k < j ==> !closes_symbol(s[k]),
        j == s.len() || closes_symbol(s[j]),
    ensures
        symbol_end(s, i) == j,
    decreases j - i,
{
    if i < j {
        lemma_symbol_end(s, i + 1, j);
    }
}

/// `quote_position` is the place of the next double quote.
pub proof fn lemma_quote_position(s: Seq<char>, i: int, j: int)
    requires
        0 <= i <= j <= s.len(),
        forall|k: int| i <= k < j ==> s[k] != '"',
        j == s.len() || s[j] == '"',
    ensures
        quote_position(s, i) == j,
    decreases j - i,
{
    if i < j {
        lemma_quote_position(s, i + 1, j);
    }
}

/// The three run functions stay within the text and never go back.
pub proof fn lemma_runs_bounded(s: Seq<char>, i: int)
    requires
        0 <= i <= s.len(),
    ensures
        i <= digits_end(s, i) <= s.len(),
        i <= symbol_end(s, i) <= s.len(),
        i <= quote_position(s, i) <= s.len(),
    decreases s.len() - i,
{
    if i < s.len() {
        lemma_runs_bounded(s, i + 1);
    }
}

/// Where a run ends within the text, the character there does not belong to
/// it: no digit stands at `digits_end`, a character that ends a symbol at
/// `symbol_end`, and a double quote at `quote_position`.
pub proof fn lemma_runs_stop(s: Seq<char>, i: int)
    requires
        0 <= i,
    ensures
        digits_end(s, i) < s.len() ==> !is_digit(s[digits_end(s, i)]),
        symbol_end(s, i) < s.len() ==> closes_symbol(s[symbol_end(s, i)]),
        quote_position(s, i) < s.len() ==> s[quote_position(s, i)] == '"',
    decreases s.len() - i,
{
    if i < s.len() {
        lemma_runs_stop(s, i + 1);
    }
}

/// A token read by `scan` is not empty and lies within the text; an error is
/// found within the text or at its end.
pub proof fn lemma_scan_advances(s: Seq<char>, i: int)
    requires
        0 <= i <= s.len(),
    ensures
        match scan(s, i) {
            Scan::Token { token, end } => i < end <= s.len(),
            Scan::Error { error, at } => i <= at <= s.len() && error != LexerError::EmptyContextStack,
            Scan::End => true,
        },
    decreases s.len() - i,
{
    if i < s.len() {
        if s[i] == ' ' {
            lemma_scan_advances(s, i + 1);
        } else if is_digit(s[i]) {
            lemma_runs_bounded(s, i + 1);
            let j = digits_end(s, i);
            if j < s.len() {
                lemma_runs_bounded(s, j + 1);
            }
        } else {
            lemma_runs_bounded(s, i + 1);
        }
    }
}

/// `s` has one digit or more before the position `point`, a point there, and
/// digits behind it.
pub open spec fn point_at(s: Seq<char>, point: int) -> bool {
    &&& 0 < point < s.len()
    &&& s[point] == '.'
    &&& forall|k: int| 0 <= k < s.len() && k != point ==> is_digit(#[trigger] s[k])
}

/// `s` has one digit or more, a point, and digits.
pub open spec fn has_point(s: Seq<char>) -> bool {
    exists|point: int| #[trigger] point_at(s, point)
}

/// The shape of a token as the lexer cuts it. An integer is one digit or
/// more. A float is one digit or more, a point, and digits. A string literal
/// holds no double quote. A symbol is not empty, begins with no digit and no
/// double quote, and holds none of the characters that end a symbol.
pub open spec fn well_cut(token: SpecToken) -> bool {
    match token {
        SpecToken::Integer(s) => s.len() > 0 && forall|k: int|
            0 <= k < s.len() ==> is_digit(#[trigger] s[k]),
        SpecToken::Float(s) => has_point(s),
        SpecToken::StringLiteral(s) => forall|k: int| 0 <= k < s.len() ==> #[trigger] s[k] != '"',
        SpecToken::Symbol(s) => {
            &&& s.len() > 0
            &&& !is_digit(s[0])
            &&& s[0] != '"'
            &&& forall|k: int| 0 <= k < s.len() ==> !closes_symbol(#[trigger] s[k])
        },
        _ => true,
    }
}

/// From a position up to where its run ends, every character belongs to the
/// run: digits up to `digits_end`, what ends no symbol up to `symbol_end`,
/// and no double quote up to `quote_position`.
pub proof fn lemma_runs_hold(s: Seq<char>, i: int, k: int)
    requires
        0 <= i <= k,
    ensures
        k < digits_end(s, i) ==> k < s.len() && is_digit(s[k]),
        k < symbol_end(s, i) ==> k < s.len() && !closes_symbol(s[k]),
        k < quote_position(s, i) ==> k < s.len() && s[k] != '"',
    decreases k - i,
{
    if i < k {
        lemma_runs_hold(s, i + 1, k);
    }
}

/// Every token that `scan` reads has the shape that `well_cut` describes.
pub proof fn lemma_scan_cuts_well(s: Seq<char>, i: int)
    requires
        0 <= i <= s.len(),
    ensures
        scan(s, i) matches Scan::Token { token, end } ==> well_cut(token),
    decreases s.len() - i,
{
    if i < s.len() {
        if s[i] == ' ' {
            lemma_scan_cuts_well(s, i + 1);
        } else if is_digit(s[i]) {
            let j = digits_end(s, i);
            lemma_runs_bounded(s, i + 1);
            assert forall|k: int| i <= k < j implies is_digit(s[k]) by {
                lemma_runs_hold(s, i, k);
            }
            if j < s.len() && s[j] == '.' {
                let end = digits_end(s, j + 1);
                lemma_runs_bounded(s, j + 1);
                assert forall|k: int| j < k < end implies is_digit(s[k]) by {
                    lemma_runs_hold(s, j + 1, k);
                }
                let numeral = s.subrange(i, end);
                let point = j - i;
                assert(point_at(numeral, point));
            }
        } else if s[i] == '"' {
            let j = quote_position(s, i + 1);
            lemma_runs_bounded(s, i + 1);
            let literal = s.subrange(i + 1, j);
            assert forall|k: int| 0 <= k < literal.len() implies #[trigger] literal[k] != '"' by {
                lemma_runs_hold(s, i + 1, i + 1 + k);
            }
        } else if !closes_symbol(s[i]) {
            let j = symbol_end(s, i);
            lemma_runs_bounded(s, i + 1);
            let name = s.subrange(i, j);
            assert forall|k: int| 0 <= k < name.len() implies !closes_symbol(#[trigger] name[k]) by {
                lemma_runs_hold(s, i, i + k);
            }
        }
    }
}

/// Every token that `lex` reads has the shape that `well_cut` describes.
pub proof fn lemma_lex_cuts_well(s: Seq<char>, i: int)
    requires
        0 <= i <= s.len(),
    ensures
        lex(s, i).outcome matches Ok(tokens) ==> forall|k: int|
            0 <= k < tokens.len() ==> well_cut(#[trigger] tokens[k]),
    decreases s.len() - i,
{
    lemma_scan_advances(s, i);
    lemma_scan_cuts_well(s, i);
    if let Scan::Token { token, end } = scan(s, i) {
        lemma_lex_cuts_well(s, end);
    }
}

/// Whether the machine of `Lexer::get_token` is where the text puts it: it read
/// from `start`, the token in hand began at `origin` (a float's point stands at
/// `point`), and the next character is at `pos`.
spec fn machine_agrees(
    s: Seq<char>,
    start: int,
    origin: int,
    point: int,
    pos: int,
    stack: Seq<Context>,
    queue: Seq<char>,
) -> bool {
    &&& 0 <= start <= origin <= pos <= s.len()
    &&& scan(s, start) == scan(s, origin)
    &&& 1 <= stack.len() <= 2
    &&& stack[0] == Context::Default
    &&& match stack.last() {
        Context::Default => stack.len() == 1 && queue.len() == 0 && origin == pos,
        Context::Digits => {
            &&& stack.len() == 2
            &&& origin < s.len()
            &&& is_digit(s[origin])
            &&& queue == s.subrange(origin, pos)
            &&& forall|k: int| origin <= k < pos ==> is_digit(s[k])
        },
        Context::FloatDigits => {
            &&& stack.len() == 2
            &&& origin < point < pos
            &&& is_digit(s[origin])
            &&& digits_end(s, origin) == point
            &&& s[point] == '.'
            &&& queue == s.subrange(origin, pos)
            &&& forall|k: int| point < k < pos ==> is_digit(s[k])
        },
        Context::String => {
            &&& stack.len() == 2
            &&& origin < pos
            &&& s[origin] == '"'
            &&& queue == s.subrange(origin + 1, pos)
            &&& forall|k: int| origin < k < pos ==> s[k] != '"'
        },
        Context::Symbol => {
            &&& stack.len() == 2
            &&& origin < s.len()
            &&& !is_digit(s[origin])
            &&& s[origin] != '"'
            &&& !closes_symbol(s[origin])
            &&& queue == s.subrange(origin, pos)
            &&& forall|k: int| origin <= k < pos ==> !closes_symbol(s[k])
        },
    }
}

/// Whether `c` is a decimal digit.
pub fn is_decimal_digit(c: char) -> (b: bool)
    ensures
        b == is_digit(c),
{
    c >= '0' && c <= '9'
}

/// `rest` with the tokens `done` put in front of its tokens.
spec fn after(done: Seq<SpecToken>, rest: Lexing) -> Lexing {
    match rest.outcome {
        Ok(tokens) => Lexing { outcome: Ok(done + tokens), end: rest.end },
        Err(error) => rest,
    }
}

/// Whether the machine of `Lexer::get_next_token` is where the text puts it:
/// it read from `start`, passed over `skipped`, the token in hand began at
/// `origin`, and the next character is at `pos`.
spec fn surface_machine_agrees(
    s: Seq<char>,
    start: int,
    origin: int,
    pos: int,
    stack: Seq<Context>,
    queue: Seq<char>,
    skipped: Seq<(usize, char)>,
) -> bool {
    &&& 0 <= start <= origin <= pos
    &&& surface_scan(s, start) == passing(skipped, surface_scan(s, origin))
    &&& reads_on(s, origin)
    &&& 1 <= stack.len() <= 2
    &&& stack[0] == Context::Default
    &&& match stack.last() {
        Context::Default => stack.len() == 1 && queue.len() == 0 && origin == pos,
        Context::Digits => {
            &&& stack.len() == 2
            &&& pos <= s.len()
            &&& origin < s.len()
            &&& is_digit(s[origin])
            &&& queue == s.subrange(origin, pos)
            &&& forall|k: int| origin <= k < pos ==> is_digit(s[k])
        },
        Context::String => {
            &&& stack.len() == 2
            &&& origin < pos <= s.len()
            &&& s[origin] == '"'
            &&& queue == s.subrange(origin + 1, pos)
            &&& forall|k: int| origin < k < pos ==> s[k] != '"'
        },
        _ => false,
    }
}

/// A lexer: a text and a position in it.
#[derive(Debug)]
pub struct Lexer {
    pos: usize,
    contents: Vec<char>,
}

impl Lexer {
    /// The text that the lexer reads.
    pub closed spec fn text(&self) -> Seq<char> {
        self.contents@
    }

    /// The position of the next character to read. A position at or past the
    /// text's length is the end of the text.
    pub closed spec fn position(&self) -> int {
        self.pos as int
    }

    /// A lexer over the empty text.
    pub fn new() -> (lexer: Lexer)
        ensures
            lexer.text() == Seq::<char>::empty(),
            lexer.position() == 0,
    {
        Lexer { pos: 0, contents: Vec::new() }
    }

    /// A lexer at the start of `content`.
    pub fn with_content(content: &str) -> (lexer: Lexer)
        ensures
            lexer.text() == content@,
            lexer.position() == 0,
    {
        Lexer { pos: 0, contents: characters(content) }
    }

    /// The character at the lexer's position, if the text has one there.
    pub fn current_char(&self) -> (c: Option<&char>)
        ensures
            0 <= self.position() <= usize::MAX,
            self.position() < self.text().len() ==> c == Some(&self.text()[self.position()]),
            self.position() >= self.text().len() ==> c is None,
    {
        if self.pos < self.contents.len() {
            Some(&self.contents[self.pos])
        } else {
            None
        }
    }

    /// Moves one character on, also at the end of the text and past it, and
    /// gives the character at the new position.
    pub fn next_char(&mut self) -> (c: Option<&char>)
        requires
            old(self).position() < usize::MAX,
        ensures
            final(self).text() == old(self).text(),
            final(self).position() == old(self).position() + 1,
            final(self).position() < final(self).text().len() ==> c == Some(
                &final(self).text()[final(self).position()],
            ),
            final(self).position() >= final(self).text().len() ==> c is None,
    {
        self.pos += 1;
        self.current_char()
    }

    /// Reads the next token, if there is one, and moves behind it. After an
    /// error the lexer stands where reading stopped.
    pub fn get_token(&mut self) -> (r: Result<Option<Token>, LexerError>)
        ensures
            final(self).text() == old(self).text(),
            match scan(old(self).text(), old(self).position()) {
                Scan::Token { token, end } => {
                    &&& r matches Ok(Some(t))
                    &&& t@ == token
                    &&& final(self).position() == end
                },
                Scan::End => {
                    &&& r matches Ok(None)
                    &&& final(self).position() == resting_place(
                        old(self).text(),
                        old(self).position(),
                    )
                },
                Scan::Error { error, at } => {
                    &&& r matches Err(e)
                    &&& e == error
                    &&& final(self).position() == at
                },
            },
    {
        if self.pos > self.contents.len() {
            return Ok(None);
        }
        let ghost text = self.contents@;
        let ghost start = self.pos as int;
        let ghost mut origin = start;
        let ghost mut point = start;
        let mut queue: Vec<char> = Vec::new();
        let mut context_stack: Vec<Context> = Vec::new();
        context_stack.push(Context::Default);
        loop
            invariant
                old(self).contents@ == text,
                old(self).pos == start,
                self.contents@ == text,
                self.pos <= self.contents.len(),
                machine_agrees(text, start, origin, point, self.pos as int, context_stack@, queue@),
            decreases text.len() - self.pos, 2 - context_stack.len(),
        {
            if context_stack.len() == 0 {
                return Err(LexerError::EmptyContextStack);
            }
            let context = context_stack[context_stack.len() - 1];
            let current_char = if self.pos < self.contents.len() {
                Some(self.contents[self.pos])
            } else {
                None
            };
            match context {
                Context::Default => match current_char {
                    Some(c) => {
                        if is_decimal_digit(c) {
                            context_stack.push(Context::Digits);
                        } else if c == '"' {
                            context_stack.push(Context::String);
                            self.pos = self.pos + 1;
                            assert(queue@ =~= text.subrange(origin + 1, self.pos as int));
                        } else if c == '(' {
                            self.pos = self.pos + 1;
                            return Ok(Some(Token::ParenOpen));
                        } else if c == ')' {
                            self.pos = self.pos + 1;
                            return Ok(Some(Token::ParenClose));
                        } else if c == ' ' {
                            self.pos = self.pos + 1;
                            proof {
                                origin = origin + 1;
                            }
                        } else if c == '#' || c == '\'' {
                            return Err(LexerError::UnimplementedToken);
                        } else {
                            context_stack.push(Context::Symbol);
                            assert(queue@ =~= text.subrange(origin, self.pos as int));
                        }
                    },
                    None => {
                        return Ok(None);
                    },
                },
                Context::Digits => match current_char {
                    Some(c) => {
                        if is_decimal_digit(c) {
                            queue.push(c);
                            self.pos = self.pos + 1;
                            assert(queue@ =~= text.subrange(origin, self.pos as int));
                        } else if c == '.' {
                            proof {
                                lemma_digits_end(text, origin, self.pos as int);
                                point = self.pos as int;
                            }
                            queue.push(c);
                            context_stack.pop();
                            context_stack.push(Context::FloatDigits);
                            self.pos = self.pos + 1;
                            assert(queue@ =~= text.subrange(origin, self.pos as int));
                        } else if c == ' ' || c == ')' {
                            proof {
                                lemma_digits_end(text, origin, self.pos as int);
                            }
                            return Ok(Some(Token::Integer(Lexer::queue_to_string(&mut queue))));
                        } else {
                            proof {
                                lemma_digits_end(text, origin, self.pos as int);
                            }
                            return Err(LexerError::InvalidCharacter(self.pos, c));
                        }
                    },
                    None => {
                        proof {
                            lemma_digits_end(text, origin, self.pos as int);
                        }
                        return Ok(Some(Token::Integer(Lexer::queue_to_string(&mut queue))));
                    },
                },
                Context::FloatDigits => match current_char {
                    Some(c) => {
                        if is_decimal_digit(c) {
                            queue.push(c);
                            self.pos = self.pos + 1;
                            assert(queue@ =~= text.subrange(origin, self.pos as int));
                        } else if c == ' ' || c == ')' {
                            proof {
                                lemma_digits_end(text, point + 1, self.pos as int);
                            }
                            return Ok(Some(Token::Float(Lexer::queue_to_string(&mut queue))));
                        } else {
                            proof {
                                lemma_digits_end(text, point + 1, self.pos as int);
                            }
                            return Err(LexerError::InvalidCharacter(self.pos, c));
                        }
                    },
                    None => {
                        proof {
                            lemma_digits_end(text, point + 1, self.pos as int);
                        }
                        return Ok(Some(Token::Float(Lexer::queue_to_string(&mut queue))));
                    },
                },
                Context::String => match current_char {
                    Some(c) => {
                        if c == '"' {
                            proof {
                                lemma_quote_position(text, origin + 1, self.pos as int);
                            }
                            self.pos = self.pos + 1;
                            return Ok(
                                Some(Token::StringLiteral(Lexer::queue_to_string(&mut queue))),
                            );
                        } else {
                            queue.push(c);
                            self.pos = self.pos + 1;
                            assert(queue@ =~= text.subrange(origin + 1, self.pos as int));
                        }
                    },
                    None => {
                        proof {
                            lemma_quote_position(text, origin + 1, self.pos as int);
                        }
                        return Err(LexerError::UnexpectedEOF);
                    },
                },
                Context::Symbol => match current_char {
                    Some(c) => {
                        if c == ' ' || c == '#' || c == '\'' || c == '(' || c == ')' {
                            proof {
                                lemma_symbol_end(text, origin, self.pos as int);
                            }
                            return Ok(Some(Token::Symbol(Lexer::queue_to_string(&mut queue))));
                        } else {
                            queue.push(c);
                            self.pos = self.pos + 1;
                            assert(queue@ =~= text.subrange(origin, self.pos as int));
                        }
                    },
                    None => {
                        proof {
                            lemma_symbol_end(text, origin, self.pos as int);
                        }
                        return Ok(Some(Token::Symbol(Lexer::queue_to_string(&mut queue))));
                    },
                },
            }
        }
    }

    /// Reads all tokens from the lexer's position to the end of the text. At
    /// the first error the tokens read so far are dropped and the lexer stands
    /// where reading stopped.
    pub fn get_tokens(&mut self) -> (r: Result<Vec<Token>, LexerError>)
        ensures
            final(self).text() == old(self).text(),
            final(self).position() == lex(old(self).text(), old(self).position()).end,
            match lex(old(self).text(), old(self).position()).outcome {
                Ok(tokens) => r matches Ok(v) && token_views(v@) == tokens,
                Err(error) => r matches Err(e) && e == error,
            },
    {
        let mut tokens: Vec<Token> = Vec::new();
        if self.pos > self.contents.len() {
            return Ok(tokens);
        }
        let ghost text = self.contents@;
        let ghost start = self.pos as int;
        loop
            invariant
                old(self).text() == text,
                old(self).position() == start,
                self.text() == text,
                0 <= self.position() <= text.len(),
                lex(text, start) == after(token_views(tokens@), lex(text, self.position())),
            decreases text.len() - self.position(),
        {
            let ghost pos = self.position();
            let ghost done = token_views(tokens@);
            proof {
                lemma_scan_advances(text, pos);
            }
            match self.get_token() {
                Ok(Some(token)) => {
                    tokens.push(token);
                    proof {
                        let rest = lex(text, self.position());
                        assert(token_views(tokens@) =~= done + seq![token@]);
                        if rest.outcome is Ok {
                            assert((done + seq![token@]) + rest.outcome->Ok_0 =~= done + (
                            seq![token@] + rest.outcome->Ok_0));
                        }
                    }
                },
                Ok(None) => {
                    return Ok(tokens);
                },
                Err(error) => {
                    return Err(error);
                },
            }
        }
    }

    /// Whether the lexer can read surface tokens to the end of the line: the
    /// text does not end inside a string, and neither its length nor the
    /// lexer's position is the largest that can be counted.
    pub fn can_read_line(&self) -> (can: bool)
        ensures
            can == (self.position() < usize::MAX && self.text().len() < usize::MAX
                && reads_to_the_end(self.text(), self.position())),
    {
        proof {
            lemma_reads_where_quotes_pair_up(self.contents@, self.pos as int);
        }
        if self.pos == usize::MAX || self.contents.len() == usize::MAX {
            return false;
        }
        let mut inside = false;
        let mut i: usize = self.pos;
        while i < self.contents.len()
            invariant
                self.pos <= i,
                quotes_pair_up(self.contents@, self.pos as int) == if inside {
                    quote_closes(self.contents@, i as int)
                } else {
                    quotes_pair_up(self.contents@, i as int)
                },
            decreases self.contents.len() - i,
        {
            if self.contents[i] == '"' {
                inside = !inside;
            }
            i += 1;
        }
        !inside
    }

    /// Reads the next surface token and moves behind it; at the end of the
    /// text the token is `EOL`, and the lexer moves one position on. It gives
    /// the token and the characters that it passed over, each with its
    /// position.
    pub fn get_next_token(&mut self) -> (r: (SurfaceToken, Vec<(usize, char)>))
        requires
            old(self).position() < usize::MAX,
            old(self).text().len() < usize::MAX,
            reads_on(old(self).text(), old(self).position()),
        ensures
            final(self).text() == old(self).text(),
            r.0@ == surface_scan(old(self).text(), old(self).position()).token,
            final(self).position() == surface_scan(old(self).text(), old(self).position()).end,
            r.1@ == surface_scan(old(self).text(), old(self).position()).skipped,
    {
        let ghost text = self.contents@;
        let ghost start = self.pos as int;
        let ghost mut origin = start;
        let mut context: Vec<Context> = Vec::new();
        context.push(Context::Default);
        let mut queue: Vec<char> = Vec::new();
        let mut skipped: Vec<(usize, char)> = Vec::new();
        loop
            invariant
                old(self).contents@ == text,
                old(self).pos == start,
                self.contents@ == text,
                text.len() < usize::MAX,
                self.pos < usize::MAX,
                surface_machine_agrees(
                    text,
                    start,
                    origin,
                    self.pos as int,
                    context@,
                    queue@,
                    skipped@,
                ),
            decreases text.len() - self.pos, 2 - context.len(),
        {
            let current = context[context.len() - 1];
            let c = match self.current_char() {
                Some(c) => Some(*c),
                None => None,
            };
            match current {
                Context::Default => match c {
                    Some(t) => {
                        if is_decimal_digit(t) {
                            context.push(Context::Digits);
                            assert(queue@ =~= text.subrange(origin, self.pos as int));
                        } else if t == '+' {
                            self.next_char();
                            return (SurfaceToken::Operator(OpCode::Add), skipped);
                        } else if t == '-' {
                            self.next_char();
                            return (SurfaceToken::Operator(OpCode::Subtract), skipped);
                        } else if t == '*' {
                            self.next_char();
                            return (SurfaceToken::Operator(OpCode::Multiply), skipped);
                        } else if t == '/' {
                            self.next_char();
                            return (SurfaceToken::Operator(OpCode::Divide), skipped);
                        } else if t == '(' {
                            self.next_char();
                            return (SurfaceToken::OpenParen, skipped);
                        } else if t == ')' {
                            self.next_char();
                            return (SurfaceToken::CloseParen, skipped);
                        } else if t == '"' {
                            context.push(Context::String);
                            self.next_char();
                            assert(queue@ =~= text.subrange(origin + 1, self.pos as int));
                        } else if t == ' ' {
                            self.next_char();
                            proof {
                                origin = origin + 1;
                            }
                        } else {
                            let ghost before = skipped@;
                            let ghost rest = surface_scan(text, origin + 1);
                            skipped.push((self.pos, t));
                            self.next_char();
                            proof {
                                assert(before + (seq![((origin as usize), t)] + rest.skipped)
                                    =~= before.push(((origin as usize), t)) + rest.skipped);
                                origin = origin + 1;
                            }
                        }
                    },
                    None => {
                        self.next_char();
                        return (SurfaceToken::EOL, skipped);
                    },
                },
                Context::Digits => {
                    let digit = match c {
                        Some(x) => is_decimal_digit(x),
                        None => false,
                    };
                    if digit {
                        queue.push(c.unwrap());
                        self.next_char();
                        assert(queue@ =~= text.subrange(origin, self.pos as int));
                    } else {
                        proof {
                            lemma_digits_end(text, origin, self.pos as int);
                        }
                        return (SurfaceToken::Integer(Lexer::queue_to_string(&mut queue)), skipped);
                    }
                },
                Context::String => match c {
                    Some(x) => {
                        if x == '"' {
                            proof {
                                lemma_quote_position(text, origin + 1, self.pos as int);
                            }
                            self.next_char();
                            return (
                                SurfaceToken::String(Lexer::queue_to_string(&mut queue)),
                                skipped,
                            );
                        } else {
                            queue.push(x);
                            self.next_char();
                            assert(queue@ =~= text.subrange(origin + 1, self.pos as int));
                        }
                    },
                    None => {
                        proof {
                            lemma_quote_position(text, origin + 1, self.pos as int);
                        }
                        return vstd::pervasive::unreached();
                    },
                },
                _ => {
                    return vstd::pervasive::unreached();
                },
            }
        }
    }

    /// Reads the surface tokens from the lexer's position to the end of the
    /// line. The last token, and no other, is `EOL`. It gives the tokens and
    /// the characters that it passed over, each with its position.
    pub fn get_all_next_tokens(&mut self) -> (r: (Vec<SurfaceToken>, Vec<(usize, char)>))
        requires
            old(self).position() < usize::MAX,
            old(self).text().len() < usize::MAX,
            reads_to_the_end(old(self).text(), old(self).position()),
        ensures
            final(self).text() == old(self).text(),
            surface_views(r.0@) == surface_lex(old(self).text(), old(self).position()).tokens,
            final(self).position() == surface_lex(old(self).text(), old(self).position()).end,
            r.1@ == surface_lex(old(self).text(), old(self).position()).skipped,
            r.0@.len() > 0,
            r.0@.last()@ is EOL,
            forall|k: int| 0 <= k < r.0@.len() - 1 ==> !(#[trigger] r.0@[k]@ is EOL),
    {
        let ghost text = self.contents@;
        let ghost start = self.pos as int;
        let mut vec: Vec<SurfaceToken> = Vec::new();
        let mut passed: Vec<(usize, char)> = Vec::new();
        loop
            invariant
                old(self).text() == text,
                old(self).position() == start,
                self.text() == text,
                text.len() < usize::MAX,
                0 <= self.position() < usize::MAX,
                reads_to_the_end(text, start),
                reads_to_the_end(text, self.position()),
                surface_lex(text, start) == following(
                    surface_views(vec@),
                    passed@,
                    surface_lex(text, self.position()),
                ),
            decreases text.len() - self.position(),
        {
            let ghost pos = self.position();
            let ghost done = surface_views(vec@);
            let ghost before = passed@;
            proof {
                lemma_surface_scan_advances(text, pos);
            }
            let (token, mut skipped) = self.get_next_token();
            let gonna_break = match token {
                SurfaceToken::EOL => true,
                _ => false,
            };
            let ghost one = surface_scan(text, pos);
            passed.append(&mut skipped);
            vec.push(token);
            proof {
                assert(surface_views(vec@) =~= done + seq![one.token]);
                if !gonna_break {
                    let rest = surface_lex(text, self.position());
                    assert((done + seq![one.token]) + rest.tokens =~= done + (seq![one.token]
                        + rest.tokens));
                    assert((before + one.skipped) + rest.skipped =~= before + (one.skipped
                        + rest.skipped));
                }
            }
            if gonna_break {
                proof {
                    lemma_line_ends_once(text, start);
                    assert(forall|k: int|
                        0 <= k < vec@.len() ==> #[trigger] vec@[k]@ == surface_views(vec@)[k]);
                }
                return (vec, passed);
            }
        }
    }

    /// Empties `queue` into a string.
    pub fn queue_to_string(queue: &mut Vec<char>) -> (string: String)
        ensures
            string@ == old(queue)@,
            final(queue)@ == Seq::<char>::empty(),
    {
        let string = string_of(queue);
        queue.clear();
        string
    }
}

impl From<&String> for Lexer {
    /// A lexer at the start of `contents`.
    fn from(contents: &String) -> (lexer: Lexer)
        ensures
            lexer.text() == contents@,
            lexer.position() == 0,
    {
        Lexer::with_content(contents.as_str())
    }
}

/// What `from` gives is said by its own contract, over the lexer's text and
/// position.
impl vstd::std_specs::convert::FromSpecImpl<&String> for Lexer {
    open spec fn obeys_from_spec() -> bool {
        false
    }

    open spec fn from_spec(contents: &String) -> Lexer {
        arbitrary()
    }
}

} // verus!
