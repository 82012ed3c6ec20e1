//! The parser: tokens in, expression trees out.
//!
//! What a tree means as tokens is said by `write` and `spell`: a list is an
//! opening parenthesis, its items, and a closing parenthesis. The tokens are
//! nested into data whose numerals stand as written (`parse_program`), and
//! the numerals are read to make expressions (`parse_tokens`). `parse_tokens`
//! returns the trees that spell the tokens it was given, and there is only
//! one such sequence of trees (`lemma_spelling_is_unique`).

use vstd::prelude::*;
use vstd::string::StringExecFns;
use crate::lexer::{Lexer, LexerError, SpecToken, Token, token_views, tokens_of};
use crate::data::{DataPre, SpecDataPre, data_of_expression, data_of_pre, numerals_fit};
use crate::text::{integer_value, parse_integer};

verus! {

/// An expression as read, before it is evaluated. A float keeps its numeral.
#[derive(Debug, PartialEq)]
pub enum Expression {
    Symbol(String),
    StringLiteral(String),
    Integer(i64),
    Float(String),
    List(Vec<Expression>),
}

/// An expression as contracts speak of it.
pub enum SpecExpression {
    Symbol(Seq<char>),
    StringLiteral(Seq<char>),
    Integer(int),
    Float(Seq<char>),
    List(Seq<SpecExpression>),
}

impl View for Expression {
    type V = SpecExpression;

    open spec fn view(&self) -> SpecExpression
        decreases self,
    {
        match self {
            Expression::Symbol(s) => SpecExpression::Symbol(s@),
            Expression::StringLiteral(s) => SpecExpression::StringLiteral(s@),
            Expression::Integer(i) => SpecExpression::Integer(*i as int),
            Expression::Float(s) => SpecExpression::Float(s@),
            Expression::List(items) => SpecExpression::List(
                Seq::new(
                    items.len() as nat,
                    |i: int|
                        if 0 <= i < items.len() {
                            items[i]@
                        } else {
                            SpecExpression::List(Seq::empty())
                        },
                ),
            ),
        }
    }
}

impl Clone for Expression {
    fn clone(&self) -> (copy: Expression)
        ensures
            copy@ == self@,
        decreases self,
    {
        match self {
            Expression::Symbol(s) => Expression::Symbol(s.clone()),
            Expression::StringLiteral(s) => Expression::StringLiteral(s.clone()),
            Expression::Integer(i) => Expression::Integer(*i),
            Expression::Float(s) => Expression::Float(s.clone()),
            Expression::List(items) => {
                let mut copies: Vec<Expression> = Vec::new();
                let mut i: usize = 0;
                while i < items.len()
                    invariant
                        i <= items.len(),
                        self is List,
                        self->List_0 == *items,
                        copies@.len() == i,
                        forall|k: int| 0 <= k < i ==> copies@[k]@ == items@[k]@,
                    decreases items.len() - i,
                {
                    copies.push(items[i].clone());
                    i += 1;
                }
                assert(Expression::List(copies)@->List_0 =~= self@->List_0);
                Expression::List(copies)
            },
        }
    }
}

/// The views of a sequence of expressions, in order.
pub open spec fn expression_views(expressions: Seq<Expression>) -> Seq<SpecExpression> {
    Seq::new(expressions.len(), |i: int| expressions[i]@)
}

/// Why a sequence of tokens is no sequence of trees.
#[derive(Debug, Clone, Copy, PartialEq, Eq, Structural)]
pub enum ParserError {
    /// A list was opened and never closed.
    UnmatchedParenLeft,
    /// A list was closed that had not been opened.
    UnmatchedParenRight,
}

/// What a token stands for in a tree: a parenthesis, or an expression that
/// is no list.
pub enum Lexeme {
    Open,
    Close,
    Leaf(SpecExpression),
}

/// What `token` stands for. An integer token stands for its value.
pub open spec fn lexeme(token: SpecToken) -> Lexeme {
    match token {
        SpecToken::ParenOpen => Lexeme::Open,
        SpecToken::ParenClose => Lexeme::Close,
        SpecToken::Symbol(s) => Lexeme::Leaf(SpecExpression::Symbol(s)),
        SpecToken::StringLiteral(s) => Lexeme::Leaf(SpecExpression::StringLiteral(s)),
        SpecToken::Integer(s) => Lexeme::Leaf(SpecExpression::Integer(integer_value(s).unwrap())),
        SpecToken::Float(s) => Lexeme::Leaf(SpecExpression::Float(s)),
    }
}

/// What each of `tokens` stands for, in order.
pub open spec fn lexemes(tokens: Seq<SpecToken>) -> Seq<Lexeme> {
    tokens.map_values(|t: SpecToken| lexeme(t))
}

/// How `expression` is spelt: a list is spelt as an opening parenthesis, its
/// items and a closing parenthesis, any other expression as itself.
pub open spec fn spell(expression: SpecExpression) -> Seq<Lexeme>
    decreases expression, 0int,
{
    match expression {
        SpecExpression::List(items) => seq![Lexeme::Open] + spell_all(items) + seq![Lexeme::Close],
        _ => seq![Lexeme::Leaf(expression)],
    }
}

/// How a sequence of expressions is spelt: one after the other.
pub open spec fn spell_all(expressions: Seq<SpecExpression>) -> Seq<Lexeme>
    decreases expressions, 1int,
{
    if expressions.len() == 0 {
        Seq::empty()
    } else {
        spell_all(expressions.drop_last()) + spell(expressions.last())
    }
}

/// How many lists are open behind the first `n` lexemes: the opening
/// parentheses among them less the closing ones.
pub open spec fn depth(text: Seq<Lexeme>, n: int) -> int
    decreases n,
{
    if n <= 0 {
        0
    } else {
        depth(text, n - 1) + match text[n - 1] {
            Lexeme::Open => 1int,
            Lexeme::Close => -1int,
            Lexeme::Leaf(_) => 0int,
        }
    }
}

/// Somewhere in `text` a list is closed that was not open.
pub open spec fn closes_unopened(text: Seq<Lexeme>) -> bool {
    exists|n: int| 0 <= n <= text.len() && #[trigger] depth(text, n) < 0
}

/// At the end of `text` a list is still open.
pub open spec fn leaves_open(text: Seq<Lexeme>) -> bool {
    depth(text, text.len() as int) > 0
}

/// The error that `tokens` hold, if any: a closing parenthesis without its
/// opening one comes first, whatever follows it; failing that, a list left
/// open at the end.
pub open spec fn failure(tokens: Seq<SpecToken>) -> Option<ParserError> {
    if closes_unopened(lexemes(tokens)) {
        Some(ParserError::UnmatchedParenRight)
    } else if leaves_open(lexemes(tokens)) {
        Some(ParserError::UnmatchedParenLeft)
    } else {
        None
    }
}

/// No list is closed that was not open among the first `n` lexemes of `text`.
pub open spec fn stays_open(text: Seq<Lexeme>, n: int) -> bool {
    forall|k: int| 0 <= k <= n ==> #[trigger] depth(text, k) >= 0
}

/// Every integer token writes a value that a 64-bit integer can hold.
pub open spec fn all_integers_fit(tokens: Seq<SpecToken>) -> bool {
    forall|i: int|
        0 <= i < tokens.len() ==> (#[trigger] tokens[i] matches SpecToken::Integer(s)
            ==> integer_value(s) is Some)
}

/// Every integer token that is read writes a value that a 64-bit integer can
/// hold. What stands behind a closing parenthesis that closes no list is not
/// read.
pub open spec fn integers_fit(tokens: Seq<SpecToken>) -> bool {
    forall|i: int|
        0 <= i < tokens.len() && stays_open(lexemes(tokens), i) ==> (
        #[trigger] tokens[i] matches SpecToken::Integer(s) ==> integer_value(s) is Some)
}

/// The views of a sequence of data, in order.
pub open spec fn pre_views(data: Seq<DataPre>) -> Seq<SpecDataPre> {
    Seq::new(data.len(), |i: int| data[i]@)
}

/// How data is written in tokens: a list as an opening parenthesis, its
/// items and a closing parenthesis, a number as its numeral, `Nil` as the
/// symbol `nil`, and the rest as itself.
pub open spec fn write(pre: SpecDataPre) -> Seq<SpecToken>
    decreases pre, 0int,
{
    match pre {
        SpecDataPre::List(items) => seq![SpecToken::ParenOpen] + write_all(items)
            + seq![SpecToken::ParenClose],
        SpecDataPre::Int(s) => seq![SpecToken::Integer(s)],
        SpecDataPre::Float(s) => seq![SpecToken::Float(s)],
        SpecDataPre::Str(s) => seq![SpecToken::StringLiteral(s)],
        SpecDataPre::Symbol(s) => seq![SpecToken::Symbol(s)],
        SpecDataPre::Nil => seq![SpecToken::Symbol("nil"@)],
    }
}

/// How a sequence of data is written: one after the other.
pub open spec fn write_all(data: Seq<SpecDataPre>) -> Seq<SpecToken>
    decreases data, 1int,
{
    if data.len() == 0 {
        Seq::empty()
    } else {
        write_all(data.drop_last()) + write(data.last())
    }
}

/// `pre` holds no `Nil`, neither itself nor in its lists.
pub open spec fn holds_no_nil(pre: SpecDataPre) -> bool
    decreases pre,
{
    match pre {
        SpecDataPre::List(items) => forall|i: int|
            0 <= i < items.len() ==> holds_no_nil(#[trigger] items[i]),
        SpecDataPre::Nil => false,
        _ => true,
    }
}

/// None of `data` holds a `Nil`.
pub open spec fn hold_no_nil(data: Seq<SpecDataPre>) -> bool {
    forall|i: int| 0 <= i < data.len() ==> holds_no_nil(#[trigger] data[i])
}

/// Every integer numeral in `data` writes a value that a 64-bit integer can
/// hold.
pub open spec fn all_numerals_fit(data: Seq<SpecDataPre>) -> bool {
    forall|i: int| 0 <= i < data.len() ==> numerals_fit(#[trigger] data[i])
}

/// The expression that `pre` becomes when its numerals are read. `Nil`
/// becomes the symbol `nil`.
pub open spec fn typed(pre: SpecDataPre) -> SpecExpression
    decreases pre,
{
    match pre {
        SpecDataPre::List(items) => SpecExpression::List(
            Seq::new(
                items.len(),
                |i: int|
                    if 0 <= i < items.len() {
                        typed(items[i])
                    } else {
                        SpecExpression::List(Seq::empty())
                    },
            ),
        ),
        SpecDataPre::Int(s) => SpecExpression::Integer(integer_value(s).unwrap()),
        SpecDataPre::Float(s) => SpecExpression::Float(s),
        SpecDataPre::Str(s) => SpecExpression::StringLiteral(s),
        SpecDataPre::Symbol(s) => SpecExpression::Symbol(s),
        SpecDataPre::Nil => SpecExpression::Symbol("nil"@),
    }
}

/// The expressions that `data` become, in order.
pub open spec fn typed_all(data: Seq<SpecDataPre>) -> Seq<SpecExpression> {
    Seq::new(data.len(), |i: int| typed(data[i]))
}

/// The lists that are open, outermost first, each with the items it has got
/// so far, as they are written.
spec fn write_open(open: Seq<Seq<SpecDataPre>>) -> Seq<SpecToken>
    decreases open.len(),
{
    if open.len() == 0 {
        Seq::empty()
    } else {
        write_open(open.drop_last()) + seq![SpecToken::ParenOpen] + write_all(open.last())
    }
}

/// The views of the open lists.
spec fn open_views(open: Seq<Vec<DataPre>>) -> Seq<Seq<SpecDataPre>> {
    Seq::new(open.len(), |k: int| pre_views(open[k]@))
}

/// None of the open lists holds a `Nil`.
spec fn open_hold_no_nil(open: Seq<Seq<SpecDataPre>>) -> bool {
    forall|k: int| 0 <= k < open.len() ==> hold_no_nil(#[trigger] open[k])
}

/// A list's view holds the views of its items.
pub proof fn lemma_pre_list_view(items: Vec<DataPre>)
    ensures
        DataPre::List(items)@ == SpecDataPre::List(pre_views(items@)),
{
    assert(DataPre::List(items)@->List_0 =~= pre_views(items@));
}

/// One more piece of data is written behind the others.
pub proof fn lemma_write_all_push(data: Seq<SpecDataPre>, last: SpecDataPre)
    ensures
        write_all(data.push(last)) == write_all(data) + write(last),
{
    assert(data.push(last).drop_last() =~= data);
}

/// Puts `item` into the innermost open list, or behind the finished data
/// where no list is open.
fn place(item: DataPre, queue_stack: &mut Vec<Vec<DataPre>>, finished: &mut Vec<DataPre>)
    requires
        holds_no_nil(item@),
        hold_no_nil(pre_views(old(finished)@)),
        open_hold_no_nil(open_views(old(queue_stack)@)),
    ensures
        final(queue_stack)@.len() == old(queue_stack)@.len(),
        hold_no_nil(pre_views(final(finished)@)),
        open_hold_no_nil(open_views(final(queue_stack)@)),
        write_all(pre_views(final(finished)@)) + write_open(open_views(final(queue_stack)@))
            == write_all(pre_views(old(finished)@)) + write_open(open_views(old(queue_stack)@))
            + write(item@),
{
    let ghost done = pre_views(finished@);
    let ghost open = open_views(queue_stack@);
    match queue_stack.pop() {
        Some(mut innermost) => {
            let ghost items = pre_views(innermost@);
            innermost.push(item);
            queue_stack.push(innermost);
            proof {
                let outer = open.drop_last();
                assert(open.last() == items);
                assert(open_views(queue_stack@) =~~= outer.push(items.push(item@)));
                assert(outer.push(items.push(item@)).drop_last() =~= outer);
                lemma_write_all_push(items, item@);
                assert forall|k: int| 0 <= k < open_views(queue_stack@).len() implies hold_no_nil(
                    #[trigger] open_views(queue_stack@)[k],
                ) by {
                    if k < outer.len() {
                    } else {
                        assert(hold_no_nil(items));
                    }
                }
            }
        },
        None => {
            finished.push(item);
            proof {
                assert(pre_views(finished@) =~= done.push(item@));
                lemma_write_all_push(done, item@);
            }
        },
    }
}

/// Nests `tokens` into data, the numerals as written. It fails exactly where
/// `failure` says so; otherwise what it returns is written as the tokens and
/// holds no `Nil`.
fn nest(tokens: &Vec<Token>) -> (r: Result<Vec<DataPre>, ParserError>)
    ensures
        match failure(token_views(tokens@)) {
            None => {
                &&& r matches Ok(data)
                &&& write_all(pre_views(data@)) == token_views(tokens@)
                &&& hold_no_nil(pre_views(data@))
            },
            Some(error) => r matches Err(e) && e == error,
        },
{
    let ghost views = token_views(tokens@);
    let mut queue_stack: Vec<Vec<DataPre>> = Vec::new();
    let mut finished: Vec<DataPre> = Vec::new();
    let mut position: usize = 0;
    while position < tokens.len()
        invariant
            position <= tokens.len(),
            views == token_views(tokens@),
            depth(lexemes(views), position as int) == queue_stack@.len(),
            stays_open(lexemes(views), position as int),
            hold_no_nil(pre_views(finished@)),
            open_hold_no_nil(open_views(queue_stack@)),
            write_all(pre_views(finished@)) + write_open(open_views(queue_stack@)) == views.take(
                position as int,
            ),
        decreases tokens.len() - position,
    {
        let ghost done = pre_views(finished@);
        let ghost open = open_views(queue_stack@);
        assert(views[position as int] == tokens@[position as int]@);
        match &tokens[position] {
            Token::ParenOpen => {
                queue_stack.push(Vec::new());
                proof {
                    assert(open_views(queue_stack@) =~~= open.push(Seq::empty()));
                    assert(open.push(Seq::empty()).drop_last() =~= open);
                    assert(write_all(done) + (write_open(open) + seq![SpecToken::ParenOpen]
                        + Seq::<SpecToken>::empty()) =~= (write_all(done) + write_open(open)).push(
                        SpecToken::ParenOpen,
                    ));
                }
            },
            Token::ParenClose => match queue_stack.pop() {
                Some(items) => {
                    proof {
                        let outer = open.drop_last();
                        assert(open_views(queue_stack@) =~~= outer);
                        lemma_pre_list_view(items);
                        assert(write_all(done) + write_open(outer) + (seq![SpecToken::ParenOpen]
                            + write_all(open.last()) + seq![SpecToken::ParenClose]) =~= (write_all(
                            done,
                        ) + (write_open(outer) + seq![SpecToken::ParenOpen] + write_all(
                            open.last(),
                        ))).push(SpecToken::ParenClose));
                    }
                    place(DataPre::List(items), &mut queue_stack, &mut finished);
                },
                None => {
                    assert(depth(lexemes(views), position + 1) < 0);
                    return Err(ParserError::UnmatchedParenRight);
                },
            },
            Token::Symbol(s) => {
                place(DataPre::Symbol(s.clone()), &mut queue_stack, &mut finished);
            },
            Token::StringLiteral(s) => {
                place(DataPre::Str(s.clone()), &mut queue_stack, &mut finished);
            },
            Token::Integer(i) => {
                place(DataPre::Int(i.clone()), &mut queue_stack, &mut finished);
            },
            Token::Float(f) => {
                place(DataPre::Float(f.clone()), &mut queue_stack, &mut finished);
            },
        }
        position += 1;
    }
    assert(views.take(tokens.len() as int) =~= views);
    if queue_stack.len() != 0 {
        return Err(ParserError::UnmatchedParenLeft);
    }
    Ok(finished)
}

/// What tokens that stand one after the other stand for.
pub proof fn lemma_lexemes_of_joined(a: Seq<SpecToken>, b: Seq<SpecToken>)
    ensures
        lexemes(a + b) == lexemes(a) + lexemes(b),
{
}

/// Reading the numerals changes nothing in how data is spelt: the
/// expression that data becomes is spelt as the data is written.
pub proof fn lemma_typed_is_spelt(pre: SpecDataPre)
    ensures
        spell(typed(pre)) == lexemes(write(pre)),
    decreases pre, 0int,
{
    match pre {
        SpecDataPre::List(items) => {
            lemma_typed_are_spelt(items);
            assert(typed(pre)->List_0 =~= typed_all(items));
            let open = seq![SpecToken::ParenOpen];
            let close = seq![SpecToken::ParenClose];
            lemma_lexemes_of_joined(open + write_all(items), close);
            lemma_lexemes_of_joined(open, write_all(items));
        },
        _ => {},
    }
}

/// The expressions that data become are spelt as the data are written.
pub proof fn lemma_typed_are_spelt(data: Seq<SpecDataPre>)
    ensures
        spell_all(typed_all(data)) == lexemes(write_all(data)),
    decreases data, 1int,
{
    if data.len() > 0 {
        lemma_typed_are_spelt(data.drop_last());
        lemma_typed_is_spelt(data.last());
        assert(typed_all(data).drop_last() =~= typed_all(data.drop_last()));
        lemma_lexemes_of_joined(write_all(data.drop_last()), write(data.last()));
    }
}

/// Where every integer token fits, so do those of each part.
pub proof fn lemma_parts_fit(a: Seq<SpecToken>, b: Seq<SpecToken>)
    requires
        all_integers_fit(a + b),
    ensures
        all_integers_fit(a),
        all_integers_fit(b),
{
    assert forall|i: int| 0 <= i < a.len() implies (#[trigger] a[i] matches SpecToken::Integer(s)
        ==> integer_value(s) is Some) by {
        assert((a + b)[i] == a[i]);
    }
    assert forall|i: int| 0 <= i < b.len() implies (#[trigger] b[i] matches SpecToken::Integer(s)
        ==> integer_value(s) is Some) by {
        assert((a + b)[a.len() + i] == b[i]);
    }
}

/// Data whose integer tokens all fit holds numerals that all fit.
pub proof fn lemma_written_numeral_fits(pre: SpecDataPre)
    requires
        all_integers_fit(write(pre)),
    ensures
        numerals_fit(pre),
    decreases pre, 0int,
{
    match pre {
        SpecDataPre::List(items) => {
            lemma_parts_fit(
                seq![SpecToken::ParenOpen] + write_all(items),
                seq![SpecToken::ParenClose],
            );
            lemma_parts_fit(seq![SpecToken::ParenOpen], write_all(items));
            lemma_written_numerals_fit(items);
        },
        SpecDataPre::Int(s) => {
            assert(write(pre)[0] == SpecToken::Integer(s));
        },
        _ => {},
    }
}

/// Data whose integer tokens all fit hold numerals that all fit.
pub proof fn lemma_written_numerals_fit(data: Seq<SpecDataPre>)
    requires
        all_integers_fit(write_all(data)),
    ensures
        all_numerals_fit(data),
    decreases data, 1int,
{
    if data.len() > 0 {
        lemma_parts_fit(write_all(data.drop_last()), write(data.last()));
        lemma_written_numerals_fit(data.drop_last());
        lemma_written_numeral_fits(data.last());
        assert forall|i: int| 0 <= i < data.len() implies numerals_fit(#[trigger] data[i]) by {
            if i < data.len() - 1 {
                assert(data.drop_last()[i] == data[i]);
            }
        }
    }
}

/// Where no list is closed that was not open, every integer token is read.
pub proof fn lemma_all_are_read(tokens: Seq<SpecToken>)
    requires
        integers_fit(tokens),
        !closes_unopened(lexemes(tokens)),
    ensures
        all_integers_fit(tokens),
{
}

/// Data becomes the same value whether its numerals are read first or not.
pub proof fn lemma_typed_is_the_same_data(pre: SpecDataPre)
    ensures
        data_of_expression(typed(pre)) == data_of_pre(pre),
    decreases pre,
{
    match pre {
        SpecDataPre::List(items) => {
            assert forall|i: int| 0 <= i < items.len() implies data_of_expression(
                typed(items[i]),
            ) == data_of_pre(items[i]) by {
                lemma_typed_is_the_same_data(items[i]);
            }
            assert(data_of_expression(typed(pre))->List_0 =~= data_of_pre(pre)->List_0);
        },
        _ => {},
    }
}

impl Expression {
    /// Makes an expression of data by reading its numerals. `Nil` becomes
    /// the symbol `nil`.
    pub fn from_pre(pre: &DataPre) -> (expression: Expression)
        requires
            numerals_fit(pre@),
        ensures
            expression@ == typed(pre@),
        decreases pre,
    {
        match pre {
            DataPre::List(items) => {
                let mut expressions: Vec<Expression> = Vec::new();
                let mut i: usize = 0;
                while i < items.len()
                    invariant
                        i <= items.len(),
                        pre is List,
                        pre->List_0 == *items,
                        numerals_fit(pre@),
                        expressions@.len() == i,
                        forall|k: int| 0 <= k < i ==> expressions@[k]@ == typed(items@[k]@),
                    decreases items.len() - i,
                {
                    assert(pre@->List_0[i as int] == items@[i as int]@);
                    expressions.push(Expression::from_pre(&items[i]));
                    i += 1;
                }
                assert(Expression::List(expressions)@->List_0 =~= typed(pre@)->List_0);
                Expression::List(expressions)
            },
            DataPre::Int(s) => Expression::Integer(parse_integer(s.as_str()).unwrap()),
            DataPre::Float(s) => Expression::Float(s.clone()),
            DataPre::Str(s) => Expression::StringLiteral(s.clone()),
            DataPre::Symbol(s) => Expression::Symbol(s.clone()),
            DataPre::Nil => Expression::Symbol(String::from_str("nil")),
        }
    }
}

/// Whether every integer token that is read writes a value that a 64-bit
/// integer can hold.
pub fn check_integers(tokens: &Vec<Token>) -> (fit: bool)
    ensures
        fit == integers_fit(token_views(tokens@)),
{
    let ghost views = token_views(tokens@);
    let mut open: usize = 0;
    let mut i: usize = 0;
    while i < tokens.len()
        invariant
            i <= tokens.len(),
            views == token_views(tokens@),
            open == depth(lexemes(views), i as int),
            open <= i,
            stays_open(lexemes(views), i as int),
            forall|k: int|
                0 <= k < i ==> (#[trigger] views[k] matches SpecToken::Integer(s) ==> integer_value(
                    s,
                ) is Some),
        decreases tokens.len() - i,
    {
        assert(views[i as int] == tokens@[i as int]@);
        match &tokens[i] {
            Token::ParenOpen => {
                open += 1;
            },
            Token::ParenClose => {
                if open == 0 {
                    assert(depth(lexemes(views), i + 1) < 0);
                    return true;
                }
                open -= 1;
            },
            Token::Integer(text) => {
                if parse_integer(text.as_str()).is_none() {
                    return false;
                }
            },
            _ => {},
        }
        i += 1;
    }
    true
}

/// Nests `tokens` into expression trees.
///
/// It fails exactly where `failure` says so: on a closing parenthesis that
/// closes no list, whatever follows it, and failing that on a list left open
/// at the end. Otherwise the trees it returns spell the tokens, and there is
/// one list among them for each group of parentheses at the top level. An
/// integer token that is read and whose value a 64-bit integer cannot hold
/// has no expression: `check_integers` tells whether there is one.
pub fn parse_tokens(tokens: &Vec<Token>) -> (r: Result<Vec<Expression>, ParserError>)
    requires
        integers_fit(token_views(tokens@)),
    ensures
        match failure(token_views(tokens@)) {
            None => {
                &&& r matches Ok(expressions)
                &&& spell_all(expression_views(expressions@)) == lexemes(token_views(tokens@))
                &&& expression_views(expressions@) == spelt_by(lexemes(token_views(tokens@)))
                &&& lists_in(expression_views(expressions@)) == groups_in(
                    lexemes(token_views(tokens@)),
                    tokens@.len() as int,
                )
            },
            Some(error) => r matches Err(e) && e == error,
        },
{
    let data = match nest(tokens) {
        Ok(data) => data,
        Err(error) => {
            return Err(error);
        },
    };
    proof {
        lemma_all_are_read(token_views(tokens@));
        lemma_written_numerals_fit(pre_views(data@));
        lemma_typed_are_spelt(pre_views(data@));
    }
    let mut expressions: Vec<Expression> = Vec::new();
    let mut i: usize = 0;
    while i < data.len()
        invariant
            i <= data.len(),
            all_numerals_fit(pre_views(data@)),
            expressions@.len() == i,
            forall|k: int| 0 <= k < i ==> expressions@[k]@ == typed(data@[k]@),
        decreases data.len() - i,
    {
        assert(pre_views(data@)[i as int] == data@[i as int]@);
        expressions.push(Expression::from_pre(&data[i]));
        i += 1;
    }
    proof {
        assert(expression_views(expressions@) =~= typed_all(pre_views(data@)));
        lemma_spelt_by_spelling(expression_views(expressions@));
        lemma_one_list_per_group(expression_views(expressions@));
    }
    Ok(expressions)
}

/// `text` is empty or ends with an opening parenthesis.
pub open spec fn ends_open(text: Seq<Lexeme>) -> bool {
    text.len() == 0 || text.last() == Lexeme::Open
}

/// The spelling of expressions, where there is any, ends with a leaf or a
/// closing parenthesis.
pub proof fn lemma_spelling_ends(expressions: Seq<SpecExpression>)
    requires
        expressions.len() > 0,
    ensures
        spell_all(expressions).len() > 0,
        spell_all(expressions).last() == match expressions.last() {
            SpecExpression::List(_) => Lexeme::Close,
            leaf => Lexeme::Leaf(leaf),
        },
        spell_all(expressions).drop_last() == spell_all(expressions.drop_last()) + spell(
            expressions.last(),
        ).drop_last(),
{
    let last = spell(expressions.last());
    assert(last.len() > 0 && last.last() == match expressions.last() {
        SpecExpression::List(_) => Lexeme::Close,
        leaf => Lexeme::Leaf(leaf),
    }) by {
        reveal_with_fuel(spell, 2);
    }
}

/// Behind texts that end with an opening parenthesis, or are empty, equal
/// spellings come from equal expressions.
pub proof fn lemma_spelling_is_unique_behind(
    x: Seq<Lexeme>,
    f: Seq<SpecExpression>,
    y: Seq<Lexeme>,
    g: Seq<SpecExpression>,
)
    requires
        ends_open(x),
        ends_open(y),
        x + spell_all(f) == y + spell_all(g),
    ensures
        f == g,
        x == y,
    decreases f,
{
    if f.len() == 0 || g.len() == 0 {
        if f.len() > 0 {
            lemma_spelling_ends(f);
        }
        if g.len() > 0 {
            lemma_spelling_ends(g);
        }
    } else {
        let a = f.last();
        let b = g.last();
        let f0 = f.drop_last();
        let g0 = g.drop_last();
        let whole = x + spell_all(f);
        lemma_spelling_ends(f);
        lemma_spelling_ends(g);
        assert(whole.last() == spell_all(g).last());
        assert(whole.drop_last() =~= x + spell_all(f).drop_last());
        assert(whole.drop_last() =~= y + spell_all(g).drop_last());
        match a {
            SpecExpression::List(items_a) => {
                let items_b = b->List_0;
                let xa = x + spell_all(f0) + seq![Lexeme::Open];
                let yb = y + spell_all(g0) + seq![Lexeme::Open];
                assert(xa + spell_all(items_a) =~= x + spell_all(f).drop_last());
                assert(yb + spell_all(items_b) =~= y + spell_all(g).drop_last());
                lemma_spelling_is_unique_behind(xa, items_a, yb, items_b);
                assert(xa.drop_last() =~= x + spell_all(f0));
                assert(yb.drop_last() =~= y + spell_all(g0));
                lemma_spelling_is_unique_behind(x, f0, y, g0);
            },
            _ => {
                lemma_spelling_is_unique_behind(x, f0, y, g0);
            },
        }
        assert(g =~= g0.push(b));
    }
}

/// Expressions that are spelt alike are the same: the tokens decide the trees.
pub proof fn lemma_spelling_is_unique(f: Seq<SpecExpression>, g: Seq<SpecExpression>)
    requires
        spell_all(f) == spell_all(g),
    ensures
        f == g,
{
    lemma_spelling_is_unique_behind(Seq::empty(), f, Seq::empty(), g);
}

/// How many of `expressions` are lists.
pub open spec fn lists_in(expressions: Seq<SpecExpression>) -> nat
    decreases expressions.len(),
{
    if expressions.len() == 0 {
        0
    } else {
        lists_in(expressions.drop_last()) + if expressions.last() is List {
            1nat
        } else {
            0nat
        }
    }
}

/// How many groups open at the top level among the first `n` lexemes of
/// `text`: the opening parentheses that stand where no list is open.
pub open spec fn groups_in(text: Seq<Lexeme>, n: int) -> nat
    decreases n,
{
    if n <= 0 {
        0
    } else {
        groups_in(text, n - 1) + if text[n - 1] == Lexeme::Open && depth(text, n - 1) == 0 {
            1nat
        } else {
            0nat
        }
    }
}

/// The depth within a text that stands first is its own, and the depth within
/// a text that follows it is counted on from the first text's end.
pub proof fn lemma_depth_of_joined(a: Seq<Lexeme>, b: Seq<Lexeme>, k: int)
    requires
        0 <= k <= b.len(),
    ensures
        forall|n: int| 0 <= n <= a.len() ==> #[trigger] depth(a + b, n) == depth(a, n),
        depth(a + b, a.len() + k) == depth(a, a.len() as int) + depth(b, k),
    decreases k,
{
    assert forall|n: int| 0 <= n <= a.len() implies #[trigger] depth(a + b, n) == depth(a, n) by {
        lemma_depth_of_prefix(a, b, n);
    }
    if k > 0 {
        lemma_depth_of_joined(a, b, k - 1);
    }
}

/// The depth within a text that stands first is its own.
pub proof fn lemma_depth_of_prefix(a: Seq<Lexeme>, b: Seq<Lexeme>, n: int)
    requires
        0 <= n <= a.len(),
    ensures
        depth(a + b, n) == depth(a, n),
    decreases n,
{
    if n > 0 {
        lemma_depth_of_prefix(a, b, n - 1);
    }
}

/// No spelling closes a list that is not open, and every spelling closes the
/// lists that it opens. Within the spelling of a list, a list is open.
pub proof fn lemma_spelling_is_balanced(expression: SpecExpression)
    ensures
        forall|k: int| 0 <= k <= spell(expression).len() ==> #[trigger] depth(spell(expression), k) >= 0,
        depth(spell(expression), spell(expression).len() as int) == 0,
        expression is List ==> forall|k: int|
            0 < k < spell(expression).len() ==> #[trigger] depth(spell(expression), k) >= 1,
    decreases expression, 0int,
{
    match expression {
        SpecExpression::List(items) => {
            let inner = spell_all(items);
            let head = seq![Lexeme::Open];
            let tail = seq![Lexeme::Close];
            lemma_spellings_are_balanced(items);
            assert(depth(head, 1) == 1) by {
                assert(depth(head, 0) == 0);
            }
            assert(depth(tail, 1) == -1) by {
                assert(depth(tail, 0) == 0);
            }
            assert forall|k: int| 0 <= k <= inner.len() implies #[trigger] depth(
                head + inner,
                1 + k,
            ) == 1 + depth(inner, k) by {
                lemma_depth_of_joined(head, inner, k);
            }
            lemma_depth_of_joined(head, inner, 0);
            lemma_depth_of_joined(head + inner, tail, 1);
            assert forall|k: int| 0 <= k <= spell(expression).len() implies #[trigger] depth(
                spell(expression),
                k,
            ) >= 0 && (0 < k < spell(expression).len() ==> depth(spell(expression), k) >= 1) by {
                if k <= (head + inner).len() {
                    if k >= 1 {
                        assert(depth(head + inner, 1 + (k - 1)) == 1 + depth(inner, k - 1));
                    }
                }
            }
        },
        _ => {
            assert(depth(spell(expression), 0) == 0);
        },
    }
}

/// No spelling of expressions closes a list that is not open, and every one
/// closes the lists that it opens.
pub proof fn lemma_spellings_are_balanced(expressions: Seq<SpecExpression>)
    ensures
        forall|k: int|
            0 <= k <= spell_all(expressions).len() ==> #[trigger] depth(
                spell_all(expressions),
                k,
            ) >= 0,
        depth(spell_all(expressions), spell_all(expressions).len() as int) == 0,
    decreases expressions, 1int,
{
    if expressions.len() > 0 {
        let first = spell_all(expressions.drop_last());
        let last = spell(expressions.last());
        lemma_spellings_are_balanced(expressions.drop_last());
        lemma_spelling_is_balanced(expressions.last());
        lemma_depth_of_joined(first, last, last.len() as int);
        assert forall|k: int| 0 <= k <= (first + last).len() implies #[trigger] depth(
            first + last,
            k,
        ) >= 0 by {
            if k > first.len() {
                lemma_depth_of_joined(first, last, k - first.len());
            }
        }
    }
}

/// Behind a text that closes the lists that it opens, groups are counted on
/// from that text's count.
pub proof fn lemma_groups_of_joined(a: Seq<Lexeme>, b: Seq<Lexeme>, k: int)
    requires
        0 <= k <= b.len(),
        depth(a, a.len() as int) == 0,
    ensures
        groups_in(a + b, a.len() + k) == groups_in(a, a.len() as int) + groups_in(b, k),
    decreases k,
{
    if k > 0 {
        lemma_groups_of_joined(a, b, k - 1);
        lemma_depth_of_joined(a, b, k - 1);
    } else {
        lemma_groups_of_prefix(a, b, a.len() as int);
    }
}

/// The groups within a text that stands first are its own.
pub proof fn lemma_groups_of_prefix(a: Seq<Lexeme>, b: Seq<Lexeme>, n: int)
    requires
        0 <= n <= a.len(),
    ensures
        groups_in(a + b, n) == groups_in(a, n),
    decreases n,
{
    if n > 0 {
        lemma_groups_of_prefix(a, b, n - 1);
        lemma_depth_of_prefix(a, b, n - 1);
    }
}

/// The spelling of a list is one group, and the spelling of any other
/// expression is none.
pub proof fn lemma_groups_of_one(expression: SpecExpression, n: int)
    requires
        0 < n <= spell(expression).len(),
    ensures
        groups_in(spell(expression), n) == if expression is List {
            1nat
        } else {
            0nat
        },
    decreases n,
{
    lemma_spelling_is_balanced(expression);
    assert(groups_in(spell(expression), 0) == 0);
    if n > 1 {
        lemma_groups_of_one(expression, n - 1);
    }
}

/// One list for each group: as many of the expressions are lists as their
/// spelling opens groups at the top level.
pub proof fn lemma_one_list_per_group(expressions: Seq<SpecExpression>)
    ensures
        lists_in(expressions) == groups_in(
            spell_all(expressions),
            spell_all(expressions).len() as int,
        ),
    decreases expressions.len(),
{
    if expressions.len() > 0 {
        let first = spell_all(expressions.drop_last());
        let last = spell(expressions.last());
        lemma_one_list_per_group(expressions.drop_last());
        lemma_spellings_are_balanced(expressions.drop_last());
        lemma_spelling_ends(expressions);
        assert(last.len() > 0) by {
            reveal_with_fuel(spell, 2);
        }
        lemma_groups_of_one(expressions.last(), last.len() as int);
        lemma_groups_of_joined(first, last, last.len() as int);
    }
}

/// The expressions that `text` spells; `lemma_spelling_is_unique` says that
/// there is at most one such sequence.
pub open spec fn spelt_by(text: Seq<Lexeme>) -> Seq<SpecExpression> {
    choose|expressions: Seq<SpecExpression>| spell_all(expressions) == text
}

/// Expressions are the ones that their spelling spells.
pub proof fn lemma_spelt_by_spelling(expressions: Seq<SpecExpression>)
    ensures
        spelt_by(spell_all(expressions)) == expressions,
{
    lemma_spelling_is_unique(spelt_by(spell_all(expressions)), expressions);
}

/// Why a text is no program.
#[derive(Debug, Clone, Copy, PartialEq, Eq, Structural)]
pub enum ProgramError {
    /// The text could not be cut into tokens.
    Lexer(LexerError),
    /// The tokens could not be nested into trees.
    Parser(ParserError),
    /// An integer is written that a 64-bit integer cannot hold.
    IntegerTooLarge,
}

/// The error that the text `program` holds, if any: the lexer's error first,
/// then an integer that is read and is too large, then the parser's error.
pub open spec fn program_failure(program: Seq<char>) -> Option<ProgramError> {
    match tokens_of(program) {
        Err(error) => Some(ProgramError::Lexer(error)),
        Ok(tokens) => if !integers_fit(tokens) {
            Some(ProgramError::IntegerTooLarge)
        } else {
            match failure(tokens) {
                Some(error) => Some(ProgramError::Parser(error)),
                None => None,
            }
        },
    }
}

/// The expressions that the text `program` writes, where it holds no error.
pub open spec fn program_of(program: Seq<char>) -> Seq<SpecExpression> {
    spelt_by(lexemes(tokens_of(program)->Ok_0))
}

/// Reads the text `program` into data: cuts it into tokens and nests them.
/// The numerals stand in the data as they are written in the text; all of
/// them can be read.
pub fn parse_program(program: &str) -> (r: Result<Vec<DataPre>, ProgramError>)
    ensures
        match program_failure(program@) {
            None => {
                &&& r matches Ok(data)
                &&& write_all(pre_views(data@)) == tokens_of(program@)->Ok_0
                &&& hold_no_nil(pre_views(data@))
                &&& all_numerals_fit(pre_views(data@))
                &&& typed_all(pre_views(data@)) == program_of(program@)
            },
            Some(error) => r matches Err(e) && e == error,
        },
{
    let mut lexer = Lexer::with_content(program);
    let tokens = match lexer.get_tokens() {
        Ok(tokens) => tokens,
        Err(error) => {
            return Err(ProgramError::Lexer(error));
        },
    };
    if !check_integers(&tokens) {
        return Err(ProgramError::IntegerTooLarge);
    }
    match nest(&tokens) {
        Ok(data) => {
            proof {
                lemma_all_are_read(token_views(tokens@));
                lemma_written_numerals_fit(pre_views(data@));
                lemma_typed_are_spelt(pre_views(data@));
                lemma_spelt_by_spelling(typed_all(pre_views(data@)));
            }
            Ok(data)
        },
        Err(error) => Err(ProgramError::Parser(error)),
    }
}

} // verus!
