use crisp::data::DataPre;
use crisp::lexer::{Lexer, LexerError, Token};
use crisp::parser::{
    check_integers, parse_program, parse_tokens, Expression, ParserError, ProgramError,
};

fn symbol(name: &str) -> Expression {
    Expression::Symbol(name.to_string())
}

fn list(items: Vec<Expression>) -> Expression {
    Expression::List(items)
}

fn count_lists(expressions: &[Expression]) -> usize {
    expressions.iter().filter(|e| matches!(e, Expression::List(_))).count()
}

#[test]
fn no_tokens_are_no_expressions() {
    assert_eq!(parse_tokens(&vec![]), Ok(vec![]));
}

#[test]
fn leaves_outside_any_list_stand_at_the_top() {
    let tokens = vec![
        Token::Symbol("a".to_string()),
        Token::StringLiteral("b c".to_string()),
        Token::Integer("12".to_string()),
        Token::Float("1.5".to_string()),
    ];
    assert_eq!(
        parse_tokens(&tokens),
        Ok(vec![
            symbol("a"),
            Expression::StringLiteral("b c".to_string()),
            Expression::Integer(12),
            Expression::Float("1.5".to_string()),
        ])
    );
}

#[test]
fn an_empty_pair_of_parentheses_is_an_empty_list() {
    assert_eq!(parse_tokens(&vec![Token::ParenOpen, Token::ParenClose]), Ok(vec![list(vec![])]));
}

#[test]
fn lists_nest() {
    // (a (b 1) ()) c
    let tokens = vec![
        Token::ParenOpen,
        Token::Symbol("a".to_string()),
        Token::ParenOpen,
        Token::Symbol("b".to_string()),
        Token::Integer("1".to_string()),
        Token::ParenClose,
        Token::ParenOpen,
        Token::ParenClose,
        Token::ParenClose,
        Token::Symbol("c".to_string()),
    ];
    assert_eq!(
        parse_tokens(&tokens),
        Ok(vec![
            list(vec![symbol("a"), list(vec![symbol("b"), Expression::Integer(1)]), list(vec![])]),
            symbol("c"),
        ])
    );
}

#[test]
fn there_is_one_list_for_each_group_at_the_top() {
    // (a) b ((c)) () d (e (f) (g))
    let tokens = Lexer::with_content("(a) b ((c)) () d (e (f) (g))").get_tokens().unwrap();
    let expressions = parse_tokens(&tokens).unwrap();
    assert_eq!(expressions.len(), 6);
    assert_eq!(count_lists(&expressions), 4);
    let program = parse_program("(a) b ((c)) () d (e (f) (g))").unwrap();
    assert_eq!(program.len(), 6);
    assert_eq!(program.iter().filter(|pre| matches!(pre, DataPre::List(_))).count(), 4);
}

#[test]
fn an_integer_token_is_read_as_its_value() {
    assert_eq!(
        parse_tokens(&vec![Token::Integer("007".to_string()), Token::Integer("-3".to_string())]),
        Ok(vec![Expression::Integer(7), Expression::Integer(-3)])
    );
}

#[test]
fn a_closing_parenthesis_alone_is_unmatched() {
    assert_eq!(parse_tokens(&vec![Token::ParenClose]), Err(ParserError::UnmatchedParenRight));
}

#[test]
fn a_list_closed_twice_is_unmatched_on_the_right() {
    let tokens = vec![
        Token::ParenOpen,
        Token::Symbol("a".to_string()),
        Token::ParenClose,
        Token::ParenClose,
        Token::Symbol("b".to_string()),
    ];
    assert_eq!(parse_tokens(&tokens), Err(ParserError::UnmatchedParenRight));
}

#[test]
fn an_unmatched_closing_parenthesis_wins_over_a_list_left_open() {
    let tokens = vec![Token::ParenClose, Token::ParenOpen];
    assert_eq!(parse_tokens(&tokens), Err(ParserError::UnmatchedParenRight));
}

#[test]
fn a_list_left_open_is_unmatched_on_the_left() {
    let tokens = vec![Token::ParenOpen, Token::Symbol("a".to_string())];
    assert_eq!(parse_tokens(&tokens), Err(ParserError::UnmatchedParenLeft));
}

#[test]
fn an_inner_list_left_open_is_unmatched_on_the_left() {
    let tokens = vec![Token::ParenOpen, Token::ParenOpen, Token::ParenClose];
    assert_eq!(parse_tokens(&tokens), Err(ParserError::UnmatchedParenLeft));
}

#[test]
fn what_stands_behind_an_unmatched_closing_parenthesis_is_not_read() {
    let tokens = vec![Token::ParenClose, Token::Integer("99999999999999999999".to_string())];
    assert!(check_integers(&tokens));
    assert_eq!(parse_tokens(&tokens), Err(ParserError::UnmatchedParenRight));
    let tokens = vec![
        Token::ParenOpen,
        Token::Integer("1".to_string()),
        Token::ParenClose,
        Token::ParenClose,
        Token::Integer("abc".to_string()),
    ];
    assert!(check_integers(&tokens));
    assert_eq!(parse_tokens(&tokens), Err(ParserError::UnmatchedParenRight));
    let tokens = vec![
        Token::ParenOpen,
        Token::Integer("99999999999999999999".to_string()),
        Token::ParenClose,
        Token::ParenClose,
    ];
    assert!(!check_integers(&tokens));
}

#[test]
fn integers_that_fit_are_told_from_those_that_do_not() {
    assert!(check_integers(&vec![]));
    assert!(check_integers(&vec![
        Token::Integer("9223372036854775807".to_string()),
        Token::Symbol("99999999999999999999".to_string()),
        Token::Float("99999999999999999999.5".to_string()),
    ]));
    assert!(!check_integers(&vec![
        Token::Integer("1".to_string()),
        Token::Integer("9223372036854775808".to_string()),
    ]));
    assert!(!check_integers(&vec![Token::Integer("abc".to_string())]));
    assert!(!check_integers(&vec![Token::Integer("".to_string())]));
}

fn pre_symbol(name: &str) -> DataPre {
    DataPre::Symbol(name.to_string())
}

#[test]
fn a_program_is_read_from_text() {
    assert_eq!(
        parse_program("(println (+ 1 2))"),
        Ok(vec![DataPre::List(vec![
            pre_symbol("println"),
            DataPre::List(vec![
                pre_symbol("+"),
                DataPre::Int("1".to_string()),
                DataPre::Int("2".to_string()),
            ]),
        ])])
    );
}

#[test]
fn a_program_keeps_its_numerals_as_written() {
    assert_eq!(
        parse_program("(println \"Hello, World!\") 007 (+ 1. 2.50 nil)"),
        Ok(vec![
            DataPre::List(vec![pre_symbol("println"), DataPre::Str("Hello, World!".to_string())]),
            DataPre::Int("007".to_string()),
            DataPre::List(vec![
                pre_symbol("+"),
                DataPre::Float("1.".to_string()),
                DataPre::Float("2.50".to_string()),
                pre_symbol("nil"),
            ]),
        ])
    );
}

#[test]
fn what_a_program_holds_can_be_read() {
    for text in ["", "1", "(+ 9223372036854775807 1)", "((a) \"b\" 1.5)"] {
        for pre in parse_program(text).unwrap() {
            assert!(pre.is_readable());
        }
    }
}

#[test]
fn numerals_are_read_to_make_an_expression() {
    let pre = DataPre::List(vec![
        pre_symbol("a"),
        DataPre::Int("007".to_string()),
        DataPre::Int("-3".to_string()),
        DataPre::Float("1.50".to_string()),
        DataPre::Str("b".to_string()),
        DataPre::Nil,
        DataPre::List(vec![]),
    ]);
    assert_eq!(
        Expression::from_pre(&pre),
        list(vec![
            symbol("a"),
            Expression::Integer(7),
            Expression::Integer(-3),
            Expression::Float("1.50".to_string()),
            Expression::StringLiteral("b".to_string()),
            symbol("nil"),
            list(vec![]),
        ])
    );
}

#[test]
fn the_empty_text_is_the_empty_program() {
    assert_eq!(parse_program(""), Ok(vec![]));
}

#[test]
fn a_program_that_cannot_be_cut_into_tokens() {
    assert_eq!(parse_program("(a 'b)"), Err(ProgramError::Lexer(LexerError::UnimplementedToken)));
    assert_eq!(parse_program("(a \"b)"), Err(ProgramError::Lexer(LexerError::UnexpectedEOF)));
    assert_eq!(
        parse_program("(a 1b)"),
        Err(ProgramError::Lexer(LexerError::InvalidCharacter(4, 'b')))
    );
}

#[test]
fn the_lexer_s_error_comes_before_the_parser_s() {
    assert_eq!(parse_program(") #"), Err(ProgramError::Lexer(LexerError::UnimplementedToken)));
}

#[test]
fn a_program_that_cannot_be_nested() {
    assert_eq!(parse_program("(a))"), Err(ProgramError::Parser(ParserError::UnmatchedParenRight)));
    assert_eq!(parse_program("((a)"), Err(ProgramError::Parser(ParserError::UnmatchedParenLeft)));
}

#[test]
fn a_program_with_an_integer_that_is_too_large() {
    assert_eq!(parse_program("(+ 1 9223372036854775808)"), Err(ProgramError::IntegerTooLarge));
    assert_eq!(parse_program("(9223372036854775808))"), Err(ProgramError::IntegerTooLarge));
    assert_eq!(
        parse_program(") 9223372036854775808"),
        Err(ProgramError::Parser(ParserError::UnmatchedParenRight))
    );
}

#[test]
fn an_expression_is_cloned_as_it_is() {
    let expression = list(vec![symbol("a"), list(vec![Expression::Integer(1)])]);
    assert_eq!(expression.clone(), expression);
}
