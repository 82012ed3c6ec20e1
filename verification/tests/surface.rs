use crisp::lexer::Lexer;
use crisp::surface::{OpCode, Operator, SurfaceToken};

fn integer(digits: &str) -> SurfaceToken {
    SurfaceToken::Integer(digits.to_string())
}

fn line(text: &str) -> (Vec<SurfaceToken>, Vec<(usize, char)>) {
    Lexer::with_content(text).get_all_next_tokens()
}

#[test]
fn a_sum_is_read_token_by_token() {
    let mut lexer = Lexer::with_content("12 + 3");
    assert_eq!(lexer.get_next_token(), (integer("12"), vec![]));
    assert_eq!(lexer.get_next_token(), (SurfaceToken::Operator(OpCode::Add), vec![]));
    assert_eq!(lexer.get_next_token(), (integer("3"), vec![]));
    assert_eq!(lexer.get_next_token(), (SurfaceToken::EOL, vec![]));
    assert_eq!(lexer.get_next_token(), (SurfaceToken::EOL, vec![]));
}

#[test]
fn the_four_operators_are_tokens() {
    assert_eq!(
        line("+-*/").0,
        vec![
            SurfaceToken::Operator(OpCode::Add),
            SurfaceToken::Operator(OpCode::Subtract),
            SurfaceToken::Operator(OpCode::Multiply),
            SurfaceToken::Operator(OpCode::Divide),
            SurfaceToken::EOL,
        ]
    );
}

#[test]
fn an_integer_ends_where_its_digits_end() {
    assert_eq!(
        line("(1+23)"),
        (
            vec![
                SurfaceToken::OpenParen,
                integer("1"),
                SurfaceToken::Operator(OpCode::Add),
                integer("23"),
                SurfaceToken::CloseParen,
                SurfaceToken::EOL,
            ],
            vec![]
        )
    );
}

#[test]
fn a_surface_string_holds_what_stands_between_the_quotes() {
    assert_eq!(
        line("\"a + 1\" \"\""),
        (
            vec![
                SurfaceToken::String("a + 1".to_string()),
                SurfaceToken::String("".to_string()),
                SurfaceToken::EOL,
            ],
            vec![]
        )
    );
}

#[test]
fn what_is_no_token_is_passed_over_with_its_position() {
    let mut lexer = Lexer::with_content("a 1.b2");
    assert_eq!(lexer.get_next_token(), (integer("1"), vec![(0, 'a')]));
    assert_eq!(lexer.get_next_token(), (integer("2"), vec![(3, '.'), (4, 'b')]));
    assert_eq!(lexer.get_next_token(), (SurfaceToken::EOL, vec![]));
    assert_eq!(
        line("x1 = y"),
        (vec![integer("1"), SurfaceToken::EOL], vec![(0, 'x'), (3, '='), (5, 'y')])
    );
}

#[test]
fn the_empty_line_is_its_end() {
    assert_eq!(line(""), (vec![SurfaceToken::EOL], vec![]));
    assert_eq!(line("   "), (vec![SurfaceToken::EOL], vec![]));
    assert_eq!(Lexer::new().get_all_next_tokens(), (vec![SurfaceToken::EOL], vec![]));
}

#[test]
fn the_end_of_the_line_comes_last_and_once() {
    for text in ["", "1", "1 + 2", "(\"a\")", "abc", "1 2 3 * / -"] {
        let (tokens, _) = line(text);
        assert_eq!(tokens.last(), Some(&SurfaceToken::EOL));
        assert_eq!(tokens.iter().filter(|token| **token == SurfaceToken::EOL).count(), 1);
    }
}

#[test]
fn the_rest_of_the_line_is_read_from_where_the_lexer_stands() {
    let mut lexer = Lexer::with_content("1 + 2");
    assert_eq!(lexer.get_next_token().0, integer("1"));
    assert_eq!(
        lexer.get_all_next_tokens().0,
        vec![SurfaceToken::Operator(OpCode::Add), integer("2"), SurfaceToken::EOL]
    );
    assert_eq!(lexer.get_all_next_tokens().0, vec![SurfaceToken::EOL]);
    assert_eq!(lexer.current_char(), None);
}

#[test]
fn surface_tokens_and_operators_are_copied_as_they_are() {
    let token = SurfaceToken::String("a".to_string());
    assert_eq!(token.clone(), token);
    assert_eq!(OpCode::Divide.clone(), OpCode::Divide);
    assert_eq!(Operator::Add.clone(), Operator::Add);
}

#[test]
fn a_line_can_be_read_where_its_strings_are_closed() {
    for text in ["", "1 + 2", "\"a\"", "\"a\" \"b\"", "1\"a\"2", "x \"\" y"] {
        assert!(Lexer::with_content(text).can_read_line());
    }
    for text in ["\"", "\"a", "1 \"a\" \"", "1\"", "\"a\" x \" b"] {
        assert!(!Lexer::with_content(text).can_read_line());
    }
}

#[test]
fn a_line_can_be_read_from_inside_what_was_a_string() {
    let mut lexer = Lexer::with_content("\"a\" 1\"");
    assert!(!lexer.can_read_line());
    assert_eq!(lexer.next_char(), Some(&'a'));
    assert!(lexer.can_read_line());
    assert_eq!(
        lexer.get_all_next_tokens(),
        (
            vec![SurfaceToken::String(" 1".to_string()), SurfaceToken::EOL],
            vec![(1, 'a')]
        )
    );
}
