use crisp::lexer::{is_decimal_digit, Lexer, LexerError, Token};
use crisp::surface::SurfaceToken;

fn lex(text: &str) -> Result<Vec<Token>, LexerError> {
    Lexer::with_content(text).get_tokens()
}

fn symbol(name: &str) -> Token {
    Token::Symbol(name.to_string())
}

fn integer(text: &str) -> Token {
    Token::Integer(text.to_string())
}

fn float(text: &str) -> Token {
    Token::Float(text.to_string())
}

fn string(text: &str) -> Token {
    Token::StringLiteral(text.to_string())
}

#[test]
fn tokenizes_a_call_with_two_strings() {
    assert_eq!(
        lex("(println \"Hello, {}\" \"World!\")"),
        Ok(vec![
            Token::ParenOpen,
            symbol("println"),
            string("Hello, {}"),
            string("World!"),
            Token::ParenClose,
        ])
    );
}

#[test]
fn empty_text_has_no_tokens() {
    assert_eq!(lex(""), Ok(vec![]));
}

#[test]
fn spaces_alone_have_no_tokens() {
    assert_eq!(lex("    "), Ok(vec![]));
}

#[test]
fn an_integer_runs_to_the_end_of_the_text() {
    assert_eq!(lex("42"), Ok(vec![integer("42")]));
}

#[test]
fn an_integer_keeps_its_leading_zeros() {
    assert_eq!(lex("007 "), Ok(vec![integer("007")]));
}

#[test]
fn a_float_holds_one_point() {
    assert_eq!(lex("3.14"), Ok(vec![float("3.14")]));
}

#[test]
fn a_float_may_end_with_its_point() {
    assert_eq!(lex("1. 2"), Ok(vec![float("1."), integer("2")]));
}

#[test]
fn the_parenthesis_that_ends_a_number_is_a_token_too() {
    assert_eq!(
        lex("(+ 1 2.5)"),
        Ok(vec![Token::ParenOpen, symbol("+"), integer("1"), float("2.5"), Token::ParenClose])
    );
}

#[test]
fn the_parenthesis_that_ends_a_symbol_is_a_token_too() {
    assert_eq!(
        lex("(a(b))"),
        Ok(vec![
            Token::ParenOpen,
            symbol("a"),
            Token::ParenOpen,
            symbol("b"),
            Token::ParenClose,
            Token::ParenClose,
        ])
    );
}

#[test]
fn a_symbol_may_hold_digits_and_quotes() {
    assert_eq!(lex("a1\"b"), Ok(vec![symbol("a1\"b")]));
}

#[test]
fn only_the_space_separates_tokens() {
    assert_eq!(lex("a\nb\tc"), Ok(vec![symbol("a\nb\tc")]));
}

#[test]
fn a_point_before_digits_starts_a_symbol() {
    assert_eq!(lex(".5"), Ok(vec![symbol(".5")]));
}

#[test]
fn a_string_keeps_spaces_and_parentheses() {
    assert_eq!(lex("\"a (b) #c\""), Ok(vec![string("a (b) #c")]));
}

#[test]
fn a_string_knows_no_escapes() {
    assert_eq!(lex("\"a\\\" b"), Ok(vec![string("a\\"), symbol("b")]));
}

#[test]
fn an_empty_string_is_a_token() {
    assert_eq!(lex("\"\""), Ok(vec![string("")]));
}

#[test]
fn a_string_directly_behind_a_string() {
    assert_eq!(lex("\"a\"\"b\""), Ok(vec![string("a"), string("b")]));
}

#[test]
fn a_hash_is_not_implemented() {
    assert_eq!(lex("(a #t)"), Err(LexerError::UnimplementedToken));
}

#[test]
fn an_apostrophe_is_not_implemented() {
    assert_eq!(lex("'a"), Err(LexerError::UnimplementedToken));
}

#[test]
fn a_hash_ends_a_symbol_and_then_fails() {
    assert_eq!(lex("a#"), Err(LexerError::UnimplementedToken));
}

#[test]
fn a_string_left_open_is_an_unexpected_end() {
    assert_eq!(lex("(print \"abc"), Err(LexerError::UnexpectedEOF));
}

#[test]
fn a_letter_in_an_integer_is_invalid() {
    assert_eq!(lex("12a"), Err(LexerError::InvalidCharacter(2, 'a')));
}

#[test]
fn an_opening_parenthesis_in_an_integer_is_invalid() {
    assert_eq!(lex(" 1("), Err(LexerError::InvalidCharacter(2, '(')));
}

#[test]
fn a_second_point_in_a_float_is_invalid() {
    assert_eq!(lex("1.2.3"), Err(LexerError::InvalidCharacter(3, '.')));
}

#[test]
fn a_quote_in_a_float_is_invalid() {
    assert_eq!(lex("(1.5\")"), Err(LexerError::InvalidCharacter(4, '"')));
}

#[test]
fn the_lexer_never_reports_an_empty_context_stack() {
    for text in ["", "(", ")", "a", "1", "1.", "\"", "#", "1a", "(+ 1 2)"] {
        assert_ne!(lex(text), Err(LexerError::EmptyContextStack));
    }
}

#[test]
fn tokens_come_one_at_a_time() {
    let mut lexer = Lexer::with_content("(a 1)");
    assert_eq!(lexer.get_token(), Ok(Some(Token::ParenOpen)));
    assert_eq!(lexer.get_token(), Ok(Some(symbol("a"))));
    assert_eq!(lexer.get_token(), Ok(Some(integer("1"))));
    assert_eq!(lexer.get_token(), Ok(Some(Token::ParenClose)));
    assert_eq!(lexer.get_token(), Ok(None));
    assert_eq!(lexer.get_token(), Ok(None));
}

#[test]
fn the_rest_is_read_from_where_the_lexer_stands() {
    let mut lexer = Lexer::with_content("a b c");
    assert_eq!(lexer.get_token(), Ok(Some(symbol("a"))));
    assert_eq!(lexer.get_tokens(), Ok(vec![symbol("b"), symbol("c")]));
    assert_eq!(lexer.get_tokens(), Ok(vec![]));
}

#[test]
fn after_an_error_the_lexer_stands_where_reading_stopped() {
    let mut lexer = Lexer::with_content("a 1x b");
    assert_eq!(lexer.get_tokens(), Err(LexerError::InvalidCharacter(3, 'x')));
    assert_eq!(lexer.current_char(), Some(&'x'));
    assert_eq!(lexer.get_tokens(), Ok(vec![symbol("x"), symbol("b")]));
}

#[test]
fn a_new_lexer_reads_the_empty_text() {
    let mut lexer = Lexer::new();
    assert_eq!(lexer.current_char(), None);
    assert_eq!(lexer.get_tokens(), Ok(vec![]));
}

#[test]
fn the_current_character_is_the_one_at_the_position() {
    let mut lexer = Lexer::with_content("ab");
    assert_eq!(lexer.current_char(), Some(&'a'));
    assert_eq!(lexer.next_char(), Some(&'b'));
    assert_eq!(lexer.current_char(), Some(&'b'));
    assert_eq!(lexer.next_char(), None);
    assert_eq!(lexer.current_char(), None);
    assert_eq!(lexer.next_char(), None);
    assert_eq!(lexer.current_char(), None);
}

#[test]
fn the_position_moves_on_past_the_end() {
    let mut lexer = Lexer::with_content("a");
    assert_eq!(lexer.next_char(), None);
    assert_eq!(lexer.next_char(), None);
    // Two positions past the end: the end of the line moves one more on.
    assert_eq!(lexer.get_next_token(), (SurfaceToken::EOL, vec![]));
    assert_eq!(lexer.current_char(), None);
    let mut empty = Lexer::new();
    assert_eq!(empty.next_char(), None);
    assert_eq!(empty.current_char(), None);
}

#[test]
fn past_the_end_there_is_nothing_to_read() {
    let mut lexer = Lexer::with_content("a b");
    assert_eq!(lexer.get_tokens(), Ok(vec![symbol("a"), symbol("b")]));
    assert_eq!(lexer.next_char(), None);
    assert_eq!(lexer.next_char(), None);
    assert_eq!(lexer.get_token(), Ok(None));
    assert_eq!(lexer.get_tokens(), Ok(vec![]));
    assert_eq!(lexer.current_char(), None);
}

#[test]
fn characters_are_counted_not_bytes() {
    assert_eq!(lex("é 1x"), Err(LexerError::InvalidCharacter(3, 'x')));
}

#[test]
fn a_lexer_is_made_from_a_string() {
    let text = String::from("(a)");
    let mut lexer = Lexer::from(&text);
    assert_eq!(lexer.get_tokens(), Ok(vec![Token::ParenOpen, symbol("a"), Token::ParenClose]));
}

#[test]
fn the_queue_is_emptied_into_the_string() {
    let mut queue = vec!['a', 'b', 'c'];
    assert_eq!(Lexer::queue_to_string(&mut queue), "abc");
    assert!(queue.is_empty());
    assert_eq!(Lexer::queue_to_string(&mut queue), "");
}

#[test]
fn the_ten_digits_are_digits() {
    for c in "0123456789".chars() {
        assert!(is_decimal_digit(c));
    }
    for c in ['/', ':', 'a', ' ', '.', '٣'] {
        assert!(!is_decimal_digit(c));
    }
}

#[test]
fn a_token_is_cloned_as_it_is() {
    let token = symbol("abc");
    assert_eq!(token.clone(), token);
}
