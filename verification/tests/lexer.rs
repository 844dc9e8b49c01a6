use minilex::lexer::Lexer;
use minilex::tokens::Token;

#[test]
fn test_basic_input() {
    let input = "++--";
    let mut lexer = Lexer::new(input);
    let tokens: Vec<Token> = lexer.collect_tokens();

    let expected = vec![Token::Plus, Token::Plus, Token::Minus, Token::Minus];

    assert_eq!(tokens, expected);
}

#[test]
fn test_numeric_inputs() {
    let input = "10+20-30";
    let mut lexer = Lexer::new(input);
    let tokens: Vec<Token> = lexer.collect_tokens();

    let expected = vec![
        Token::Number(10),
        Token::Plus,
        Token::Number(20),
        Token::Minus,
        Token::Number(30),
    ];

    assert_eq!(tokens, expected);
}

#[test]
fn test_operators_map_positionally() {
    let input = "-+";
    let mut lexer = Lexer::new(input);
    let tokens: Vec<Token> = lexer.collect_tokens();

    assert_eq!(tokens.len(), input.len());
    assert_eq!(tokens, vec![Token::Minus, Token::Plus]);
}

#[test]
fn test_single_zero() {
    let mut lexer = Lexer::new("0");
    let tokens: Vec<Token> = lexer.collect_tokens();

    assert_eq!(tokens, vec![Token::Number(0)]);
}

#[test]
fn test_single_digit_then_exhausted() {
    let mut lexer = Lexer::new("5");
    let tokens: Vec<Token> = lexer.collect_tokens();
    assert_eq!(tokens, vec![Token::Number(5)]);

    // Draining again yields no further tokens.
    let again: Vec<Token> = lexer.collect_tokens();
    assert_eq!(again, Vec::new());
    assert_eq!(lexer.next_token(), None);
}

#[test]
fn test_end_of_sequence_idempotent() {
    let mut lexer = Lexer::new("+");
    assert_eq!(lexer.next_token(), Some(Token::Plus));
    assert_eq!(lexer.next_token(), None);
    assert_eq!(lexer.next_token(), None);
    assert_eq!(lexer.next_token(), None);
}

#[test]
fn test_skips_unrecognized_character() {
    let input = "1 +2";
    let mut lexer = Lexer::new(input);
    let tokens: Vec<Token> = lexer.collect_tokens();

    assert_eq!(
        tokens,
        vec![Token::Number(1), Token::Plus, Token::Number(2)]
    );
}

#[test]
fn test_skip_call_emits_no_token() {
    let mut lexer = Lexer::new("a+");
    // The unrecognized character is passed over without emitting a token.
    assert_eq!(lexer.next_token(), None);
    assert_eq!(lexer.next_token(), Some(Token::Plus));
    assert_eq!(lexer.next_token(), None);
}

#[test]
fn test_leading_zeros() {
    let mut lexer = Lexer::new("00123");
    let tokens: Vec<Token> = lexer.collect_tokens();

    assert_eq!(tokens, vec![Token::Number(123)]);
}

#[test]
fn test_number_run_between_operators_single_token() {
    let mut lexer = Lexer::new("+123-");
    let tokens: Vec<Token> = lexer.collect_tokens();

    assert_eq!(tokens, vec![Token::Plus, Token::Number(123), Token::Minus]);
}

#[test]
fn test_lex_number_stops_at_first_non_digit() {
    let mut lexer = Lexer::new("12x3");
    assert_eq!(lexer.lex_number(), Some(Token::Number(12)));
    // The non-digit that ended the run was not consumed: it is skipped by
    // the next call, and the digit after it starts a fresh number.
    assert_eq!(lexer.next_token(), None);
    assert_eq!(lexer.next_token(), Some(Token::Number(3)));
    assert_eq!(lexer.next_token(), None);
}
