use core_interpreter::tokenizer::{is_valid_input, tokenize_source, Token};

fn scan(src: &str) -> Vec<Token> {
    tokenize_source(&src.as_bytes().to_vec())
}

#[test]
fn correctly_verifies_argument_count() {
    let case_a: Vec<String> = vec!["Hello ".to_string(), "world!".to_string()];
    let case_b: Vec<String> =
        vec!["This ".to_string(), "won't ".to_string(), "work!".to_string()];
    let case_c: Vec<String> = vec!["Goodbye!".to_string()];

    assert_eq!(is_valid_input(case_a.len()),
               true,
               "Case A should be valid, but wasn't.");
    assert_eq!(is_valid_input(case_b.len()),
               false,
               "Case B should be invalid, but wasn't.");
    assert_eq!(is_valid_input(case_c.len()),
               false,
               "Case C should be invalid, but wasn't.");
}

#[test]
fn scans_empty_source_to_eof() {
    assert_eq!(scan(""), vec![Token::EOF]);
}

#[test]
fn scans_keywords_and_symbols() {
    assert_eq!(
        scan("program begin end int if then else while loop read write"),
        vec![
            Token::Program,
            Token::Begin,
            Token::End,
            Token::Int,
            Token::If,
            Token::Then,
            Token::Else,
            Token::While,
            Token::Loop,
            Token::Read,
            Token::Write,
            Token::EOF,
        ]
    );
    assert_eq!(
        scan("; , [ ] ( ) + - *"),
        vec![
            Token::Semicolon,
            Token::Comma,
            Token::LeftSquare,
            Token::RightSquare,
            Token::LeftParen,
            Token::RightParen,
            Token::Addition,
            Token::Subtraction,
            Token::Multiplication,
            Token::EOF,
        ]
    );
}

#[test]
fn scans_one_and_two_character_operators() {
    assert_eq!(
        scan("= == ! != < <= > >= && ||"),
        vec![
            Token::Assignment,
            Token::LogicalEquality,
            Token::Exclamation,
            Token::LogicalInequality,
            Token::LessThan,
            Token::LessThanEqual,
            Token::GreaterThan,
            Token::GreaterThanEqual,
            Token::LogicalAnd,
            Token::LogicalOr,
            Token::EOF,
        ]
    );
}

#[test]
fn trailing_equals_is_assignment() {
    assert_eq!(
        scan("==="),
        vec![Token::LogicalEquality, Token::Assignment, Token::EOF]
    );
}

#[test]
fn scans_integers_and_identifiers() {
    assert_eq!(
        scan("A=3; BC12=45;"),
        vec![
            Token::Identifier("A".to_string()),
            Token::Assignment,
            Token::Integer(3),
            Token::Semicolon,
            Token::Identifier("BC12".to_string()),
            Token::Assignment,
            Token::Integer(45),
            Token::Semicolon,
            Token::EOF,
        ]
    );
}

#[test]
fn scans_largest_integer_literal() {
    assert_eq!(
        scan("2147483647"),
        vec![Token::Integer(2147483647), Token::EOF]
    );
}

#[test]
fn rejects_integer_literal_past_signed_range() {
    assert_eq!(scan("2147483648"), vec![Token::Error, Token::EOF]);
}

#[test]
fn rejects_letter_after_digits() {
    assert_eq!(scan("123a"), vec![Token::Error, Token::EOF]);
}

#[test]
fn rejects_lone_pipe_and_ampersand() {
    assert_eq!(scan("|x"), vec![Token::Error, Token::EOF]);
    assert_eq!(scan("&x"), vec![Token::Error, Token::EOF]);
}

#[test]
fn rejects_unknown_keyword() {
    assert_eq!(scan("foo"), vec![Token::Error, Token::EOF]);
}

#[test]
fn rejects_lower_case_inside_identifier() {
    assert_eq!(scan("Ab"), vec![Token::Error, Token::EOF]);
}

#[test]
fn rejects_keyword_jammed_against_identifier() {
    assert_eq!(scan("A1begin"), vec![Token::Error, Token::EOF]);
}

#[test]
fn rejects_unknown_byte() {
    assert_eq!(scan("#"), vec![Token::Error, Token::EOF]);
}

#[test]
fn error_stops_the_scan() {
    assert_eq!(
        scan("A = ? B"),
        vec![
            Token::Identifier("A".to_string()),
            Token::Assignment,
            Token::Error,
            Token::EOF,
        ]
    );
}

#[test]
fn whitespace_is_discarded() {
    assert_eq!(
        scan(" \t\r\n A \n"),
        vec![Token::Identifier("A".to_string()), Token::EOF]
    );
}

#[test]
fn printing_and_rescanning_preserves_tokens() {
    let tokens = scan("program int A,B; begin A=3; if (A>2) then B=A*2; end; write B; end");
    let mut body = tokens.clone();
    body.pop();
    let printed = core_interpreter::tokenizer::print_token_bytes(&body);
    assert_eq!(
        String::from_utf8(printed.clone()).unwrap(),
        "program int A , B ; begin A = 3 ; if ( A > 2 ) then B = A * 2 ; end ; write B ; end "
    );
    assert_eq!(tokenize_source(&printed), tokens);
}

#[test]
fn printer_renders_every_token_kind() {
    let tokens = scan("while [ (X1<=2) || !(Y>=0) ] loop read Z; end; - + * != ==");
    let mut body = tokens.clone();
    body.pop();
    let printed = core_interpreter::tokenizer::print_token_bytes(&body);
    assert_eq!(
        String::from_utf8(printed.clone()).unwrap(),
        "while [ ( X1 <= 2 ) || ! ( Y >= 0 ) ] loop read Z ; end ; - + * != == "
    );
    assert_eq!(tokenize_source(&printed), tokens);
}
