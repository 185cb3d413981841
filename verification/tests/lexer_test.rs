use simcom::lexer::{Lexer, Token};

fn get_tokens(input: &str) -> Vec<Token> {
    let mut lexer = Lexer::new(input);
    let mut tokens = Vec::new();
    while let Some(token) = lexer.next() {
        tokens.push(token);
    }
    tokens
}

#[test]
fn detect_tokens() {
    let tokens = get_tokens("():;");
    assert_eq!(
        tokens,
        vec![Token::ParL, Token::ParR, Token::Colon, Token::Semicolon]
    );
}

#[test]
fn detect_tokens_whitespace() {
    let tokens = get_tokens("(     :    )");
    assert_eq!(tokens, vec![Token::ParL, Token::Colon, Token::ParR]);
}

#[test]
fn detect_keyword() {
    let tokens = get_tokens("tipo:: tipo)");
    assert_eq!(
        tokens,
        vec![
            Token::Type,
            Token::Colon,
            Token::Colon,
            Token::Type,
            Token::ParR
        ]
    );
}

#[test]
fn detect_illegal() {
    let tokens = get_tokens("( ! tipo   :!tipo");
    assert_eq!(
        tokens,
        vec![
            Token::ParL,
            Token::Illegal,
            Token::Type,
            Token::Colon,
            Token::Illegal,
            Token::Type
        ]
    );
}

#[test]
fn identifiers() {
    let tokens = get_tokens("tipo pal4abra castaña");
    assert_eq!(
        tokens,
        vec![
            Token::Type,
            Token::Ident(String::from("pal4abra")),
            Token::Ident(String::from("castaña"))
        ]
    );
}

#[test]
fn empty_input_has_no_tokens() {
    assert!(get_tokens("").is_empty());
}

#[test]
fn whitespace_only_input_has_no_tokens() {
    assert!(get_tokens("  \t \n  ").is_empty());
}

#[test]
fn whitespace_insensitivity() {
    assert_eq!(get_tokens("(     :    )"), get_tokens("(:)"));
}

#[test]
fn nul_character_ends_the_input() {
    let tokens = get_tokens("( \u{0} after");
    assert_eq!(tokens, vec![Token::ParL]);
}

#[test]
fn identifier_cannot_start_with_digit() {
    let tokens = get_tokens("4abc");
    assert_eq!(
        tokens,
        vec![Token::Illegal, Token::Ident(String::from("abc"))]
    );
}

#[test]
fn comma_token() {
    let tokens = get_tokens("a, b");
    assert_eq!(
        tokens,
        vec![
            Token::Ident(String::from("a")),
            Token::Comma,
            Token::Ident(String::from("b"))
        ]
    );
}

#[test]
fn exhausted_lexer_keeps_returning_none() {
    let mut lexer = Lexer::new("tipo");
    assert_eq!(lexer.next(), Some(Token::Type));
    assert_eq!(lexer.next(), None);
    assert_eq!(lexer.next(), None);
}
