use folio::error::CompileError;
use folio::token::{Token, TokenType};

fn kinds(tokens: &[Token]) -> Vec<TokenType> {
    tokens.iter().map(|t| t.ttype).collect()
}

fn lexemes(tokens: &[Token]) -> Vec<Vec<u8>> {
    tokens.iter().map(|t| t.slice.clone()).collect()
}

#[test]
fn token_new_holds_kind_and_lexeme() {
    let t = Token::new(TokenType::Jump, b"jump".to_vec());
    assert_eq!(t.ttype, TokenType::Jump);
    assert_eq!(t.slice, b"jump".to_vec());
}

#[test]
fn lex_keywords_and_structure() {
    let tokens = Token::lex("macro main { jump }").unwrap();
    assert_eq!(
        kinds(&tokens),
        vec![
            TokenType::Macro,
            TokenType::Identifier,
            TokenType::OpenBrace,
            TokenType::Jump,
            TokenType::CloseBrace,
        ]
    );
    assert_eq!(tokens[1].slice, b"main".to_vec());
}

#[test]
fn lex_longest_match_keywords_and_identifiers() {
    let tokens = Token::lex("fee fee0 feex deltaLiquidity token1").unwrap();
    assert_eq!(
        kinds(&tokens),
        vec![
            TokenType::Fee,
            TokenType::Fee0,
            TokenType::Identifier,
            TokenType::DeltaLiquidity,
            TokenType::Token1,
        ]
    );
    assert_eq!(tokens[2].slice, b"feex".to_vec());
}

#[test]
fn lex_number_forms() {
    let tokens = Token::lex("12 +3 -4.5 .5").unwrap();
    assert_eq!(
        kinds(&tokens),
        vec![TokenType::Literal, TokenType::Literal, TokenType::Literal, TokenType::Literal]
    );
    assert_eq!(
        lexemes(&tokens),
        vec![b"12".to_vec(), b"+3".to_vec(), b"-4.5".to_vec(), b".5".to_vec()]
    );
}

#[test]
fn lex_address_literal() {
    let tokens = Token::lex("0xAb12 0X0f").unwrap();
    assert_eq!(kinds(&tokens), vec![TokenType::AddressLiteral, TokenType::AddressLiteral]);
    assert_eq!(tokens[0].slice, b"0xAb12".to_vec());
}

#[test]
fn lex_bare_hex_prefix_splits() {
    let tokens = Token::lex("0x").unwrap();
    assert_eq!(kinds(&tokens), vec![TokenType::Literal, TokenType::Identifier]);
    assert_eq!(lexemes(&tokens), vec![b"0".to_vec(), b"x".to_vec()]);
}

#[test]
fn lex_error_fails_fast_with_span() {
    let r = Token::lex("jump @ jump");
    assert_eq!(r.unwrap_err(), CompileError::LexError { start: 5, end: 6 });
}

#[test]
fn lex_error_on_lone_dot() {
    let r = Token::lex(".");
    assert_eq!(r.unwrap_err(), CompileError::LexError { start: 0, end: 1 });
}

#[test]
fn lex_skips_whitespace() {
    let tokens = Token::lex("\t\n\x0C  jump").unwrap();
    assert_eq!(kinds(&tokens), vec![TokenType::Jump]);
}

#[test]
fn lex_empty_source() {
    let tokens = Token::lex("").unwrap();
    assert!(tokens.is_empty());
}

#[test]
fn lex_keyword_extending_past_identifier_run() {
    // `token0` runs one byte past the identifier run `token`; the longest
    // match wins and the digit is part of the keyword.
    let tokens = Token::lex("token01").unwrap();
    assert_eq!(kinds(&tokens), vec![TokenType::Token0, TokenType::Literal]);
    assert_eq!(lexemes(&tokens), vec![b"token0".to_vec(), b"1".to_vec()]);
}
