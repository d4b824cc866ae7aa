use folio::assembler::{Assembler, Expression};
use folio::error::CompileError;
use folio::opcode::Opcode;
use folio::token::{Token, TokenType};
use folio::uint256::Uint256;

fn parse(src: &str) -> Result<Vec<Expression>, CompileError> {
    Assembler::parse(Token::lex(src)?)
}

#[test]
fn assembler_new_starts_at_zero() {
    let asmblr = Assembler::new(Token::lex("macro main { }").unwrap());
    assert_eq!(asmblr.cursor, 0);
    assert_eq!(asmblr.tokens.len(), 4);
}

#[test]
fn parse_single_main() {
    let es = parse("macro main { jump unknown }").unwrap();
    assert_eq!(
        es,
        vec![Expression::Opcode(Opcode::Jump), Expression::Opcode(Opcode::Unknown)]
    );
}

#[test]
fn parse_allocate_fields() {
    let es = parse("macro main { allocate: useMax: 1 poolId: 5 deltaLiquidity: 2000 }").unwrap();
    assert_eq!(
        es,
        vec![Expression::Opcode(Opcode::Allocate {
            use_max: Uint256::from_u64(1),
            pool_id: Uint256::from_u64(5),
            delta_liquidity: Uint256::from_u64(2000),
        })]
    );
}

#[test]
fn parse_create_pair_addresses() {
    let es = parse(
        "macro main { createPair: token0: 0xAAAAAAAAAAAAAAAAAAAAAAAAAAAAAAAAAAAAAAAA \
         token1: 0xBBBBBBBBBBBBBBBBBBBBBBBBBBBBBBBBBBBBBBBB }",
    )
    .unwrap();
    match &es[0] {
        Expression::Opcode(Opcode::CreatePair { token_0, token_1 }) => {
            assert_eq!(token_0.bytes, [0xAAu8; 20]);
            assert_eq!(token_1.bytes, [0xBBu8; 20]);
        },
        other => panic!("unexpected expression: {other:?}"),
    }
}

#[test]
fn duplicate_main_rejected() {
    let r = parse("macro main { } macro main { }");
    assert_eq!(r.unwrap_err(), CompileError::DuplicateMacroError);
}

#[test]
fn missing_main_rejected() {
    let r = parse("macro helper { jump }");
    assert_eq!(r.unwrap_err(), CompileError::MissingMainError);
}

#[test]
fn self_cycle_rejected() {
    let r = parse("macro main { alfa } macro alfa { alfa }");
    assert_eq!(r.unwrap_err(), CompileError::CyclicMacroError);
}

#[test]
fn main_invoking_itself_rejected() {
    let r = parse("macro main { main }");
    assert_eq!(r.unwrap_err(), CompileError::CyclicMacroError);
}

#[test]
fn mutual_cycle_rejected() {
    let r = parse("macro main { alfa } macro alfa { beta } macro beta { alfa }");
    assert_eq!(r.unwrap_err(), CompileError::CyclicMacroError);
}

#[test]
fn undefined_macro_rejected() {
    let r = parse("macro main { nosuch }");
    assert_eq!(r.unwrap_err(), CompileError::UndefinedMacroError);
}

fn claim_pool_id(e: &Expression) -> u64 {
    match e {
        Expression::Opcode(Opcode::Claim { pool_id, .. }) => {
            assert!(pool_id.fits_bytes(8));
            pool_id.as_u64()
        },
        other => panic!("expected a claim, found {other:?}"),
    }
}

#[test]
fn nested_expansion_splices_in_order() {
    // main invokes alfa, alfa invokes beta: beta's body lands at alfa's
    // call site, that at main's call site, all neighbours in order.
    let es = parse(
        "macro main { claim: poolId: 1 fee0: 0 fee1: 0 alfa claim: poolId: 9 fee0: 0 fee1: 0 } \
         macro alfa { claim: poolId: 2 fee0: 0 fee1: 0 beta claim: poolId: 4 fee0: 0 fee1: 0 } \
         macro beta { claim: poolId: 3 fee0: 0 fee1: 0 }",
    )
    .unwrap();
    let ids: Vec<u64> = es.iter().map(claim_pool_id).collect();
    assert_eq!(ids, vec![1, 2, 3, 4, 9]);
}

#[test]
fn expansion_of_flat_body_is_identity() {
    // a body with no invocation comes out exactly as written
    let src = "macro main { claim: poolId: 7 fee0: 0 fee1: 0 jump unknown }";
    let es = parse(src).unwrap();
    assert_eq!(es.len(), 3);
    assert_eq!(claim_pool_id(&es[0]), 7);
    assert_eq!(es[1], Expression::Opcode(Opcode::Jump));
    assert_eq!(es[2], Expression::Opcode(Opcode::Unknown));
}

#[test]
fn fractional_literal_rejected() {
    let r = parse("macro main { claim: poolId: 1.5 fee0: 0 fee1: 0 }");
    assert_eq!(r.unwrap_err(), CompileError::LiteralError { at: 7 });
}

#[test]
fn signed_literal_rejected() {
    let r = parse("macro main { claim: poolId: -5 fee0: 0 fee1: 0 }");
    assert_eq!(r.unwrap_err(), CompileError::LiteralError { at: 7 });
}

#[test]
fn oversized_literal_rejected() {
    // one followed by 78 zeros outruns 256 bits
    let big = format!("1{}", "0".repeat(78));
    let src = format!("macro main {{ claim: poolId: {big} fee0: 0 fee1: 0 }}");
    let r = parse(&src);
    assert_eq!(r.unwrap_err(), CompileError::LiteralError { at: 7 });
}

#[test]
fn short_address_rejected() {
    let r = parse("macro main { createPair: token0: 0xAB token1: 0xCD }");
    assert_eq!(r.unwrap_err(), CompileError::LiteralError { at: 7 });
}

#[test]
fn wrong_token_reported() {
    let r = parse("macro main { allocate useMax: 1 }");
    assert_eq!(
        r.unwrap_err(),
        CompileError::ParseError {
            expected: Some(TokenType::Colon),
            found: Some(TokenType::UseMax),
            at: 4,
        }
    );
}

#[test]
fn unterminated_body_reported() {
    let r = parse("macro main {");
    assert_eq!(
        r.unwrap_err(),
        CompileError::ParseError { expected: Some(TokenType::CloseBrace), found: None, at: 3 }
    );
}

#[test]
fn missing_macro_keyword_reported() {
    let r = parse("main { }");
    assert_eq!(
        r.unwrap_err(),
        CompileError::ParseError {
            expected: Some(TokenType::Macro),
            found: Some(TokenType::Identifier),
            at: 0,
        }
    );
}

#[test]
fn trailing_tokens_reported() {
    let r = parse("macro main { } jump");
    assert_eq!(
        r.unwrap_err(),
        CompileError::ParseError {
            expected: Some(TokenType::Macro),
            found: Some(TokenType::Jump),
            at: 4,
        }
    );
}
