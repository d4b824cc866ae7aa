use folio::assembler::Assembler;
use folio::codegen::Codegen;
use folio::error::CompileError;
use folio::token::Token;
use folio::uint256::Uint256;

fn compile_bytes(src: &str) -> Result<Vec<Vec<u8>>, CompileError> {
    let tokens = Token::lex(src)?;
    let exprs = Assembler::parse(tokens)?;
    Codegen::new(exprs).encode_bytes()
}

fn compile_hex(src: &str) -> Result<Vec<String>, CompileError> {
    let tokens = Token::lex(src)?;
    let exprs = Assembler::parse(tokens)?;
    Codegen::new(exprs).encode()
}

#[test]
fn decompose_zero() {
    let (power, base) = Codegen::from_amount(&Uint256::zero());
    assert_eq!(power, 0);
    assert_eq!(base, Uint256::zero());
}

#[test]
fn decompose_thousand() {
    let (power, base) = Codegen::from_amount(&Uint256::from_u64(1000));
    assert_eq!(power, 3);
    assert_eq!(base, Uint256::from_u64(1));
}

#[test]
fn decompose_seven() {
    let (power, base) = Codegen::from_amount(&Uint256::from_u64(7));
    assert_eq!(power, 0);
    assert_eq!(base, Uint256::from_u64(7));
}

#[test]
fn decompose_recombines() {
    // the general law is proved for every amount; spot-check one value
    let (power, base) = Codegen::from_amount(&Uint256::from_u64(123000));
    assert_eq!(power, 3);
    assert_eq!(base, Uint256::from_u64(123));
    let mut back: u64 = base.as_u64();
    for _ in 0..power {
        back *= 10;
    }
    assert_eq!(back, 123000);
}

#[test]
fn uint256_from_u64_round_trip() {
    let u = Uint256::from_u64(123456789);
    assert!(u.fits_bytes(8));
    assert_eq!(u.as_u64(), 123456789);
    assert!(u.eq_u64(123456789));
    assert!(!u.eq_u64(123456788));
}

#[test]
fn end_to_end_create_pair_record() {
    let records = compile_bytes(
        "macro main { createPair: token0: 0xAAAAAAAAAAAAAAAAAAAAAAAAAAAAAAAAAAAAAAAA \
         token1: 0xBBBBBBBBBBBBBBBBBBBBBBBBBBBBBBBBBBBBBBBB }",
    )
    .unwrap();
    assert_eq!(records.len(), 1);
    let rec = &records[0];
    assert_eq!(rec.len(), 41);
    assert_eq!(rec[0], 12);
    assert!(rec[1..21].iter().all(|b| *b == 0xAA));
    assert!(rec[21..41].iter().all(|b| *b == 0xBB));
}

#[test]
fn end_to_end_create_pair_hex() {
    let hex = compile_hex(
        "macro main { createPair: token0: 0xAAAAAAAAAAAAAAAAAAAAAAAAAAAAAAAAAAAAAAAA \
         token1: 0xBBBBBBBBBBBBBBBBBBBBBBBBBBBBBBBBBBBBBBBB }",
    )
    .unwrap();
    let expected = format!("0c{}{}", "aa".repeat(20), "bb".repeat(20));
    assert_eq!(hex, vec![expected]);
}

#[test]
fn end_to_end_allocate_record() {
    let records =
        compile_bytes("macro main { allocate: useMax: 1 poolId: 5 deltaLiquidity: 2000 }").unwrap();
    assert_eq!(records.len(), 1);
    let rec = &records[0];
    assert_eq!(rec.len(), 26);
    // packed byte: useMax nibble then tag 1
    assert_eq!(rec[0], 0x11);
    // poolId, 64 bits big-endian
    assert_eq!(&rec[1..9], &[0, 0, 0, 0, 0, 0, 0, 5]);
    // amount decodes to power 3, base 2
    assert_eq!(rec[9], 3);
    assert_eq!(&rec[10..25], &[0u8; 15]);
    assert_eq!(rec[25], 2);
}

#[test]
fn end_to_end_allocate_hex() {
    let hex =
        compile_hex("macro main { allocate: useMax: 1 poolId: 5 deltaLiquidity: 2000 }").unwrap();
    assert_eq!(
        hex,
        vec!["110000000000000005" .to_string() + "03" + "00000000000000000000000000000002"]
    );
}

#[test]
fn deallocate_uses_tag_three() {
    let records =
        compile_bytes("macro main { deallocate: useMax: 0 poolId: 1 deltaLiquidity: 10 }").unwrap();
    assert_eq!(records[0][0], 0x03);
    assert_eq!(records[0].len(), 26);
}

#[test]
fn swap_tag_depends_on_sell_asset() {
    let selling = compile_bytes(
        "macro main { swap: useMax: 1 poolId: 2 amount0: 100 amount1: 200 sellAsset: 1 }",
    )
    .unwrap();
    assert_eq!(selling[0][0], 0x16);
    assert_eq!(selling[0].len(), 44);
    assert_eq!(selling[0][9], 27);
    let buying = compile_bytes(
        "macro main { swap: useMax: 1 poolId: 2 amount0: 100 amount1: 200 sellAsset: 0 }",
    )
    .unwrap();
    assert_eq!(buying[0][0], 0x15);
}

#[test]
fn claim_record_layout() {
    let records = compile_bytes("macro main { claim: poolId: 5 fee0: 100 fee1: 7 }").unwrap();
    let rec = &records[0];
    assert_eq!(rec.len(), 44);
    assert_eq!(rec[0], 4);
    assert_eq!(&rec[1..9], &[0, 0, 0, 0, 0, 0, 0, 5]);
    assert_eq!(rec[9], 27);
    // fee0 = 100: power 2, base 1
    assert_eq!(rec[10], 2);
    assert_eq!(rec[26], 1);
    // fee1 = 7: power 0, base 7
    assert_eq!(rec[27], 0);
    assert_eq!(rec[43], 7);
}

#[test]
fn create_pool_record_layout() {
    let records = compile_bytes(
        "macro main { createPool: pairId: 2 controller: 0x1111111111111111111111111111111111111111 \
         priorityFee: 10 fee: 20 vol: 30 dur: 40 jit: 50 maxPrice: 6000 price: 70 }",
    )
    .unwrap();
    let rec = &records[0];
    assert_eq!(rec.len(), 69);
    assert_eq!(rec[0], 11);
    assert_eq!(&rec[1..4], &[0, 0, 2]);
    assert!(rec[4..24].iter().all(|b| *b == 0x11));
    assert_eq!(&rec[24..26], &[0, 10]);
    assert_eq!(&rec[26..28], &[0, 20]);
    assert_eq!(&rec[28..30], &[0, 30]);
    assert_eq!(&rec[30..32], &[0, 40]);
    assert_eq!(&rec[32..34], &[0, 50]);
    // reserved pointer
    assert_eq!(rec[34], 52);
    // maxPrice = 6000: power 3, base 6
    assert_eq!(rec[35], 3);
    assert_eq!(rec[51], 6);
    // price = 70: power 1, base 7
    assert_eq!(rec[52], 1);
    assert_eq!(rec[68], 7);
}

#[test]
fn jump_and_unknown_produce_no_record() {
    let records = compile_bytes("macro main { jump unknown jump }").unwrap();
    assert!(records.is_empty());
}

#[test]
fn records_follow_instruction_order() {
    let records = compile_bytes(
        "macro main { claim: poolId: 1 fee0: 0 fee1: 0 jump claim: poolId: 2 fee0: 0 fee1: 0 }",
    )
    .unwrap();
    assert_eq!(records.len(), 2);
    assert_eq!(records[0][8], 1);
    assert_eq!(records[1][8], 2);
}

#[test]
fn pool_id_overflow_rejected() {
    // 2^64 does not fit the 64-bit poolId field
    let r = compile_bytes(
        "macro main { allocate: useMax: 1 poolId: 18446744073709551616 deltaLiquidity: 1 }",
    );
    assert_eq!(r.unwrap_err(), CompileError::EncodingOverflowError { at: 0 });
}

#[test]
fn use_max_overflow_rejected() {
    let r = compile_bytes("macro main { allocate: useMax: 16 poolId: 1 deltaLiquidity: 1 }");
    assert_eq!(r.unwrap_err(), CompileError::EncodingOverflowError { at: 0 });
}

#[test]
fn amount_base_overflow_rejected() {
    // 2^128 + 1 has no trailing zeros, so its base outruns the 128-bit slot
    let r = compile_bytes(
        "macro main { allocate: useMax: 1 poolId: 1 \
         deltaLiquidity: 340282366920938463463374607431768211457 }",
    );
    assert_eq!(r.unwrap_err(), CompileError::EncodingOverflowError { at: 0 });
}

#[test]
fn overflow_reports_failing_instruction_index() {
    let r = compile_bytes(
        "macro main { claim: poolId: 1 fee0: 0 fee1: 0 \
         allocate: useMax: 16 poolId: 1 deltaLiquidity: 1 }",
    );
    assert_eq!(r.unwrap_err(), CompileError::EncodingOverflowError { at: 1 });
}

#[test]
fn round_amount_compresses_to_wide_power() {
    // 10^20 exceeds u64 but compresses to power 20, base 1
    let records =
        compile_bytes("macro main { allocate: useMax: 0 poolId: 0 deltaLiquidity: 100000000000000000000 }")
            .unwrap();
    let rec = &records[0];
    assert_eq!(rec[9], 20);
    assert_eq!(rec[25], 1);
}

#[test]
fn generate_frames_payload() {
    let payload = Codegen::generate(vec!["abc".to_string(), "dd".to_string()]);
    assert_eq!(payload, "AA23abc2dd");
}

#[test]
fn generate_empty_payload() {
    let payload = Codegen::generate(Vec::new());
    assert_eq!(payload, "AA0");
}

#[test]
fn duplicate_main_produces_no_records() {
    let r = compile_bytes("macro main { jump } macro main { jump }");
    assert_eq!(r.unwrap_err(), CompileError::DuplicateMacroError);
}

#[test]
fn hex_matches_packed_encoder() {
    // the same record handed straight to the outside encoder must spell
    // the same string the library returns
    let src = "macro main { claim: poolId: 5 fee0: 100 fee1: 7 }";
    let records = compile_bytes(src).unwrap();
    let hex = compile_hex(src).unwrap();
    let items = [eth_encode_packed::SolidityDataType::Bytes(&records[0])];
    let (_bytes, expected) = eth_encode_packed::abi::encode_packed(&items);
    assert_eq!(hex[0], expected);
}
