//! The byte-record generation module. A [`Codegen`] takes a fully expanded
//! instruction list and produces one fixed-layout packed record per
//! instruction, in order, along with its lowercase hexadecimal spelling
//! ready to be handed to the virtual machine.
//!
//! The layout of every record is a bit-exact wire contract: fields are
//! concatenated big-endian with no padding, amounts are compressed into a
//! decimal power and base, and a field too wide for its slot is an error,
//! never truncated.

use crate::assembler::{expr_views, only_opcodes, Expression, ExpressionView};
use crate::error::CompileError;
use crate::opcode::{Opcode, OpcodeView};
use crate::uint256::{be_bytes, pow10, pow256, Uint256};
use vstd::prelude::*;
use vstd::string::StringExecFns;

verus! {

/// The decimal decomposition of an amount: strip trailing zero digits,
/// counting them. The first component is the power (how many zeros were
/// stripped), the second the base (what remains, with no trailing zero
/// except for zero itself).
pub open spec fn spec_decompose(n: nat) -> (nat, nat)
    decreases n,
{
    if n == 0 {
        (0nat, 0nat)
    } else if n % 10 != 0 {
        (0nat, n)
    } else {
        let p = spec_decompose(n / 10);
        ((p.0 + 1) as nat, p.1)
    }
}

/// The decomposition is lossless: the base times ten to the power is the
/// original amount, the base of a nonzero amount never ends in a zero
/// digit, and zero decomposes to (0, 0).
pub proof fn lemma_decompose(n: nat)
    ensures
        spec_decompose(n).1 * pow10(spec_decompose(n).0) == n,
        n == 0 ==> spec_decompose(n) == (0nat, 0nat),
        n != 0 ==> spec_decompose(n).1 % 10 != 0,
        spec_decompose(n).1 <= n,
    decreases n,
{
    let d = spec_decompose(n);
    if n == 0 {
        assert(d == (0nat, 0nat));
        assert(d.1 * pow10(d.0) == 0 * pow10(0)) by (nonlinear_arith)
            requires
                d.1 == 0,
                d.0 == 0,
        ;
        assert(0 * pow10(0) == 0) by (nonlinear_arith);
    } else if n % 10 != 0 {
        assert(d == (0nat, n));
        assert(pow10(0) == 1);
        assert(d.1 * pow10(d.0) == n) by (nonlinear_arith)
            requires
                d.1 == n,
                d.0 == 0,
                pow10(0) == 1,
        ;
    } else {
        lemma_decompose(n / 10);
        let p = spec_decompose(n / 10);
        assert(n / 10 * 10 == n) by {
            vstd::arithmetic::div_mod::lemma_fundamental_div_mod(n as int, 10);
        }
        assert(d == (((p.0 + 1) as nat), p.1));
        assert(pow10((p.0 + 1) as nat) == 10 * pow10(p.0));
        assert(d.1 * pow10(d.0) == n) by (nonlinear_arith)
            requires
                d.1 == p.1,
                d.0 == (p.0 + 1) as nat,
                pow10((p.0 + 1) as nat) == 10 * pow10(p.0),
                p.1 * pow10(p.0) == n / 10,
                n / 10 * 10 == n,
        ;
        assert(n / 10 != 0);
        assert(d.1 <= n / 10 <= n);
    }
}

/// Opcodes for which no record is produced: `Unknown`, and `Jump`, whose
/// target is not yet resolved.
pub open spec fn skip_op(op: OpcodeView) -> bool {
    op is Unknown || op is Jump
}

/// Whether every numeric field of the instruction fits its declared width.
pub open spec fn op_encodable(op: OpcodeView) -> bool {
    match op {
        OpcodeView::Unknown => true,
        OpcodeView::Jump => true,
        OpcodeView::Allocate { use_max, pool_id, delta_liquidity } => use_max < 16 && pool_id
            < pow256(8) && spec_decompose(delta_liquidity).1 < pow256(16),
        OpcodeView::Deallocate { use_max, pool_id, delta_liquidity } => use_max < 16 && pool_id
            < pow256(8) && spec_decompose(delta_liquidity).1 < pow256(16),
        OpcodeView::CreatePair { token_0, token_1 } => true,
        OpcodeView::CreatePool {
            pair_id,
            controller,
            priority_fee,
            fee,
            vol,
            dur,
            jit,
            max_price,
            price,
        } => pair_id < pow256(3) && priority_fee < pow256(2) && fee < pow256(2) && vol < pow256(2)
            && dur < pow256(2) && jit < pow256(2) && spec_decompose(max_price).1 < pow256(16)
            && spec_decompose(price).1 < pow256(16),
        OpcodeView::Swap { use_max, pool_id, amount_0, amount_1, sell_asset } => use_max < 16
            && pool_id < pow256(8) && spec_decompose(amount_0).1 < pow256(16) && spec_decompose(
            amount_1,
        ).1 < pow256(16),
        OpcodeView::Claim { pool_id, fee_0, fee_1 } => pool_id < pow256(8) && spec_decompose(
            fee_0,
        ).1 < pow256(16) && spec_decompose(fee_1).1 < pow256(16),
    }
}

/// The packed record of one encodable instruction: its fields concatenated
/// big-endian at their declared widths, exactly as the virtual machine
/// reads them.
pub open spec fn record_bytes(op: OpcodeView) -> Seq<u8> {
    match op {
        OpcodeView::Allocate { use_max, pool_id, delta_liquidity } => {
            let d = spec_decompose(delta_liquidity);
            seq![(use_max * 16 + 1) as u8] + be_bytes(pool_id, 8) + be_bytes(d.0, 1) + be_bytes(
                d.1,
                16,
            )
        },
        OpcodeView::Deallocate { use_max, pool_id, delta_liquidity } => {
            let d = spec_decompose(delta_liquidity);
            seq![(use_max * 16 + 3) as u8] + be_bytes(pool_id, 8) + be_bytes(d.0, 1) + be_bytes(
                d.1,
                16,
            )
        },
        OpcodeView::CreatePair { token_0, token_1 } => seq![12u8] + token_0 + token_1,
        OpcodeView::CreatePool {
            pair_id,
            controller,
            priority_fee,
            fee,
            vol,
            dur,
            jit,
            max_price,
            price,
        } => {
            let d0 = spec_decompose(max_price);
            let d1 = spec_decompose(price);
            seq![11u8] + be_bytes(pair_id, 3) + controller + be_bytes(priority_fee, 2) + be_bytes(
                fee,
                2,
            ) + be_bytes(vol, 2) + be_bytes(dur, 2) + be_bytes(jit, 2) + seq![52u8] + be_bytes(
                d0.0,
                1,
            ) + be_bytes(d0.1, 16) + be_bytes(d1.0, 1) + be_bytes(d1.1, 16)
        },
        OpcodeView::Swap { use_max, pool_id, amount_0, amount_1, sell_asset } => {
            let tag: nat = if sell_asset == 1 {
                6
            } else {
                5
            };
            let d0 = spec_decompose(amount_0);
            let d1 = spec_decompose(amount_1);
            seq![(use_max * 16 + tag) as u8] + be_bytes(pool_id, 8) + seq![27u8] + be_bytes(
                d0.0,
                1,
            ) + be_bytes(d0.1, 16) + be_bytes(d1.0, 1) + be_bytes(d1.1, 16)
        },
        OpcodeView::Claim { pool_id, fee_0, fee_1 } => {
            let d0 = spec_decompose(fee_0);
            let d1 = spec_decompose(fee_1);
            seq![4u8] + be_bytes(pool_id, 8) + seq![27u8] + be_bytes(d0.0, 1) + be_bytes(d0.1, 16)
                + be_bytes(d1.0, 1) + be_bytes(d1.1, 16)
        },
        OpcodeView::Unknown => Seq::empty(),
        OpcodeView::Jump => Seq::empty(),
    }
}

/// The records of the instructions from index `i` on, in order: skipped
/// opcodes contribute nothing, and the first field that overflows its
/// width aborts everything with its instruction's index.
pub open spec fn spec_encode_from(ops: Seq<OpcodeView>, i: int) -> Result<
    Seq<Seq<u8>>,
    CompileError,
>
    decreases ops.len() - i,
    when 0 <= i <= ops.len()
{
    if i >= ops.len() {
        Ok(Seq::empty())
    } else {
        let op = ops[i];
        if skip_op(op) {
            spec_encode_from(ops, i + 1)
        } else if !op_encodable(op) {
            Err(CompileError::EncodingOverflowError { at: i as usize })
        } else {
            match spec_encode_from(ops, i + 1) {
                Err(e) => Err(e),
                Ok(rest) => Ok(seq![record_bytes(op)] + rest),
            }
        }
    }
}

/// The views of an opcode sequence.
pub open spec fn opcode_views(os: Seq<Opcode>) -> Seq<OpcodeView> {
    os.map_values(|o: Opcode| o@)
}

/// The opcodes of a fully expanded expression sequence.
pub open spec fn opcodes_of(es: Seq<ExpressionView>) -> Seq<OpcodeView> {
    es.map_values(|e: ExpressionView| e->Opcode_0)
}

/// The lowercase hexadecimal digit of a value below sixteen.
pub open spec fn hex_char(v: nat) -> char {
    if v == 0 {
        '0'
    } else if v == 1 {
        '1'
    } else if v == 2 {
        '2'
    } else if v == 3 {
        '3'
    } else if v == 4 {
        '4'
    } else if v == 5 {
        '5'
    } else if v == 6 {
        '6'
    } else if v == 7 {
        '7'
    } else if v == 8 {
        '8'
    } else if v == 9 {
        '9'
    } else if v == 10 {
        'a'
    } else if v == 11 {
        'b'
    } else if v == 12 {
        'c'
    } else if v == 13 {
        'd'
    } else if v == 14 {
        'e'
    } else {
        'f'
    }
}

/// The lowercase hexadecimal spelling of a byte string: two digits per
/// byte, high nibble first.
pub open spec fn hex_str_of(bs: Seq<u8>) -> Seq<char> {
    Seq::new(
        bs.len() * 2,
        |i: int|
            if i % 2 == 0 {
                hex_char((bs[i / 2] / 16) as nat)
            } else {
                hex_char((bs[i / 2] % 16) as nat)
            },
    )
}

/// Relies on eth_encode_packed's `abi::encode_packed`: a `Bytes` item's
/// bytes are carried through unchanged, and the returned string is
/// `hex::encode` of them, the lowercase hexadecimal digits of each byte in
/// order, high nibble first.
#[verifier::external_body]
fn packed_hex(record: &Vec<u8>) -> (r: String)
    ensures
        r@ == hex_str_of(record@),
{
    let items = [eth_encode_packed::SolidityDataType::Bytes(record.as_slice())];
    let (_bytes, hash) = eth_encode_packed::abi::encode_packed(&items);
    hash
}

/// Code generation struct.
pub struct Codegen {
    /// Set of opcodes to generate byte records from.
    opcodes: Vec<Opcode>,
}

impl View for Codegen {
    type V = Seq<OpcodeView>;

    closed spec fn view(&self) -> Seq<OpcodeView> {
        opcode_views(self.opcodes@)
    }
}

/// Pack two four-bit values into one byte, high nibble first.
fn pack(upper: u8, lower: u8) -> (r: u8)
    requires
        upper < 16,
        lower < 16,
    ensures
        r == upper * 16 + lower,
{
    upper * 16 + lower
}

impl Codegen {
    /// Public constructor function to instantiate a `Codegen` from a fully
    /// expanded expression list, which may hold no invocation.
    pub fn new(exprs: Vec<Expression>) -> (c: Codegen)
        requires
            only_opcodes(expr_views(exprs@)),
        ensures
            c@ == opcodes_of(expr_views(exprs@)),
    {
        let ghost evs = expr_views(exprs@);
        let mut opcodes: Vec<Opcode> = Vec::new();
        let mut i: usize = 0;
        while i < exprs.len()
            invariant
                i <= exprs@.len(),
                evs == expr_views(exprs@),
                only_opcodes(evs),
                opcodes@.len() == i,
                forall|j: int| 0 <= j < i ==> (#[trigger] opcodes@[j])@ == evs[j]->Opcode_0,
            decreases exprs@.len() - i,
        {
            proof {
                assert(evs[i as int] == exprs@[i as int]@);
            }
            match &exprs[i] {
                Expression::Opcode(o) => {
                    opcodes.push(*o);
                    proof {
                        assert(evs[i as int] == ExpressionView::Opcode(o@));
                    }
                },
                Expression::Invocation(_) => {
                    proof {
                        assert(false);
                    }
                },
            }
            i = i + 1;
        }
        proof {
            assert forall|j: int|
                0 <= j < evs.len() implies opcode_views(opcodes@)[j] == opcodes_of(evs)[j] by {
                assert(opcodes@[j]@ == evs[j]->Opcode_0);
            }
            assert(opcode_views(opcodes@) =~= opcodes_of(evs));
        }
        Codegen { opcodes }
    }

    /// The ordered packed byte records of the instruction list: one record
    /// per instruction, none for `Unknown` or `Jump`, or the index of the
    /// first instruction with an overflowing field.
    #[verifier::rlimit(100)]
    pub fn encode_bytes(&self) -> (r: Result<Vec<Vec<u8>>, CompileError>)
        ensures
            (match (r, spec_encode_from(self@, 0)) {
                (Ok(rs), Ok(recs)) => rs@.len() == recs.len() && (forall|i: int|
                    0 <= i < recs.len() ==> (#[trigger] rs@[i])@ == recs[i]),
                (Err(e), Err(e2)) => e == e2,
                _ => false,
            }),
    {
        let ghost ops = self@;
        let mut out: Vec<Vec<u8>> = Vec::new();
        let ghost mut donec: Seq<Seq<u8>> = Seq::empty();
        let n = self.opcodes.len();
        let mut i: usize = 0;
        proof {
            match spec_encode_from(ops, 0) {
                Ok(recs) => {
                    assert(Seq::<Seq<u8>>::empty() + recs =~= recs);
                },
                Err(e) => {},
            }
        }
        while i < n
            invariant
                i <= n,
                n == ops.len(),
                ops == self@,
                out@.len() == donec.len(),
                forall|k: int| 0 <= k < donec.len() ==> (#[trigger] out@[k])@ == donec[k],
                (match spec_encode_from(ops, i as int) {
                    Ok(rest) => spec_encode_from(ops, 0) == Ok::<_, CompileError>(donec + rest),
                    Err(e) => spec_encode_from(ops, 0) == Err::<Seq<Seq<u8>>, _>(e),
                }),
            decreases n - i,
        {
            let ghost op = ops[i as int];
            proof {
                assert(op == self.opcodes@[i as int]@);
            }
            let record = match self.encode_one(i) {
                Ok(opt) => opt,
                Err(e) => {
                    proof {
                        assert(spec_encode_from(ops, i as int) == Err::<Seq<Seq<u8>>, _>(e));
                    }
                    return Err(e);
                },
            };
            match record {
                Some(rec) => {
                    proof {
                        let ghost donec0 = donec;
                        donec = donec.push(rec@);
                        match spec_encode_from(ops, i as int + 1) {
                            Ok(rest) => {
                                assert(donec0 + (seq![record_bytes(op)] + rest) =~= donec + rest);
                            },
                            Err(e) => {},
                        }
                    }
                    out.push(rec);
                },
                None => {},
            }
            i = i + 1;
        }
        proof {
            assert(spec_encode_from(ops, n as int) == Ok::<Seq<Seq<u8>>, CompileError>(
                Seq::empty(),
            ));
            assert(donec + Seq::<Seq<u8>>::empty() =~= donec);
        }
        Ok(out)
    }

    /// The record of the instruction at index `i`: nothing for a skipped
    /// opcode, its packed bytes otherwise, or the overflow error.
    #[verifier::rlimit(100)]
    fn encode_one(&self, i: usize) -> (r: Result<Option<Vec<u8>>, CompileError>)
        requires
            i < self@.len(),
        ensures
            (match r {
                Ok(opt) => match opt {
                    Some(rec) => !skip_op(self@[i as int]) && op_encodable(self@[i as int])
                        && rec@ == record_bytes(self@[i as int]),
                    None => skip_op(self@[i as int]),
                },
                Err(e) => !skip_op(self@[i as int]) && !op_encodable(self@[i as int]) && e
                    == (CompileError::EncodingOverflowError { at: i }),
            }),
    {
        let ghost op = self@[i as int];
        proof {
            assert(op == self.opcodes@[i as int]@);
        }
        match &self.opcodes[i] {
            Opcode::Unknown => Ok(None),
            Opcode::Jump => Ok(None),
            Opcode::Allocate { use_max, pool_id, delta_liquidity } => {
                let um = match use_max.to_nibble() {
                    Some(v) => v,
                    None => {
                        return Err(CompileError::EncodingOverflowError { at: i });
                    },
                };
                if !pool_id.fits_bytes(8) {
                    return Err(CompileError::EncodingOverflowError { at: i });
                }
                let (power, base) = Codegen::from_amount(delta_liquidity);
                if !base.fits_bytes(16) {
                    return Err(CompileError::EncodingOverflowError { at: i });
                }
                let mut rec: Vec<u8> = Vec::new();
                rec.push(pack(um, 1));
                let mut f = pool_id.tail_bytes(8);
                rec.append(&mut f);
                rec.push(power);
                let mut f = base.tail_bytes(16);
                rec.append(&mut f);
                proof {
                    reveal_with_fuel(be_bytes, 2);
                    assert(be_bytes(power as nat, 1) =~= seq![power]);
                    assert(rec@ =~= record_bytes(op));
                }
                Ok(Some(rec))
            },
            Opcode::Deallocate { use_max, pool_id, delta_liquidity } => {
                let um = match use_max.to_nibble() {
                    Some(v) => v,
                    None => {
                        return Err(CompileError::EncodingOverflowError { at: i });
                    },
                };
                if !pool_id.fits_bytes(8) {
                    return Err(CompileError::EncodingOverflowError { at: i });
                }
                let (power, base) = Codegen::from_amount(delta_liquidity);
                if !base.fits_bytes(16) {
                    return Err(CompileError::EncodingOverflowError { at: i });
                }
                let mut rec: Vec<u8> = Vec::new();
                rec.push(pack(um, 3));
                let mut f = pool_id.tail_bytes(8);
                rec.append(&mut f);
                rec.push(power);
                let mut f = base.tail_bytes(16);
                rec.append(&mut f);
                proof {
                    reveal_with_fuel(be_bytes, 2);
                    assert(be_bytes(power as nat, 1) =~= seq![power]);
                    assert(rec@ =~= record_bytes(op));
                }
                Ok(Some(rec))
            },
            Opcode::CreatePair { token_0, token_1 } => {
                let mut rec: Vec<u8> = Vec::new();
                rec.push(12);
                let mut j: usize = 0;
                while j < 20
                    invariant
                        j <= 20,
                        rec@ =~= seq![12u8] + token_0.bytes@.take(j as int),
                    decreases 20 - j,
                {
                    rec.push(token_0.bytes[j]);
                    j = j + 1;
                }
                let mut j: usize = 0;
                while j < 20
                    invariant
                        j <= 20,
                        rec@ =~= seq![12u8] + token_0.bytes@ + token_1.bytes@.take(j as int),
                    decreases 20 - j,
                {
                    rec.push(token_1.bytes[j]);
                    j = j + 1;
                }
                proof {
                    assert(rec@ =~= record_bytes(op));
                }
                Ok(Some(rec))
            },
            Opcode::CreatePool {
                pair_id,
                controller,
                priority_fee,
                fee,
                vol,
                dur,
                jit,
                max_price,
                price,
            } => {
                if !pair_id.fits_bytes(3) {
                    return Err(CompileError::EncodingOverflowError { at: i });
                }
                if !priority_fee.fits_bytes(2) {
                    return Err(CompileError::EncodingOverflowError { at: i });
                }
                if !fee.fits_bytes(2) {
                    return Err(CompileError::EncodingOverflowError { at: i });
                }
                if !vol.fits_bytes(2) {
                    return Err(CompileError::EncodingOverflowError { at: i });
                }
                if !dur.fits_bytes(2) {
                    return Err(CompileError::EncodingOverflowError { at: i });
                }
                if !jit.fits_bytes(2) {
                    return Err(CompileError::EncodingOverflowError { at: i });
                }
                let (power0, base0) = Codegen::from_amount(max_price);
                if !base0.fits_bytes(16) {
                    return Err(CompileError::EncodingOverflowError { at: i });
                }
                let (power1, base1) = Codegen::from_amount(price);
                if !base1.fits_bytes(16) {
                    return Err(CompileError::EncodingOverflowError { at: i });
                }
                let mut rec: Vec<u8> = Vec::new();
                rec.push(11);
                let mut f = pair_id.tail_bytes(3);
                rec.append(&mut f);
                let mut j: usize = 0;
                while j < 20
                    invariant
                        j <= 20,
                        rec@ =~= seq![11u8] + be_bytes(pair_id@, 3) + controller.bytes@.take(
                            j as int,
                        ),
                    decreases 20 - j,
                {
                    rec.push(controller.bytes[j]);
                    j = j + 1;
                }
                let mut f = priority_fee.tail_bytes(2);
                rec.append(&mut f);
                let mut f = fee.tail_bytes(2);
                rec.append(&mut f);
                let mut f = vol.tail_bytes(2);
                rec.append(&mut f);
                let mut f = dur.tail_bytes(2);
                rec.append(&mut f);
                let mut f = jit.tail_bytes(2);
                rec.append(&mut f);
                rec.push(52);
                rec.push(power0);
                let mut f = base0.tail_bytes(16);
                rec.append(&mut f);
                rec.push(power1);
                let mut f = base1.tail_bytes(16);
                rec.append(&mut f);
                proof {
                    reveal_with_fuel(be_bytes, 2);
                    assert(be_bytes(power0 as nat, 1) =~= seq![power0]);
                    assert(be_bytes(power1 as nat, 1) =~= seq![power1]);
                    assert(rec@ =~= record_bytes(op));
                }
                Ok(Some(rec))
            },
            Opcode::Swap { use_max, pool_id, amount_0, amount_1, sell_asset } => {
                let um = match use_max.to_nibble() {
                    Some(v) => v,
                    None => {
                        return Err(CompileError::EncodingOverflowError { at: i });
                    },
                };
                if !pool_id.fits_bytes(8) {
                    return Err(CompileError::EncodingOverflowError { at: i });
                }
                let (power0, base0) = Codegen::from_amount(amount_0);
                if !base0.fits_bytes(16) {
                    return Err(CompileError::EncodingOverflowError { at: i });
                }
                let (power1, base1) = Codegen::from_amount(amount_1);
                if !base1.fits_bytes(16) {
                    return Err(CompileError::EncodingOverflowError { at: i });
                }
                let tag: u8 = if sell_asset.eq_u64(1) {
                    6
                } else {
                    5
                };
                let mut rec: Vec<u8> = Vec::new();
                rec.push(pack(um, tag));
                let mut f = pool_id.tail_bytes(8);
                rec.append(&mut f);
                rec.push(27);
                rec.push(power0);
                let mut f = base0.tail_bytes(16);
                rec.append(&mut f);
                rec.push(power1);
                let mut f = base1.tail_bytes(16);
                rec.append(&mut f);
                proof {
                    reveal_with_fuel(be_bytes, 2);
                    assert(be_bytes(power0 as nat, 1) =~= seq![power0]);
                    assert(be_bytes(power1 as nat, 1) =~= seq![power1]);
                    assert(rec@ =~= record_bytes(op));
                }
                Ok(Some(rec))
            },
            Opcode::Claim { pool_id, fee_0, fee_1 } => {
                if !pool_id.fits_bytes(8) {
                    return Err(CompileError::EncodingOverflowError { at: i });
                }
                let (power0, base0) = Codegen::from_amount(fee_0);
                if !base0.fits_bytes(16) {
                    return Err(CompileError::EncodingOverflowError { at: i });
                }
                let (power1, base1) = Codegen::from_amount(fee_1);
                if !base1.fits_bytes(16) {
                    return Err(CompileError::EncodingOverflowError { at: i });
                }
                let mut rec: Vec<u8> = Vec::new();
                rec.push(4);
                let mut f = pool_id.tail_bytes(8);
                rec.append(&mut f);
                rec.push(27);
                rec.push(power0);
                let mut f = base0.tail_bytes(16);
                rec.append(&mut f);
                rec.push(power1);
                let mut f = base1.tail_bytes(16);
                rec.append(&mut f);
                proof {
                    reveal_with_fuel(be_bytes, 2);
                    assert(be_bytes(power0 as nat, 1) =~= seq![power0]);
                    assert(be_bytes(power1 as nat, 1) =~= seq![power1]);
                    assert(rec@ =~= record_bytes(op));
                }
                Ok(Some(rec))
            },
        }
    }

    /// The decimal power/base compression of an amount: the returned base
    /// times ten to the returned power is the amount, and the base of a
    /// nonzero amount never ends in a zero digit.
    pub fn from_amount(amount: &Uint256) -> (r: (u8, Uint256))
        ensures
            (r.0 as nat, r.1@) == spec_decompose(amount@),
            r.1@ * pow10(r.0 as nat) == amount@,
            amount@ == 0 ==> r.0 == 0 && r.1@ == 0,
            amount@ != 0 ==> r.1@ % 10 != 0,
    {
        proof {
            lemma_decompose(amount@);
        }
        if amount.fits_bytes(0) {
            proof {
                assert(pow256(0) == 1);
            }
            return (0, Uint256::zero());
        }
        let mut power: u8 = 0;
        let mut base: Uint256 = *amount;
        proof {
            assert(pow10(0) == 1);
            crate::uint256::lemma_be_val_bound(amount.bytes@);
            lemma_pow256_le_pow10();
        }
        loop
            invariant
                base@ >= 1,
                base@ * pow10(power as nat) == amount@,
                pow10(power as nat) <= amount@,
                amount@ < pow10(96),
                spec_decompose(amount@) == ((spec_decompose(base@).0 + power) as nat, spec_decompose(
                    base@,
                ).1),
            ensures
                base@ >= 1,
                base@ % 10 != 0,
                spec_decompose(amount@) == (power as nat, base@),
            decreases base@,
        {
            let (q, rem) = base.divmod10();
            if rem != 0 {
                proof {
                    assert(spec_decompose(base@) == (0nat, base@));
                }
                break ;
            }
            proof {
                assert(base@ == q@ * 10);
                assert(q@ >= 1) by {
                    if q@ == 0 {
                        assert(base@ == 0);
                    }
                }
                assert(q@ * (10 * pow10(power as nat)) == (q@ * 10) * pow10(power as nat))
                    by (nonlinear_arith);
                assert(q@ * 10 >= 10) by (nonlinear_arith)
                    requires
                        q@ >= 1,
                ;
                assert(pow10((power + 1) as nat) == 10 * pow10(power as nat));
                assert(10 * pow10(power as nat) <= base@ * pow10(power as nat))
                    by (nonlinear_arith)
                    requires
                        base@ >= 10,
                        pow10(power as nat) >= 0,
                ;
                if power >= 96 {
                    lemma_pow10_lt(96, power as int);
                    assert(false);
                }
                assert(q@ < base@);
            }
            power = power + 1;
            base = q;
        }
        (power, base)
    }

    /// Frame a list of already-rendered instruction strings: the marker
    /// `AA`, the count in decimal, then each string prefixed with its byte
    /// length in decimal.
    pub fn generate(instructions: Vec<String>) -> (r: String)
        ensures
            r@ == spec_generate(instructions@),
    {
        let ghost ss = instructions@;
        let mut payload = String::from_str("AA");
        proof {
            reveal_strlit("AA");
            assert(payload@ =~= seq!['A', 'A']);
        }
        let count = to_dec_string(instructions.len());
        payload.append(count.as_str());
        let mut i: usize = 0;
        proof {
            assert(ss.take(0) =~= Seq::<String>::empty());
            assert(payload@ =~= seq!['A', 'A'] + dec_digits_of(ss.len()) + gen_parts(ss.take(0)));
        }
        while i < instructions.len()
            invariant
                i <= ss.len(),
                ss == instructions@,
                payload@ == seq!['A', 'A'] + dec_digits_of(ss.len()) + gen_parts(
                    ss.take(i as int),
                ),
            decreases ss.len() - i,
        {
            let ghost p0 = payload@;
            let s = &instructions[i];
            let blen = s.as_str().len();
            proof {
                assert(blen as nat == string_byte_len(ss[i as int]));
            }
            let len_str = to_dec_string(blen);
            payload.append(len_str.as_str());
            payload.append(s.as_str());
            proof {
                assert(len_str@ == dec_digits_of(string_byte_len(ss[i as int])));
                assert(payload@ == (p0 + len_str@) + ss[i as int]@);
                assert(ss.take(i + 1).drop_last() =~= ss.take(i as int));
                assert(ss.take(i + 1).last() == ss[i as int]);
                assert(gen_parts(ss.take(i + 1)) =~= gen_parts(ss.take(i as int)) + dec_digits_of(
                    string_byte_len(ss[i as int]),
                ) + ss[i as int]@);
                assert(payload@ =~= seq!['A', 'A'] + dec_digits_of(ss.len()) + gen_parts(
                    ss.take(i + 1),
                ));
            }
            i = i + 1;
        }
        proof {
            assert(ss.take(ss.len() as int) =~= ss);
        }
        payload
    }
}

/// Each byte multiplies the range by 256, each decimal digit by 10, and
/// 256 is below 1000: a 32-byte value always fits in 96 decimal digits.
pub proof fn lemma_pow256_le_pow10()
    ensures
        pow256(32) <= pow10(96),
{
    lemma_pow256_le_pow10_rec(32);
}

proof fn lemma_pow256_le_pow10_rec(k: nat)
    ensures
        pow256(k) <= pow10(3 * k),
    decreases k,
{
    if k > 0 {
        lemma_pow256_le_pow10_rec((k - 1) as nat);
        let p = pow10((3 * (k - 1)) as nat);
        assert(pow10((3 * k) as nat) == 10 * (10 * (10 * p))) by {
            reveal_with_fuel(pow10, 4);
            assert((3 * k - 1) - 1 == 3 * k - 2 && (3 * k - 2) - 1 == 3 * (k - 1));
        }
        assert(256 * pow256((k - 1) as nat) <= 1000 * p) by (nonlinear_arith)
            requires
                pow256((k - 1) as nat) <= p,
                p >= 0,
        ;
    }
}

/// Ten to a smaller power is smaller.
pub proof fn lemma_pow10_lt(a: int, b: int)
    requires
        0 <= a <= b,
    ensures
        pow10(a as nat) <= pow10(b as nat),
    decreases b,
{
    if a < b {
        lemma_pow10_lt(a, b - 1);
        crate::uint256::lemma_pow10_pos((b - 1) as nat);
    }
}

/// The decimal digit character of a value below ten.
pub open spec fn dec_char(v: nat) -> char {
    if v == 0 {
        '0'
    } else if v == 1 {
        '1'
    } else if v == 2 {
        '2'
    } else if v == 3 {
        '3'
    } else if v == 4 {
        '4'
    } else if v == 5 {
        '5'
    } else if v == 6 {
        '6'
    } else if v == 7 {
        '7'
    } else if v == 8 {
        '8'
    } else {
        '9'
    }
}

/// The decimal spelling of a number, most significant digit first.
pub open spec fn dec_digits_of(n: nat) -> Seq<char>
    decreases n,
{
    if n < 10 {
        seq![dec_char(n)]
    } else {
        dec_digits_of(n / 10).push(dec_char(n % 10))
    }
}

/// The byte length of a string, its characters encoded as UTF-8, as the
/// machine reports it.
pub open spec fn string_byte_len(s: String) -> nat {
    (vstd::utf8::encode_utf8(s@).len() as usize) as nat
}

/// Each instruction string prefixed with its byte length in decimal, in
/// order.
pub open spec fn gen_parts(ss: Seq<String>) -> Seq<char>
    decreases ss.len(),
{
    if ss.len() == 0 {
        Seq::empty()
    } else {
        gen_parts(ss.drop_last()) + dec_digits_of(string_byte_len(ss.last())) + ss.last()@
    }
}

/// The framed payload: the marker `AA`, the instruction count in decimal,
/// then each instruction string prefixed with its byte length in decimal.
pub open spec fn spec_generate(ss: Seq<String>) -> Seq<char> {
    seq!['A', 'A'] + dec_digits_of(ss.len()) + gen_parts(ss)
}

fn digit_str(d: usize) -> (r: &'static str)
    requires
        d < 10,
    ensures
        r@ == seq![dec_char(d as nat)],
{
    if d == 0 {
        proof {
            reveal_strlit("0");
            assert("0"@ =~= seq![dec_char(0)]);
        }
        "0"
    } else if d == 1 {
        proof {
            reveal_strlit("1");
            assert("1"@ =~= seq![dec_char(1)]);
        }
        "1"
    } else if d == 2 {
        proof {
            reveal_strlit("2");
            assert("2"@ =~= seq![dec_char(2)]);
        }
        "2"
    } else if d == 3 {
        proof {
            reveal_strlit("3");
            assert("3"@ =~= seq![dec_char(3)]);
        }
        "3"
    } else if d == 4 {
        proof {
            reveal_strlit("4");
            assert("4"@ =~= seq![dec_char(4)]);
        }
        "4"
    } else if d == 5 {
        proof {
            reveal_strlit("5");
            assert("5"@ =~= seq![dec_char(5)]);
        }
        "5"
    } else if d == 6 {
        proof {
            reveal_strlit("6");
            assert("6"@ =~= seq![dec_char(6)]);
        }
        "6"
    } else if d == 7 {
        proof {
            reveal_strlit("7");
            assert("7"@ =~= seq![dec_char(7)]);
        }
        "7"
    } else if d == 8 {
        proof {
            reveal_strlit("8");
            assert("8"@ =~= seq![dec_char(8)]);
        }
        "8"
    } else {
        proof {
            reveal_strlit("9");
            assert("9"@ =~= seq![dec_char(9)]);
        }
        "9"
    }
}

/// The decimal spelling of a number as an owned string.
fn to_dec_string(n: usize) -> (r: String)
    ensures
        r@ == dec_digits_of(n as nat),
    decreases n,
{
    if n < 10 {
        String::from_str(digit_str(n))
    } else {
        let mut s = to_dec_string(n / 10);
        s.append(digit_str(n % 10));
        proof {
            assert(dec_digits_of((n / 10) as nat).push(dec_char((n % 10) as nat)) =~= dec_digits_of(
                (n / 10) as nat,
            ) + seq![dec_char((n % 10) as nat)]);
        }
        s
    }
}

impl Codegen {
    /// Encode the instruction list into the hexadecimal strings of its
    /// packed records, ready to be executed on the virtual machine, or the
    /// index of the first instruction with an overflowing field.
    pub fn encode(&self) -> (r: Result<Vec<String>, CompileError>)
        ensures
            (match (r, spec_encode_from(self@, 0)) {
                (Ok(ss), Ok(recs)) => ss@.len() == recs.len() && (forall|i: int|
                    0 <= i < recs.len() ==> (#[trigger] ss@[i])@ == hex_str_of(recs[i])),
                (Err(e), Err(e2)) => e == e2,
                _ => false,
            }),
    {
        let records = match self.encode_bytes() {
            Ok(rs) => rs,
            Err(e) => {
                return Err(e);
            },
        };
        let ghost recs = spec_encode_from(self@, 0)->Ok_0;
        let mut out: Vec<String> = Vec::new();
        let mut i: usize = 0;
        while i < records.len()
            invariant
                i <= records@.len(),
                records@.len() == recs.len(),
                forall|k: int| 0 <= k < recs.len() ==> (#[trigger] records@[k])@ == recs[k],
                spec_encode_from(self@, 0) == Ok::<_, CompileError>(recs),
                out@.len() == i,
                forall|k: int| 0 <= k < i ==> (#[trigger] out@[k])@ == hex_str_of(recs[k]),
            decreases records@.len() - i,
        {
            let s = packed_hex(&records[i]);
            out.push(s);
            i = i + 1;
        }
        Ok(out)
    }
}

} // verus!
