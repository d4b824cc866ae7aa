//! The assembler: tokens in, the fully expanded instruction list of the
//! `main` macro out.
//!
//! A compilation unit is a sequence of macro definitions,
//! `macro <name> { <expr>* }`. Each expression is a bare opcode keyword, an
//! opcode keyword with its `name: value` parameters, or a bare identifier
//! invoking another macro. Every definition is parsed into the symbol table,
//! names must be unique, a macro named `main` must exist, and `main`'s body
//! is then inlined until no invocation remains. A chain of the names
//! currently being inlined guards against cycles, so expansion always
//! terminates.

use crate::error::CompileError;
use crate::opcode::{Opcode, OpcodeView};
use crate::token::{views_of, Token, TokenType, TokenView};
use crate::uint256::{
    dec_val, hex_digit_val, is_dec_digit, is_hex_digit, pow256, Addr, Uint256,
};
use vstd::prelude::*;

verus! {

/// An expression: a node in a macro body prior to full expansion.
#[derive(Debug, PartialEq, Eq)]
pub enum Expression {
    /// An opcode.
    Opcode(Opcode),
    /// A macro invocation, by name.
    Invocation(Vec<u8>),
}

/// The mathematical shape of an expression.
pub enum ExpressionView {
    Opcode(OpcodeView),
    Invocation(Seq<u8>),
}

impl View for Expression {
    type V = ExpressionView;

    open spec fn view(&self) -> ExpressionView {
        match self {
            Expression::Opcode(o) => ExpressionView::Opcode(o@),
            Expression::Invocation(n) => ExpressionView::Invocation(n@),
        }
    }
}

/// A macro: a named, reusable, ordered list of expressions.
#[derive(Debug, PartialEq, Eq)]
pub struct Macro {
    /// Macro name.
    pub name: Vec<u8>,
    /// Body of the macro: the expressions inside of it.
    pub body: Vec<Expression>,
}

/// The mathematical shape of a macro.
pub struct MacroView {
    pub name: Seq<u8>,
    pub body: Seq<ExpressionView>,
}

impl View for Macro {
    type V = MacroView;

    open spec fn view(&self) -> MacroView {
        MacroView { name: self.name@, body: expr_views(self.body@) }
    }
}

/// The views of an expression sequence.
pub open spec fn expr_views(es: Seq<Expression>) -> Seq<ExpressionView> {
    es.map_values(|e: Expression| e@)
}

/// The views of a macro sequence.
pub open spec fn macro_views(ms: Seq<Macro>) -> Seq<MacroView> {
    ms.map_values(|m: Macro| m@)
}

/// The views of a name sequence.
pub open spec fn name_views(ns: Seq<Vec<u8>>) -> Seq<Seq<u8>> {
    ns.map_values(|n: Vec<u8>| n@)
}

/// The bytes of the distinguished macro name `main`.
pub open spec fn main_name() -> Seq<u8> {
    seq![109u8, 97u8, 105u8, 110u8]
}

/// One expected token: the position past it on a match, a located error
/// otherwise.
pub open spec fn spec_match(ts: Seq<TokenView>, i: int, k: TokenType) -> Result<
    int,
    CompileError,
> {
    if !(0 <= i < ts.len()) {
        Err(CompileError::ParseError { expected: Some(k), found: None, at: i as usize })
    } else if ts[i].ttype == k {
        Ok(i + 1)
    } else {
        Err(
            CompileError::ParseError {
                expected: Some(k),
                found: Some(ts[i].ttype),
                at: i as usize,
            },
        )
    }
}

/// A `key: value` parameter: its keyword, a colon, and the value token.
pub open spec fn spec_param(
    ts: Seq<TokenView>,
    i: int,
    key: TokenType,
    value: TokenType,
) -> Result<int, CompileError> {
    match spec_match(ts, i, key) {
        Err(e) => Err(e),
        Ok(j) => match spec_match(ts, j, TokenType::Colon) {
            Err(e) => Err(e),
            Ok(j2) => spec_match(ts, j2, value),
        },
    }
}

pub open spec fn all_dec_digits(s: Seq<u8>) -> bool {
    forall|j: int| 0 <= j < s.len() ==> is_dec_digit(#[trigger] s[j])
}

/// The integer a literal token at `at` spells: plain decimal digits whose
/// value fits in 256 bits. A sign, a fractional part or an oversized value
/// is a literal error, never truncated.
pub open spec fn spec_literal_value(ts: Seq<TokenView>, at: int) -> Result<nat, CompileError> {
    let sl = ts[at].slice;
    if !all_dec_digits(sl) {
        Err(CompileError::LiteralError { at: at as usize })
    } else if dec_val(sl) >= pow256(32) {
        Err(CompileError::LiteralError { at: at as usize })
    } else {
        Ok(dec_val(sl))
    }
}

/// A well-formed address literal: `0x` or `0X` and exactly forty
/// hexadecimal digits.
pub open spec fn good_addr_literal(sl: Seq<u8>) -> bool {
    sl.len() == 42 && sl[0] == 48 && (sl[1] == 120 || sl[1] == 88) && (forall|j: int|
        2 <= j < 42 ==> is_hex_digit(#[trigger] sl[j]))
}

/// The twenty address bytes an address literal spells, two digits per byte,
/// high nibble first.
pub open spec fn spec_addr_bytes(sl: Seq<u8>) -> Seq<u8> {
    Seq::new(
        20,
        |j: int| (hex_digit_val(sl[2 + 2 * j]) * 16 + hex_digit_val(sl[2 + 2 * j + 1])) as u8,
    )
}

/// The address an address token at `at` spells, or a literal error when it
/// is not 160 bits wide.
pub open spec fn spec_address_value(ts: Seq<TokenView>, at: int) -> Result<
    Seq<u8>,
    CompileError,
> {
    let sl = ts[at].slice;
    if good_addr_literal(sl) {
        Ok(spec_addr_bytes(sl))
    } else {
        Err(CompileError::LiteralError { at: at as usize })
    }
}

/// The `Allocate` form: the mnemonic, a colon, then each parameter as a
/// `name: value` pair in fixed order.
#[verifier::opaque]
pub open spec fn spec_allocate(ts: Seq<TokenView>, i: int) -> Result<(OpcodeView, int), CompileError> {
    match spec_match(ts, i, TokenType::Allocate) {
        Err(e) => Err(e),
        Ok(j0) => match spec_match(ts, j0, TokenType::Colon) {
            Err(e) => Err(e),
            Ok(jc) => {
                match spec_param(ts, jc, TokenType::UseMax, TokenType::Literal) {
                    Err(e) => Err(e),
                    Ok(j1) => match spec_literal_value(ts, j1 - 1) {
                        Err(e) => Err(e),
                        Ok(use_max) => {
                            match spec_param(ts, j1, TokenType::PoolId, TokenType::Literal) {
                                Err(e) => Err(e),
                                Ok(j2) => match spec_literal_value(ts, j2 - 1) {
                                    Err(e) => Err(e),
                                    Ok(pool_id) => {
                                        match spec_param(ts, j2, TokenType::DeltaLiquidity, TokenType::Literal) {
                                            Err(e) => Err(e),
                                            Ok(j3) => match spec_literal_value(ts, j3 - 1) {
                                                Err(e) => Err(e),
                                                Ok(delta_liquidity) => {
                                                    Ok((OpcodeView::Allocate { use_max, pool_id, delta_liquidity }, j3))
                                                },
                                            },
                                        }
                                    },
                                },
                            }
                        },
                    },
                }
            },
        },
    }
}

/// The `Deallocate` form: the mnemonic, a colon, then each parameter as a
/// `name: value` pair in fixed order.
#[verifier::opaque]
pub open spec fn spec_deallocate(ts: Seq<TokenView>, i: int) -> Result<(OpcodeView, int), CompileError> {
    match spec_match(ts, i, TokenType::Deallocate) {
        Err(e) => Err(e),
        Ok(j0) => match spec_match(ts, j0, TokenType::Colon) {
            Err(e) => Err(e),
            Ok(jc) => {
                match spec_param(ts, jc, TokenType::UseMax, TokenType::Literal) {
                    Err(e) => Err(e),
                    Ok(j1) => match spec_literal_value(ts, j1 - 1) {
                        Err(e) => Err(e),
                        Ok(use_max) => {
                            match spec_param(ts, j1, TokenType::PoolId, TokenType::Literal) {
                                Err(e) => Err(e),
                                Ok(j2) => match spec_literal_value(ts, j2 - 1) {
                                    Err(e) => Err(e),
                                    Ok(pool_id) => {
                                        match spec_param(ts, j2, TokenType::DeltaLiquidity, TokenType::Literal) {
                                            Err(e) => Err(e),
                                            Ok(j3) => match spec_literal_value(ts, j3 - 1) {
                                                Err(e) => Err(e),
                                                Ok(delta_liquidity) => {
                                                    Ok((OpcodeView::Deallocate { use_max, pool_id, delta_liquidity }, j3))
                                                },
                                            },
                                        }
                                    },
                                },
                            }
                        },
                    },
                }
            },
        },
    }
}

/// The `Claim` form: the mnemonic, a colon, then each parameter as a
/// `name: value` pair in fixed order.
#[verifier::opaque]
pub open spec fn spec_claim(ts: Seq<TokenView>, i: int) -> Result<(OpcodeView, int), CompileError> {
    match spec_match(ts, i, TokenType::Claim) {
        Err(e) => Err(e),
        Ok(j0) => match spec_match(ts, j0, TokenType::Colon) {
            Err(e) => Err(e),
            Ok(jc) => {
                match spec_param(ts, jc, TokenType::PoolId, TokenType::Literal) {
                    Err(e) => Err(e),
                    Ok(j1) => match spec_literal_value(ts, j1 - 1) {
                        Err(e) => Err(e),
                        Ok(pool_id) => {
                            match spec_param(ts, j1, TokenType::Fee0, TokenType::Literal) {
                                Err(e) => Err(e),
                                Ok(j2) => match spec_literal_value(ts, j2 - 1) {
                                    Err(e) => Err(e),
                                    Ok(fee_0) => {
                                        match spec_param(ts, j2, TokenType::Fee1, TokenType::Literal) {
                                            Err(e) => Err(e),
                                            Ok(j3) => match spec_literal_value(ts, j3 - 1) {
                                                Err(e) => Err(e),
                                                Ok(fee_1) => {
                                                    Ok((OpcodeView::Claim { pool_id, fee_0, fee_1 }, j3))
                                                },
                                            },
                                        }
                                    },
                                },
                            }
                        },
                    },
                }
            },
        },
    }
}

/// The `Swap` form: the mnemonic, a colon, then each parameter as a
/// `name: value` pair in fixed order.
#[verifier::opaque]
pub open spec fn spec_swap(ts: Seq<TokenView>, i: int) -> Result<(OpcodeView, int), CompileError> {
    match spec_match(ts, i, TokenType::Swap) {
        Err(e) => Err(e),
        Ok(j0) => match spec_match(ts, j0, TokenType::Colon) {
            Err(e) => Err(e),
            Ok(jc) => {
                match spec_param(ts, jc, TokenType::UseMax, TokenType::Literal) {
                    Err(e) => Err(e),
                    Ok(j1) => match spec_literal_value(ts, j1 - 1) {
                        Err(e) => Err(e),
                        Ok(use_max) => {
                            match spec_param(ts, j1, TokenType::PoolId, TokenType::Literal) {
                                Err(e) => Err(e),
                                Ok(j2) => match spec_literal_value(ts, j2 - 1) {
                                    Err(e) => Err(e),
                                    Ok(pool_id) => {
                                        match spec_param(ts, j2, TokenType::Amount0, TokenType::Literal) {
                                            Err(e) => Err(e),
                                            Ok(j3) => match spec_literal_value(ts, j3 - 1) {
                                                Err(e) => Err(e),
                                                Ok(amount_0) => {
                                                    match spec_param(ts, j3, TokenType::Amount1, TokenType::Literal) {
                                                        Err(e) => Err(e),
                                                        Ok(j4) => match spec_literal_value(ts, j4 - 1) {
                                                            Err(e) => Err(e),
                                                            Ok(amount_1) => {
                                                                match spec_param(ts, j4, TokenType::SellAsset, TokenType::Literal) {
                                                                    Err(e) => Err(e),
                                                                    Ok(j5) => match spec_literal_value(ts, j5 - 1) {
                                                                        Err(e) => Err(e),
                                                                        Ok(sell_asset) => {
                                                                            Ok((OpcodeView::Swap { use_max, pool_id, amount_0, amount_1, sell_asset }, j5))
                                                                        },
                                                                    },
                                                                }
                                                            },
                                                        },
                                                    }
                                                },
                                            },
                                        }
                                    },
                                },
                            }
                        },
                    },
                }
            },
        },
    }
}

/// The `CreatePair` form: the mnemonic, a colon, then each parameter as a
/// `name: value` pair in fixed order.
#[verifier::opaque]
pub open spec fn spec_create_pair(ts: Seq<TokenView>, i: int) -> Result<(OpcodeView, int), CompileError> {
    match spec_match(ts, i, TokenType::CreatePair) {
        Err(e) => Err(e),
        Ok(j0) => match spec_match(ts, j0, TokenType::Colon) {
            Err(e) => Err(e),
            Ok(jc) => {
                match spec_param(ts, jc, TokenType::Token0, TokenType::AddressLiteral) {
                    Err(e) => Err(e),
                    Ok(j1) => match spec_address_value(ts, j1 - 1) {
                        Err(e) => Err(e),
                        Ok(token_0) => {
                            match spec_param(ts, j1, TokenType::Token1, TokenType::AddressLiteral) {
                                Err(e) => Err(e),
                                Ok(j2) => match spec_address_value(ts, j2 - 1) {
                                    Err(e) => Err(e),
                                    Ok(token_1) => {
                                        Ok((OpcodeView::CreatePair { token_0, token_1 }, j2))
                                    },
                                },
                            }
                        },
                    },
                }
            },
        },
    }
}

/// The `CreatePool` form: the mnemonic, a colon, then each parameter as a
/// `name: value` pair in fixed order.
#[verifier::opaque]
pub open spec fn spec_create_pool(ts: Seq<TokenView>, i: int) -> Result<(OpcodeView, int), CompileError> {
    match spec_match(ts, i, TokenType::CreatePool) {
        Err(e) => Err(e),
        Ok(j0) => match spec_match(ts, j0, TokenType::Colon) {
            Err(e) => Err(e),
            Ok(jc) => {
                match spec_param(ts, jc, TokenType::PairId, TokenType::Literal) {
                    Err(e) => Err(e),
                    Ok(j1) => match spec_literal_value(ts, j1 - 1) {
                        Err(e) => Err(e),
                        Ok(pair_id) => {
                            match spec_param(ts, j1, TokenType::Controller, TokenType::AddressLiteral) {
                                Err(e) => Err(e),
                                Ok(j2) => match spec_address_value(ts, j2 - 1) {
                                    Err(e) => Err(e),
                                    Ok(controller) => {
                                        match spec_param(ts, j2, TokenType::PriorityFee, TokenType::Literal) {
                                            Err(e) => Err(e),
                                            Ok(j3) => match spec_literal_value(ts, j3 - 1) {
                                                Err(e) => Err(e),
                                                Ok(priority_fee) => {
                                                    match spec_param(ts, j3, TokenType::Fee, TokenType::Literal) {
                                                        Err(e) => Err(e),
                                                        Ok(j4) => match spec_literal_value(ts, j4 - 1) {
                                                            Err(e) => Err(e),
                                                            Ok(fee) => {
                                                                match spec_param(ts, j4, TokenType::Vol, TokenType::Literal) {
                                                                    Err(e) => Err(e),
                                                                    Ok(j5) => match spec_literal_value(ts, j5 - 1) {
                                                                        Err(e) => Err(e),
                                                                        Ok(vol) => {
                                                                            match spec_param(ts, j5, TokenType::Dur, TokenType::Literal) {
                                                                                Err(e) => Err(e),
                                                                                Ok(j6) => match spec_literal_value(ts, j6 - 1) {
                                                                                    Err(e) => Err(e),
                                                                                    Ok(dur) => {
                                                                                        match spec_param(ts, j6, TokenType::Jit, TokenType::Literal) {
                                                                                            Err(e) => Err(e),
                                                                                            Ok(j7) => match spec_literal_value(ts, j7 - 1) {
                                                                                                Err(e) => Err(e),
                                                                                                Ok(jit) => {
                                                                                                    match spec_param(ts, j7, TokenType::MaxPrice, TokenType::Literal) {
                                                                                                        Err(e) => Err(e),
                                                                                                        Ok(j8) => match spec_literal_value(ts, j8 - 1) {
                                                                                                            Err(e) => Err(e),
                                                                                                            Ok(max_price) => {
                                                                                                                match spec_param(ts, j8, TokenType::Price, TokenType::Literal) {
                                                                                                                    Err(e) => Err(e),
                                                                                                                    Ok(j9) => match spec_literal_value(ts, j9 - 1) {
                                                                                                                        Err(e) => Err(e),
                                                                                                                        Ok(price) => {
                                                                                                                            Ok((OpcodeView::CreatePool { pair_id, controller, priority_fee, fee, vol, dur, jit, max_price, price }, j9))
                                                                                                                        },
                                                                                                                    },
                                                                                                                }
                                                                                                            },
                                                                                                        },
                                                                                                    }
                                                                                                },
                                                                                            },
                                                                                        }
                                                                                    },
                                                                                },
                                                                            }
                                                                        },
                                                                    },
                                                                }
                                                            },
                                                        },
                                                    }
                                                },
                                            },
                                        }
                                    },
                                },
                            }
                        },
                    },
                }
            },
        },
    }
}


/// One expression: a bare opcode, an opcode with parameters, or a macro
/// invocation.
pub open spec fn spec_expression(ts: Seq<TokenView>, i: int) -> Result<
    (ExpressionView, int),
    CompileError,
> {
    if !(0 <= i < ts.len()) {
        Err(CompileError::ParseError { expected: None, found: None, at: i as usize })
    } else {
        let t = ts[i].ttype;
        if t == TokenType::Unknown {
            Ok((ExpressionView::Opcode(OpcodeView::Unknown), i + 1))
        } else if t == TokenType::Jump {
            Ok((ExpressionView::Opcode(OpcodeView::Jump), i + 1))
        } else if t == TokenType::Allocate {
            match spec_allocate(ts, i) {
                Err(e) => Err(e),
                Ok(p) => Ok((ExpressionView::Opcode(p.0), p.1)),
            }
        } else if t == TokenType::Deallocate {
            match spec_deallocate(ts, i) {
                Err(e) => Err(e),
                Ok(p) => Ok((ExpressionView::Opcode(p.0), p.1)),
            }
        } else if t == TokenType::Claim {
            match spec_claim(ts, i) {
                Err(e) => Err(e),
                Ok(p) => Ok((ExpressionView::Opcode(p.0), p.1)),
            }
        } else if t == TokenType::Swap {
            match spec_swap(ts, i) {
                Err(e) => Err(e),
                Ok(p) => Ok((ExpressionView::Opcode(p.0), p.1)),
            }
        } else if t == TokenType::CreatePool {
            match spec_create_pool(ts, i) {
                Err(e) => Err(e),
                Ok(p) => Ok((ExpressionView::Opcode(p.0), p.1)),
            }
        } else if t == TokenType::CreatePair {
            match spec_create_pair(ts, i) {
                Err(e) => Err(e),
                Ok(p) => Ok((ExpressionView::Opcode(p.0), p.1)),
            }
        } else if t == TokenType::Identifier {
            Ok((ExpressionView::Invocation(ts[i].slice), i + 1))
        } else {
            Err(CompileError::ParseError { expected: None, found: Some(t), at: i as usize })
        }
    }
}

/// A parsed expression always ends past its start and inside the input.
pub proof fn lemma_spec_expression_bounds(ts: Seq<TokenView>, i: int)
    ensures
        match spec_expression(ts, i) {
            Ok(p) => i < p.1 <= ts.len(),
            Err(e) => true,
        },
{
    reveal(spec_allocate);
    reveal(spec_deallocate);
    reveal(spec_claim);
    reveal(spec_swap);
    reveal(spec_create_pair);
    reveal(spec_create_pool);
}

/// A macro body: expressions up to the closing brace, which is not
/// consumed.
pub open spec fn spec_body(ts: Seq<TokenView>, i: int) -> Result<
    (Seq<ExpressionView>, int),
    CompileError,
>
    decreases ts.len() - i,
    when 0 <= i <= ts.len()
    via spec_body_decreases
{
    if i >= ts.len() {
        Err(
            CompileError::ParseError {
                expected: Some(TokenType::CloseBrace),
                found: None,
                at: i as usize,
            },
        )
    } else if ts[i].ttype == TokenType::CloseBrace {
        Ok((Seq::empty(), i))
    } else {
        match spec_expression(ts, i) {
            Err(e) => Err(e),
            Ok((e1, j)) => match spec_body(ts, j) {
                Err(e) => Err(e),
                Ok(p) => Ok((seq![e1] + p.0, p.1)),
            },
        }
    }
}

#[via_fn]
proof fn spec_body_decreases(ts: Seq<TokenView>, i: int) {
    lemma_spec_expression_bounds(ts, i);
}

/// A parsed body ends at its closing brace, inside the input.
pub proof fn lemma_spec_body_bounds(ts: Seq<TokenView>, i: int)
    requires
        0 <= i <= ts.len(),
    ensures
        match spec_body(ts, i) {
            Ok(p) => i <= p.1 < ts.len(),
            Err(e) => true,
        },
    decreases ts.len() - i,
{
    if i < ts.len() && ts[i].ttype != TokenType::CloseBrace {
        lemma_spec_expression_bounds(ts, i);
        match spec_expression(ts, i) {
            Ok(p) => {
                lemma_spec_body_bounds(ts, p.1);
            },
            Err(e) => {},
        }
    }
}

/// One macro definition: the `macro` keyword, a name, and a braced body.
pub open spec fn spec_macro(ts: Seq<TokenView>, i: int) -> Result<
    (MacroView, int),
    CompileError,
> {
    match spec_match(ts, i, TokenType::Macro) {
        Err(e) => Err(e),
        Ok(j1) => match spec_match(ts, j1, TokenType::Identifier) {
            Err(e) => Err(e),
            Ok(j2) => match spec_match(ts, j2, TokenType::OpenBrace) {
                Err(e) => Err(e),
                Ok(j3) => match spec_body(ts, j3) {
                    Err(e) => Err(e),
                    Ok((body, j4)) => match spec_match(ts, j4, TokenType::CloseBrace) {
                        Err(e) => Err(e),
                        Ok(j5) => Ok((MacroView { name: ts[j1].slice, body }, j5)),
                    },
                },
            },
        },
    }
}

/// A parsed definition always ends past its start and inside the input.
pub proof fn lemma_spec_macro_bounds(ts: Seq<TokenView>, i: int)
    requires
        0 <= i <= ts.len(),
    ensures
        match spec_macro(ts, i) {
            Ok(p) => i < p.1 <= ts.len(),
            Err(e) => true,
        },
{
    if spec_match(ts, i, TokenType::Macro) is Ok && spec_match(ts, i + 1, TokenType::Identifier)
        is Ok && spec_match(ts, i + 2, TokenType::OpenBrace) is Ok {
        lemma_spec_body_bounds(ts, i + 3);
    }
}

/// The whole compilation unit: macro definitions until the tokens are
/// exhausted.
pub open spec fn spec_unit(ts: Seq<TokenView>, i: int) -> Result<Seq<MacroView>, CompileError>
    decreases ts.len() - i,
    when 0 <= i <= ts.len()
    via spec_unit_decreases
{
    if i >= ts.len() {
        Ok(Seq::empty())
    } else {
        match spec_macro(ts, i) {
            Err(e) => Err(e),
            Ok((m, j)) => match spec_unit(ts, j) {
                Err(e) => Err(e),
                Ok(rest) => Ok(seq![m] + rest),
            },
        }
    }
}

#[via_fn]
proof fn spec_unit_decreases(ts: Seq<TokenView>, i: int) {
    if 0 <= i <= ts.len() {
        lemma_spec_macro_bounds(ts, i);
    }
}

/// No two macros share a name.
pub open spec fn names_unique(ms: Seq<MacroView>) -> bool {
    forall|i: int, j: int| 0 <= i < j < ms.len() ==> (#[trigger] ms[i].name) != (#[trigger] ms[j].name)
}

/// The first macro named `name` at or after index `i`.
pub open spec fn lookup_from(ms: Seq<MacroView>, i: int, name: Seq<u8>) -> Option<MacroView>
    decreases ms.len() - i,
    when 0 <= i <= ms.len()
{
    if i >= ms.len() {
        None
    } else if ms[i].name == name {
        Some(ms[i])
    } else {
        lookup_from(ms, i + 1, name)
    }
}

/// The macro named `name` in the table, if any.
pub open spec fn lookup_macro(ms: Seq<MacroView>, name: Seq<u8>) -> Option<MacroView> {
    lookup_from(ms, 0, name)
}

/// The names of the table's macros.
pub open spec fn macro_names(ms: Seq<MacroView>) -> Seq<Seq<u8>> {
    ms.map_values(|m: MacroView| m.name)
}

/// A well-formed expansion chain: the names currently being inlined, each
/// defined, none repeated.
pub open spec fn chain_wf(ms: Seq<MacroView>, chain: Seq<Seq<u8>>) -> bool {
    chain.no_duplicates() && (forall|k: int|
        0 <= k < chain.len() ==> lookup_macro(ms, #[trigger] chain[k]) is Some)
}

proof fn lemma_lookup_from_contains(ms: Seq<MacroView>, i: int, name: Seq<u8>)
    requires
        0 <= i <= ms.len(),
        lookup_from(ms, i, name) is Some,
    ensures
        exists|k: int| i <= k < ms.len() && (#[trigger] ms[k].name) == name,
    decreases ms.len() - i,
{
    if i < ms.len() && ms[i].name != name {
        lemma_lookup_from_contains(ms, i + 1, name);
    }
}

/// A chain of distinct defined names is no longer than the table.
pub proof fn lemma_chain_bound(ms: Seq<MacroView>, chain: Seq<Seq<u8>>)
    requires
        chain_wf(ms, chain),
    ensures
        chain.len() <= ms.len(),
{
    broadcast use vstd::set::group_set_axioms;
    broadcast use vstd::seq_lib::seq_to_set_is_finite;

    let names = macro_names(ms);
    assert forall|k: int| 0 <= k < chain.len() implies names.to_set().contains(
        #[trigger] chain[k],
    ) by {
        lemma_lookup_from_contains(ms, 0, chain[k]);
        let w = choose|w: int| 0 <= w < ms.len() && (#[trigger] ms[w].name) == chain[k];
        assert(names[w] == chain[k]);
        assert(names.contains(chain[k]));
    }
    chain.unique_seq_to_set();
    assert(chain.to_set().subset_of(names.to_set())) by {
        assert forall|x: Seq<u8>| chain.to_set().contains(x) implies names.to_set().contains(
            x,
        ) by {
            assert(chain.contains(x));
            let k = choose|k: int| 0 <= k < chain.len() && chain[k] == x;
            assert(names.to_set().contains(chain[k]));
        }
    }
    vstd::set_lib::lemma_len_subset(chain.to_set(), names.to_set());
    names.lemma_cardinality_of_set();
}

/// The full expansion of an expression list. Instructions stay in place and
/// order; an invocation is replaced by the full expansion of the named
/// macro's body, spliced in at the call site. A name already on the chain is
/// a cycle; a name not in the table is undefined; either aborts everything.
pub open spec fn spec_expand(
    ms: Seq<MacroView>,
    es: Seq<ExpressionView>,
    chain: Seq<Seq<u8>>,
) -> Result<Seq<ExpressionView>, CompileError>
    decreases ms.len() - chain.len(), es.len(),
    when chain_wf(ms, chain)
    via spec_expand_decreases
{
    if es.len() == 0 {
        Ok(Seq::empty())
    } else {
        let first = match es[0] {
            ExpressionView::Opcode(o) => Ok(seq![es[0]]),
            ExpressionView::Invocation(nm) => {
                if chain.contains(nm) {
                    Err(CompileError::CyclicMacroError)
                } else {
                    match lookup_macro(ms, nm) {
                        None => Err(CompileError::UndefinedMacroError),
                        Some(m) => spec_expand(ms, m.body, chain.push(nm)),
                    }
                }
            },
        };
        match first {
            Err(e) => Err(e),
            Ok(f) => match spec_expand(ms, es.drop_first(), chain) {
                Err(e) => Err(e),
                Ok(rest) => Ok(f + rest),
            },
        }
    }
}

#[via_fn]
proof fn spec_expand_decreases(ms: Seq<MacroView>, es: Seq<ExpressionView>, chain: Seq<Seq<u8>>) {
    lemma_chain_bound(ms, chain);
    if es.len() > 0 {
        match es[0] {
            ExpressionView::Opcode(o) => {},
            ExpressionView::Invocation(nm) => {
                if !chain.contains(nm) && lookup_macro(ms, nm) is Some {
                    assert(chain.push(nm).no_duplicates());
                    assert forall|k: int|
                        0 <= k < chain.push(nm).len() implies lookup_macro(
                        ms,
                        #[trigger] chain.push(nm)[k],
                    ) is Some by {
                        if k < chain.len() {
                            assert(chain.push(nm)[k] == chain[k]);
                        }
                    }
                    lemma_chain_bound(ms, chain.push(nm));
                }
            },
        }
    }
}

/// Every expression is an opcode, none a leftover invocation.
pub open spec fn only_opcodes(es: Seq<ExpressionView>) -> bool {
    forall|i: int| 0 <= i < es.len() ==> (#[trigger] es[i]) is Opcode
}

/// Whatever expansion returns is fully expanded: no invocation survives.
pub proof fn lemma_expand_only_opcodes(
    ms: Seq<MacroView>,
    es: Seq<ExpressionView>,
    chain: Seq<Seq<u8>>,
)
    requires
        chain_wf(ms, chain),
    ensures
        match spec_expand(ms, es, chain) {
            Ok(o) => only_opcodes(o),
            Err(e) => true,
        },
    decreases ms.len() - chain.len(), es.len(),
{
    lemma_chain_bound(ms, chain);
    if es.len() > 0 {
        match es[0] {
            ExpressionView::Opcode(o) => {},
            ExpressionView::Invocation(nm) => {
                if !chain.contains(nm) && lookup_macro(ms, nm) is Some {
                    let m = lookup_macro(ms, nm)->Some_0;
                    assert(chain.push(nm).no_duplicates());
                    assert forall|t: int|
                        0 <= t < chain.push(nm).len() implies lookup_macro(
                        ms,
                        #[trigger] chain.push(nm)[t],
                    ) is Some by {
                        if t < chain.len() {
                            assert(chain.push(nm)[t] == chain[t]);
                        }
                    }
                    lemma_chain_bound(ms, chain.push(nm));
                    lemma_expand_only_opcodes(ms, m.body, chain.push(nm));
                }
            },
        }
        lemma_expand_only_opcodes(ms, es.drop_first(), chain);
        match spec_expand(ms, es, chain) {
            Ok(o) => {
                assert forall|i: int| 0 <= i < o.len() implies (#[trigger] o[i]) is Opcode by {}
            },
            Err(e) => {},
        }
    }
}

/// A successful compilation hands codegen a fully expanded list: zero
/// invocation nodes remain in what `parse` returns.
pub proof fn lemma_parse_fully_expanded(ts: Seq<TokenView>)
    ensures
        match spec_parse(ts) {
            Ok(es) => only_opcodes(es),
            Err(e) => true,
        },
{
    match spec_unit(ts, 0) {
        Err(e) => {},
        Ok(ms) => {
            if names_unique(ms) {
                match lookup_macro(ms, main_name()) {
                    None => {},
                    Some(m) => {
                        let chain = seq![main_name()];
                        assert(chain.no_duplicates());
                        assert forall|t: int| 0 <= t < chain.len() implies lookup_macro(
                            ms,
                            #[trigger] chain[t],
                        ) is Some by {
                            assert(chain[t] == main_name());
                        }
                        lemma_expand_only_opcodes(ms, m.body, chain);
                    },
                }
            }
        },
    }
}

/// Expanding an already fully expanded expression list is a no-op: with no
/// invocation present, expansion returns the list unchanged.
pub proof fn lemma_expand_fixpoint(
    ms: Seq<MacroView>,
    es: Seq<ExpressionView>,
    chain: Seq<Seq<u8>>,
)
    requires
        chain_wf(ms, chain),
        forall|i: int| 0 <= i < es.len() ==> (#[trigger] es[i]) is Opcode,
    ensures
        spec_expand(ms, es, chain) == Ok::<Seq<ExpressionView>, CompileError>(es),
    decreases es.len(),
{
    if es.len() > 0 {
        assert(es[0] is Opcode);
        assert forall|i: int|
            0 <= i < es.drop_first().len() implies (#[trigger] es.drop_first()[i]) is Opcode by {
            assert(es.drop_first()[i] == es[i + 1]);
        }
        lemma_expand_fixpoint(ms, es.drop_first(), chain);
        assert(seq![es[0]] + es.drop_first() =~= es);
    } else {
        assert(es =~= Seq::<ExpressionView>::empty());
    }
}

/// Expansion distributes over concatenation: the expansion of `u + v` is
/// the expansion of `u` followed by the expansion of `v`, and an error in
/// `u` wins.
pub proof fn lemma_expand_concat(
    ms: Seq<MacroView>,
    u: Seq<ExpressionView>,
    v: Seq<ExpressionView>,
    chain: Seq<Seq<u8>>,
)
    requires
        chain_wf(ms, chain),
    ensures
        spec_expand(ms, u + v, chain) == (match spec_expand(ms, u, chain) {
            Err(e) => Err::<Seq<ExpressionView>, CompileError>(e),
            Ok(eu) => match spec_expand(ms, v, chain) {
                Err(e) => Err(e),
                Ok(ev) => Ok(eu + ev),
            },
        }),
    decreases u.len(),
{
    if u.len() == 0 {
        assert(u + v =~= v);
        assert(spec_expand(ms, u, chain) == Ok::<Seq<ExpressionView>, CompileError>(
            Seq::empty(),
        ));
        match spec_expand(ms, v, chain) {
            Ok(ev) => {
                assert(Seq::<ExpressionView>::empty() + ev =~= ev);
            },
            Err(e) => {},
        }
    } else {
        let h = u[0];
        assert((u + v)[0] == h);
        assert((u + v).len() > 0);
        assert((u + v).drop_first() =~= u.drop_first() + v);
        lemma_expand_concat(ms, u.drop_first(), v, chain);
        let first = match h {
            ExpressionView::Opcode(o) => Ok::<Seq<ExpressionView>, CompileError>(seq![h]),
            ExpressionView::Invocation(nm) => {
                if chain.contains(nm) {
                    Err(CompileError::CyclicMacroError)
                } else {
                    match lookup_macro(ms, nm) {
                        None => Err(CompileError::UndefinedMacroError),
                        Some(m) => spec_expand(ms, m.body, chain.push(nm)),
                    }
                }
            },
        };
        match first {
            Err(e) => {},
            Ok(f) => {
                match spec_expand(ms, u.drop_first(), chain) {
                    Err(e) => {},
                    Ok(eu2) => {
                        match spec_expand(ms, v, chain) {
                            Err(e) => {},
                            Ok(ev) => {
                                assert(f + (eu2 + ev) =~= (f + eu2) + ev);
                            },
                        }
                    },
                }
            },
        }
    }
}

/// A list whose first invocation names a macro already being inlined fails
/// with the cyclic-macro error, whatever stands before or after it.
pub proof fn lemma_expand_cycle(
    ms: Seq<MacroView>,
    es: Seq<ExpressionView>,
    chain: Seq<Seq<u8>>,
    nm: Seq<u8>,
    k: int,
)
    requires
        chain_wf(ms, chain),
        chain.contains(nm),
        0 <= k < es.len(),
        es[k] == ExpressionView::Invocation(nm),
        forall|j: int| 0 <= j < k ==> (#[trigger] es[j]) is Opcode,
    ensures
        spec_expand(ms, es, chain) == Err::<Seq<ExpressionView>, CompileError>(
            CompileError::CyclicMacroError,
        ),
    decreases k,
{
    if k > 0 {
        assert(es[0] is Opcode);
        assert(es.drop_first()[k - 1] == es[k]);
        assert forall|j: int|
            0 <= j < k - 1 implies (#[trigger] es.drop_first()[j]) is Opcode by {
            assert(es.drop_first()[j] == es[j + 1]);
        }
        lemma_expand_cycle(ms, es.drop_first(), chain, nm, k - 1);
    }
}

/// A macro whose body invokes the macro itself fails with the cyclic-macro
/// error, and expansion still terminates: the chain stops it at the
/// self-invocation.
pub proof fn lemma_self_invocation_cyclic(ms: Seq<MacroView>, m: MacroView, k: int)
    requires
        lookup_macro(ms, m.name) == Some(m),
        0 <= k < m.body.len(),
        m.body[k] == ExpressionView::Invocation(m.name),
        forall|j: int| 0 <= j < k ==> (#[trigger] m.body[j]) is Opcode,
    ensures
        spec_expand(ms, m.body, seq![m.name]) == Err::<Seq<ExpressionView>, CompileError>(
            CompileError::CyclicMacroError,
        ),
{
    let chain = seq![m.name];
    assert(chain.no_duplicates());
    assert forall|t: int| 0 <= t < chain.len() implies lookup_macro(
        ms,
        #[trigger] chain[t],
    ) is Some by {
        assert(chain[t] == m.name);
    }
    assert(chain.contains(m.name)) by {
        assert(chain[0] == m.name);
    }
    lemma_expand_cycle(ms, m.body, chain, m.name, k);
}

/// For macros `a` invoking `b` invoking `c`, all distinct, expanding `a`
/// yields `c`'s body spliced at `b`'s call site, itself spliced at `a`'s
/// call site, with every untouched node in its original relative order.
pub proof fn lemma_expand_splice(
    ms: Seq<MacroView>,
    a: MacroView,
    b: MacroView,
    c: MacroView,
    xs1: Seq<ExpressionView>,
    xs2: Seq<ExpressionView>,
    ys1: Seq<ExpressionView>,
    ys2: Seq<ExpressionView>,
)
    requires
        lookup_macro(ms, a.name) == Some(a),
        lookup_macro(ms, b.name) == Some(b),
        lookup_macro(ms, c.name) == Some(c),
        a.name != b.name,
        a.name != c.name,
        b.name != c.name,
        a.body == xs1 + seq![ExpressionView::Invocation(b.name)] + xs2,
        b.body == ys1 + seq![ExpressionView::Invocation(c.name)] + ys2,
        forall|i: int| 0 <= i < xs1.len() ==> (#[trigger] xs1[i]) is Opcode,
        forall|i: int| 0 <= i < xs2.len() ==> (#[trigger] xs2[i]) is Opcode,
        forall|i: int| 0 <= i < ys1.len() ==> (#[trigger] ys1[i]) is Opcode,
        forall|i: int| 0 <= i < ys2.len() ==> (#[trigger] ys2[i]) is Opcode,
        forall|i: int| 0 <= i < c.body.len() ==> (#[trigger] c.body[i]) is Opcode,
    ensures
        spec_expand(ms, a.body, seq![a.name]) == Ok::<Seq<ExpressionView>, CompileError>(
            xs1 + (ys1 + c.body + ys2) + xs2,
        ),
{
    let ch_a = seq![a.name];
    let ch_ab = ch_a.push(b.name);
    let ch_abc = ch_ab.push(c.name);
    assert(ch_ab =~= seq![a.name, b.name]);
    assert(ch_abc =~= seq![a.name, b.name, c.name]);
    assert(ch_a.no_duplicates());
    assert(ch_ab.no_duplicates());
    assert(ch_abc.no_duplicates());
    assert forall|t: int| 0 <= t < ch_a.len() implies lookup_macro(
        ms,
        #[trigger] ch_a[t],
    ) is Some by {
        assert(ch_a[t] == a.name);
    }
    assert(chain_wf(ms, ch_a));
    assert forall|t: int| 0 <= t < ch_ab.len() implies lookup_macro(
        ms,
        #[trigger] ch_ab[t],
    ) is Some by {
        assert(t == 0 || t == 1);
    }
    assert(chain_wf(ms, ch_ab));
    assert forall|t: int| 0 <= t < ch_abc.len() implies lookup_macro(
        ms,
        #[trigger] ch_abc[t],
    ) is Some by {
        assert(t == 0 || t == 1 || t == 2);
    }
    assert(chain_wf(ms, ch_abc));
    assert(!ch_ab.contains(c.name)) by {
        if ch_ab.contains(c.name) {
            let t = choose|t: int| 0 <= t < ch_ab.len() && ch_ab[t] == c.name;
            assert(t == 0 || t == 1);
        }
    }
    assert(!ch_a.contains(b.name)) by {
        if ch_a.contains(b.name) {
            let t = choose|t: int| 0 <= t < ch_a.len() && ch_a[t] == b.name;
            assert(t == 0);
        }
    }
    // expanding c's body deep on the chain is the identity
    lemma_expand_fixpoint(ms, c.body, ch_abc);
    // one invocation of c, with a and b on the chain, is c's body
    let inv_c = seq![ExpressionView::Invocation(c.name)];
    assert(inv_c.drop_first() =~= Seq::<ExpressionView>::empty());
    assert(spec_expand(ms, Seq::empty(), ch_ab) == Ok::<Seq<ExpressionView>, CompileError>(
        Seq::empty(),
    ));
    assert(spec_expand(ms, inv_c, ch_ab) == Ok::<Seq<ExpressionView>, CompileError>(c.body)) by {
        assert(ch_ab.push(c.name) == ch_abc);
        assert(c.body + Seq::<ExpressionView>::empty() =~= c.body);
    }
    // b's body with a on the chain expands to ys1 + c.body + ys2
    lemma_expand_fixpoint(ms, ys1, ch_ab);
    lemma_expand_fixpoint(ms, ys2, ch_ab);
    lemma_expand_concat(ms, ys1, inv_c, ch_ab);
    lemma_expand_concat(ms, ys1 + inv_c, ys2, ch_ab);
    assert(spec_expand(ms, b.body, ch_ab) == Ok::<Seq<ExpressionView>, CompileError>(
        ys1 + c.body + ys2,
    ));
    // one invocation of b, with a on the chain, is that expansion
    let inv_b = seq![ExpressionView::Invocation(b.name)];
    assert(inv_b.drop_first() =~= Seq::<ExpressionView>::empty());
    assert(spec_expand(ms, Seq::empty(), ch_a) == Ok::<Seq<ExpressionView>, CompileError>(
        Seq::empty(),
    ));
    assert(spec_expand(ms, inv_b, ch_a) == Ok::<Seq<ExpressionView>, CompileError>(
        ys1 + c.body + ys2,
    )) by {
        assert(ch_a.push(b.name) == ch_ab);
        assert((ys1 + c.body + ys2) + Seq::<ExpressionView>::empty() =~= ys1 + c.body + ys2);
    }
    // a's body splices it all together
    lemma_expand_fixpoint(ms, xs1, ch_a);
    lemma_expand_fixpoint(ms, xs2, ch_a);
    lemma_expand_concat(ms, xs1, inv_b, ch_a);
    lemma_expand_concat(ms, xs1 + inv_b, xs2, ch_a);
    assert(spec_expand(ms, a.body, seq![a.name]) == Ok::<Seq<ExpressionView>, CompileError>(
        xs1 + (ys1 + c.body + ys2) + xs2,
    ));
}

/// The meaning of a whole token sequence: parse every definition, refuse
/// duplicate names, find `main`, and expand its body with `main` on the
/// chain.
pub open spec fn spec_parse(ts: Seq<TokenView>) -> Result<Seq<ExpressionView>, CompileError> {
    match spec_unit(ts, 0) {
        Err(e) => Err(e),
        Ok(ms) => if !names_unique(ms) {
            Err(CompileError::DuplicateMacroError)
        } else {
            match lookup_macro(ms, main_name()) {
                None => Err(CompileError::MissingMainError),
                Some(m) => spec_expand(ms, m.body, seq![main_name()]),
            }
        },
    }
}

/// A byte-for-byte copy of a byte vector.
fn copy_bytes(v: &Vec<u8>) -> (r: Vec<u8>)
    ensures
        r@ == v@,
{
    let mut out: Vec<u8> = Vec::new();
    let mut i: usize = 0;
    while i < v.len()
        invariant
            i <= v@.len(),
            out@ =~= v@.take(i as int),
        decreases v@.len() - i,
    {
        out.push(v[i]);
        i = i + 1;
    }
    proof {
        assert(out@ =~= v@);
    }
    out
}

/// Whether two byte vectors hold the same bytes.
fn eq_bytes(a: &Vec<u8>, b: &Vec<u8>) -> (r: bool)
    ensures
        r == (a@ == b@),
{
    if a.len() != b.len() {
        return false;
    }
    let mut i: usize = 0;
    while i < a.len()
        invariant
            i <= a@.len(),
            a@.len() == b@.len(),
            forall|j: int| 0 <= j < i ==> a@[j] == #[trigger] b@[j],
        decreases a@.len() - i,
    {
        if a[i] != b[i] {
            return false;
        }
        i = i + 1;
    }
    proof {
        assert(a@ =~= b@);
    }
    true
}

/// Whether `name` is on the chain.
fn name_in_chain(chain: &Vec<Vec<u8>>, name: &Vec<u8>) -> (r: bool)
    ensures
        r == name_views(chain@).contains(name@),
{
    let mut k: usize = 0;
    while k < chain.len()
        invariant
            k <= chain@.len(),
            forall|j: int| 0 <= j < k ==> name_views(chain@)[j] != name@,
        decreases chain@.len() - k,
    {
        if eq_bytes(&chain[k], name) {
            proof {
                assert(name_views(chain@)[k as int] == name@);
            }
            return true;
        }
        k = k + 1;
    }
    proof {
        if name_views(chain@).contains(name@) {
            let j = choose|j: int|
                0 <= j < name_views(chain@).len() && name_views(chain@)[j] == name@;
            assert(false);
        }
    }
    false
}

/// The index of the macro named `name`, if any.
fn find_macro(ms: &Vec<Macro>, name: &Vec<u8>) -> (r: Option<usize>)
    ensures
        match r {
            Some(k) => k < ms@.len() && ms@[k as int]@.name == name@ && lookup_macro(
                macro_views(ms@),
                name@,
            ) == Some(macro_views(ms@)[k as int]),
            None => lookup_macro(macro_views(ms@), name@) is None,
        },
{
    let ghost msv = macro_views(ms@);
    let mut k: usize = 0;
    while k < ms.len()
        invariant
            k <= ms@.len(),
            msv == macro_views(ms@),
            lookup_from(msv, 0, name@) == lookup_from(msv, k as int, name@),
        decreases ms@.len() - k,
    {
        if eq_bytes(&ms[k].name, name) {
            proof {
                assert(msv[k as int].name == name@);
            }
            return Some(k);
        }
        proof {
            assert(msv[k as int].name != name@);
        }
        k = k + 1;
    }
    None
}

/// Whether every macro name in the table is unique.
fn check_names_unique(ms: &Vec<Macro>) -> (r: bool)
    ensures
        r == names_unique(macro_views(ms@)),
{
    let ghost msv = macro_views(ms@);
    let mut i: usize = 0;
    while i < ms.len()
        invariant
            i <= ms@.len(),
            msv == macro_views(ms@),
            forall|a: int, b: int| 0 <= a < b < ms@.len() && a < i ==> (#[trigger] msv[a].name)
                != (#[trigger] msv[b].name),
        decreases ms@.len() - i,
    {
        let mut j: usize = i + 1;
        while j < ms.len()
            invariant
                i < j <= ms@.len() || (i + 1 == j && j >= ms@.len()),
                i < ms@.len(),
                msv == macro_views(ms@),
                forall|b: int| i < b < j ==> (#[trigger] msv[b].name) != msv[i as int].name,
            decreases ms@.len() - j,
        {
            if eq_bytes(&ms[i].name, &ms[j].name) {
                proof {
                    assert(msv[i as int].name == msv[j as int].name);
                }
                return false;
            }
            j = j + 1;
        }
        i = i + 1;
    }
    true
}

/// Splice the full expansion of macro `idx`'s body onto the end of `out`.
/// `chain` holds the names currently being inlined, this macro's included;
/// it is handed back unchanged.
fn expand_into(
    ms: &Vec<Macro>,
    idx: usize,
    chain: &mut Vec<Vec<u8>>,
    out: &mut Vec<Expression>,
) -> (r: Result<(), CompileError>)
    requires
        idx < ms@.len(),
        chain_wf(macro_views(ms@), name_views(old(chain)@)),
    ensures
        final(chain)@ == old(chain)@,
        (match (r, spec_expand(
            macro_views(ms@),
            ms@[idx as int]@.body,
            name_views(old(chain)@),
        )) {
            (Ok(u), Ok(o)) => expr_views(final(out)@) == expr_views(old(out)@) + o,
            (Err(e), Err(e2)) => e == e2,
            _ => false,
        }),
    decreases ms@.len() - chain@.len(),
{
    let ghost msv = macro_views(ms@);
    let ghost chain0 = name_views(chain@);
    let ghost bodyv = ms@[idx as int]@.body;
    let ghost out0 = expr_views(out@);
    let ghost mut done: Seq<ExpressionView> = Seq::empty();
    proof {
        assert(bodyv.skip(0) =~= bodyv);
        assert(expr_views(out@) =~= out0 + done);
    }
    let n = ms[idx].body.len();
    let mut i: usize = 0;
    while i < n
        invariant
            i <= n,
            n == bodyv.len(),
            idx < ms@.len(),
            msv == macro_views(ms@),
            bodyv == ms@[idx as int]@.body,
            chain@ == old(chain)@,
            chain0 == name_views(chain@),
            chain_wf(msv, chain0),
            expr_views(out@) == out0 + done,
            out0 == expr_views(old(out)@),
            (match spec_expand(msv, bodyv.skip(i as int), chain0) {
                Ok(rest) => spec_expand(msv, bodyv, chain0) == Ok::<_, CompileError>(done + rest),
                Err(e) => spec_expand(msv, bodyv, chain0) == Err::<Seq<ExpressionView>, _>(e),
            }),
        decreases n - i,
    {
        let ghost suffix = bodyv.skip(i as int);
        proof {
            assert(suffix.len() > 0);
            assert(suffix[0] == bodyv[i as int]);
            assert(suffix.drop_first() =~= bodyv.skip(i as int + 1));
            assert(bodyv[i as int] == ms@[idx as int].body@[i as int]@);
        }
        match &ms[idx].body[i] {
            Expression::Opcode(o) => {
                proof {
                    assert(bodyv[i as int] == ExpressionView::Opcode(o@));
                }
                out.push(Expression::Opcode(*o));
                proof {
                    let ev = bodyv[i as int];
                    let done0 = done;
                    done = done.push(ev);
                    assert(expr_views(out@) =~= (out0 + done0).push(ev));
                    assert((out0 + done0).push(ev) =~= out0 + done);
                    match spec_expand(msv, bodyv.skip(i as int + 1), chain0) {
                        Ok(r2) => {
                            assert(spec_expand(msv, suffix, chain0) == Ok::<_, CompileError>(
                                seq![ev] + r2,
                            ));
                            assert(done0 + (seq![ev] + r2) =~= done + r2);
                        },
                        Err(e) => {
                            assert(spec_expand(msv, suffix, chain0) == Err::<
                                Seq<ExpressionView>,
                                _,
                            >(e));
                        },
                    }
                }
            },
            Expression::Invocation(nm) => {
                proof {
                    assert(bodyv[i as int] == ExpressionView::Invocation(nm@));
                }
                if name_in_chain(chain, nm) {
                    proof {
                        assert(spec_expand(msv, suffix, chain0) == Err::<Seq<ExpressionView>, _>(
                            CompileError::CyclicMacroError,
                        ));
                    }
                    return Err(CompileError::CyclicMacroError);
                }
                let k = match find_macro(ms, nm) {
                    Some(k) => k,
                    None => {
                        proof {
                            assert(spec_expand(msv, suffix, chain0) == Err::<
                                Seq<ExpressionView>,
                                _,
                            >(CompileError::UndefinedMacroError));
                        }
                        return Err(CompileError::UndefinedMacroError);
                    },
                };
                let nm2 = copy_bytes(nm);
                chain.push(nm2);
                proof {
                    assert(name_views(chain@) =~= chain0.push(nm@));
                    assert(chain0.push(nm@).no_duplicates());
                    assert forall|t: int|
                        0 <= t < chain0.push(nm@).len() implies lookup_macro(
                        msv,
                        #[trigger] chain0.push(nm@)[t],
                    ) is Some by {
                        if t < chain0.len() {
                            assert(chain0.push(nm@)[t] == chain0[t]);
                        }
                    }
                    assert(chain_wf(msv, name_views(chain@)));
                    lemma_chain_bound(msv, chain0.push(nm@));
                    assert(msv[k as int] == ms@[k as int]@);
                }
                let ghost out_before = expr_views(out@);
                let rr = expand_into(ms, k, chain, out);
                let _popped = chain.pop();
                proof {
                    assert(chain@ =~= old(chain)@);
                }
                match rr {
                    Ok(u) => {
                        proof {
                            let first = spec_expand(msv, msv[k as int].body, chain0.push(nm@));
                            let o_k = first->Ok_0;
                            let done0 = done;
                            done = done + o_k;
                            assert(expr_views(out@) == out_before + o_k);
                            assert((out0 + done0) + o_k =~= out0 + done);
                            match spec_expand(msv, bodyv.skip(i as int + 1), chain0) {
                                Ok(r2) => {
                                    assert(spec_expand(msv, suffix, chain0) == Ok::<
                                        _,
                                        CompileError,
                                    >(o_k + r2));
                                    assert(done0 + (o_k + r2) =~= done + r2);
                                },
                                Err(e) => {
                                    assert(spec_expand(msv, suffix, chain0) == Err::<
                                        Seq<ExpressionView>,
                                        _,
                                    >(e));
                                },
                            }
                        }
                    },
                    Err(e) => {
                        proof {
                            assert(spec_expand(msv, suffix, chain0) == Err::<
                                Seq<ExpressionView>,
                                _,
                            >(e));
                        }
                        return Err(e);
                    },
                }
            },
        }
        i = i + 1;
    }
    proof {
        assert(bodyv.skip(n as int) =~= Seq::<ExpressionView>::empty());
        assert(spec_expand(msv, bodyv.skip(n as int), chain0) == Ok::<_, CompileError>(
            Seq::<ExpressionView>::empty(),
        ));
        assert(done + Seq::<ExpressionView>::empty() =~= done);
    }
    Ok(())
}

/// Type representing an opcode parser: a scan cursor over an immutable
/// token buffer.
#[derive(Debug)]
pub struct Assembler {
    /// Tokens to be parsed.
    pub tokens: Vec<Token>,
    /// Cursor into the token buffer.
    pub cursor: usize,
}

impl Assembler {
    /// The cursor never passes the end of the buffer.
    pub open spec fn wf(&self) -> bool {
        self.cursor <= self.tokens@.len()
    }

    /// Public constructor function that instantiates a parser.
    pub fn new(tokens: Vec<Token>) -> (a: Assembler)
        ensures
            a.tokens@ == tokens@,
            a.cursor == 0,
            a.wf(),
    {
        Assembler { tokens, cursor: 0 }
    }

    /// Consume one token of the expected kind, or report what stood there.
    fn match_token(&mut self, expected: TokenType) -> (r: Result<(), CompileError>)
        requires
            old(self).wf(),
        ensures
            final(self).tokens@ == old(self).tokens@,
            final(self).wf(),
            (match (r, spec_match(views_of(old(self).tokens@), old(self).cursor as int, expected)) {
                (Ok(u), Ok(j)) => final(self).cursor as int == j,
                (Err(e), Err(e2)) => e == e2 && final(self).cursor == old(self).cursor,
                _ => false,
            }),
    {
        if self.cursor >= self.tokens.len() {
            return Err(
                CompileError::ParseError { expected: Some(expected), found: None, at: self.cursor },
            );
        }
        let t = self.tokens[self.cursor].ttype;
        proof {
            assert(views_of(self.tokens@)[self.cursor as int].ttype == t);
        }
        if t == expected {
            self.cursor = self.cursor + 1;
            Ok(())
        } else {
            Err(CompileError::ParseError { expected: Some(expected), found: Some(t), at: self.cursor })
        }
    }

    /// Consume one `key: value` parameter.
    fn parse_parameter(&mut self, key: TokenType, value: TokenType) -> (r: Result<
        (),
        CompileError,
    >)
        requires
            old(self).wf(),
        ensures
            final(self).tokens@ == old(self).tokens@,
            final(self).wf(),
            (match (r, spec_param(
                views_of(old(self).tokens@),
                old(self).cursor as int,
                key,
                value,
            )) {
                (Ok(u), Ok(j)) => final(self).cursor as int == j,
                (Err(e), Err(e2)) => e == e2,
                _ => false,
            }),
    {
        match self.match_token(key) {
            Ok(u) => (),
            Err(e) => {
                return Err(e);
            },
        }
        match self.match_token(TokenType::Colon) {
            Ok(u) => (),
            Err(e) => {
                return Err(e);
            },
        }
        self.match_token(value)
    }

    /// The integer value of the token just consumed.
    #[verifier::loop_isolation(false)]
    fn previous_literal(&self) -> (r: Result<Uint256, CompileError>)
        requires
            self.wf(),
            1 <= self.cursor,
        ensures
            (match (r, spec_literal_value(views_of(self.tokens@), self.cursor - 1)) {
                (Ok(u), Ok(v)) => u@ == v,
                (Err(e), Err(e2)) => e == e2,
                _ => false,
            }),
    {
        let at = self.cursor - 1;
        let tk = &self.tokens[at];
        let ghost sl = views_of(self.tokens@)[at as int].slice;
        proof {
            assert(sl == tk.slice@);
        }
        let mut j: usize = 0;
        while j < tk.slice.len()
            invariant
                j <= tk.slice@.len(),
                forall|k: int| 0 <= k < j ==> is_dec_digit(#[trigger] tk.slice@[k]),
            decreases tk.slice@.len() - j,
        {
            let b = tk.slice[j];
            if !(48 <= b && b <= 57) {
                proof {
                    assert(!is_dec_digit(tk.slice@[j as int]));
                }
                return Err(CompileError::LiteralError { at });
            }
            j = j + 1;
        }
        match Uint256::from_dec_digits(&tk.slice) {
            Some(u) => {
                proof {
                    crate::uint256::lemma_be_val_bound(u.bytes@);
                }
                Ok(u)
            },
            None => Err(CompileError::LiteralError { at }),
        }
    }

    /// The address value of the token just consumed.
    #[verifier::loop_isolation(false)]
    fn previous_address(&self) -> (r: Result<Addr, CompileError>)
        requires
            self.wf(),
            1 <= self.cursor,
        ensures
            (match (r, spec_address_value(views_of(self.tokens@), self.cursor - 1)) {
                (Ok(a), Ok(bs)) => a.bytes@ == bs,
                (Err(e), Err(e2)) => e == e2,
                _ => false,
            }),
    {
        let at = self.cursor - 1;
        let tk = &self.tokens[at];
        let ghost sl = views_of(self.tokens@)[at as int].slice;
        proof {
            assert(sl == tk.slice@);
        }
        if tk.slice.len() != 42 {
            return Err(CompileError::LiteralError { at });
        }
        if !(tk.slice[0] == 48 && (tk.slice[1] == 120 || tk.slice[1] == 88)) {
            return Err(CompileError::LiteralError { at });
        }
        let mut digits: Vec<u8> = Vec::new();
        let mut j: usize = 2;
        while j < 42
            invariant
                2 <= j <= 42,
                tk.slice@.len() == 42,
                digits@ =~= tk.slice@.subrange(2, j as int),
                forall|k: int| 2 <= k < j ==> is_hex_digit(#[trigger] tk.slice@[k]),
            decreases 42 - j,
        {
            let b = tk.slice[j];
            if !((48 <= b && b <= 57) || (65 <= b && b <= 70) || (97 <= b && b <= 102)) {
                proof {
                    assert(!is_hex_digit(tk.slice@[j as int]));
                }
                return Err(CompileError::LiteralError { at });
            }
            digits.push(b);
            j = j + 1;
        }
        proof {
            assert(digits@ =~= tk.slice@.subrange(2, 42));
            assert forall|k: int| 0 <= k < 40 implies is_hex_digit(#[trigger] digits@[k]) by {
                assert(digits@[k] == tk.slice@[k + 2]);
            }
        }
        let a = Addr::from_hex_digits(&digits);
        proof {
            assert forall|k: int| 0 <= k < 20 implies a.bytes@[k] == spec_addr_bytes(sl)[k] by {
                assert(digits@[2 * k] == sl[2 + 2 * k]);
                assert(digits@[2 * k + 1] == sl[2 + 2 * k + 1]);
            }
            assert(a.bytes@ =~= spec_addr_bytes(sl));
        }
        Ok(a)
    }

    fn allocate(&mut self) -> (r: Result<Opcode, CompileError>)
        requires
            old(self).wf(),
        ensures
            final(self).tokens@ == old(self).tokens@,
            final(self).wf(),
            (match (r, spec_allocate(views_of(old(self).tokens@), old(self).cursor as int)) {
                (Ok(op), Ok(p)) => op@ == p.0 && final(self).cursor as int == p.1,
                (Err(e), Err(e2)) => e == e2,
                _ => false,
            }),
    {
        proof {
            reveal(spec_allocate);
        }
        match self.match_token(TokenType::Allocate) {
            Ok(_) => (),
            Err(e) => {
                return Err(e);
            },
        }
        match self.match_token(TokenType::Colon) {
            Ok(_) => (),
            Err(e) => {
                return Err(e);
            },
        }
        match self.parse_parameter(TokenType::UseMax, TokenType::Literal) {
            Ok(_) => (),
            Err(e) => {
                return Err(e);
            },
        }
        let use_max = match self.previous_literal() {
            Ok(v) => v,
            Err(e) => {
                return Err(e);
            },
        };
        match self.parse_parameter(TokenType::PoolId, TokenType::Literal) {
            Ok(_) => (),
            Err(e) => {
                return Err(e);
            },
        }
        let pool_id = match self.previous_literal() {
            Ok(v) => v,
            Err(e) => {
                return Err(e);
            },
        };
        match self.parse_parameter(TokenType::DeltaLiquidity, TokenType::Literal) {
            Ok(_) => (),
            Err(e) => {
                return Err(e);
            },
        }
        let delta_liquidity = match self.previous_literal() {
            Ok(v) => v,
            Err(e) => {
                return Err(e);
            },
        };
        Ok(Opcode::Allocate { use_max, pool_id, delta_liquidity })
    }

    fn deallocate(&mut self) -> (r: Result<Opcode, CompileError>)
        requires
            old(self).wf(),
        ensures
            final(self).tokens@ == old(self).tokens@,
            final(self).wf(),
            (match (r, spec_deallocate(views_of(old(self).tokens@), old(self).cursor as int)) {
                (Ok(op), Ok(p)) => op@ == p.0 && final(self).cursor as int == p.1,
                (Err(e), Err(e2)) => e == e2,
                _ => false,
            }),
    {
        proof {
            reveal(spec_deallocate);
        }
        match self.match_token(TokenType::Deallocate) {
            Ok(_) => (),
            Err(e) => {
                return Err(e);
            },
        }
        match self.match_token(TokenType::Colon) {
            Ok(_) => (),
            Err(e) => {
                return Err(e);
            },
        }
        match self.parse_parameter(TokenType::UseMax, TokenType::Literal) {
            Ok(_) => (),
            Err(e) => {
                return Err(e);
            },
        }
        let use_max = match self.previous_literal() {
            Ok(v) => v,
            Err(e) => {
                return Err(e);
            },
        };
        match self.parse_parameter(TokenType::PoolId, TokenType::Literal) {
            Ok(_) => (),
            Err(e) => {
                return Err(e);
            },
        }
        let pool_id = match self.previous_literal() {
            Ok(v) => v,
            Err(e) => {
                return Err(e);
            },
        };
        match self.parse_parameter(TokenType::DeltaLiquidity, TokenType::Literal) {
            Ok(_) => (),
            Err(e) => {
                return Err(e);
            },
        }
        let delta_liquidity = match self.previous_literal() {
            Ok(v) => v,
            Err(e) => {
                return Err(e);
            },
        };
        Ok(Opcode::Deallocate { use_max, pool_id, delta_liquidity })
    }

    fn claim(&mut self) -> (r: Result<Opcode, CompileError>)
        requires
            old(self).wf(),
        ensures
            final(self).tokens@ == old(self).tokens@,
            final(self).wf(),
            (match (r, spec_claim(views_of(old(self).tokens@), old(self).cursor as int)) {
                (Ok(op), Ok(p)) => op@ == p.0 && final(self).cursor as int == p.1,
                (Err(e), Err(e2)) => e == e2,
                _ => false,
            }),
    {
        proof {
            reveal(spec_claim);
        }
        match self.match_token(TokenType::Claim) {
            Ok(_) => (),
            Err(e) => {
                return Err(e);
            },
        }
        match self.match_token(TokenType::Colon) {
            Ok(_) => (),
            Err(e) => {
                return Err(e);
            },
        }
        match self.parse_parameter(TokenType::PoolId, TokenType::Literal) {
            Ok(_) => (),
            Err(e) => {
                return Err(e);
            },
        }
        let pool_id = match self.previous_literal() {
            Ok(v) => v,
            Err(e) => {
                return Err(e);
            },
        };
        match self.parse_parameter(TokenType::Fee0, TokenType::Literal) {
            Ok(_) => (),
            Err(e) => {
                return Err(e);
            },
        }
        let fee_0 = match self.previous_literal() {
            Ok(v) => v,
            Err(e) => {
                return Err(e);
            },
        };
        match self.parse_parameter(TokenType::Fee1, TokenType::Literal) {
            Ok(_) => (),
            Err(e) => {
                return Err(e);
            },
        }
        let fee_1 = match self.previous_literal() {
            Ok(v) => v,
            Err(e) => {
                return Err(e);
            },
        };
        Ok(Opcode::Claim { pool_id, fee_0, fee_1 })
    }

    fn swap(&mut self) -> (r: Result<Opcode, CompileError>)
        requires
            old(self).wf(),
        ensures
            final(self).tokens@ == old(self).tokens@,
            final(self).wf(),
            (match (r, spec_swap(views_of(old(self).tokens@), old(self).cursor as int)) {
                (Ok(op), Ok(p)) => op@ == p.0 && final(self).cursor as int == p.1,
                (Err(e), Err(e2)) => e == e2,
                _ => false,
            }),
    {
        proof {
            reveal(spec_swap);
        }
        match self.match_token(TokenType::Swap) {
            Ok(_) => (),
            Err(e) => {
                return Err(e);
            },
        }
        match self.match_token(TokenType::Colon) {
            Ok(_) => (),
            Err(e) => {
                return Err(e);
            },
        }
        match self.parse_parameter(TokenType::UseMax, TokenType::Literal) {
            Ok(_) => (),
            Err(e) => {
                return Err(e);
            },
        }
        let use_max = match self.previous_literal() {
            Ok(v) => v,
            Err(e) => {
                return Err(e);
            },
        };
        match self.parse_parameter(TokenType::PoolId, TokenType::Literal) {
            Ok(_) => (),
            Err(e) => {
                return Err(e);
            },
        }
        let pool_id = match self.previous_literal() {
            Ok(v) => v,
            Err(e) => {
                return Err(e);
            },
        };
        match self.parse_parameter(TokenType::Amount0, TokenType::Literal) {
            Ok(_) => (),
            Err(e) => {
                return Err(e);
            },
        }
        let amount_0 = match self.previous_literal() {
            Ok(v) => v,
            Err(e) => {
                return Err(e);
            },
        };
        match self.parse_parameter(TokenType::Amount1, TokenType::Literal) {
            Ok(_) => (),
            Err(e) => {
                return Err(e);
            },
        }
        let amount_1 = match self.previous_literal() {
            Ok(v) => v,
            Err(e) => {
                return Err(e);
            },
        };
        match self.parse_parameter(TokenType::SellAsset, TokenType::Literal) {
            Ok(_) => (),
            Err(e) => {
                return Err(e);
            },
        }
        let sell_asset = match self.previous_literal() {
            Ok(v) => v,
            Err(e) => {
                return Err(e);
            },
        };
        Ok(Opcode::Swap { use_max, pool_id, amount_0, amount_1, sell_asset })
    }

    fn create_pair(&mut self) -> (r: Result<Opcode, CompileError>)
        requires
            old(self).wf(),
        ensures
            final(self).tokens@ == old(self).tokens@,
            final(self).wf(),
            (match (r, spec_create_pair(views_of(old(self).tokens@), old(self).cursor as int)) {
                (Ok(op), Ok(p)) => op@ == p.0 && final(self).cursor as int == p.1,
                (Err(e), Err(e2)) => e == e2,
                _ => false,
            }),
    {
        proof {
            reveal(spec_create_pair);
        }
        match self.match_token(TokenType::CreatePair) {
            Ok(_) => (),
            Err(e) => {
                return Err(e);
            },
        }
        match self.match_token(TokenType::Colon) {
            Ok(_) => (),
            Err(e) => {
                return Err(e);
            },
        }
        match self.parse_parameter(TokenType::Token0, TokenType::AddressLiteral) {
            Ok(_) => (),
            Err(e) => {
                return Err(e);
            },
        }
        let token_0 = match self.previous_address() {
            Ok(v) => v,
            Err(e) => {
                return Err(e);
            },
        };
        match self.parse_parameter(TokenType::Token1, TokenType::AddressLiteral) {
            Ok(_) => (),
            Err(e) => {
                return Err(e);
            },
        }
        let token_1 = match self.previous_address() {
            Ok(v) => v,
            Err(e) => {
                return Err(e);
            },
        };
        Ok(Opcode::CreatePair { token_0, token_1 })
    }

    fn create_pool(&mut self) -> (r: Result<Opcode, CompileError>)
        requires
            old(self).wf(),
        ensures
            final(self).tokens@ == old(self).tokens@,
            final(self).wf(),
            (match (r, spec_create_pool(views_of(old(self).tokens@), old(self).cursor as int)) {
                (Ok(op), Ok(p)) => op@ == p.0 && final(self).cursor as int == p.1,
                (Err(e), Err(e2)) => e == e2,
                _ => false,
            }),
    {
        proof {
            reveal(spec_create_pool);
        }
        match self.match_token(TokenType::CreatePool) {
            Ok(_) => (),
            Err(e) => {
                return Err(e);
            },
        }
        match self.match_token(TokenType::Colon) {
            Ok(_) => (),
            Err(e) => {
                return Err(e);
            },
        }
        match self.parse_parameter(TokenType::PairId, TokenType::Literal) {
            Ok(_) => (),
            Err(e) => {
                return Err(e);
            },
        }
        let pair_id = match self.previous_literal() {
            Ok(v) => v,
            Err(e) => {
                return Err(e);
            },
        };
        match self.parse_parameter(TokenType::Controller, TokenType::AddressLiteral) {
            Ok(_) => (),
            Err(e) => {
                return Err(e);
            },
        }
        let controller = match self.previous_address() {
            Ok(v) => v,
            Err(e) => {
                return Err(e);
            },
        };
        match self.parse_parameter(TokenType::PriorityFee, TokenType::Literal) {
            Ok(_) => (),
            Err(e) => {
                return Err(e);
            },
        }
        let priority_fee = match self.previous_literal() {
            Ok(v) => v,
            Err(e) => {
                return Err(e);
            },
        };
        match self.parse_parameter(TokenType::Fee, TokenType::Literal) {
            Ok(_) => (),
            Err(e) => {
                return Err(e);
            },
        }
        let fee = match self.previous_literal() {
            Ok(v) => v,
            Err(e) => {
                return Err(e);
            },
        };
        match self.parse_parameter(TokenType::Vol, TokenType::Literal) {
            Ok(_) => (),
            Err(e) => {
                return Err(e);
            },
        }
        let vol = match self.previous_literal() {
            Ok(v) => v,
            Err(e) => {
                return Err(e);
            },
        };
        match self.parse_parameter(TokenType::Dur, TokenType::Literal) {
            Ok(_) => (),
            Err(e) => {
                return Err(e);
            },
        }
        let dur = match self.previous_literal() {
            Ok(v) => v,
            Err(e) => {
                return Err(e);
            },
        };
        match self.parse_parameter(TokenType::Jit, TokenType::Literal) {
            Ok(_) => (),
            Err(e) => {
                return Err(e);
            },
        }
        let jit = match self.previous_literal() {
            Ok(v) => v,
            Err(e) => {
                return Err(e);
            },
        };
        match self.parse_parameter(TokenType::MaxPrice, TokenType::Literal) {
            Ok(_) => (),
            Err(e) => {
                return Err(e);
            },
        }
        let max_price = match self.previous_literal() {
            Ok(v) => v,
            Err(e) => {
                return Err(e);
            },
        };
        match self.parse_parameter(TokenType::Price, TokenType::Literal) {
            Ok(_) => (),
            Err(e) => {
                return Err(e);
            },
        }
        let price = match self.previous_literal() {
            Ok(v) => v,
            Err(e) => {
                return Err(e);
            },
        };
        Ok(Opcode::CreatePool { pair_id, controller, priority_fee, fee, vol, dur, jit, max_price, price })
    }


    /// One expression at the cursor.
    #[verifier::rlimit(80)]
    fn parse_expression(&mut self) -> (r: Result<Expression, CompileError>)
        requires
            old(self).wf(),
        ensures
            final(self).tokens@ == old(self).tokens@,
            final(self).wf(),
            (match (r, spec_expression(views_of(old(self).tokens@), old(self).cursor as int)) {
                (Ok(expr), Ok(p)) => expr@ == p.0 && final(self).cursor as int == p.1,
                (Err(e), Err(e2)) => e == e2,
                _ => false,
            }),
    {
        if self.cursor >= self.tokens.len() {
            return Err(CompileError::ParseError { expected: None, found: None, at: self.cursor });
        }
        let t = self.tokens[self.cursor].ttype;
        proof {
            assert(views_of(self.tokens@)[self.cursor as int].ttype == t);
        }
        match t {
            TokenType::Unknown => {
                match self.match_token(TokenType::Unknown) {
                    Ok(u) => (),
                    Err(e) => {
                        return Err(e);
                    },
                }
                Ok(Expression::Opcode(Opcode::Unknown))
            },
            TokenType::Jump => {
                match self.match_token(TokenType::Jump) {
                    Ok(u) => (),
                    Err(e) => {
                        return Err(e);
                    },
                }
                Ok(Expression::Opcode(Opcode::Jump))
            },
            TokenType::Allocate => match self.allocate() {
                Ok(op) => Ok(Expression::Opcode(op)),
                Err(e) => Err(e),
            },
            TokenType::Deallocate => match self.deallocate() {
                Ok(op) => Ok(Expression::Opcode(op)),
                Err(e) => Err(e),
            },
            TokenType::Claim => match self.claim() {
                Ok(op) => Ok(Expression::Opcode(op)),
                Err(e) => Err(e),
            },
            TokenType::Swap => match self.swap() {
                Ok(op) => Ok(Expression::Opcode(op)),
                Err(e) => Err(e),
            },
            TokenType::CreatePool => match self.create_pool() {
                Ok(op) => Ok(Expression::Opcode(op)),
                Err(e) => Err(e),
            },
            TokenType::CreatePair => match self.create_pair() {
                Ok(op) => Ok(Expression::Opcode(op)),
                Err(e) => Err(e),
            },
            TokenType::Identifier => {
                let nm = copy_bytes(&self.tokens[self.cursor].slice);
                match self.match_token(TokenType::Identifier) {
                    Ok(u) => (),
                    Err(e) => {
                        return Err(e);
                    },
                }
                Ok(Expression::Invocation(nm))
            },
            _ => Err(CompileError::ParseError { expected: None, found: Some(t), at: self.cursor }),
        }
    }

    /// The expressions of a macro body, up to the closing brace, which is
    /// left unconsumed.
    #[verifier::rlimit(80)]
    fn parse_body(&mut self) -> (r: Result<Vec<Expression>, CompileError>)
        requires
            old(self).wf(),
        ensures
            final(self).tokens@ == old(self).tokens@,
            final(self).wf(),
            (match (r, spec_body(views_of(old(self).tokens@), old(self).cursor as int)) {
                (Ok(es), Ok(p)) => expr_views(es@) == p.0 && final(self).cursor as int == p.1,
                (Err(e), Err(e2)) => e == e2,
                _ => false,
            }),
    {
        let ghost toks0 = old(self).tokens@;
        let ghost ts = views_of(toks0);
        let ghost c0 = old(self).cursor as int;
        let mut body: Vec<Expression> = Vec::new();
        proof {
            assert(expr_views(body@) =~= Seq::<ExpressionView>::empty());
            match spec_body(ts, c0) {
                Ok(p) => {
                    assert(Seq::<ExpressionView>::empty() + p.0 =~= p.0);
                },
                Err(e) => {},
            }
        }
        loop
            invariant
                self.wf(),
                self.tokens@ == toks0,
                ts == views_of(toks0),
                toks0 == old(self).tokens@,
                c0 == old(self).cursor as int,
                0 <= c0,
                (match spec_body(ts, self.cursor as int) {
                    Ok(q) => spec_body(ts, c0) == Ok::<_, CompileError>(
                        (expr_views(body@) + q.0, q.1),
                    ),
                    Err(e) => spec_body(ts, c0) == Err::<(Seq<ExpressionView>, int), _>(e),
                }),
            ensures
                self.wf(),
                self.tokens@ == toks0,
                spec_body(ts, c0) == Ok::<_, CompileError>(
                    (expr_views(body@), self.cursor as int),
                ),
            decreases ts.len() - self.cursor,
        {
            if self.cursor >= self.tokens.len() {
                return Err(
                    CompileError::ParseError {
                        expected: Some(TokenType::CloseBrace),
                        found: None,
                        at: self.cursor,
                    },
                );
            }
            let t = self.tokens[self.cursor].ttype;
            proof {
                assert(views_of(self.tokens@)[self.cursor as int].ttype == t);
            }
            if t == TokenType::CloseBrace {
                proof {
                    assert(spec_body(ts, self.cursor as int) == Ok::<_, CompileError>(
                        (Seq::<ExpressionView>::empty(), self.cursor as int),
                    ));
                    assert(expr_views(body@) + Seq::<ExpressionView>::empty() =~= expr_views(
                        body@,
                    ));
                }
                break ;
            }
            let ghost cur = self.cursor as int;
            let ghost body0 = expr_views(body@);
            proof {
                lemma_spec_expression_bounds(ts, cur);
            }
            match self.parse_expression() {
                Ok(e) => {
                    body.push(e);
                    proof {
                        let p = spec_expression(ts, cur)->Ok_0;
                        assert(expr_views(body@) =~= body0.push(p.0));
                        match spec_body(ts, self.cursor as int) {
                            Ok(q) => {
                                assert(body0 + (seq![p.0] + q.0) =~= expr_views(body@) + q.0);
                            },
                            Err(e2) => {},
                        }
                    }
                },
                Err(e) => {
                    return Err(e);
                },
            }
        }
        Ok(body)
    }

    /// One macro definition at the cursor.
    #[verifier::rlimit(80)]
    fn parse_macro(&mut self) -> (r: Result<Macro, CompileError>)
        requires
            old(self).wf(),
        ensures
            final(self).tokens@ == old(self).tokens@,
            final(self).wf(),
            (match (r, spec_macro(views_of(old(self).tokens@), old(self).cursor as int)) {
                (Ok(m), Ok(p)) => m@ == p.0 && final(self).cursor as int == p.1,
                (Err(e), Err(e2)) => e == e2,
                _ => false,
            }),
    {
        match self.match_token(TokenType::Macro) {
            Ok(u) => (),
            Err(e) => {
                return Err(e);
            },
        }
        match self.match_token(TokenType::Identifier) {
            Ok(u) => (),
            Err(e) => {
                return Err(e);
            },
        }
        let name = copy_bytes(&self.tokens[self.cursor - 1].slice);
        proof {
            assert(name@ == views_of(self.tokens@)[self.cursor - 1].slice);
        }
        match self.match_token(TokenType::OpenBrace) {
            Ok(u) => (),
            Err(e) => {
                return Err(e);
            },
        }
        let body = match self.parse_body() {
            Ok(b) => b,
            Err(e) => {
                return Err(e);
            },
        };
        match self.match_token(TokenType::CloseBrace) {
            Ok(u) => (),
            Err(e) => {
                return Err(e);
            },
        }
        Ok(Macro { name, body })
    }

    /// Every macro definition until the tokens are exhausted.
    #[verifier::rlimit(80)]
    fn parse_unit(&mut self) -> (r: Result<Vec<Macro>, CompileError>)
        requires
            old(self).wf(),
        ensures
            final(self).tokens@ == old(self).tokens@,
            final(self).wf(),
            (match (r, spec_unit(views_of(old(self).tokens@), old(self).cursor as int)) {
                (Ok(ms), Ok(msv)) => macro_views(ms@) == msv,
                (Err(e), Err(e2)) => e == e2,
                _ => false,
            }),
    {
        let ghost toks0 = old(self).tokens@;
        let ghost ts = views_of(toks0);
        let ghost c0 = old(self).cursor as int;
        let mut macros: Vec<Macro> = Vec::new();
        proof {
            assert(macro_views(macros@) =~= Seq::<MacroView>::empty());
            match spec_unit(ts, c0) {
                Ok(rest) => {
                    assert(Seq::<MacroView>::empty() + rest =~= rest);
                },
                Err(e) => {},
            }
        }
        while self.cursor < self.tokens.len()
            invariant
                self.wf(),
                self.tokens@ == toks0,
                ts == views_of(toks0),
                toks0 == old(self).tokens@,
                c0 == old(self).cursor as int,
                0 <= c0,
                (match spec_unit(ts, self.cursor as int) {
                    Ok(rest) => spec_unit(ts, c0) == Ok::<_, CompileError>(
                        macro_views(macros@) + rest,
                    ),
                    Err(e) => spec_unit(ts, c0) == Err::<Seq<MacroView>, _>(e),
                }),
            decreases ts.len() - self.cursor,
        {
            let ghost cur = self.cursor as int;
            let ghost done = macro_views(macros@);
            proof {
                lemma_spec_macro_bounds(ts, cur);
            }
            match self.parse_macro() {
                Ok(m) => {
                    macros.push(m);
                    proof {
                        let p = spec_macro(ts, cur)->Ok_0;
                        assert(macro_views(macros@) =~= done.push(p.0));
                        match spec_unit(ts, self.cursor as int) {
                            Ok(rest) => {
                                assert(done + (seq![p.0] + rest) =~= macro_views(macros@) + rest);
                            },
                            Err(e) => {},
                        }
                    }
                },
                Err(e) => {
                    return Err(e);
                },
            }
        }
        proof {
            assert(spec_unit(ts, self.cursor as int) == Ok::<Seq<MacroView>, CompileError>(
                Seq::empty(),
            ));
            assert(macro_views(macros@) + Seq::<MacroView>::empty() =~= macro_views(macros@));
        }
        Ok(macros)
    }

    /// Parse a vector of tokens, lexed from a source file, into the fully
    /// expanded instruction list of the `main` macro.
    #[verifier::rlimit(80)]
    pub fn parse(tokens: Vec<Token>) -> (r: Result<Vec<Expression>, CompileError>)
        ensures
            (match (r, spec_parse(views_of(tokens@))) {
                (Ok(es), Ok(evs)) => expr_views(es@) == evs,
                (Err(e), Err(e2)) => e == e2,
                _ => false,
            }),
    {
        let ghost ts = views_of(tokens@);
        let mut parser = Assembler::new(tokens);
        let macros = match parser.parse_unit() {
            Ok(ms) => ms,
            Err(e) => {
                return Err(e);
            },
        };
        let ghost msv = macro_views(macros@);
        if !check_names_unique(&macros) {
            return Err(CompileError::DuplicateMacroError);
        }
        let main_nm: Vec<u8> = vec![109u8, 97u8, 105u8, 110u8];
        proof {
            assert(main_nm@ =~= main_name());
        }
        let mi = match find_macro(&macros, &main_nm) {
            Some(k) => k,
            None => {
                return Err(CompileError::MissingMainError);
            },
        };
        let mut chain: Vec<Vec<u8>> = Vec::new();
        chain.push(main_nm);
        let mut out: Vec<Expression> = Vec::new();
        proof {
            assert(name_views(chain@) =~= seq![main_name()]);
            assert(seq![main_name()].no_duplicates());
            assert forall|k: int| 0 <= k < 1 implies lookup_macro(
                msv,
                #[trigger] seq![main_name()][k],
            ) is Some by {
                assert(seq![main_name()][k] == main_name());
            }
            assert(chain_wf(msv, name_views(chain@)));
            assert(expr_views(out@) =~= Seq::<ExpressionView>::empty());
        }
        match expand_into(&macros, mi, &mut chain, &mut out) {
            Ok(u) => {
                proof {
                    let o = spec_expand(msv, msv[mi as int].body, seq![main_name()])->Ok_0;
                    assert(Seq::<ExpressionView>::empty() + o =~= o);
                }
                Ok(out)
            },
            Err(e) => Err(e),
        }
    }
}

} // verus!
