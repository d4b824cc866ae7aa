//! The instruction set of the target virtual machine. This is the lowest
//! representation source code is lowered to before byte records are generated
//! from it.

use crate::uint256::{Addr, Uint256};
use vstd::prelude::*;

verus! {

/// An instruction with its typed fields. Quantities are 256-bit unsigned
/// integers; addresses are 160-bit identifiers.
#[derive(Debug, Clone, Copy, PartialEq, Eq)]
pub enum Opcode {
    /// The default opcode, standing for an operation the machine does not
    /// know.
    Unknown,
    /// Add liquidity to a pool.
    Allocate { use_max: Uint256, pool_id: Uint256, delta_liquidity: Uint256 },
    /// Remove liquidity from a pool.
    Deallocate { use_max: Uint256, pool_id: Uint256, delta_liquidity: Uint256 },
    /// Initialize a new pair of assets for which pools can be created.
    CreatePair { token_0: Addr, token_1: Addr },
    /// Create a new pool over a pair, with its fee, volatility, duration and
    /// price-curve parameters.
    CreatePool {
        pair_id: Uint256,
        controller: Addr,
        priority_fee: Uint256,
        fee: Uint256,
        vol: Uint256,
        dur: Uint256,
        jit: Uint256,
        max_price: Uint256,
        price: Uint256,
    },
    /// Swap between the two tokens of a pool.
    Swap { use_max: Uint256, pool_id: Uint256, amount_0: Uint256, amount_1: Uint256, sell_asset: Uint256 },
    /// Collect the fees a pool has accrued.
    Claim { pool_id: Uint256, fee_0: Uint256, fee_1: Uint256 },
    /// Jump to another instruction; its target is not yet resolved, and the
    /// encoder emits no record for it.
    Jump,
}

/// The mathematical shape of an instruction: each quantity as its numeric
/// value, each address as its twenty bytes.
pub enum OpcodeView {
    Unknown,
    Allocate { use_max: nat, pool_id: nat, delta_liquidity: nat },
    Deallocate { use_max: nat, pool_id: nat, delta_liquidity: nat },
    CreatePair { token_0: Seq<u8>, token_1: Seq<u8> },
    CreatePool {
        pair_id: nat,
        controller: Seq<u8>,
        priority_fee: nat,
        fee: nat,
        vol: nat,
        dur: nat,
        jit: nat,
        max_price: nat,
        price: nat,
    },
    Swap { use_max: nat, pool_id: nat, amount_0: nat, amount_1: nat, sell_asset: nat },
    Claim { pool_id: nat, fee_0: nat, fee_1: nat },
    Jump,
}

impl View for Opcode {
    type V = OpcodeView;

    open spec fn view(&self) -> OpcodeView {
        match *self {
            Opcode::Unknown => OpcodeView::Unknown,
            Opcode::Allocate { use_max, pool_id, delta_liquidity } => OpcodeView::Allocate {
                use_max: use_max@,
                pool_id: pool_id@,
                delta_liquidity: delta_liquidity@,
            },
            Opcode::Deallocate { use_max, pool_id, delta_liquidity } => OpcodeView::Deallocate {
                use_max: use_max@,
                pool_id: pool_id@,
                delta_liquidity: delta_liquidity@,
            },
            Opcode::CreatePair { token_0, token_1 } => OpcodeView::CreatePair {
                token_0: token_0.bytes@,
                token_1: token_1.bytes@,
            },
            Opcode::CreatePool {
                pair_id,
                controller,
                priority_fee,
                fee,
                vol,
                dur,
                jit,
                max_price,
                price,
            } => OpcodeView::CreatePool {
                pair_id: pair_id@,
                controller: controller.bytes@,
                priority_fee: priority_fee@,
                fee: fee@,
                vol: vol@,
                dur: dur@,
                jit: jit@,
                max_price: max_price@,
                price: price@,
            },
            Opcode::Swap { use_max, pool_id, amount_0, amount_1, sell_asset } => OpcodeView::Swap {
                use_max: use_max@,
                pool_id: pool_id@,
                amount_0: amount_0@,
                amount_1: amount_1@,
                sell_asset: sell_asset@,
            },
            Opcode::Claim { pool_id, fee_0, fee_1 } => OpcodeView::Claim {
                pool_id: pool_id@,
                fee_0: fee_0@,
                fee_1: fee_1@,
            },
            Opcode::Jump => OpcodeView::Jump,
        }
    }
}

} // verus!
