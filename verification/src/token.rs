//! The lexer: raw source text in, an ordered sequence of tokens out.
//!
//! Recognition is longest-match-first over the whole rule set: exact keywords
//! (opcode mnemonics, structural symbols, parameter names), decimal literals,
//! `0x`-prefixed address literals, and a fallback identifier rule. Whitespace
//! is skipped silently; a byte sequence matching no rule stops lexing at once
//! with a located error.

use crate::error::CompileError;
use crate::uint256::{is_dec_digit, is_hex_digit};
use vstd::prelude::*;
use vstd::string::StringSliceAdditionalSpecFns;

verus! {

/// The kind of a token. Every opcode mnemonic, structural symbol and
/// parameter-name keyword has its own kind; literals and identifiers carry
/// theirs; `Error` marks an unrecognized byte sequence and is never produced
/// by a successful lexing.
#[derive(Debug, PartialEq, Eq, Structural, Clone, Copy)]
pub enum TokenType {
    Unknown,
    Allocate,
    Deallocate,
    Claim,
    Swap,
    CreatePool,
    CreatePair,
    Jump,
    Macro,
    OpenBrace,
    CloseBrace,
    Colon,
    PoolId,
    Fee0,
    Fee1,
    UseMax,
    DeltaLiquidity,
    Amount0,
    Amount1,
    Token0,
    Token1,
    PairId,
    Controller,
    PriorityFee,
    Fee,
    Vol,
    Dur,
    Jit,
    MaxPrice,
    Price,
    SellAsset,
    AddressLiteral,
    Identifier,
    Literal,
    Error,
}

/// The mathematical shape of a token: its kind and the bytes of its lexeme.
pub struct TokenView {
    pub ttype: TokenType,
    pub slice: Seq<u8>,
}

/// A token: its kind and the exact matched substring of the source.
#[derive(Debug, Clone, PartialEq, Eq)]
pub struct Token {
    pub ttype: TokenType,
    pub slice: Vec<u8>,
}

impl View for Token {
    type V = TokenView;

    open spec fn view(&self) -> TokenView {
        TokenView { ttype: self.ttype, slice: self.slice@ }
    }
}

/// The views of a token sequence.
pub open spec fn views_of(ts: Seq<Token>) -> Seq<TokenView> {
    ts.map_values(|t: Token| t@)
}

/// A whitespace byte: space, tab, newline or form feed.
pub open spec fn is_ws(b: u8) -> bool {
    b == 32 || b == 9 || b == 10 || b == 12
}

/// An identifier byte: an ASCII letter or an underscore.
pub open spec fn is_ident_byte(b: u8) -> bool {
    (65 <= b && b <= 90) || (97 <= b && b <= 122) || b == 95
}

fn ws_byte(b: u8) -> (r: bool)
    ensures
        r == is_ws(b),
{
    b == 32 || b == 9 || b == 10 || b == 12
}

fn ident_byte(b: u8) -> (r: bool)
    ensures
        r == is_ident_byte(b),
{
    (65 <= b && b <= 90) || (97 <= b && b <= 122) || b == 95
}

fn dec_digit(b: u8) -> (r: bool)
    ensures
        r == is_dec_digit(b),
{
    48 <= b && b <= 57
}

fn hex_digit(b: u8) -> (r: bool)
    ensures
        r == is_hex_digit(b),
{
    (48 <= b && b <= 57) || (65 <= b && b <= 70) || (97 <= b && b <= 102)
}

/// The end of the run of identifier bytes starting at `pos`.
pub open spec fn ident_end(s: Seq<u8>, pos: int) -> int
    decreases s.len() - pos,
    when 0 <= pos <= s.len()
{
    if pos >= s.len() || !is_ident_byte(s[pos]) {
        pos
    } else {
        ident_end(s, pos + 1)
    }
}

/// The end of the run of decimal digits starting at `pos`.
pub open spec fn dec_end(s: Seq<u8>, pos: int) -> int
    decreases s.len() - pos,
    when 0 <= pos <= s.len()
{
    if pos >= s.len() || !is_dec_digit(s[pos]) {
        pos
    } else {
        dec_end(s, pos + 1)
    }
}

/// The end of the run of hexadecimal digits starting at `pos`.
pub open spec fn hex_end(s: Seq<u8>, pos: int) -> int
    decreases s.len() - pos,
    when 0 <= pos <= s.len()
{
    if pos >= s.len() || !is_hex_digit(s[pos]) {
        pos
    } else {
        hex_end(s, pos + 1)
    }
}

pub proof fn lemma_ident_end(s: Seq<u8>, pos: int)
    requires
        0 <= pos <= s.len(),
    ensures
        pos <= ident_end(s, pos) <= s.len(),
        forall|j: int| pos <= j < ident_end(s, pos) ==> is_ident_byte(#[trigger] s[j]),
        ident_end(s, pos) < s.len() ==> !is_ident_byte(s[ident_end(s, pos)]),
    decreases s.len() - pos,
{
    if pos < s.len() && is_ident_byte(s[pos]) {
        lemma_ident_end(s, pos + 1);
    }
}

pub proof fn lemma_ident_end_unique(s: Seq<u8>, pos: int, e: int)
    requires
        0 <= pos <= e <= s.len(),
        forall|j: int| pos <= j < e ==> is_ident_byte(#[trigger] s[j]),
        e < s.len() ==> !is_ident_byte(s[e]),
    ensures
        ident_end(s, pos) == e,
    decreases e - pos,
{
    if pos < e {
        assert(is_ident_byte(s[pos]));
        lemma_ident_end_unique(s, pos + 1, e);
    }
}

pub proof fn lemma_dec_end(s: Seq<u8>, pos: int)
    requires
        0 <= pos <= s.len(),
    ensures
        pos <= dec_end(s, pos) <= s.len(),
        forall|j: int| pos <= j < dec_end(s, pos) ==> is_dec_digit(#[trigger] s[j]),
        dec_end(s, pos) < s.len() ==> !is_dec_digit(s[dec_end(s, pos)]),
    decreases s.len() - pos,
{
    if pos < s.len() && is_dec_digit(s[pos]) {
        lemma_dec_end(s, pos + 1);
    }
}

pub proof fn lemma_dec_end_unique(s: Seq<u8>, pos: int, e: int)
    requires
        0 <= pos <= e <= s.len(),
        forall|j: int| pos <= j < e ==> is_dec_digit(#[trigger] s[j]),
        e < s.len() ==> !is_dec_digit(s[e]),
    ensures
        dec_end(s, pos) == e,
    decreases e - pos,
{
    if pos < e {
        assert(is_dec_digit(s[pos]));
        lemma_dec_end_unique(s, pos + 1, e);
    }
}

pub proof fn lemma_hex_end(s: Seq<u8>, pos: int)
    requires
        0 <= pos <= s.len(),
    ensures
        pos <= hex_end(s, pos) <= s.len(),
        forall|j: int| pos <= j < hex_end(s, pos) ==> is_hex_digit(#[trigger] s[j]),
        hex_end(s, pos) < s.len() ==> !is_hex_digit(s[hex_end(s, pos)]),
    decreases s.len() - pos,
{
    if pos < s.len() && is_hex_digit(s[pos]) {
        lemma_hex_end(s, pos + 1);
    }
}

pub proof fn lemma_hex_end_unique(s: Seq<u8>, pos: int, e: int)
    requires
        0 <= pos <= e <= s.len(),
        forall|j: int| pos <= j < e ==> is_hex_digit(#[trigger] s[j]),
        e < s.len() ==> !is_hex_digit(s[e]),
    ensures
        hex_end(s, pos) == e,
    decreases e - pos,
{
    if pos < e {
        assert(is_hex_digit(s[pos]));
        lemma_hex_end_unique(s, pos + 1, e);
    }
}

fn scan_ident_end(s: &[u8], pos: usize) -> (e: usize)
    requires
        pos <= s@.len(),
    ensures
        e as int == ident_end(s@, pos as int),
{
    let n = s.len();
    let mut e = pos;
    while e < n
        invariant
            pos <= e <= n,
            n == s@.len(),
            forall|j: int| pos <= j < e ==> is_ident_byte(#[trigger] s@[j]),
        ensures
            pos <= e <= n,
            forall|j: int| pos <= j < e ==> is_ident_byte(#[trigger] s@[j]),
            e == n || !is_ident_byte(s@[e as int]),
        decreases n - e,
    {
        if !ident_byte(s[e]) {
            break ;
        }
        e = e + 1;
    }
    proof {
        lemma_ident_end_unique(s@, pos as int, e as int);
    }
    e
}

fn scan_dec_end(s: &[u8], pos: usize) -> (e: usize)
    requires
        pos <= s@.len(),
    ensures
        e as int == dec_end(s@, pos as int),
{
    let n = s.len();
    let mut e = pos;
    while e < n
        invariant
            pos <= e <= n,
            n == s@.len(),
            forall|j: int| pos <= j < e ==> is_dec_digit(#[trigger] s@[j]),
        ensures
            pos <= e <= n,
            forall|j: int| pos <= j < e ==> is_dec_digit(#[trigger] s@[j]),
            e == n || !is_dec_digit(s@[e as int]),
        decreases n - e,
    {
        if !dec_digit(s[e]) {
            break ;
        }
        e = e + 1;
    }
    proof {
        lemma_dec_end_unique(s@, pos as int, e as int);
    }
    e
}

fn scan_hex_end(s: &[u8], pos: usize) -> (e: usize)
    requires
        pos <= s@.len(),
    ensures
        e as int == hex_end(s@, pos as int),
{
    let n = s.len();
    let mut e = pos;
    while e < n
        invariant
            pos <= e <= n,
            n == s@.len(),
            forall|j: int| pos <= j < e ==> is_hex_digit(#[trigger] s@[j]),
        ensures
            pos <= e <= n,
            forall|j: int| pos <= j < e ==> is_hex_digit(#[trigger] s@[j]),
            e == n || !is_hex_digit(s@[e as int]),
        decreases n - e,
    {
        if !hex_digit(s[e]) {
            break ;
        }
        e = e + 1;
    }
    proof {
        lemma_hex_end_unique(s@, pos as int, e as int);
    }
    e
}

/// Whether the bytes of `w` stand in `s` at position `pos`.
pub open spec fn kw_at(s: Seq<u8>, pos: int, w: Seq<u8>) -> bool {
    0 <= pos && pos + w.len() <= s.len() && s.subrange(pos, pos + w.len() as int) == w
}

fn match_at(s: &[u8], pos: usize, w: &Vec<u8>) -> (r: bool)
    requires
        pos <= s@.len(),
    ensures
        r == kw_at(s@, pos as int, w@),
{
    let n = s.len();
    if n - pos < w.len() {
        return false;
    }
    let mut j: usize = 0;
    while j < w.len()
        invariant
            j <= w@.len(),
            n == s@.len(),
            pos + w@.len() <= s@.len(),
            forall|k: int| 0 <= k < j ==> s@[pos + k] == #[trigger] w@[k],
        decreases w@.len() - j,
    {
        if s[pos + j] != w[j] {
            proof {
                let sub = s@.subrange(pos as int, pos + w@.len() as int);
                assert(sub[j as int] == s@[pos + j]);
            }
            return false;
        }
        j = j + 1;
    }
    proof {
        assert(s@.subrange(pos as int, pos + w@.len() as int) =~= w@);
    }
    true
}

/// The bytes of the keyword `unknown`.
pub open spec fn kw_unknown() -> Seq<u8> {
    seq![117u8, 110u8, 107u8, 110u8, 111u8, 119u8, 110u8]
}

/// The bytes of the keyword `allocate`.
pub open spec fn kw_allocate() -> Seq<u8> {
    seq![97u8, 108u8, 108u8, 111u8, 99u8, 97u8, 116u8, 101u8]
}

/// The bytes of the keyword `deallocate`.
pub open spec fn kw_deallocate() -> Seq<u8> {
    seq![100u8, 101u8, 97u8, 108u8, 108u8, 111u8, 99u8, 97u8, 116u8, 101u8]
}

/// The bytes of the keyword `claim`.
pub open spec fn kw_claim() -> Seq<u8> {
    seq![99u8, 108u8, 97u8, 105u8, 109u8]
}

/// The bytes of the keyword `swap`.
pub open spec fn kw_swap() -> Seq<u8> {
    seq![115u8, 119u8, 97u8, 112u8]
}

/// The bytes of the keyword `createPool`.
pub open spec fn kw_create_pool() -> Seq<u8> {
    seq![99u8, 114u8, 101u8, 97u8, 116u8, 101u8, 80u8, 111u8, 111u8, 108u8]
}

/// The bytes of the keyword `createPair`.
pub open spec fn kw_create_pair() -> Seq<u8> {
    seq![99u8, 114u8, 101u8, 97u8, 116u8, 101u8, 80u8, 97u8, 105u8, 114u8]
}

/// The bytes of the keyword `jump`.
pub open spec fn kw_jump() -> Seq<u8> {
    seq![106u8, 117u8, 109u8, 112u8]
}

/// The bytes of the keyword `macro`.
pub open spec fn kw_macro() -> Seq<u8> {
    seq![109u8, 97u8, 99u8, 114u8, 111u8]
}

/// The bytes of the keyword `poolId`.
pub open spec fn kw_pool_id() -> Seq<u8> {
    seq![112u8, 111u8, 111u8, 108u8, 73u8, 100u8]
}

/// The bytes of the keyword `fee0`.
pub open spec fn kw_fee0() -> Seq<u8> {
    seq![102u8, 101u8, 101u8, 48u8]
}

/// The bytes of the keyword `fee1`.
pub open spec fn kw_fee1() -> Seq<u8> {
    seq![102u8, 101u8, 101u8, 49u8]
}

/// The bytes of the keyword `useMax`.
pub open spec fn kw_use_max() -> Seq<u8> {
    seq![117u8, 115u8, 101u8, 77u8, 97u8, 120u8]
}

/// The bytes of the keyword `deltaLiquidity`.
pub open spec fn kw_delta_liquidity() -> Seq<u8> {
    seq![100u8, 101u8, 108u8, 116u8, 97u8, 76u8, 105u8, 113u8, 117u8, 105u8, 100u8, 105u8, 116u8, 121u8]
}

/// The bytes of the keyword `amount0`.
pub open spec fn kw_amount0() -> Seq<u8> {
    seq![97u8, 109u8, 111u8, 117u8, 110u8, 116u8, 48u8]
}

/// The bytes of the keyword `amount1`.
pub open spec fn kw_amount1() -> Seq<u8> {
    seq![97u8, 109u8, 111u8, 117u8, 110u8, 116u8, 49u8]
}

/// The bytes of the keyword `token0`.
pub open spec fn kw_token0() -> Seq<u8> {
    seq![116u8, 111u8, 107u8, 101u8, 110u8, 48u8]
}

/// The bytes of the keyword `token1`.
pub open spec fn kw_token1() -> Seq<u8> {
    seq![116u8, 111u8, 107u8, 101u8, 110u8, 49u8]
}

/// The bytes of the keyword `pairId`.
pub open spec fn kw_pair_id() -> Seq<u8> {
    seq![112u8, 97u8, 105u8, 114u8, 73u8, 100u8]
}

/// The bytes of the keyword `controller`.
pub open spec fn kw_controller() -> Seq<u8> {
    seq![99u8, 111u8, 110u8, 116u8, 114u8, 111u8, 108u8, 108u8, 101u8, 114u8]
}

/// The bytes of the keyword `priorityFee`.
pub open spec fn kw_priority_fee() -> Seq<u8> {
    seq![112u8, 114u8, 105u8, 111u8, 114u8, 105u8, 116u8, 121u8, 70u8, 101u8, 101u8]
}

/// The bytes of the keyword `fee`.
pub open spec fn kw_fee() -> Seq<u8> {
    seq![102u8, 101u8, 101u8]
}

/// The bytes of the keyword `vol`.
pub open spec fn kw_vol() -> Seq<u8> {
    seq![118u8, 111u8, 108u8]
}

/// The bytes of the keyword `dur`.
pub open spec fn kw_dur() -> Seq<u8> {
    seq![100u8, 117u8, 114u8]
}

/// The bytes of the keyword `jit`.
pub open spec fn kw_jit() -> Seq<u8> {
    seq![106u8, 105u8, 116u8]
}

/// The bytes of the keyword `maxPrice`.
pub open spec fn kw_max_price() -> Seq<u8> {
    seq![109u8, 97u8, 120u8, 80u8, 114u8, 105u8, 99u8, 101u8]
}

/// The bytes of the keyword `price`.
pub open spec fn kw_price() -> Seq<u8> {
    seq![112u8, 114u8, 105u8, 99u8, 101u8]
}

/// The bytes of the keyword `sellAsset`.
pub open spec fn kw_sell_asset() -> Seq<u8> {
    seq![115u8, 101u8, 108u8, 108u8, 65u8, 115u8, 115u8, 101u8, 116u8]
}


/// The longest keyword standing at `pos`, with the position just past it.
/// Keywords are tried longest first, so the result is the maximal-munch
/// winner among keywords.
pub open spec fn spec_keyword_at(s: Seq<u8>, pos: int) -> Option<(TokenType, int)> {
    if kw_at(s, pos, kw_delta_liquidity()) {
        Some((TokenType::DeltaLiquidity, pos + 14))
    } else if kw_at(s, pos, kw_priority_fee()) {
        Some((TokenType::PriorityFee, pos + 11))
    } else if kw_at(s, pos, kw_deallocate()) {
        Some((TokenType::Deallocate, pos + 10))
    } else if kw_at(s, pos, kw_create_pool()) {
        Some((TokenType::CreatePool, pos + 10))
    } else if kw_at(s, pos, kw_create_pair()) {
        Some((TokenType::CreatePair, pos + 10))
    } else if kw_at(s, pos, kw_controller()) {
        Some((TokenType::Controller, pos + 10))
    } else if kw_at(s, pos, kw_sell_asset()) {
        Some((TokenType::SellAsset, pos + 9))
    } else if kw_at(s, pos, kw_allocate()) {
        Some((TokenType::Allocate, pos + 8))
    } else if kw_at(s, pos, kw_max_price()) {
        Some((TokenType::MaxPrice, pos + 8))
    } else if kw_at(s, pos, kw_unknown()) {
        Some((TokenType::Unknown, pos + 7))
    } else if kw_at(s, pos, kw_amount0()) {
        Some((TokenType::Amount0, pos + 7))
    } else if kw_at(s, pos, kw_amount1()) {
        Some((TokenType::Amount1, pos + 7))
    } else if kw_at(s, pos, kw_pool_id()) {
        Some((TokenType::PoolId, pos + 6))
    } else if kw_at(s, pos, kw_use_max()) {
        Some((TokenType::UseMax, pos + 6))
    } else if kw_at(s, pos, kw_token0()) {
        Some((TokenType::Token0, pos + 6))
    } else if kw_at(s, pos, kw_token1()) {
        Some((TokenType::Token1, pos + 6))
    } else if kw_at(s, pos, kw_pair_id()) {
        Some((TokenType::PairId, pos + 6))
    } else if kw_at(s, pos, kw_claim()) {
        Some((TokenType::Claim, pos + 5))
    } else if kw_at(s, pos, kw_macro()) {
        Some((TokenType::Macro, pos + 5))
    } else if kw_at(s, pos, kw_price()) {
        Some((TokenType::Price, pos + 5))
    } else if kw_at(s, pos, kw_swap()) {
        Some((TokenType::Swap, pos + 4))
    } else if kw_at(s, pos, kw_jump()) {
        Some((TokenType::Jump, pos + 4))
    } else if kw_at(s, pos, kw_fee0()) {
        Some((TokenType::Fee0, pos + 4))
    } else if kw_at(s, pos, kw_fee1()) {
        Some((TokenType::Fee1, pos + 4))
    } else if kw_at(s, pos, kw_fee()) {
        Some((TokenType::Fee, pos + 3))
    } else if kw_at(s, pos, kw_vol()) {
        Some((TokenType::Vol, pos + 3))
    } else if kw_at(s, pos, kw_dur()) {
        Some((TokenType::Dur, pos + 3))
    } else if kw_at(s, pos, kw_jit()) {
        Some((TokenType::Jit, pos + 3))
    } else {
        None
    }
}

fn keyword_at(s: &[u8], pos: usize) -> (r: Option<(TokenType, usize)>)
    requires
        pos <= s@.len(),
    ensures
        match r {
            Some((t, e)) => spec_keyword_at(s@, pos as int) == Some((t, e as int)),
            None => spec_keyword_at(s@, pos as int) is None,
        },
{
    // pin the buffer length once: each match below stays inside it
    let n = s.len();
    let w = vec![100u8, 101u8, 108u8, 116u8, 97u8, 76u8, 105u8, 113u8, 117u8, 105u8, 100u8, 105u8, 116u8, 121u8];
    proof {
        assert(w@ =~= kw_delta_liquidity());
    }
    if match_at(s, pos, &w) {
        return Some((TokenType::DeltaLiquidity, pos + 14));
    }
    let w = vec![112u8, 114u8, 105u8, 111u8, 114u8, 105u8, 116u8, 121u8, 70u8, 101u8, 101u8];
    proof {
        assert(w@ =~= kw_priority_fee());
    }
    if match_at(s, pos, &w) {
        return Some((TokenType::PriorityFee, pos + 11));
    }
    let w = vec![100u8, 101u8, 97u8, 108u8, 108u8, 111u8, 99u8, 97u8, 116u8, 101u8];
    proof {
        assert(w@ =~= kw_deallocate());
    }
    if match_at(s, pos, &w) {
        return Some((TokenType::Deallocate, pos + 10));
    }
    let w = vec![99u8, 114u8, 101u8, 97u8, 116u8, 101u8, 80u8, 111u8, 111u8, 108u8];
    proof {
        assert(w@ =~= kw_create_pool());
    }
    if match_at(s, pos, &w) {
        return Some((TokenType::CreatePool, pos + 10));
    }
    let w = vec![99u8, 114u8, 101u8, 97u8, 116u8, 101u8, 80u8, 97u8, 105u8, 114u8];
    proof {
        assert(w@ =~= kw_create_pair());
    }
    if match_at(s, pos, &w) {
        return Some((TokenType::CreatePair, pos + 10));
    }
    let w = vec![99u8, 111u8, 110u8, 116u8, 114u8, 111u8, 108u8, 108u8, 101u8, 114u8];
    proof {
        assert(w@ =~= kw_controller());
    }
    if match_at(s, pos, &w) {
        return Some((TokenType::Controller, pos + 10));
    }
    let w = vec![115u8, 101u8, 108u8, 108u8, 65u8, 115u8, 115u8, 101u8, 116u8];
    proof {
        assert(w@ =~= kw_sell_asset());
    }
    if match_at(s, pos, &w) {
        return Some((TokenType::SellAsset, pos + 9));
    }
    let w = vec![97u8, 108u8, 108u8, 111u8, 99u8, 97u8, 116u8, 101u8];
    proof {
        assert(w@ =~= kw_allocate());
    }
    if match_at(s, pos, &w) {
        return Some((TokenType::Allocate, pos + 8));
    }
    let w = vec![109u8, 97u8, 120u8, 80u8, 114u8, 105u8, 99u8, 101u8];
    proof {
        assert(w@ =~= kw_max_price());
    }
    if match_at(s, pos, &w) {
        return Some((TokenType::MaxPrice, pos + 8));
    }
    let w = vec![117u8, 110u8, 107u8, 110u8, 111u8, 119u8, 110u8];
    proof {
        assert(w@ =~= kw_unknown());
    }
    if match_at(s, pos, &w) {
        return Some((TokenType::Unknown, pos + 7));
    }
    let w = vec![97u8, 109u8, 111u8, 117u8, 110u8, 116u8, 48u8];
    proof {
        assert(w@ =~= kw_amount0());
    }
    if match_at(s, pos, &w) {
        return Some((TokenType::Amount0, pos + 7));
    }
    let w = vec![97u8, 109u8, 111u8, 117u8, 110u8, 116u8, 49u8];
    proof {
        assert(w@ =~= kw_amount1());
    }
    if match_at(s, pos, &w) {
        return Some((TokenType::Amount1, pos + 7));
    }
    let w = vec![112u8, 111u8, 111u8, 108u8, 73u8, 100u8];
    proof {
        assert(w@ =~= kw_pool_id());
    }
    if match_at(s, pos, &w) {
        return Some((TokenType::PoolId, pos + 6));
    }
    let w = vec![117u8, 115u8, 101u8, 77u8, 97u8, 120u8];
    proof {
        assert(w@ =~= kw_use_max());
    }
    if match_at(s, pos, &w) {
        return Some((TokenType::UseMax, pos + 6));
    }
    let w = vec![116u8, 111u8, 107u8, 101u8, 110u8, 48u8];
    proof {
        assert(w@ =~= kw_token0());
    }
    if match_at(s, pos, &w) {
        return Some((TokenType::Token0, pos + 6));
    }
    let w = vec![116u8, 111u8, 107u8, 101u8, 110u8, 49u8];
    proof {
        assert(w@ =~= kw_token1());
    }
    if match_at(s, pos, &w) {
        return Some((TokenType::Token1, pos + 6));
    }
    let w = vec![112u8, 97u8, 105u8, 114u8, 73u8, 100u8];
    proof {
        assert(w@ =~= kw_pair_id());
    }
    if match_at(s, pos, &w) {
        return Some((TokenType::PairId, pos + 6));
    }
    let w = vec![99u8, 108u8, 97u8, 105u8, 109u8];
    proof {
        assert(w@ =~= kw_claim());
    }
    if match_at(s, pos, &w) {
        return Some((TokenType::Claim, pos + 5));
    }
    let w = vec![109u8, 97u8, 99u8, 114u8, 111u8];
    proof {
        assert(w@ =~= kw_macro());
    }
    if match_at(s, pos, &w) {
        return Some((TokenType::Macro, pos + 5));
    }
    let w = vec![112u8, 114u8, 105u8, 99u8, 101u8];
    proof {
        assert(w@ =~= kw_price());
    }
    if match_at(s, pos, &w) {
        return Some((TokenType::Price, pos + 5));
    }
    let w = vec![115u8, 119u8, 97u8, 112u8];
    proof {
        assert(w@ =~= kw_swap());
    }
    if match_at(s, pos, &w) {
        return Some((TokenType::Swap, pos + 4));
    }
    let w = vec![106u8, 117u8, 109u8, 112u8];
    proof {
        assert(w@ =~= kw_jump());
    }
    if match_at(s, pos, &w) {
        return Some((TokenType::Jump, pos + 4));
    }
    let w = vec![102u8, 101u8, 101u8, 48u8];
    proof {
        assert(w@ =~= kw_fee0());
    }
    if match_at(s, pos, &w) {
        return Some((TokenType::Fee0, pos + 4));
    }
    let w = vec![102u8, 101u8, 101u8, 49u8];
    proof {
        assert(w@ =~= kw_fee1());
    }
    if match_at(s, pos, &w) {
        return Some((TokenType::Fee1, pos + 4));
    }
    let w = vec![102u8, 101u8, 101u8];
    proof {
        assert(w@ =~= kw_fee());
    }
    if match_at(s, pos, &w) {
        return Some((TokenType::Fee, pos + 3));
    }
    let w = vec![118u8, 111u8, 108u8];
    proof {
        assert(w@ =~= kw_vol());
    }
    if match_at(s, pos, &w) {
        return Some((TokenType::Vol, pos + 3));
    }
    let w = vec![100u8, 117u8, 114u8];
    proof {
        assert(w@ =~= kw_dur());
    }
    if match_at(s, pos, &w) {
        return Some((TokenType::Dur, pos + 3));
    }
    let w = vec![106u8, 105u8, 116u8];
    proof {
        assert(w@ =~= kw_jit());
    }
    if match_at(s, pos, &w) {
        return Some((TokenType::Jit, pos + 3));
    }
    None
}

/// The end of the decimal literal starting at `pos`, if one stands there:
/// an optional sign, then either digits, or optional digits, a point and
/// digits, always taking the longest match.
pub open spec fn spec_number_end(s: Seq<u8>, pos: int) -> Option<int> {
    let p1 = if s[pos] == 43 || s[pos] == 45 {
        pos + 1
    } else {
        pos
    };
    let d1 = dec_end(s, p1);
    if d1 < s.len() && s[d1] == 46 && d1 + 1 < s.len() && is_dec_digit(s[d1 + 1]) {
        Some(dec_end(s, d1 + 1))
    } else if d1 > p1 {
        Some(d1)
    } else {
        None
    }
}

fn number_end(s: &[u8], pos: usize) -> (r: Option<usize>)
    requires
        pos < s@.len(),
    ensures
        match r {
            Some(e) => spec_number_end(s@, pos as int) == Some(e as int),
            None => spec_number_end(s@, pos as int) is None,
        },
{
    let n = s.len();
    let c = s[pos];
    let p1 = if c == 43 || c == 45 {
        pos + 1
    } else {
        pos
    };
    let d1 = scan_dec_end(s, p1);
    proof {
        lemma_dec_end(s@, p1 as int);
    }
    if d1 < n && s[d1] == 46 && d1 + 1 < n && dec_digit(s[d1 + 1]) {
        Some(scan_dec_end(s, d1 + 1))
    } else if d1 > p1 {
        Some(d1)
    } else {
        None
    }
}

/// The token standing at `pos` (not a whitespace position), as the longest
/// match over every lexical rule, or nothing when no rule matches.
pub open spec fn spec_next_token(s: Seq<u8>, pos: int) -> Option<(TokenType, int)> {
    let c = s[pos];
    if c == 123 {
        Some((TokenType::OpenBrace, pos + 1))
    } else if c == 125 {
        Some((TokenType::CloseBrace, pos + 1))
    } else if c == 58 {
        Some((TokenType::Colon, pos + 1))
    } else if is_ident_byte(c) {
        let e = ident_end(s, pos);
        match spec_keyword_at(s, pos) {
            Some((t, kend)) => if kend >= e {
                Some((t, kend))
            } else {
                Some((TokenType::Identifier, e))
            },
            None => Some((TokenType::Identifier, e)),
        }
    } else if c == 48 && pos + 2 < s.len() && (s[pos + 1] == 120 || s[pos + 1] == 88)
        && is_hex_digit(s[pos + 2]) {
        Some((TokenType::AddressLiteral, hex_end(s, pos + 2)))
    } else if is_dec_digit(c) || c == 43 || c == 45 || c == 46 {
        match spec_number_end(s, pos) {
            Some(e) => Some((TokenType::Literal, e)),
            None => None,
        }
    } else {
        None
    }
}

/// A matched token always ends past its start and inside the input.
pub proof fn lemma_next_token_bounds(s: Seq<u8>, pos: int)
    requires
        0 <= pos < s.len(),
    ensures
        match spec_next_token(s, pos) {
            Some((t, e)) => pos < e <= s.len(),
            None => true,
        },
{
    let c = s[pos];
    if c == 123 || c == 125 || c == 58 {
    } else if is_ident_byte(c) {
        lemma_ident_end(s, pos);
    } else if c == 48 && pos + 2 < s.len() && (s[pos + 1] == 120 || s[pos + 1] == 88)
        && is_hex_digit(s[pos + 2]) {
        lemma_hex_end(s, pos + 2);
    } else if is_dec_digit(c) || c == 43 || c == 45 || c == 46 {
        let p1 = if c == 43 || c == 45 {
            pos + 1
        } else {
            pos
        };
        lemma_dec_end(s, p1);
        let d1 = dec_end(s, p1);
        if d1 < s.len() && s[d1] == 46 && d1 + 1 < s.len() && is_dec_digit(s[d1 + 1]) {
            lemma_dec_end(s, d1 + 1);
        }
    }
}

fn next_token(s: &[u8], pos: usize) -> (r: Option<(TokenType, usize)>)
    requires
        pos < s@.len(),
    ensures
        match r {
            Some((t, e)) => spec_next_token(s@, pos as int) == Some((t, e as int)) && pos < e
                <= s@.len(),
            None => spec_next_token(s@, pos as int) is None,
        },
{
    proof {
        lemma_next_token_bounds(s@, pos as int);
    }
    let n = s.len();
    let c = s[pos];
    if c == 123 {
        Some((TokenType::OpenBrace, pos + 1))
    } else if c == 125 {
        Some((TokenType::CloseBrace, pos + 1))
    } else if c == 58 {
        Some((TokenType::Colon, pos + 1))
    } else if ident_byte(c) {
        let e = scan_ident_end(s, pos);
        match keyword_at(s, pos) {
            Some((t, kend)) => {
                if kend >= e {
                    Some((t, kend))
                } else {
                    Some((TokenType::Identifier, e))
                }
            },
            None => Some((TokenType::Identifier, e)),
        }
    } else if c == 48 && n - pos > 2 && (s[pos + 1] == 120 || s[pos + 1] == 88) && hex_digit(
        s[pos + 2],
    ) {
        Some((TokenType::AddressLiteral, scan_hex_end(s, pos + 2)))
    } else if dec_digit(c) || c == 43 || c == 45 || c == 46 {
        match number_end(s, pos) {
            Some(e) => Some((TokenType::Literal, e)),
            None => None,
        }
    } else {
        None
    }
}

/// The token sequence of `s` from `pos` on: whitespace is skipped, each
/// token is the longest match at its start, and the first unmatched byte
/// stops everything with a located error.
pub open spec fn spec_lex_from(s: Seq<u8>, pos: int) -> Result<Seq<TokenView>, CompileError>
    decreases s.len() - pos,
    when 0 <= pos <= s.len()
    via spec_lex_from_decreases
{
    if pos >= s.len() {
        Ok(Seq::empty())
    } else if is_ws(s[pos]) {
        spec_lex_from(s, pos + 1)
    } else {
        match spec_next_token(s, pos) {
            Some((t, end)) => match spec_lex_from(s, end) {
                Ok(rest) => Ok(
                    seq![TokenView { ttype: t, slice: s.subrange(pos, end) }] + rest,
                ),
                Err(e) => Err(e),
            },
            None => Err(
                CompileError::LexError { start: pos as usize, end: (pos + 1) as usize },
            ),
        }
    }
}

#[via_fn]
proof fn spec_lex_from_decreases(s: Seq<u8>, pos: int) {
    if 0 <= pos && pos < s.len() && !is_ws(s[pos]) {
        lemma_next_token_bounds(s, pos);
    }
}

/// What has been lexed so far, prefixed to what remains, is the whole
/// result.
pub open spec fn lex_decomposes(s: Seq<u8>, pos: int, done: Seq<TokenView>) -> bool {
    spec_lex_from(s, 0) == (match spec_lex_from(s, pos) {
        Ok(rest) => Ok(done + rest),
        Err(e) => Err::<Seq<TokenView>, CompileError>(e),
    })
}

fn bytes_range(s: &[u8], a: usize, b: usize) -> (r: Vec<u8>)
    requires
        a <= b <= s@.len(),
    ensures
        r@ == s@.subrange(a as int, b as int),
{
    let mut out: Vec<u8> = Vec::new();
    let mut i = a;
    while i < b
        invariant
            a <= i <= b <= s@.len(),
            out@ =~= s@.subrange(a as int, i as int),
        decreases b - i,
    {
        out.push(s[i]);
        i = i + 1;
    }
    proof {
        assert(out@ =~= s@.subrange(a as int, b as int));
    }
    out
}

impl Token {
    /// Instantiate a token.
    pub fn new(ttype: TokenType, slice: Vec<u8>) -> (t: Token)
        ensures
            t@ == (TokenView { ttype, slice: slice@ }),
    {
        Token { ttype, slice }
    }

    /// Given a source chunk, lex it into a vector of tokens, or stop at the
    /// first byte sequence that matches no rule and report its span.
    pub fn lex(raw: &str) -> (r: Result<Vec<Token>, CompileError>)
        ensures
            match r {
                Ok(ts) => spec_lex_from(raw.spec_bytes(), 0) == Ok::<_, CompileError>(
                    views_of(ts@),
                ),
                Err(e) => spec_lex_from(raw.spec_bytes(), 0) == Err::<Seq<TokenView>, _>(e),
            },
    {
        let s: &[u8] = raw.as_bytes();
        let n = s.len();
        let mut out: Vec<Token> = Vec::new();
        let mut pos: usize = 0;
        proof {
            assert(views_of(out@) =~= Seq::<TokenView>::empty());
            match spec_lex_from(s@, 0) {
                Ok(rest) => {
                    assert(Seq::<TokenView>::empty() + rest =~= rest);
                },
                Err(e) => {},
            }
            assert(lex_decomposes(s@, 0, views_of(out@)));
        }
        while pos < n
            invariant
                pos <= n,
                n == s@.len(),
                s@ == raw.spec_bytes(),
                lex_decomposes(s@, pos as int, views_of(out@)),
            decreases n - pos,
        {
            let c = s[pos];
            if ws_byte(c) {
                pos = pos + 1;
            } else {
                match next_token(s, pos) {
                    Some((t, end)) => {
                        let ghost old_out = out@;
                        let slice = bytes_range(s, pos, end);
                        out.push(Token { ttype: t, slice });
                        proof {
                            let tv = TokenView {
                                ttype: t,
                                slice: s@.subrange(pos as int, end as int),
                            };
                            assert(views_of(out@) =~= views_of(old_out).push(tv));
                            match spec_lex_from(s@, end as int) {
                                Ok(rest) => {
                                    assert(views_of(old_out) + (seq![tv] + rest) =~= views_of(
                                        out@,
                                    ) + rest);
                                },
                                Err(e) => {},
                            }
                        }
                        pos = end;
                    },
                    None => {
                        return Err(CompileError::LexError { start: pos, end: pos + 1 });
                    },
                }
            }
        }
        proof {
            assert(spec_lex_from(s@, pos as int) == Ok::<Seq<TokenView>, CompileError>(
                Seq::empty(),
            ));
            assert(views_of(out@) + Seq::<TokenView>::empty() =~= views_of(out@));
        }
        Ok(out)
    }
}

} // verus!
