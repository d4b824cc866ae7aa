//! Fixed-width unsigned integers for the instruction stream: 256-bit
//! quantities (pool ids, fees, amounts) and 160-bit asset addresses, stored
//! as big-endian byte arrays.

use vstd::arithmetic::div_mod::{lemma_fundamental_div_mod, lemma_fundamental_div_mod_converse};
use vstd::prelude::*;

verus! {

broadcast use vstd::array::group_array_axioms;

/// 256 raised to the power `n`: the number of values of an `n`-byte field.
pub open spec fn pow256(n: nat) -> nat
    decreases n,
{
    if n == 0 {
        1
    } else {
        256 * pow256((n - 1) as nat)
    }
}

/// 10 raised to the power `n`, the scale factor of the amount compression.
pub open spec fn pow10(n: nat) -> nat
    decreases n,
{
    if n == 0 {
        1
    } else {
        10 * pow10((n - 1) as nat)
    }
}

/// The value of a big-endian byte string.
pub open spec fn be_val(s: Seq<u8>) -> nat
    decreases s.len(),
{
    if s.len() == 0 {
        0
    } else {
        (be_val(s.drop_last()) * 256 + s.last()) as nat
    }
}

/// The canonical `n`-byte big-endian spelling of `v % 256^n`.
pub open spec fn be_bytes(v: nat, n: nat) -> Seq<u8>
    decreases n,
{
    if n == 0 {
        Seq::empty()
    } else {
        be_bytes(v / 256, (n - 1) as nat).push((v % 256) as u8)
    }
}

pub proof fn lemma_pow256_increases(a: nat, b: nat)
    requires
        a <= b,
    ensures
        pow256(a) <= pow256(b),
    decreases b,
{
    if a < b && b > 0 {
        lemma_pow256_increases(a, (b - 1) as nat);
        lemma_pow256_pos((b - 1) as nat);
    }
}

pub proof fn lemma_pow256_pos(n: nat)
    ensures
        pow256(n) >= 1,
    decreases n,
{
    if n > 0 {
        lemma_pow256_pos((n - 1) as nat);
    }
}

pub proof fn lemma_pow10_pos(n: nat)
    ensures
        pow10(n) >= 1,
    decreases n,
{
    if n > 0 {
        lemma_pow10_pos((n - 1) as nat);
    }
}

/// A byte string's value is below `256^len`.
pub proof fn lemma_be_val_bound(s: Seq<u8>)
    ensures
        be_val(s) < pow256(s.len()),
    decreases s.len(),
{
    if s.len() > 0 {
        let t = s.drop_last();
        lemma_be_val_bound(t);
        assert(be_val(t) * 256 + 256 <= pow256(t.len()) * 256) by (nonlinear_arith)
            requires
                be_val(t) < pow256(t.len()),
        ;
    }
}

/// Splitting a byte string splits its value at the matching power.
pub proof fn lemma_be_val_split(s: Seq<u8>, i: int)
    requires
        0 <= i <= s.len(),
    ensures
        be_val(s) == be_val(s.take(i)) * pow256((s.len() - i) as nat) + be_val(s.skip(i)),
    decreases s.len(),
{
    reveal_with_fuel(be_val, 2);
    if i == s.len() {
        assert(s.take(i) =~= s);
        assert(s.skip(i) =~= Seq::<u8>::empty());
        assert(be_val(Seq::<u8>::empty()) == 0);
        assert(pow256((s.len() - i) as nat) == 1);
        assert(be_val(s) == be_val(s.take(i)) * pow256((s.len() - i) as nat) + be_val(s.skip(i)));
    } else {
        let t = s.drop_last();
        lemma_be_val_split(t, i);
        assert(s.take(i) =~= t.take(i));
        assert(s.skip(i).drop_last() =~= t.skip(i));
        assert(s.skip(i).len() > 0);
        assert(s.skip(i).last() == s.last());
        let k = (t.len() - i) as nat;
        let a = be_val(t.take(i));
        let b = be_val(t.skip(i));
        let c = s.last() as nat;
        assert(be_val(s) == (a * pow256(k) + b) * 256 + c);
        assert(be_val(s.skip(i)) == b * 256 + c);
        assert(pow256((s.len() - i) as nat) == 256 * pow256(k));
        assert((a * pow256(k) + b) * 256 + c == a * (256 * pow256(k)) + (b * 256 + c))
            by (nonlinear_arith);
        assert(be_val(s) == be_val(s.take(i)) * pow256((s.len() - i) as nat) + be_val(s.skip(i)));
    }
}

/// The value of one more leading byte.
pub proof fn lemma_be_val_skip_unfold(s: Seq<u8>, i: int)
    requires
        0 <= i < s.len(),
    ensures
        be_val(s.skip(i)) == s[i] * pow256((s.len() - i - 1) as nat) + be_val(s.skip(i + 1)),
{
    let u = s.skip(i);
    lemma_be_val_split(u, 1);
    assert(u.take(1) =~= seq![s[i]]);
    assert(u.skip(1) =~= s.skip(i + 1));
    reveal_with_fuel(be_val, 2);
    let single = seq![s[i]];
    assert(single.drop_last() =~= Seq::<u8>::empty());
    assert(single.last() == s[i]);
    assert(be_val(single) == s[i]);
}

/// The value of one more trailing byte.
pub proof fn lemma_be_val_take_unfold(s: Seq<u8>, i: int)
    requires
        0 <= i < s.len(),
    ensures
        be_val(s.take(i + 1)) == be_val(s.take(i)) * 256 + s[i],
{
    assert(s.take(i + 1).drop_last() =~= s.take(i));
    assert(s.take(i + 1).last() == s[i]);
}

/// A byte string's value is zero exactly when every byte is zero.
pub proof fn lemma_be_val_zero(s: Seq<u8>)
    ensures
        be_val(s) == 0 <==> (forall|i: int| 0 <= i < s.len() ==> s[i] == 0),
    decreases s.len(),
{
    if s.len() > 0 {
        let t = s.drop_last();
        lemma_be_val_zero(t);
        if be_val(s) == 0 {
            assert(forall|i: int| 0 <= i < t.len() ==> t[i] == #[trigger] s[i]);
        } else if forall|i: int| 0 <= i < s.len() ==> s[i] == 0 {
            assert(forall|i: int| 0 <= i < t.len() ==> #[trigger] t[i] == s[i]);
        }
    }
}

/// Equal length and equal value make equal byte strings.
pub proof fn lemma_be_val_injective(s: Seq<u8>, t: Seq<u8>)
    requires
        s.len() == t.len(),
        be_val(s) == be_val(t),
    ensures
        s =~= t,
    decreases s.len(),
{
    if s.len() > 0 {
        let v = be_val(s);
        lemma_fundamental_div_mod_converse(v as int, 256, be_val(s.drop_last()) as int,
            s.last() as int);
        lemma_fundamental_div_mod_converse(v as int, 256, be_val(t.drop_last()) as int,
            t.last() as int);
        lemma_be_val_injective(s.drop_last(), t.drop_last());
        assert forall|i: int| 0 <= i < s.len() implies s[i] == t[i] by {
            if i < s.len() - 1 {
                assert(s.drop_last()[i] == t.drop_last()[i]);
            }
        }
    }
}

pub proof fn lemma_be_bytes_len(v: nat, n: nat)
    ensures
        be_bytes(v, n).len() == n,
    decreases n,
{
    if n > 0 {
        lemma_be_bytes_len(v / 256, (n - 1) as nat);
    }
}

/// `be_bytes` really spells `v` when `v` fits in `n` bytes.
pub proof fn lemma_be_val_of_be_bytes(v: nat, n: nat)
    requires
        v < pow256(n),
    ensures
        be_val(be_bytes(v, n)) == v,
    decreases n,
{
    if n > 0 {
        assert(v / 256 < pow256((n - 1) as nat)) by (nonlinear_arith)
            requires
                v < 256 * pow256((n - 1) as nat),
        ;
        lemma_be_val_of_be_bytes(v / 256, (n - 1) as nat);
        lemma_be_bytes_len(v / 256, (n - 1) as nat);
        assert(be_bytes(v, n).drop_last() =~= be_bytes(v / 256, (n - 1) as nat));
        lemma_fundamental_div_mod(v as int, 256);
    }
}

/// The last `k` bytes of a byte string whose value fits in `k` bytes spell
/// that value canonically.
pub proof fn lemma_be_tail_canonical(s: Seq<u8>, k: int)
    requires
        0 <= k <= s.len(),
        be_val(s) < pow256(k as nat),
    ensures
        s.skip(s.len() - k) =~= be_bytes(be_val(s), k as nat),
{
    let i = s.len() - k;
    lemma_be_val_split(s, i);
    lemma_be_val_bound(s.skip(i));
    if be_val(s.take(i)) >= 1 {
        assert(be_val(s.take(i)) * pow256(k as nat) >= pow256(k as nat)) by (nonlinear_arith)
            requires
                be_val(s.take(i)) >= 1,
                pow256(k as nat) >= 0,
        ;
        assert(false);
    }
    lemma_be_val_of_be_bytes(be_val(s), k as nat);
    lemma_be_bytes_len(be_val(s), k as nat);
    lemma_be_val_injective(s.skip(i), be_bytes(be_val(s), k as nat));
}

/// An unsigned 256-bit quantity, stored as 32 big-endian bytes. Its view is
/// its numeric value.
#[derive(Clone, Copy, Debug, PartialEq, Eq)]
pub struct Uint256 {
    pub bytes: [u8; 32],
}

impl View for Uint256 {
    type V = nat;

    open spec fn view(&self) -> nat {
        be_val(self.bytes@)
    }
}

impl Uint256 {
    pub fn zero() -> (r: Uint256)
        ensures
            r@ == 0,
    {
        let bytes = [0u8; 32];
        proof {
            lemma_be_val_zero(bytes@);
        }
        Uint256 { bytes }
    }

    pub fn from_u64(v: u64) -> (r: Uint256)
        ensures
            r@ == v as nat,
    {
        let mut bytes = [0u8; 32];
        let mut x: u64 = v;
        let mut i: usize = 0;
        proof {
            assert(bytes@.skip(32) =~= Seq::<u8>::empty());
            assert(be_val(Seq::<u8>::empty()) == 0);
            reveal_with_fuel(pow256, 9);
            assert(be_val(bytes@.skip(32)) == 0);
            assert(pow256(0) == 1);
            assert(be_val(bytes@.skip(32 - 0)) + (v as nat) * pow256(0) == v);
        }
        while i < 8
            invariant
                i <= 8,
                bytes@.len() == 32,
                forall|j: int| 0 <= j < 32 - i ==> bytes@[j] == 0,
                x < pow256((8 - i) as nat),
                be_val(bytes@.skip(32 - i)) + x * pow256(i as nat) == v,
            decreases 8 - i,
        {
            let ghost prev = bytes@;
            let ghost xg = x as nat;
            let b: u8 = (x % 256) as u8;
            bytes[31 - i] = b;
            x = x / 256;
            proof {
                let p = 31 - i as int;
                assert(bytes@ =~= prev.update(p, b));
                assert(bytes@.skip(p + 1) =~= prev.skip(p + 1));
                lemma_be_val_skip_unfold(bytes@, p);
                assert(be_val(bytes@.skip(p)) == b * pow256(i as nat) + be_val(prev.skip(p + 1)));
                assert(xg % 256 + (xg / 256) * 256 == xg) by {
                    lemma_fundamental_div_mod(xg as int, 256);
                }
                assert(b * pow256(i as nat) + (xg / 256) * (256 * pow256(i as nat)) == (b + (xg
                    / 256) * 256) * pow256(i as nat)) by (nonlinear_arith);
                assert(pow256((i + 1) as nat) == 256 * pow256(i as nat));
                assert(xg / 256 < pow256((8 - i - 1) as nat)) by (nonlinear_arith)
                    requires
                        xg < 256 * pow256((8 - i - 1) as nat),
                ;
            }
            i = i + 1;
        }
        proof {
            lemma_be_val_split(bytes@, 24);
            lemma_be_val_zero(bytes@.take(24));
        }
        Uint256 { bytes }
    }

    /// Whether the value fits in the low `k` bytes, that is, is below `256^k`.
    pub fn fits_bytes(&self, k: usize) -> (r: bool)
        requires
            k <= 32,
        ensures
            r == (self@ < pow256(k as nat)),
    {
        let cut: usize = 32 - k;
        let mut i: usize = 0;
        let mut all_zero = true;
        while i < cut
            invariant
                i <= cut <= 32,
                all_zero == (forall|j: int| 0 <= j < i ==> self.bytes@[j] == 0),
            decreases cut - i,
        {
            if self.bytes[i] != 0 {
                all_zero = false;
            }
            i = i + 1;
        }
        proof {
            lemma_be_val_split(self.bytes@, cut as int);
            lemma_be_val_bound(self.bytes@.skip(cut as int));
            lemma_be_val_zero(self.bytes@.take(cut as int));
            let hi = be_val(self.bytes@.take(cut as int));
            if all_zero {
                assert(forall|j: int| 0 <= j < cut ==> self.bytes@.take(cut as int)[j] == 0);
            } else {
                assert(hi != 0) by {
                    let j = choose|j: int| 0 <= j < cut && self.bytes@[j] != 0;
                    assert(self.bytes@.take(cut as int)[j] != 0);
                }
                assert(hi * pow256(k as nat) >= pow256(k as nat)) by (nonlinear_arith)
                    requires
                        hi >= 1,
                        pow256(k as nat) >= 0,
                ;
            }
        }
        all_zero
    }

    /// The low `k` bytes, big-endian: the canonical `k`-byte spelling of the
    /// value when it fits.
    pub fn tail_bytes(&self, k: usize) -> (r: Vec<u8>)
        requires
            k <= 32,
            self@ < pow256(k as nat),
        ensures
            r@ == be_bytes(self@, k as nat),
            r@.len() == k,
    {
        let mut out: Vec<u8> = Vec::new();
        let start: usize = 32 - k;
        let mut i: usize = start;
        while i < 32
            invariant
                start <= i <= 32,
                start == 32 - k,
                out@ =~= self.bytes@.subrange(start as int, i as int),
            decreases 32 - i,
        {
            out.push(self.bytes[i]);
            i = i + 1;
        }
        proof {
            lemma_be_tail_canonical(self.bytes@, k as int);
            assert(out@ =~= self.bytes@.skip(start as int));
        }
        out
    }

    /// The numeric value, for values that fit in a machine word.
    pub fn as_u64(&self) -> (r: u64)
        requires
            self@ < pow256(8),
        ensures
            r as nat == self@,
    {
        proof {
            reveal_with_fuel(pow256, 9);
            assert(self.bytes@.len() == 32);
            assert(self@ == be_val(self.bytes@));
            assert(pow256(8) == 0x1_0000_0000_0000_0000);
            lemma_be_val_split(self.bytes@, 24);
            assert(be_val(self.bytes@) == be_val(self.bytes@.take(24)) * pow256(8) + be_val(
                self.bytes@.skip(24),
            ));
            lemma_be_val_bound(self.bytes@.skip(24));
            let hi = be_val(self.bytes@.take(24));
            if hi >= 1 {
                assert(hi * pow256(8) >= pow256(8)) by (nonlinear_arith)
                    requires
                        hi >= 1,
                        pow256(8) >= 0,
                ;
                assert(false);
            }
            assert(self@ == be_val(self.bytes@.skip(24)));
        }
        let mut acc: u64 = 0;
        let mut i: usize = 24;
        while i < 32
            invariant
                24 <= i <= 32,
                acc as nat == be_val(self.bytes@.subrange(24, i as int)),
                acc < pow256((i - 24) as nat),
                pow256(8) == 0x1_0000_0000_0000_0000,
            decreases 32 - i,
        {
            proof {
                lemma_be_val_take_unfold(self.bytes@.subrange(24, 32), i - 24);
                assert(self.bytes@.subrange(24, 32).take(i - 24) =~= self.bytes@.subrange(24,
                    i as int));
                assert(self.bytes@.subrange(24, 32).take(i - 24 + 1) =~= self.bytes@.subrange(24, i
                    + 1));
                assert(acc * 256 + self.bytes@[i as int] < pow256((i - 24 + 1) as nat))
                    by (nonlinear_arith)
                    requires
                        acc < pow256((i - 24) as nat),
                        self.bytes@[i as int] < 256,
                        pow256((i - 24 + 1) as nat) == 256 * pow256((i - 24) as nat),
                ;
                lemma_pow256_increases((i - 24 + 1) as nat, 8);
            }
            acc = acc * 256 + (self.bytes[i] as u64);
            i = i + 1;
        }
        proof {
            assert(self.bytes@.subrange(24, 32) =~= self.bytes@.skip(24));
            lemma_be_val_split(self.bytes@, 24);
            lemma_be_val_bound(self.bytes@.skip(24));
            let hi = be_val(self.bytes@.take(24));
            if hi >= 1 {
                assert(hi * pow256(8) >= pow256(8)) by (nonlinear_arith)
                    requires
                        hi >= 1,
                        pow256(8) >= 0,
                ;
                assert(false);
            }
        }
        acc
    }

    /// The value as one nibble, when it fits in four bits.
    pub fn to_nibble(&self) -> (r: Option<u8>)
        ensures
            match r {
                Some(v) => v as nat == self@ && v < 16,
                None => self@ >= 16,
            },
    {
        if self.fits_bytes(1) {
            proof {
                reveal_with_fuel(pow256, 2);
                reveal_with_fuel(be_bytes, 2);
                lemma_be_tail_canonical(self.bytes@, 1);
                lemma_be_val_of_be_bytes(self@, 1);
                assert(self.bytes@.skip(31) =~= seq![self.bytes@[31]]);
                assert(be_bytes(self@, 1) =~= seq![(self@ % 256) as u8]);
                reveal_with_fuel(be_val, 2);
                assert(be_val(seq![self.bytes@[31]]) == self.bytes@[31]);
            }
            let b = self.bytes[31];
            if b < 16 {
                Some(b)
            } else {
                None
            }
        } else {
            proof {
                reveal_with_fuel(pow256, 2);
            }
            None
        }
    }

    /// Whether the value equals the given machine word.
    pub fn eq_u64(&self, v: u64) -> (r: bool)
        ensures
            r == (self@ == v as nat),
    {
        if self.fits_bytes(8) {
            self.as_u64() == v
        } else {
            proof {
                reveal_with_fuel(pow256, 9);
            }
            false
        }
    }
}

/// An ASCII decimal digit.
pub open spec fn is_dec_digit(b: u8) -> bool {
    48 <= b <= 57
}

/// The value of a big-endian string of ASCII decimal digits.
pub open spec fn dec_val(s: Seq<u8>) -> nat
    decreases s.len(),
{
    if s.len() == 0 {
        0
    } else {
        (dec_val(s.drop_last()) * 10 + (s.last() - 48)) as nat
    }
}

pub proof fn lemma_dec_val_take_unfold(s: Seq<u8>, i: int)
    requires
        0 <= i < s.len(),
        48 <= s[i],
    ensures
        dec_val(s.take(i + 1)) == dec_val(s.take(i)) * 10 + (s[i] - 48),
{
    assert(s.take(i + 1).drop_last() =~= s.take(i));
    assert(s.take(i + 1).last() == s[i]);
}

/// A digit string's value only grows as digits are appended.
pub proof fn lemma_dec_val_take_le(s: Seq<u8>, i: int)
    requires
        0 <= i <= s.len(),
        forall|j: int| 0 <= j < s.len() ==> is_dec_digit(#[trigger] s[j]),
    ensures
        dec_val(s.take(i)) <= dec_val(s),
    decreases s.len(),
{
    if i < s.len() {
        let t = s.drop_last();
        assert(forall|j: int| 0 <= j < t.len() ==> is_dec_digit(#[trigger] t[j])) by {
            assert(forall|j: int| 0 <= j < t.len() ==> t[j] == #[trigger] s[j]);
        }
        lemma_dec_val_take_le(t, i);
        assert(s.take(i) =~= t.take(i));
        assert(dec_val(t) * 10 + (s.last() - 48) >= dec_val(t)) by (nonlinear_arith)
            requires
                s.last() >= 48,
                dec_val(t) >= 0,
        ;
    } else {
        assert(s.take(i) =~= s);
    }
}

/// An ASCII hexadecimal digit, either case.
pub open spec fn is_hex_digit(b: u8) -> bool {
    48 <= b <= 57 || 65 <= b <= 70 || 97 <= b <= 102
}

/// The value of an ASCII hexadecimal digit.
pub open spec fn hex_digit_val(b: u8) -> nat {
    if 48 <= b <= 57 {
        (b - 48) as nat
    } else if 65 <= b <= 70 {
        (b - 55) as nat
    } else {
        (b - 87) as nat
    }
}

/// The value of an ASCII hexadecimal digit, executable form.
pub fn hex_val(b: u8) -> (r: u8)
    requires
        is_hex_digit(b),
    ensures
        r as nat == hex_digit_val(b),
        r < 16,
{
    if 48 <= b && b <= 57 {
        b - 48
    } else if 65 <= b && b <= 70 {
        b - 55
    } else {
        b - 87
    }
}

impl Uint256 {
    /// The quotient and remainder of division by ten.
    pub fn divmod10(&self) -> (r: (Uint256, u8))
        ensures
            r.1 < 10,
            r.0@ * 10 + r.1 == self@,
            r.0@ == self@ / 10,
            r.1 as nat == self@ % 10,
    {
        let mut out = [0u8; 32];
        let mut rem: u16 = 0;
        let mut i: usize = 0;
        proof {
            assert(self.bytes@.take(0) =~= Seq::<u8>::empty());
            assert(out@.take(0) =~= Seq::<u8>::empty());
            assert(be_val(Seq::<u8>::empty()) == 0);
        }
        while i < 32
            invariant
                i <= 32,
                out@.len() == 32,
                self.bytes@.len() == 32,
                rem < 10,
                be_val(self.bytes@.take(i as int)) == be_val(out@.take(i as int)) * 10 + rem,
            decreases 32 - i,
        {
            let ghost prev = out@;
            let ghost a = be_val(prev.take(i as int));
            let ghost b0 = be_val(self.bytes@.take(i as int));
            let b: u8 = self.bytes[i];
            let v: u16 = rem * 256 + (b as u16);
            let qd: u16 = v / 10;
            let r2: u16 = v % 10;
            out[i] = qd as u8;
            proof {
                assert(out@ =~= prev.update(i as int, qd as u8));
                assert(out@.take(i as int) =~= prev.take(i as int));
                lemma_be_val_take_unfold(self.bytes@, i as int);
                lemma_be_val_take_unfold(out@, i as int);
                assert(out@[i as int] == qd as u8);
                assert(qd < 256 && v == 10 * qd + r2 && r2 < 10) by (nonlinear_arith)
                    requires
                        v < 2560,
                        qd == v / 10,
                        r2 == v % 10,
                ;
                assert((a * 10 + rem) * 256 + b == 10 * (a * 256 + qd) + r2) by (nonlinear_arith)
                    requires
                        v == rem * 256 + b,
                        v == 10 * qd + r2,
                ;
                assert(be_val(self.bytes@.take(i + 1)) == b0 * 256 + b);
                assert(be_val(out@.take(i + 1)) == a * 256 + qd);
            }
            rem = r2;
            i = i + 1;
        }
        proof {
            assert(self.bytes@.take(32) =~= self.bytes@);
            assert(out@.take(32) =~= out@);
            lemma_fundamental_div_mod_converse(self@ as int, 10, be_val(out@) as int, rem as int);
        }
        (Uint256 { bytes: out }, rem as u8)
    }

    /// Ten times the value plus a digit, or nothing on overflow past 256 bits.
    pub fn mul10_add(&self, d: u8) -> (r: Option<Uint256>)
        requires
            d < 10,
        ensures
            match r {
                Some(u) => u@ == self@ * 10 + d,
                None => self@ * 10 + d >= pow256(32),
            },
    {
        let mut out = [0u8; 32];
        let mut carry: u16 = d as u16;
        let mut i: usize = 0;
        proof {
            assert(self.bytes@.skip(32) =~= Seq::<u8>::empty());
            assert(out@.skip(32) =~= Seq::<u8>::empty());
            assert(be_val(Seq::<u8>::empty()) == 0);
            assert(pow256(0) == 1);
        }
        while i < 32
            invariant
                i <= 32,
                out@.len() == 32,
                self.bytes@.len() == 32,
                carry < 10,
                10 * be_val(self.bytes@.skip(32 - i as int)) + d == be_val(
                    out@.skip(32 - i as int),
                ) + carry * pow256(i as nat),
            decreases 32 - i,
        {
            let pos: usize = 31 - i;
            let ghost prev = out@;
            let ghost ss = be_val(self.bytes@.skip(pos + 1 as int));
            let ghost so = be_val(prev.skip(pos + 1 as int));
            let b: u8 = self.bytes[pos];
            let v: u16 = (b as u16) * 10 + carry;
            let lo: u8 = (v % 256) as u8;
            let c2: u16 = v / 256;
            out[pos] = lo;
            proof {
                assert(out@ =~= prev.update(pos as int, lo));
                assert(out@.skip(pos + 1) =~= prev.skip(pos + 1));
                lemma_be_val_skip_unfold(self.bytes@, pos as int);
                lemma_be_val_skip_unfold(out@, pos as int);
                assert(v == 256 * c2 + lo && c2 < 10) by (nonlinear_arith)
                    requires
                        v < 2560,
                        c2 == v / 256,
                        lo == v % 256,
                ;
                let p = pow256(i as nat);
                assert(pow256((i + 1) as nat) == 256 * p);
                assert(10 * (b * p + ss) + d == lo * p + (10 * ss + d) - carry * p + c2 * (256 * p))
                    by (nonlinear_arith)
                    requires
                        (b as u16) * 10 + carry == v,
                        v == 256 * c2 + lo,
                ;
            }
            carry = c2;
            i = i + 1;
        }
        proof {
            assert(self.bytes@.skip(0) =~= self.bytes@);
            assert(out@.skip(0) =~= out@);
        }
        if carry == 0 {
            Some(Uint256 { bytes: out })
        } else {
            proof {
                assert(carry * pow256(32) >= pow256(32)) by (nonlinear_arith)
                    requires
                        carry >= 1,
                        pow256(32) >= 0,
                ;
            }
            None
        }
    }

    /// The value of a string of ASCII decimal digits, or nothing when it does
    /// not fit in 256 bits.
    pub fn from_dec_digits(digits: &Vec<u8>) -> (r: Option<Uint256>)
        requires
            forall|j: int| 0 <= j < digits@.len() ==> is_dec_digit(#[trigger] digits@[j]),
        ensures
            match r {
                Some(u) => u@ == dec_val(digits@),
                None => dec_val(digits@) >= pow256(32),
            },
    {
        let mut acc = Uint256::zero();
        let mut i: usize = 0;
        proof {
            assert(digits@.take(0) =~= Seq::<u8>::empty());
            assert(dec_val(Seq::<u8>::empty()) == 0);
        }
        while i < digits.len()
            invariant
                i <= digits@.len(),
                forall|j: int| 0 <= j < digits@.len() ==> is_dec_digit(#[trigger] digits@[j]),
                acc@ == dec_val(digits@.take(i as int)),
            decreases digits@.len() - i,
        {
            let d: u8 = digits[i] - 48;
            proof {
                lemma_dec_val_take_unfold(digits@, i as int);
            }
            match acc.mul10_add(d) {
                Some(next) => {
                    acc = next;
                },
                None => {
                    proof {
                        lemma_dec_val_take_le(digits@, i + 1);
                    }
                    return None;
                },
            }
            i = i + 1;
        }
        proof {
            assert(digits@.take(digits@.len() as int) =~= digits@);
        }
        Some(acc)
    }
}

/// A 160-bit asset or controller address, stored as 20 big-endian bytes.
#[derive(Clone, Copy, Debug, PartialEq, Eq)]
pub struct Addr {
    pub bytes: [u8; 20],
}

impl Addr {
    /// The address spelled by 40 ASCII hexadecimal digits, two per byte,
    /// high nibble first.
    pub fn from_hex_digits(digits: &Vec<u8>) -> (r: Addr)
        requires
            digits@.len() == 40,
            forall|j: int| 0 <= j < 40 ==> is_hex_digit(#[trigger] digits@[j]),
        ensures
            forall|j: int|
                0 <= j < 20 ==> r.bytes@[j] == hex_digit_val(digits@[2 * j]) * 16 + hex_digit_val(
                    digits@[2 * j + 1],
                ),
    {
        let mut bytes = [0u8; 20];
        let mut i: usize = 0;
        while i < 20
            invariant
                i <= 20,
                bytes@.len() == 20,
                digits@.len() == 40,
                forall|j: int| 0 <= j < 40 ==> is_hex_digit(#[trigger] digits@[j]),
                forall|j: int|
                    0 <= j < i ==> bytes@[j] == hex_digit_val(digits@[2 * j]) * 16 + hex_digit_val(
                        digits@[2 * j + 1],
                    ),
            decreases 20 - i,
        {
            let hi = hex_val(digits[2 * i]);
            let lo = hex_val(digits[2 * i + 1]);
            bytes[i] = hi * 16 + lo;
            i = i + 1;
        }
        Addr { bytes }
    }
}

} // verus!
