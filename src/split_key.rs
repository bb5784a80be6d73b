//! Split-order keys: bit reversal of 64-bit words, and the arithmetic facts
//! that make bucket splitting keep every bucket contiguous.

use vstd::arithmetic::div_mod::{lemma_mod_breakdown, lemma_mod_mod};
use vstd::arithmetic::power2::{lemma2_to64, lemma_pow2_pos, lemma_pow2_unfold, pow2};
use vstd::prelude::*;

verus! {

/// The most significant bit of a key; it must be clear in every user key.
pub const TOP_BIT: u64 = 0x8000_0000_0000_0000;

/// The lowest `n` bits of `x` written in reverse order, as a number of `n` bits.
pub open spec fn reverse(x: int, n: nat) -> int
    decreases n,
{
    if n == 0 {
        0
    } else {
        (x % 2) * pow2((n - 1) as nat) + reverse(x / 2, (n - 1) as nat)
    }
}

/// The position in split order of the sentinel that starts bucket `b`.
pub open spec fn sentinel_key(b: int) -> int {
    reverse(b, 64)
}

/// The position in split order of the regular entry with key `k`.
pub open spec fn regular_key(k: int) -> int {
    reverse(k + TOP_BIT, 64)
}

pub proof fn lemma_reverse_bounds(x: int, n: nat)
    requires
        0 <= x,
    ensures
        0 <= reverse(x, n) < pow2(n),
    decreases n,
{
    lemma_pow2_pos(n);
    if n > 0 {
        lemma_reverse_bounds(x / 2, (n - 1) as nat);
        lemma_pow2_unfold(n);
        if x % 2 == 0 {
            assert((x % 2) * pow2((n - 1) as nat) == 0);
        } else {
            assert(x % 2 == 1);
            assert((x % 2) * pow2((n - 1) as nat) == pow2((n - 1) as nat));
        }
    }
}

/// Reversal of `n` bits is injective on numbers of `n` bits.
pub proof fn lemma_reverse_injective(a: int, b: int, n: nat)
    requires
        0 <= a < pow2(n),
        0 <= b < pow2(n),
        reverse(a, n) == reverse(b, n),
    ensures
        a == b,
    decreases n,
{
    if n == 0 {
        assert(pow2(0) == 1) by {
            lemma2_to64();
        }
    } else {
        let m = (n - 1) as nat;
        lemma_pow2_unfold(n);
        lemma_reverse_bounds(a / 2, m);
        lemma_reverse_bounds(b / 2, m);
        let pa = (a % 2) * pow2(m);
        let pb = (b % 2) * pow2(m);
        if a % 2 == 0 {
            assert(pa == 0);
        } else {
            assert(a % 2 == 1);
            assert(pa == pow2(m));
        }
        if b % 2 == 0 {
            assert(pb == 0);
        } else {
            assert(b % 2 == 1);
            assert(pb == pow2(m));
        }
        assert(a % 2 == b % 2);
        lemma_reverse_injective(a / 2, b / 2, m);
    }
}

pub proof fn lemma_reverse_zero(n: nat)
    ensures
        reverse(0, n) == 0,
    decreases n,
{
    if n > 0 {
        assert(0int % 2 == 0 && 0int / 2 == 0);
        lemma_reverse_zero((n - 1) as nat);
    }
}

/// A number below `2^s` that agrees with `c` on the lowest `s` bits comes no
/// later than `c` in reversed order.
pub proof fn lemma_reverse_low_bits_le(a: int, c: int, s: nat, n: nat)
    requires
        0 <= a < pow2(s),
        0 <= c,
        s <= n,
        a % (pow2(s) as int) == c % (pow2(s) as int),
    ensures
        reverse(a, n) <= reverse(c, n),
    decreases s,
{
    if s == 0 {
        assert(pow2(0) == 1) by {
            lemma2_to64();
        }
        lemma_reverse_zero(n);
        lemma_reverse_bounds(c, n);
    } else {
        let m = (n - 1) as nat;
        let t = (s - 1) as nat;
        lemma_pow2_unfold(s);
        lemma_pow2_pos(t);
        lemma_mod_mod(a, 2, pow2(t) as int);
        lemma_mod_mod(c, 2, pow2(t) as int);
        assert(a % 2 == c % 2);
        lemma_mod_breakdown(a, 2, pow2(t) as int);
        lemma_mod_breakdown(c, 2, pow2(t) as int);
        assert((a / 2) % (pow2(t) as int) == (c / 2) % (pow2(t) as int));
        lemma_reverse_low_bits_le(a / 2, c / 2, t, m);
    }
}

/// Reverses the bits of a 64-bit word.
///
/// Relies on `u64::reverse_bits`, documented to make the least significant
/// bit the most significant one, the second least the second most, and so on.
#[verifier::external_body]
pub(crate) fn reverse_bits(x: u64) -> (r: u64)
    ensures
        r as int == reverse(x as int, 64),
{
    x.reverse_bits()
}

/// The split-order key of the sentinel that starts bucket `b`.
pub fn sentinel_order_key(b: usize) -> (r: u64)
    ensures
        r == sentinel_key(b as int),
{
    reverse_bits(b as u64)
}

/// The split-order key of the regular entry with key `k`: `k` with its top
/// bit set, reversed.
pub fn regular_order_key(k: usize) -> (r: u64)
    requires
        k < TOP_BIT,
    ensures
        r == regular_key(k as int),
{
    reverse_bits(k as u64 + TOP_BIT)
}

} // verus!
