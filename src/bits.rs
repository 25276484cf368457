//! Bit-level facts about `u64` words used as sets of cells.
use vstd::prelude::*;
use std::fmt::Write;

verus! {

/// Bit `i` of `x` is set; positions outside `0..64` are never set.
pub open spec fn bit(x: u64, i: int) -> bool {
    0 <= i < 64 && (x >> (i as u64)) & 1u64 == 1u64
}

/// Number of set bits of `x` below position `n`.
pub open spec fn count_bits(x: u64, n: int) -> nat
    decreases n,
{
    if n <= 0 {
        0
    } else {
        count_bits(x, n - 1) + if bit(x, n - 1) {
            1nat
        } else {
            0nat
        }
    }
}

/// Number of set bits of `x`.
pub open spec fn popcount(x: u64) -> nat {
    count_bits(x, 64)
}

/// Relies on `u64::count_ones`: the number of ones in the binary representation.
#[verifier::external_body]
pub fn count_ones(x: u64) -> (r: u32)
    ensures
        r as nat == popcount(x),
{
    x.count_ones()
}

proof fn bv_and(x: u64, y: u64, i: u64)
    by (bit_vector)
    requires
        i < 64,
    ensures
        ((x & y) >> i) & 1u64 == 1u64 <==> ((x >> i) & 1u64 == 1u64 && (y >> i) & 1u64 == 1u64),
{
}

proof fn bv_or(x: u64, y: u64, i: u64)
    by (bit_vector)
    requires
        i < 64,
    ensures
        ((x | y) >> i) & 1u64 == 1u64 <==> ((x >> i) & 1u64 == 1u64 || (y >> i) & 1u64 == 1u64),
{
}

proof fn bv_not(x: u64, i: u64)
    by (bit_vector)
    requires
        i < 64,
    ensures
        ((!x) >> i) & 1u64 == 1u64 <==> !((x >> i) & 1u64 == 1u64),
{
}

proof fn bv_shr_in(x: u64, n: u64, i: u64)
    by (bit_vector)
    requires
        i < 64,
        n < 64,
        i + n < 64,
    ensures
        ((x >> n) >> i) & 1u64 == 1u64 <==> (x >> (i + n) as u64) & 1u64 == 1u64,
{
}

proof fn bv_shr_out(x: u64, n: u64, i: u64)
    by (bit_vector)
    requires
        i < 64,
        n < 64,
        i + n >= 64,
    ensures
        ((x >> n) >> i) & 1u64 == 0u64,
{
}

proof fn bv_single(k: u64, i: u64)
    by (bit_vector)
    requires
        i < 64,
        k < 64,
    ensures
        ((1u64 << k) >> i) & 1u64 == 1u64 <==> i == k,
{
}

proof fn bv_high(u: u64, i: u64)
    by (bit_vector)
    requires
        i < 64,
        u < 64,
    ensures
        (((!0u64) << u) >> i) & 1u64 == 1u64 <==> i >= u,
{
}

proof fn bv_zero(i: u64)
    by (bit_vector)
    requires
        i < 64,
    ensures
        (0u64 >> i) & 1u64 != 1u64,
{
}

proof fn bv_nonzero(x: u64, i: u64)
    by (bit_vector)
    requires
        i < 64,
        (x >> i) & 1u64 == 1u64,
    ensures
        x != 0,
{
}

proof fn bv_test(x: u64, k: u64)
    by (bit_vector)
    requires
        k < 64,
    ensures
        (x & (1u64 << k)) != 0u64 <==> (x >> k) & 1u64 == 1u64,
{
}

/// Masking with a single bit tests that bit.
pub proof fn lemma_bit_test(x: u64, k: u64)
    requires
        k < 64,
    ensures
        ((x & (1u64 << k)) != 0) == bit(x, k as int),
{
    bv_test(x, k);
}

/// Binary digits of `x`, most significant first, without leading zeros (`0` is one digit).
pub open spec fn binary_digits(x: u64) -> Seq<char>
    decreases x,
{
    let d = if x % 2 == 0 {
        '0'
    } else {
        '1'
    };
    if x < 2 {
        seq![d]
    } else {
        binary_digits(x / 2).push(d)
    }
}

/// Relies on the `{:b}` format of `u64`: its binary digits, without leading zeros.
#[verifier::external_body]
pub fn push_binary(s: &mut String, x: u64)
    ensures
        final(s)@ == old(s)@ + binary_digits(x),
{
    let _ = write!(s, "{:b}", x);
}

/// Relies on `String::push`: appends one character.
#[verifier::external_body]
pub fn push_char(s: &mut String, c: char)
    ensures
        final(s)@ == old(s)@.push(c),
{
    s.push(c);
}

pub proof fn lemma_bit_and(x: u64, y: u64, i: int)
    ensures
        bit(x & y, i) == (bit(x, i) && bit(y, i)),
{
    if 0 <= i < 64 {
        bv_and(x, y, i as u64);
    }
}

pub proof fn lemma_bit_or(x: u64, y: u64, i: int)
    ensures
        bit(x | y, i) == (bit(x, i) || bit(y, i)),
{
    if 0 <= i < 64 {
        bv_or(x, y, i as u64);
    }
}

pub proof fn lemma_bit_not(x: u64, i: int)
    requires
        0 <= i < 64,
    ensures
        bit(!x, i) == !bit(x, i),
{
    bv_not(x, i as u64);
}

/// Shifting right by `n` moves bit `i + n` to position `i`.
pub proof fn lemma_bit_shr(x: u64, n: u64, i: int)
    requires
        n < 64,
    ensures
        bit(x >> n, i) == (0 <= i && bit(x, i + n)),
{
    if 0 <= i < 64 {
        if i + n < 64 {
            bv_shr_in(x, n, i as u64);
        } else {
            bv_shr_out(x, n, i as u64);
        }
    }
}

pub proof fn lemma_bit_single(k: u64, i: int)
    requires
        k < 64,
    ensures
        bit(1u64 << k, i) == (i == k),
{
    if 0 <= i < 64 {
        bv_single(k, i as u64);
    }
}

/// `!0 << u` holds exactly the positions at or above `u`.
pub proof fn lemma_bit_high(u: u64, i: int)
    requires
        u < 64,
    ensures
        bit((!0u64) << u, i) == (u <= i < 64),
{
    if 0 <= i < 64 {
        bv_high(u, i as u64);
    }
}

/// A word is nonzero exactly when one of its bits is set.
pub proof fn lemma_nonzero_iff_bit(x: u64)
    ensures
        x != 0 <==> exists|i: int| bit(x, i),
{
    if x != 0 {
        vstd::std_specs::bits::axiom_u64_trailing_zeros(x);
        let t = vstd::std_specs::bits::u64_trailing_zeros(x) as int;
        assert(bit(x, t));
    }
    if exists|i: int| bit(x, i) {
        let i = choose|i: int| bit(x, i);
        bv_nonzero(x, i as u64);
    }
}

pub proof fn lemma_bit_zero(i: int)
    ensures
        !bit(0u64, i),
{
    if 0 <= i < 64 {
        bv_zero(i as u64);
    }
}

pub proof fn lemma_count_zero(n: int)
    ensures
        count_bits(0u64, n) == 0,
    decreases n,
{
    if n > 0 {
        lemma_count_zero(n - 1);
        lemma_bit_zero(n - 1);
    }
}

pub proof fn lemma_count_le(x: u64, n: int)
    ensures
        count_bits(x, n) <= if n < 0 {
            0
        } else {
            n
        },
    decreases n,
{
    if n > 0 {
        lemma_count_le(x, n - 1);
    }
}

/// Setting a clear bit `k` adds one to the count of every prefix that holds `k`.
pub proof fn lemma_count_set(x: u64, k: u64, n: int)
    requires
        k < 64,
        !bit(x, k as int),
    ensures
        count_bits(x | (1u64 << k), n) == count_bits(x, n) + if k < n {
            1nat
        } else {
            0nat
        },
    decreases n,
{
    if n > 0 {
        lemma_count_set(x, k, n - 1);
        lemma_bit_or(x, 1u64 << k, n - 1);
        lemma_bit_single(k, n - 1);
    }
}

} // verus!
