//! Bit-level foundations: what it means for a bit of a `u64` to be set,
//! how the boolean operations act on single bits, and a counted form of
//! the population count.  Every bitboard contract in the crate is stated
//! over `bit64` and `popcnt64`.

use vstd::prelude::*;

verus! {

/// Bit `i` of `b` is set.  Indices at or above 64 never count as set.
pub open spec fn bit64(b: u64, i: u64) -> bool {
    i < 64 && (b >> i) & 1u64 == 1u64
}

/// How many of the bits of `b` strictly below position `n` are set.
pub open spec fn pop_below(b: u64, n: int) -> nat
    decreases n,
{
    if n <= 0 {
        0
    } else {
        pop_below(b, n - 1) + (if bit64(b, (n - 1) as u64) {
            1nat
        } else {
            0nat
        })
    }
}

/// The number of set bits of `b`.
pub open spec fn popcnt64(b: u64) -> nat {
    pop_below(b, 64)
}

pub broadcast proof fn lemma_bit_or(a: u64, b: u64, i: u64)
    ensures
        #[trigger] bit64(a | b, i) <==> bit64(a, i) || bit64(b, i),
{
    assert(i < 64 ==> (((a | b) >> i) & 1u64 == 1u64 <==> ((a >> i) & 1u64 == 1u64) || ((b >> i)
        & 1u64 == 1u64))) by (bit_vector);
}

pub broadcast proof fn lemma_bit_and(a: u64, b: u64, i: u64)
    ensures
        #[trigger] bit64(a & b, i) <==> bit64(a, i) && bit64(b, i),
{
    assert(i < 64 ==> (((a & b) >> i) & 1u64 == 1u64 <==> ((a >> i) & 1u64 == 1u64) && ((b >> i)
        & 1u64 == 1u64))) by (bit_vector);
}

pub broadcast proof fn lemma_bit_not(a: u64, i: u64)
    requires
        i < 64,
    ensures
        #[trigger] bit64(!a, i) <==> !bit64(a, i),
{
    assert(i < 64 ==> (((!a) >> i) & 1u64 == 1u64 <==> !((a >> i) & 1u64 == 1u64))) by (bit_vector);
}

pub broadcast proof fn lemma_bit_single(i: u64, j: u64)
    requires
        i < 64,
    ensures
        #[trigger] bit64(1u64 << i, j) <==> i == j,
{
    assert(i < 64 && j < 64 ==> (((1u64 << i) >> j) & 1u64 == 1u64 <==> i == j)) by (bit_vector);
    assert(i < 64 && j >= 64 ==> !(i == j)) by (bit_vector);
}

pub broadcast proof fn lemma_bit_zero(i: u64)
    ensures
        !#[trigger] bit64(0u64, i),
{
    assert((0u64 >> i) & 1u64 == 0u64) by (bit_vector);
}

pub broadcast proof fn lemma_bit_all(i: u64)
    requires
        i < 64,
    ensures
        #[trigger] bit64(0xFFFF_FFFF_FFFF_FFFFu64, i),
{
    assert(i < 64 ==> (0xFFFF_FFFF_FFFF_FFFFu64 >> i) & 1u64 == 1u64) by (bit_vector);
}

pub broadcast proof fn lemma_bit_xor(a: u64, b: u64, i: u64)
    ensures
        #[trigger] bit64(a ^ b, i) <==> (bit64(a, i) != bit64(b, i)),
{
    assert(i < 64 ==> (((a ^ b) >> i) & 1u64 == 1u64 <==> (((a >> i) & 1u64 == 1u64) != ((b
        >> i) & 1u64 == 1u64)))) by (bit_vector);
}

/// A word with no set bit is zero.
pub proof fn lemma_no_bits_zero(a: u64)
    requires
        forall|i: u64| !bit64(a, i),
    ensures
        a == 0,
{
    vstd::std_specs::bits::axiom_u64_trailing_zeros(a);
    if a != 0 {
        let tz = vstd::std_specs::bits::u64_trailing_zeros(a) as u64;
        assert(bit64(a, tz));
    }
}

/// Two words with the same bits are the same word.
pub proof fn lemma_bit_ext(a: u64, b: u64)
    requires
        forall|i: u64| i < 64 ==> (bit64(a, i) <==> bit64(b, i)),
    ensures
        a == b,
{
    let x = a ^ b;
    assert forall|i: u64| !bit64(x, i) by {
        lemma_bit_xor(a, b, i);
    }
    lemma_no_bits_zero(x);
    assert(a ^ b == 0 ==> a == b) by (bit_vector);
}

/// `pop_below` only counts bits that are there: with no set bit below `n`
/// it is zero, and a set bit below `n` makes it positive.
pub proof fn lemma_pop_below_zero(b: u64, n: int)
    requires
        0 <= n <= 64,
    ensures
        pop_below(b, n) == 0 <==> forall|i: u64| i < n ==> !bit64(b, i),
    decreases n,
{
    if n > 0 {
        lemma_pop_below_zero(b, n - 1);
    }
}

/// A set bit below `n` contributes to the count.
pub proof fn lemma_pop_below_bit(b: u64, i: u64, n: int)
    requires
        i < n <= 64,
        bit64(b, i),
    ensures
        pop_below(b, n) >= 1,
    decreases n,
{
    if i + 1 < n {
        lemma_pop_below_bit(b, i, n - 1);
    }
}

/// Two distinct set bits below `n` make the count at least two.
pub proof fn lemma_pop_below_two_bits(b: u64, i: u64, j: u64, n: int)
    requires
        i < j < n <= 64,
        bit64(b, i),
        bit64(b, j),
    ensures
        pop_below(b, n) >= 2,
    decreases n,
{
    if j + 1 < n {
        lemma_pop_below_two_bits(b, i, j, n - 1);
    } else {
        lemma_pop_below_bit(b, i, n - 1);
    }
}

/// A word whose count of set bits is one is exactly one shifted bit.
pub proof fn lemma_popcnt_one_single(b: u64, i: u64)
    requires
        popcnt64(b) == 1,
        bit64(b, i),
    ensures
        b == 1u64 << i,
{
    assert forall|j: u64| j < 64 implies (bit64(b, j) <==> bit64(1u64 << i, j)) by {
        lemma_bit_single(i, j);
        if i != j && bit64(b, j) {
            if i < j {
                lemma_pop_below_two_bits(b, i, j, 64);
            } else {
                lemma_pop_below_two_bits(b, j, i, 64);
            }
        }
    }
    lemma_bit_ext(b, 1u64 << i);
}

pub broadcast group group_bit_lemmas {
    lemma_bit_or,
    lemma_bit_and,
    lemma_bit_not,
    lemma_bit_single,
    lemma_bit_zero,
    lemma_bit_all,
    lemma_bit_xor,
}

pub proof fn lemma_pop_below_single(i: u64, n: int)
    requires
        i < 64,
        0 <= n <= 64,
    ensures
        pop_below(1u64 << i, n) == if i < n {
            1nat
        } else {
            0nat
        },
    decreases n,
{
    if n > 0 {
        lemma_pop_below_single(i, n - 1);
        lemma_bit_single(i, (n - 1) as u64);
    }
}

/// A single shifted bit has one set bit.
pub proof fn lemma_popcnt_single(i: u64)
    requires
        i < 64,
    ensures
        popcnt64(1u64 << i) == 1,
{
    lemma_pop_below_single(i, 64);
}

/// Masking can only clear bits: the result never exceeds either input.
pub proof fn lemma_u8_and_bound(a: u8, b: u8)
    ensures
        a & b <= a,
{
    assert(a & b <= a) by (bit_vector);
}

/// The union of two small values stays small.
pub proof fn lemma_u8_or_bound(a: u8, b: u8)
    requires
        a < 16,
        b < 16,
    ensures
        a | b < 16,
{
    assert(a < 16 && b < 16 ==> (a | b) < 16) by (bit_vector);
}

/// XOR with zero changes nothing.
pub proof fn lemma_xor_zero(a: u64)
    ensures
        a ^ 0u64 == a,
        0u64 ^ a == a,
{
    assert(a ^ 0u64 == a && 0u64 ^ a == a) by (bit_vector);
}

/// A word is nonzero exactly when it has a set bit.
pub proof fn lemma_nonzero_has_bit(a: u64)
    ensures
        (a != 0) <==> exists|i: u64| bit64(a, i),
{
    vstd::std_specs::bits::axiom_u64_trailing_zeros(a);
    if a != 0 {
        let tz = vstd::std_specs::bits::u64_trailing_zeros(a) as u64;
        assert(bit64(a, tz));
    }
    if exists|i: u64| bit64(a, i) {
        let i = choose|i: u64| bit64(a, i);
        if a == 0 {
            lemma_bit_zero(i);
        }
    }
}

/// Taking one set bit out lowers the count by one.
pub proof fn lemma_pop_below_except(a: u64, b: u64, t: u64, n: int)
    requires
        0 <= n <= 64,
        bit64(b, t),
        forall|j: u64| #[trigger] bit64(a, j) <==> (bit64(b, j) && j != t),
    ensures
        pop_below(a, n) + (if t < n {
            1nat
        } else {
            0nat
        }) == pop_below(b, n),
    decreases n,
{
    if n > 0 {
        lemma_pop_below_except(a, b, t, n - 1);
    }
}

} // verus!
