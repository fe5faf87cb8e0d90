//! Nibble-order helpers for STP payloads.
//!
//! STP transmits multi-nibble values most significant nibble first; a
//! little-endian stream sends them in the opposite order, so a decoded value
//! has to have its nibbles reversed.

use vstd::prelude::*;

verus! {

/// Nibble `i` of `v`, counting from the least significant one.
pub open spec fn nibble_at(v: u64, i: nat) -> u64 {
    if i < 16 {
        (v >> ((4 * i) as u64)) & 0xF
    } else {
        0
    }
}

/// The value whose lowest `bits` bits are set.
pub open spec fn low_mask(bits: nat) -> u64 {
    if bits >= 64 {
        0xFFFF_FFFF_FFFF_FFFF
    } else {
        !(0xFFFF_FFFF_FFFF_FFFFu64 << (bits as u64))
    }
}

/// The lowest `n` nibbles of `v` in reverse order: nibble 0 of `v` ends up
/// as nibble `n - 1`, and nibble `n - 1` as nibble 0.
pub open spec fn swap_nibbles_spec(v: u64, n: nat) -> u64
    decreases n,
{
    if n == 0 {
        0
    } else {
        (swap_nibbles_spec(v, (n - 1) as nat) << 4) | nibble_at(v, (n - 1) as nat)
    }
}

/// Reverses the order of the least significant `nibble_sz` nibbles of
/// `value`; every higher nibble of the result is zero.
pub fn swap_nibbles(value: u64, nibble_sz: usize) -> (r: u64)
    requires
        1 <= nibble_sz <= 16,
    ensures
        r == swap_nibbles_spec(value, nibble_sz as nat),
{
    let mut r: u64 = 0;
    let mut rest: u64 = value;
    let mut i: usize = 0;
    assert(value >> 0 == value) by (bit_vector);
    while i < nibble_sz
        invariant
            i <= nibble_sz <= 16,
            r == swap_nibbles_spec(value, i as nat),
            i < 16 ==> rest == value >> ((4 * i) as u64),
        decreases nibble_sz - i,
    {
        let ghost shift: u64 = (4 * i) as u64;
        assert(shift < 64 ==> (value >> shift) >> 4 == value >> ((shift + 4) as u64))
            by (bit_vector);
        r = (r << 4) | (rest & 0xF);
        rest = rest >> 4;
        i = i + 1;
    }
    r
}

proof fn lemma_shift_in_nibble(r: u64, x: u64, j: u64)
    requires
        x < 16,
        j < 16,
    ensures
        j == 0 ==> ((r << 4) | x) & 0xF == x,
        j > 0 ==> (((r << 4) | x) >> ((4 * j) as u64)) & 0xF == (r >> ((4 * (j - 1)) as u64))
            & 0xF,
{
    assert(x < 16 ==> ((r << 4) | x) & 0xF == x) by (bit_vector);
    if j > 0 {
        let s: u64 = (4 * j) as u64;
        let t: u64 = (4 * (j - 1)) as u64;
        assert(x < 16 && s == t + 4 && s <= 60 ==> (((r << 4) | x) >> s) & 0xF == (r >> t)
            & 0xF) by (bit_vector);
    }
}

/// Nibble `j` of the reversed value is nibble `n - 1 - j` of the value
/// for `j < n`, and zero above.
pub proof fn lemma_swap_nibbles_nibble(v: u64, n: nat, j: nat)
    requires
        n <= 16,
    ensures
        nibble_at(swap_nibbles_spec(v, n), j) == if j < n {
            nibble_at(v, (n - 1 - j) as nat)
        } else {
            0
        },
    decreases n,
{
    if j >= 16 {
    } else if n == 0 {
        let s: u64 = (4 * j) as u64;
        assert((0u64 >> s) & 0xF == 0) by (bit_vector);
    } else {
        let prev = swap_nibbles_spec(v, (n - 1) as nat);
        let x = nibble_at(v, (n - 1) as nat);
        let s0: u64 = (4 * (n - 1)) as u64;
        assert((v >> s0) & 0xF < 16) by (bit_vector);
        lemma_shift_in_nibble(prev, x, j as u64);
        let cur = (prev << 4) | x;
        assert(cur == swap_nibbles_spec(v, n));
        assert(cur >> 0 == cur) by (bit_vector);
        if j > 0 {
            lemma_swap_nibbles_nibble(v, (n - 1) as nat, (j - 1) as nat);
        }
    }
}

proof fn lemma_nibbles_determine(a: u64, b: u64)
    requires
        forall|j: nat| j < 16 ==> nibble_at(a, j) == nibble_at(b, j),
    ensures
        a == b,
{
    assert(nibble_at(a, 0) == nibble_at(b, 0));
    assert(nibble_at(a, 1) == nibble_at(b, 1));
    assert(nibble_at(a, 2) == nibble_at(b, 2));
    assert(nibble_at(a, 3) == nibble_at(b, 3));
    assert(nibble_at(a, 4) == nibble_at(b, 4));
    assert(nibble_at(a, 5) == nibble_at(b, 5));
    assert(nibble_at(a, 6) == nibble_at(b, 6));
    assert(nibble_at(a, 7) == nibble_at(b, 7));
    assert(nibble_at(a, 8) == nibble_at(b, 8));
    assert(nibble_at(a, 9) == nibble_at(b, 9));
    assert(nibble_at(a, 10) == nibble_at(b, 10));
    assert(nibble_at(a, 11) == nibble_at(b, 11));
    assert(nibble_at(a, 12) == nibble_at(b, 12));
    assert(nibble_at(a, 13) == nibble_at(b, 13));
    assert(nibble_at(a, 14) == nibble_at(b, 14));
    assert(nibble_at(a, 15) == nibble_at(b, 15));
    assert(((a >> 0) & 0xF == (b >> 0) & 0xF && (a >> 4) & 0xF == (b >> 4) & 0xF && (a >> 8) & 0xF
        == (b >> 8) & 0xF && (a >> 12) & 0xF == (b >> 12) & 0xF && (a >> 16) & 0xF == (b >> 16)
        & 0xF && (a >> 20) & 0xF == (b >> 20) & 0xF && (a >> 24) & 0xF == (b >> 24) & 0xF && (a
        >> 28) & 0xF == (b >> 28) & 0xF && (a >> 32) & 0xF == (b >> 32) & 0xF && (a >> 36) & 0xF
        == (b >> 36) & 0xF && (a >> 40) & 0xF == (b >> 40) & 0xF && (a >> 44) & 0xF == (b >> 44)
        & 0xF && (a >> 48) & 0xF == (b >> 48) & 0xF && (a >> 52) & 0xF == (b >> 52) & 0xF && (a
        >> 56) & 0xF == (b >> 56) & 0xF && (a >> 60) & 0xF == (b >> 60) & 0xF) ==> a == b)
        by (bit_vector);
}

proof fn lemma_masked_nibble(v: u64, n: nat, j: nat)
    requires
        1 <= n <= 16,
        j < 16,
    ensures
        nibble_at(v & low_mask(4 * n), j) == if j < n {
            nibble_at(v, j)
        } else {
            0
        },
{
    let s: u64 = (4 * j) as u64;
    if n == 16 {
        assert(v & 0xFFFF_FFFF_FFFF_FFFF == v) by (bit_vector);
    } else {
        let b: u64 = (4 * n) as u64;
        if j < n {
            assert(s + 4 <= b && b < 64 ==> ((v & !(0xFFFF_FFFF_FFFF_FFFFu64 << b)) >> s) & 0xF
                == (v >> s) & 0xF) by (bit_vector);
        } else {
            assert(b <= s && s < 64 ==> ((v & !(0xFFFF_FFFF_FFFF_FFFFu64 << b)) >> s) & 0xF == 0)
                by (bit_vector);
        }
    }
}

/// Reversing the lowest `n` nibbles twice gives back the lowest `n` nibbles
/// of the value, with everything above them cleared.
pub proof fn lemma_swap_nibbles_twice(v: u64, n: nat)
    requires
        1 <= n <= 16,
    ensures
        swap_nibbles_spec(swap_nibbles_spec(v, n), n) == v & low_mask(4 * n),
{
    let once = swap_nibbles_spec(v, n);
    let twice = swap_nibbles_spec(once, n);
    let masked = v & low_mask(4 * n);
    assert forall|j: nat| j < 16 implies nibble_at(twice, j) == nibble_at(masked, j) by {
        lemma_swap_nibbles_nibble(once, n, j);
        lemma_masked_nibble(v, n, j);
        if j < n {
            lemma_swap_nibbles_nibble(v, n, (n - 1 - j) as nat);
        }
    }
    lemma_nibbles_determine(twice, masked);
}

} // verus!
