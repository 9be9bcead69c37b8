//! Facts about 9-bit digit masks: bit `t` set means digit `t + 1` is used.
use vstd::prelude::*;

verus! {

pub open spec fn has_bit(m: u32, t: u32) -> bool {
    (m >> t) & 1u32 == 1u32
}

/// The number of set bits of `m`.
pub open spec fn ones(m: nat) -> nat
    decreases m,
{
    if m == 0 {
        0
    } else {
        m % 2 + ones(m / 2)
    }
}

/// Relies on u32::count_ones: the number of ones in the binary representation.
pub assume_specification[ u32::count_ones ](i: u32) -> (r: u32)
    ensures
        r as nat == ones(i as nat),
;

pub open spec fn pow2(w: nat) -> nat
    decreases w,
{
    if w == 0 {
        1
    } else {
        2 * pow2((w - 1) as nat)
    }
}

proof fn lemma_ones_bound(m: nat, w: nat)
    requires
        m < pow2(w),
    ensures
        ones(m) <= w,
        ones(m) == w ==> m + 1 == pow2(w),
    decreases w,
{
    if w == 0 {
        assert(m == 0);
    } else {
        if m > 0 {
            lemma_ones_bound(m / 2, (w - 1) as nat);
        } else {
            assert(pow2(w) == 2 * pow2((w - 1) as nat));
        }
    }
}

/// A 9-bit mask has at most nine ones, and nine only when every bit is set.
pub proof fn lemma_ones_nine(m: u32)
    requires
        m < 512,
    ensures
        ones(m as nat) <= 9,
        ones(m as nat) == 9 ==> forall|t: u32| t < 9 ==> #[trigger] has_bit(m, t),
{
    reveal_with_fuel(pow2, 10);
    lemma_ones_bound(m as nat, 9);
    if ones(m as nat) == 9 {
        assert(m == 511);
        assert forall|t: u32| t < 9 implies #[trigger] has_bit(m, t) by {
            assert(m == 511 && t < 9 ==> (m >> t) & 1u32 == 1u32) by (bit_vector);
        }
    }
}

/// Setting bit `t` adds exactly `t`.
pub proof fn lemma_set_bit(m: u32, t: u32, j: u32)
    requires
        m < 512,
        t < 9,
        j < 32,
    ensures
        (m | (1u32 << t)) < 512,
        has_bit(m | (1u32 << t), j) == (has_bit(m, j) || j == t),
{
    assert(m < 512 && t < 9 ==> (m | (1u32 << t)) < 512) by (bit_vector);
    assert(j < 32 && t < 9 ==> (((m | (1u32 << t)) >> j) & 1u32 == 1u32) == (((m >> j) & 1u32
        == 1u32) || j == t)) by (bit_vector);
}

/// Setting a clear bit and then toggling it gives the mask back.
pub proof fn lemma_toggle_back(m: u32, t: u32)
    requires
        m < 512,
        t < 9,
        !has_bit(m, t),
    ensures
        (m | (1u32 << t)) ^ (1u32 << t) == m,
{
    assert(t < 9 && (m >> t) & 1u32 != 1u32 ==> (m | (1u32 << t)) ^ (1u32 << t) == m)
        by (bit_vector);
}

/// The union of three masks.
pub proof fn lemma_union(a: u32, b: u32, c: u32, j: u32)
    requires
        a < 512,
        b < 512,
        c < 512,
        j < 32,
    ensures
        (a | b | c) < 512,
        has_bit(a | b | c, j) == (has_bit(a, j) || has_bit(b, j) || has_bit(c, j)),
{
    assert(a < 512 && b < 512 && c < 512 ==> (a | b | c) < 512) by (bit_vector);
    assert(j < 32 ==> ((((a | b | c) >> j) & 1u32 == 1u32) == (((a >> j) & 1u32 == 1u32) || ((b
        >> j) & 1u32 == 1u32) || ((c >> j) & 1u32 == 1u32)))) by (bit_vector);
}

/// The digits that a mask leaves free.
pub proof fn lemma_complement(m: u32, j: u32)
    requires
        m < 512,
        j < 32,
    ensures
        (!m & 511u32) < 512,
        has_bit(!m & 511u32, j) == (j < 9 && !has_bit(m, j)),
{
    assert((!m & 511u32) < 512) by (bit_vector);
    assert(j < 32 ==> ((((!m & 511u32) >> j) & 1u32 == 1u32) == (j < 9 && !((m >> j) & 1u32
        == 1u32)))) by (bit_vector);
}

/// `c & (!c + 1)` is the lowest set bit of `c`, and `c & (c - 1)` clears it.
pub proof fn lemma_lowest_bit(c: u32, t: u32, j: u32)
    requires
        c != 0,
        c < 512,
        t == (c & ((!c + 1) as u32)).trailing_zeros(),
        j < 32,
    ensures
        !c < 0xffff_ffffu32,
        t < 9,
        c & ((!c + 1) as u32) == 1u32 << t,
        has_bit(c, t),
        (c & ((c - 1) as u32)) < 512,
        (c & ((c - 1) as u32)) < c,
        has_bit(c & ((c - 1) as u32), j) == (has_bit(c, j) && j != t),
        j < t ==> !has_bit(c, j),
{
    assert(c != 0 ==> !c < 0xffff_ffffu32) by (bit_vector);
    let b = c & ((!c + 1) as u32);
    assert(b != 0) by (bit_vector)
        requires
            c != 0,
            b == c & ((!c + 1) as u32),
    ;
    vstd::std_specs::bits::axiom_u32_trailing_zeros(b);
    assert(t < 32);
    assert(c != 0 && c < 512 && b == c & ((!c + 1) as u32) && t < 32 && (b >> t) & 1u32 == 1u32
        ==> t < 9 && b == 1u32 << t && (c >> t) & 1u32 == 1u32) by (bit_vector);
    assert(c != 0 && c < 512 && b == c & ((!c + 1) as u32) && t < 32 && j < 32 && b == 1u32 << t
        ==> (c & ((c - 1) as u32)) < 512 && (c & ((c - 1) as u32)) < c && ((((c & ((c - 1) as u32)) >> j) & 1u32 == 1u32) == (((c
        >> j) & 1u32 == 1u32) && j != t))) by (bit_vector);
    if j < t {
        assert((b >> j) & 1u32 == 0u32);
        assert(c != 0 && b == c & ((!c + 1) as u32) && j < 32 && (b >> j) & 1u32 == 0u32 && b == 1u32 << t && j < t
            ==> (c >> j) & 1u32 != 1u32) by (bit_vector);
    }
}

} // verus!
