//! Rounding token counts down to whole pages.

use vstd::arithmetic::div_mod::{
    lemma_add_mod_noop, lemma_fundamental_div_mod, lemma_mod_bound, lemma_small_mod,
    lemma_sub_mod_noop,
};
use vstd::prelude::*;

verus! {

/// `value` rounded down to a multiple of `alignment`.
pub open spec fn aligned_down(value: nat, alignment: nat) -> nat {
    (value - value % alignment) as nat
}

/// Rounds `value` down to a multiple of `alignment`.
pub fn align_down(value: usize, alignment: usize) -> (r: usize)
    requires
        alignment > 0,
    ensures
        r == aligned_down(value as nat, alignment as nat),
        r <= value,
        value - r < alignment,
        r % alignment == 0,
{
    proof {
        let v = value as int;
        let a = alignment as int;
        lemma_fundamental_div_mod(v, a);
        lemma_mod_bound(v, a);
        assert(v / a * a == v - v % a) by (nonlinear_arith)
            requires
                v == a * (v / a) + v % a,
        ;
        lemma_aligned_down(value as nat, alignment as nat);
    }
    value / alignment * alignment
}

/// What rounding down gives: the greatest multiple that is not above the value.
pub proof fn lemma_aligned_down(value: nat, alignment: nat)
    requires
        alignment > 0,
    ensures
        aligned_down(value, alignment) <= value,
        value - aligned_down(value, alignment) < alignment,
        aligned_down(value, alignment) % alignment == 0,
        value % alignment == 0 ==> aligned_down(value, alignment) == value,
{
    let v = value as int;
    let a = alignment as int;
    lemma_mod_bound(v, a);
    lemma_sub_mod_noop(v, v % a, a);
    lemma_small_mod((v % a) as nat, alignment);
    lemma_fundamental_div_mod(v, a);
    assert(v % a <= v) by (nonlinear_arith)
        requires
            v == a * (v / a) + v % a,
            v >= 0,
            a > 0,
            v / a >= 0,
    ;
    assert((v - v % a) % a == (v % a - v % a) % a);
    lemma_small_mod(0, alignment);
}

/// Two distinct multiples of the page size are at least a page apart.
pub proof fn lemma_aligned_gap(a: nat, b: nat, page: nat)
    requires
        page > 0,
        a % page == 0,
        b % page == 0,
        a < b,
    ensures
        a + page <= b,
        (b - a) % (page as int) == 0,
{
    lemma_sub_mod_noop(b as int, a as int, page as int);
    lemma_small_mod(0, page);
    let d = b - a;
    assert(d % (page as int) == 0);
    if d < page {
        lemma_small_mod(d as nat, page);
    }
}

/// The sum of two multiples of the page size is one.
pub proof fn lemma_aligned_sum(a: nat, b: nat, page: nat)
    requires
        page > 0,
        a % page == 0,
        b % page == 0,
    ensures
        (a + b) % page == 0,
{
    lemma_add_mod_noop(a as int, b as int, page as int);
    lemma_small_mod(0, page);
}

} // verus!
