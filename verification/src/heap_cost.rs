//! The work of the heap's operations, counted in exchanges of two positions
//! and in comparisons of two elements.
//!
//! The counts follow the definitions of `sift_up`, `sift_down` and `heapify`
//! step by step. A sift makes no more steps than the tree has levels on its
//! way, which is logarithmic in the number of elements, and building a heap
//! bottom-up is linear in it.

use crate::heap_model::at;
use crate::heap_model::heapify;
use crate::heap_model::left_child;
use crate::heap_model::lemma_sift_down_keeps;
use crate::heap_model::lemma_smaller_child;
use crate::heap_model::lemma_swapped_keeps_elements;
use crate::heap_model::parent;
use crate::heap_model::right_child;
use crate::heap_model::sift_down;
use crate::heap_model::smaller_child;
use crate::heap_model::swapped;
use crate::order::less;
use crate::order::TotalOrder;
use vstd::arithmetic::power2::lemma_pow2_unfold;
use vstd::arithmetic::power2::pow2;
use vstd::prelude::*;

verus! {

/// Number of exchanges that `sift_down(s, c)` makes.
pub open spec fn sift_down_exchanges<T: TotalOrder>(s: Seq<T>, c: int) -> nat
    decreases s.len() - c,
{
    if 1 <= c && left_child(c) <= s.len() && less(at(s, smaller_child(s, c)), at(s, c)) {
        1 + sift_down_exchanges(swapped(s, c, smaller_child(s, c)), smaller_child(s, c))
    } else {
        0
    }
}

/// Number of comparisons that `sift_down(s, c)` makes: at every position
/// that has a child, one between the two children where there are two, and
/// one between the smaller child and the position itself.
pub open spec fn sift_down_comparisons<T: TotalOrder>(s: Seq<T>, c: int) -> nat
    decreases s.len() - c,
{
    if 1 <= c && left_child(c) <= s.len() {
        let here: nat = if right_child(c) <= s.len() {
            2
        } else {
            1
        };
        if less(at(s, smaller_child(s, c)), at(s, c)) {
            here + sift_down_comparisons(swapped(s, c, smaller_child(s, c)), smaller_child(s, c))
        } else {
            here
        }
    } else {
        0
    }
}

/// Number of exchanges that `sift_up(s, c)` makes.
pub open spec fn sift_up_exchanges<T: TotalOrder>(s: Seq<T>, c: int) -> nat
    decreases c,
{
    if 1 < c <= s.len() && less(at(s, c), at(s, parent(c))) {
        1 + sift_up_exchanges(swapped(s, c, parent(c)), parent(c))
    } else {
        0
    }
}

/// Number of comparisons that `sift_up(s, c)` makes: one at every position
/// on the way that is not the root.
pub open spec fn sift_up_comparisons<T: TotalOrder>(s: Seq<T>, c: int) -> nat
    decreases c,
{
    if 1 < c <= s.len() {
        if less(at(s, c), at(s, parent(c))) {
            1 + sift_up_comparisons(swapped(s, c, parent(c)), parent(c))
        } else {
            1
        }
    } else {
        0
    }
}

/// Number of exchanges that `heapify(s, p)` makes.
pub open spec fn heapify_exchanges<T: TotalOrder>(s: Seq<T>, p: int) -> nat
    decreases p,
{
    if p >= 1 {
        sift_down_exchanges(s, p) + heapify_exchanges(sift_down(s, p), p - 1)
    } else {
        0
    }
}

/// Number of comparisons that `heapify(s, p)` makes.
pub open spec fn heapify_comparisons<T: TotalOrder>(s: Seq<T>, p: int) -> nat
    decreases p,
{
    if p >= 1 {
        sift_down_comparisons(s, p) + heapify_comparisons(sift_down(s, p), p - 1)
    } else {
        0
    }
}

/// Number of levels below position `c` in a heap of `n` positions, counted
/// along the leftmost path.
pub open spec fn levels_below(n: int, c: int) -> nat
    decreases n - c,
{
    if 1 <= c && left_child(c) <= n {
        1 + levels_below(n, left_child(c))
    } else {
        0
    }
}

/// Number of levels above position `c`.
pub open spec fn levels_above(c: int) -> nat
    decreases c,
{
    if c > 1 {
        1 + levels_above(parent(c))
    } else {
        0
    }
}

/// `levels_below(n, 1) + ... + levels_below(n, p)`.
pub open spec fn levels_below_upto(n: int, p: int) -> nat
    decreases p,
{
    if p >= 1 {
        levels_below(n, p) + levels_below_upto(n, p - 1)
    } else {
        0
    }
}

/// The levels below a position are logarithmic in the number of positions:
/// `c` times two to their number does not exceed `n`.
pub proof fn lemma_levels_below_is_logarithmic(n: int, c: int)
    requires
        1 <= c <= n,
    ensures
        c * pow2(levels_below(n, c)) <= n,
    decreases n - c,
{
    if left_child(c) <= n {
        let k = levels_below(n, left_child(c));
        lemma_levels_below_is_logarithmic(n, left_child(c));
        lemma_pow2_unfold(k + 1);
        assert(levels_below(n, c) == k + 1);
        assert(pow2(k + 1) == 2 * pow2(k));
        assert(c * (2 * pow2(k)) == (2 * c) * pow2(k)) by (nonlinear_arith);
    } else {
        assert(levels_below(n, c) == 0);
        vstd::arithmetic::power2::lemma2_to64();
        assert(c * 1 == c);
    }
}

/// The levels above a position are logarithmic in the position: two to
/// their number does not exceed `c`.
pub proof fn lemma_levels_above_is_logarithmic(c: int)
    requires
        1 <= c,
    ensures
        pow2(levels_above(c)) <= c,
    decreases c,
{
    if c > 1 {
        lemma_levels_above_is_logarithmic(parent(c));
        lemma_pow2_unfold(levels_above(c));
    } else {
        vstd::arithmetic::power2::lemma2_to64();
    }
}

/// A later position has no more levels below it than an earlier one.
pub proof fn lemma_levels_below_monotone(n: int, c: int, d: int)
    requires
        1 <= c <= d,
    ensures
        levels_below(n, d) <= levels_below(n, c),
    decreases n - c,
{
    if left_child(d) <= n {
        lemma_levels_below_monotone(n, left_child(c), left_child(d));
    }
}

/// Sifting down from `c` makes at most one exchange and two comparisons for
/// each level below `c`.
pub proof fn lemma_sift_down_cost<T: TotalOrder>(s: Seq<T>, c: int)
    requires
        1 <= c,
    ensures
        sift_down_exchanges(s, c) <= levels_below(s.len() as int, c),
        sift_down_comparisons(s, c) <= 2 * levels_below(s.len() as int, c),
    decreases s.len() - c,
{
    if left_child(c) <= s.len() && less(at(s, smaller_child(s, c)), at(s, c)) {
        let m = smaller_child(s, c);
        lemma_smaller_child(s, c);
        lemma_swapped_keeps_elements(s, c, m);
        lemma_sift_down_cost(swapped(s, c, m), m);
        lemma_levels_below_monotone(s.len() as int, left_child(c), m);
    }
}

/// Sifting up from `c` makes at most one exchange and one comparison for
/// each level above `c`.
pub proof fn lemma_sift_up_cost<T: TotalOrder>(s: Seq<T>, c: int)
    ensures
        sift_up_exchanges(s, c) <= levels_above(c),
        sift_up_comparisons(s, c) <= levels_above(c),
    decreases c,
{
    if 1 < c <= s.len() && less(at(s, c), at(s, parent(c))) {
        lemma_swapped_keeps_elements(s, c, parent(c));
        lemma_sift_up_cost(swapped(s, c, parent(c)), parent(c));
    }
}

/// Position `2 * c` among `n` positions has as many levels below it as
/// position `c` among `n / 2`.
proof fn lemma_levels_below_halved(n: int, c: int)
    requires
        1 <= c,
    ensures
        levels_below(n, left_child(c)) == levels_below(n / 2, c),
    decreases n - c,
{
    if left_child(left_child(c)) <= n {
        lemma_levels_below_halved(n, left_child(c));
    }
}

/// The levels below the first `p` of `n` positions are `p` more than those
/// below the first `p` of `n / 2` positions, as long as each of the `p` has a
/// child.
proof fn lemma_levels_below_upto_halved(n: int, p: int)
    requires
        0 <= p,
        left_child(p) <= n,
    ensures
        levels_below_upto(n, p) == p + levels_below_upto(n / 2, p),
    decreases p,
{
    if p >= 1 {
        lemma_levels_below_upto_halved(n, p - 1);
        lemma_levels_below_halved(n, p);
    }
}

/// Positions without a child add nothing to the levels below.
proof fn lemma_levels_below_upto_leaves(n: int, p: int)
    requires
        0 <= n,
        n / 2 <= p,
    ensures
        levels_below_upto(n, p) == levels_below_upto(n, n / 2),
    decreases p,
{
    if p > n / 2 {
        lemma_levels_below_upto_leaves(n, p - 1);
    }
}

/// The levels below all positions that have a child are, taken together,
/// fewer than the positions.
pub proof fn lemma_levels_below_total(n: int)
    requires
        1 <= n,
    ensures
        levels_below_upto(n, parent(n)) <= n - 1,
    decreases n,
{
    let h = n / 2;
    if h >= 1 {
        lemma_levels_below_upto_halved(n, h);
        lemma_levels_below_upto_leaves(h, h);
        lemma_levels_below_total(h);
    }
}

/// Heapify from `p` makes at most one exchange and two comparisons for each
/// level below each of the first `p` positions.
pub proof fn lemma_heapify_cost<T: TotalOrder>(s: Seq<T>, p: int)
    requires
        0 <= p,
    ensures
        heapify_exchanges(s, p) <= levels_below_upto(s.len() as int, p),
        heapify_comparisons(s, p) <= 2 * levels_below_upto(s.len() as int, p),
    decreases p,
{
    if p >= 1 {
        lemma_sift_down_cost(s, p);
        lemma_sift_down_keeps(s, p);
        lemma_heapify_cost(sift_down(s, p), p - 1);
    }
}

/// Building a heap from a sequence makes no more exchanges than the sequence
/// has elements, and no more than twice as many comparisons: the work of
/// bottom-up heapify is linear in the length.
pub proof fn lemma_built_cost_is_linear<T: TotalOrder>(s: Seq<T>)
    ensures
        heapify_exchanges(s, parent(s.len() as int)) <= s.len(),
        heapify_comparisons(s, parent(s.len() as int)) <= 2 * s.len(),
{
    lemma_heapify_cost(s, parent(s.len() as int));
    if s.len() >= 1 {
        lemma_levels_below_total(s.len() as int);
    }
}

} // verus!
