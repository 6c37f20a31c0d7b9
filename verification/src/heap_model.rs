//! The positions of a binary heap and what the heap's operations do to them.
//!
//! A heap is a complete binary tree laid out level by level in a sequence.
//! Positions are counted from 1: the root is position 1, and for a position
//! `i` the parent is `i / 2`, the left child `2 * i` and the right child
//! `2 * i + 1`. Position `i` is index `i - 1` of the sequence.
//!
//! This file holds the heap-order invariant, the effect of each operation as
//! a function on sequences, and the laws that relate them.

use crate::order::lemma_leq_is_total_ordering;
use crate::order::lemma_less_iff_not_leq;
use crate::order::leq_relation;
use crate::order::less;
use crate::order::TotalOrder;
use vstd::prelude::*;
use vstd::relations::sorted_by;

verus! {

/// Position of the parent of position `i`.
pub open spec fn parent(i: int) -> int {
    i / 2
}

/// Position of the left child of position `i`.
pub open spec fn left_child(i: int) -> int {
    2 * i
}

/// Position of the right child of position `i`.
pub open spec fn right_child(i: int) -> int {
    2 * i + 1
}

/// The element of `s` at position `i`, positions counted from 1.
pub open spec fn at<T>(s: Seq<T>, i: int) -> T {
    s[i - 1]
}

/// `s` with the elements at positions `i` and `j` exchanged.
pub open spec fn swapped<T>(s: Seq<T>, i: int, j: int) -> Seq<T> {
    s.update(i - 1, at(s, j)).update(j - 1, at(s, i))
}

/// The element at position `i` is not smaller than the one at its parent.
pub open spec fn above_parent<T: TotalOrder>(s: Seq<T>, i: int) -> bool {
    at(s, parent(i)).leq(at(s, i))
}

/// The element at position `i` is not smaller than the one at its parent's parent.
pub open spec fn above_grandparent<T: TotalOrder>(s: Seq<T>, i: int) -> bool {
    at(s, parent(parent(i))).leq(at(s, i))
}

/// Heap order: every position but the root holds a value that is not smaller
/// than the value at its parent.
pub open spec fn heap_ordered<T: TotalOrder>(s: Seq<T>) -> bool {
    forall|i: int| 1 < i <= s.len() ==> #[trigger] above_parent(s, i)
}

/// Heap order restricted to the positions whose parent is at `lo` or later.
pub open spec fn ordered_from<T: TotalOrder>(s: Seq<T>, lo: int) -> bool {
    forall|i: int| 1 < i <= s.len() && parent(i) >= lo ==> #[trigger] above_parent(s, i)
}

/// What sifting down from `c` needs in order to restore `ordered_from(_, lo)`:
/// among the positions whose parent is at `lo` or later, only the children of
/// `c` may be smaller than their parent, and if the parent of `c` is itself at
/// `lo` or later, it is not greater than any child of `c`.
pub open spec fn down_ready<T: TotalOrder>(s: Seq<T>, lo: int, c: int) -> bool {
    &&& forall|i: int|
        1 < i <= s.len() && parent(i) >= lo && parent(i) != c ==> #[trigger] above_parent(s, i)
    &&& forall|j: int|
        1 < j <= s.len() && parent(j) == c && parent(c) >= lo
            ==> #[trigger] above_grandparent(s, j)
}

/// What sifting up from `c` needs in order to restore heap order: only `c`
/// may be smaller than its parent, and the parent of `c` is not greater than
/// any child of `c`.
pub open spec fn up_ready<T: TotalOrder>(s: Seq<T>, c: int) -> bool {
    &&& forall|i: int| 1 < i <= s.len() && i != c ==> #[trigger] above_parent(s, i)
    &&& forall|j: int|
        1 < j <= s.len() && parent(j) == c && c > 1 ==> #[trigger] above_grandparent(s, j)
}

/// The child of `c` that holds the smaller value; the left child when there
/// is no right child or when both hold the same value.
pub open spec fn smaller_child<T: TotalOrder>(s: Seq<T>, c: int) -> int {
    if right_child(c) <= s.len() && less(at(s, right_child(c)), at(s, left_child(c))) {
        right_child(c)
    } else {
        left_child(c)
    }
}

/// The positions after sifting the element at `c` down: while `c` has a child
/// and its smaller child is strictly smaller than it, the two are exchanged
/// and the walk goes on from that child.
pub open spec fn sift_down<T: TotalOrder>(s: Seq<T>, c: int) -> Seq<T>
    decreases s.len() - c,
{
    if 1 <= c && left_child(c) <= s.len() && less(at(s, smaller_child(s, c)), at(s, c)) {
        sift_down(swapped(s, c, smaller_child(s, c)), smaller_child(s, c))
    } else {
        s
    }
}

/// The positions after sifting the element at `c` up: while `c` is not the
/// root and is strictly smaller than its parent, the two are exchanged and
/// the walk goes on from the parent.
pub open spec fn sift_up<T: TotalOrder>(s: Seq<T>, c: int) -> Seq<T>
    decreases c,
{
    if 1 < c <= s.len() && less(at(s, c), at(s, parent(c))) {
        sift_up(swapped(s, c, parent(c)), parent(c))
    } else {
        s
    }
}

/// Exchanging two positions keeps the elements.
pub proof fn lemma_swapped_keeps_elements<T>(s: Seq<T>, i: int, j: int)
    requires
        1 <= i <= s.len(),
        1 <= j <= s.len(),
    ensures
        swapped(s, i, j).len() == s.len(),
        swapped(s, i, j).to_multiset() == s.to_multiset(),
{
    lemma_update_elements(s, i - 1, at(s, j));
    let s1 = s.update(i - 1, at(s, j));
    lemma_update_elements(s1, j - 1, at(s, i));
    s.to_multiset_ensures();
    assert(s.contains(s[i - 1]));
    assert(s.contains(s[j - 1]));
    assert(swapped(s, i, j).to_multiset() =~= s.to_multiset());
}

/// Overwriting one index takes the old value out of the elements and puts the new one in.
proof fn lemma_update_elements<T>(s: Seq<T>, k: int, a: T)
    requires
        0 <= k < s.len(),
    ensures
        s.update(k, a).to_multiset() == s.to_multiset().remove(s[k]).insert(a),
{
    vstd::seq_lib::to_multiset_remove(s, k);
    vstd::seq_lib::to_multiset_insert(s.remove(k), k, a);
    assert(s.remove(k).insert(k, a) =~= s.update(k, a));
}

/// Heap order is `ordered_from` position 1.
pub proof fn lemma_heap_ordered_from_root<T: TotalOrder>(s: Seq<T>)
    ensures
        heap_ordered(s) <==> ordered_from(s, 1),
{
    if ordered_from(s, 1) {
        assert forall|i: int| 1 < i <= s.len() implies #[trigger] above_parent(s, i) by {
            assert(parent(i) >= 1);
        }
    }
}

/// In a heap-ordered sequence the root is not greater than any element.
pub proof fn lemma_root_is_least<T: TotalOrder>(s: Seq<T>, i: int)
    requires
        heap_ordered(s),
        1 <= i <= s.len(),
    ensures
        at(s, 1).leq(at(s, i)),
    decreases i,
{
    if i == 1 {
        T::leq_reflexive(at(s, 1));
    } else {
        lemma_root_is_least(s, parent(i));
        assert(above_parent(s, i));
        T::leq_transitive(at(s, 1), at(s, parent(i)), at(s, i));
    }
}

/// In a heap-ordered sequence the root is one of the elements and is not
/// greater than any of them; an empty sequence has no element.
pub proof fn lemma_root_is_least_element<T: TotalOrder>(s: Seq<T>)
    requires
        heap_ordered(s),
    ensures
        s.len() > 0 ==> s.to_multiset().contains(at(s, 1)),
        forall|x: T| #[trigger] s.to_multiset().contains(x) ==> s.len() > 0 && at(s, 1).leq(x),
{
    s.to_multiset_ensures();
    if s.len() > 0 {
        assert(s.contains(s[0]));
    }
    assert forall|x: T| #[trigger] s.to_multiset().contains(x)
    implies s.len() > 0 && at(s, 1).leq(x) by {
        assert(s.contains(x));
        let k = choose|k: int| 0 <= k < s.len() && s[k] == x;
        lemma_root_is_least(s, k + 1);
    }
}

/// The smaller child is a child, and no child holds a smaller value.
pub proof fn lemma_smaller_child<T: TotalOrder>(s: Seq<T>, c: int)
    requires
        1 <= c,
        left_child(c) <= s.len(),
    ensures
        smaller_child(s, c) == left_child(c) || smaller_child(s, c) == right_child(c),
        smaller_child(s, c) <= s.len(),
        at(s, smaller_child(s, c)).leq(at(s, left_child(c))),
        right_child(c) <= s.len() ==> at(s, smaller_child(s, c)).leq(at(s, right_child(c))),
{
    let l = at(s, left_child(c));
    T::leq_reflexive(l);
    if right_child(c) <= s.len() {
        let r = at(s, right_child(c));
        T::leq_reflexive(r);
        lemma_less_iff_not_leq(r, l);
    }
}

/// Sifting down keeps the length and the elements, and leaves every position
/// before `c` as it was.
pub proof fn lemma_sift_down_keeps<T: TotalOrder>(s: Seq<T>, c: int)
    requires
        1 <= c,
    ensures
        sift_down(s, c).len() == s.len(),
        sift_down(s, c).to_multiset() == s.to_multiset(),
        forall|i: int| 1 <= i < c && i <= s.len() ==> #[trigger] at(sift_down(s, c), i) == at(s, i),
    decreases s.len() - c,
{
    if left_child(c) <= s.len() && less(at(s, smaller_child(s, c)), at(s, c)) {
        let m = smaller_child(s, c);
        lemma_smaller_child(s, c);
        let t = swapped(s, c, m);
        lemma_swapped_keeps_elements(s, c, m);
        lemma_sift_down_keeps(t, m);
        assert forall|i: int| 1 <= i < c && i <= s.len()
        implies #[trigger] at(sift_down(s, c), i) == at(s, i) by {
            assert(at(sift_down(t, m), i) == at(t, i));
        }
    }
}

/// Sifting down from `c` restores `ordered_from(_, lo)` wherever the children
/// of `c` were the only positions out of order.
pub proof fn lemma_sift_down_orders<T: TotalOrder>(s: Seq<T>, lo: int, c: int)
    requires
        1 <= lo <= c,
        down_ready(s, lo, c),
    ensures
        ordered_from(sift_down(s, c), lo),
    decreases s.len() - c,
{
    if left_child(c) > s.len() {
        assert forall|i: int| 1 < i <= s.len() && parent(i) >= lo
        implies #[trigger] above_parent(s, i) by {
            assert(parent(i) != c);
        }
    } else {
        let m = smaller_child(s, c);
        lemma_smaller_child(s, c);
        if less(at(s, m), at(s, c)) {
            let t = swapped(s, c, m);
            assert forall|i: int|
                1 < i <= t.len() && parent(i) >= lo && parent(i) != m
            implies #[trigger] above_parent(t, i) by {
                if i == c {
                    assert(above_grandparent(s, m));
                } else if parent(i) == c {
                } else {
                    assert(above_parent(s, i));
                }
            }
            assert forall|j: int|
                1 < j <= t.len() && parent(j) == m && parent(m) >= lo
            implies #[trigger] above_grandparent(t, j) by {
                assert(above_parent(s, j));
            }
            lemma_sift_down_orders(t, lo, m);
        } else {
            lemma_less_iff_not_leq(at(s, m), at(s, c));
            assert forall|i: int|
                1 < i <= s.len() && parent(i) >= lo implies #[trigger] above_parent(s, i) by {
                if parent(i) == c {
                    T::leq_transitive(at(s, c), at(s, m), at(s, i));
                }
            }
        }
    }
}

/// Sifting up keeps the length and the elements, and leaves every position
/// after `c` as it was.
pub proof fn lemma_sift_up_keeps<T: TotalOrder>(s: Seq<T>, c: int)
    ensures
        sift_up(s, c).len() == s.len(),
        sift_up(s, c).to_multiset() == s.to_multiset(),
        forall|i: int| c < i <= s.len() && 1 <= i ==> #[trigger] at(sift_up(s, c), i) == at(s, i),
    decreases c,
{
    if 1 < c <= s.len() && less(at(s, c), at(s, parent(c))) {
        let t = swapped(s, c, parent(c));
        lemma_swapped_keeps_elements(s, c, parent(c));
        lemma_sift_up_keeps(t, parent(c));
        assert forall|i: int| c < i <= s.len() && 1 <= i
        implies #[trigger] at(sift_up(s, c), i) == at(s, i) by {
            assert(at(sift_up(t, parent(c)), i) == at(t, i));
        }
    }
}

/// Sifting up from `c` restores heap order wherever `c` was the only position
/// out of order.
pub proof fn lemma_sift_up_orders<T: TotalOrder>(s: Seq<T>, c: int)
    requires
        1 <= c <= s.len(),
        up_ready(s, c),
    ensures
        heap_ordered(sift_up(s, c)),
    decreases c,
{
    let p = parent(c);
    if 1 < c && less(at(s, c), at(s, p)) {
        let t = swapped(s, c, p);
        assert forall|i: int| 1 < i <= t.len() && i != p implies #[trigger] above_parent(t, i) by {
            if i == c {
            } else if parent(i) == p {
                assert(above_parent(s, i));
                T::leq_transitive(at(s, c), at(s, p), at(s, i));
            } else if parent(i) == c {
                assert(above_grandparent(s, i));
            } else {
                assert(above_parent(s, i));
            }
        }
        assert forall|j: int|
            1 < j <= t.len() && parent(j) == p && p > 1
        implies #[trigger] above_grandparent(t, j) by {
            assert(above_parent(s, p));
            if j != c {
                assert(above_parent(s, j));
                T::leq_transitive(at(s, parent(p)), at(s, p), at(s, j));
            }
        }
        lemma_sift_up_orders(t, p);
    } else {
        assert forall|i: int| 1 < i <= s.len() implies #[trigger] above_parent(s, i) by {
            if i == c {
                lemma_less_iff_not_leq(at(s, c), at(s, p));
            }
        }
    }
}

/// The positions after inserting `v`: it is appended at the first free
/// position and sifted up from there.
pub open spec fn pushed<T: TotalOrder>(s: Seq<T>, v: T) -> Seq<T> {
    sift_up(s.push(v), s.len() as int + 1)
}

/// The positions after removing the root: the last element takes the root's
/// place and is sifted down from there.
pub open spec fn popped<T: TotalOrder>(s: Seq<T>) -> Seq<T> {
    if s.len() <= 1 {
        Seq::empty()
    } else {
        sift_down(swapped(s, 1, s.len() as int).drop_last(), 1)
    }
}

/// The positions after sifting down from `p`, then from `p - 1`, and so on
/// down to position 1.
pub open spec fn heapify<T: TotalOrder>(s: Seq<T>, p: int) -> Seq<T>
    decreases p,
{
    if p >= 1 {
        heapify(sift_down(s, p), p - 1)
    } else {
        s
    }
}

/// The positions of a heap built from `s`: bottom-up heapify that starts at
/// the parent of the last position.
pub open spec fn built<T: TotalOrder>(s: Seq<T>) -> Seq<T> {
    heapify(s, parent(s.len() as int))
}

/// Inserting into a heap-ordered sequence gives a heap-ordered sequence with
/// one more element.
pub proof fn lemma_pushed<T: TotalOrder>(s: Seq<T>, v: T)
    requires
        heap_ordered(s),
    ensures
        pushed(s, v).len() == s.len() + 1,
        pushed(s, v).to_multiset() == s.to_multiset().insert(v),
        heap_ordered(pushed(s, v)),
{
    let t = s.push(v);
    let c = s.len() as int + 1;
    lemma_sift_up_keeps(t, c);
    vstd::seq_lib::to_multiset_build(s, v);
    assert forall|i: int| 1 < i <= t.len() && i != c implies #[trigger] above_parent(t, i) by {
        assert(above_parent(s, i));
    }
    lemma_sift_up_orders(t, c);
}

/// Removing the root of a heap-ordered sequence gives a heap-ordered sequence
/// without one occurrence of the root's value.
pub proof fn lemma_popped<T: TotalOrder>(s: Seq<T>)
    requires
        heap_ordered(s),
        s.len() > 0,
    ensures
        popped(s).len() == s.len() - 1,
        popped(s).to_multiset() == s.to_multiset().remove(at(s, 1)),
        heap_ordered(popped(s)),
{
    let n = s.len() as int;
    if n == 1 {
        vstd::seq_lib::to_multiset_remove(s, 0);
        assert(s.remove(0) =~= Seq::<T>::empty());
    } else {
        let w = swapped(s, 1, n);
        let t = w.drop_last();
        lemma_swapped_keeps_elements(s, 1, n);
        vstd::seq_lib::to_multiset_remove(w, n - 1);
        assert(w.remove(n - 1) =~= t);
        lemma_sift_down_keeps(t, 1);
        assert forall|i: int|
            1 < i <= t.len() && parent(i) >= 1 && parent(i) != 1
        implies #[trigger] above_parent(t, i) by {
            assert(above_parent(s, i));
        }
        lemma_sift_down_orders(t, 1, 1);
        lemma_heap_ordered_from_root(popped(s));
    }
}

/// Heapify from `p` keeps the length and the elements. Where every position
/// after `p` already is not greater than its children, the result is heap
/// ordered.
pub proof fn lemma_heapify<T: TotalOrder>(s: Seq<T>, p: int)
    requires
        0 <= p,
    ensures
        heapify(s, p).len() == s.len(),
        heapify(s, p).to_multiset() == s.to_multiset(),
        ordered_from(s, p + 1) ==> heap_ordered(heapify(s, p)),
    decreases p,
{
    if p >= 1 {
        let t = sift_down(s, p);
        lemma_sift_down_keeps(s, p);
        if ordered_from(s, p + 1) {
            assert forall|i: int|
                1 < i <= s.len() && parent(i) >= p && parent(i) != p
            implies #[trigger] above_parent(s, i) by {
                assert(parent(i) >= p + 1);
            }
            lemma_sift_down_orders(s, p, p);
        }
        lemma_heapify(t, p - 1);
    } else {
        lemma_heap_ordered_from_root(s);
        if ordered_from(s, p + 1) {
            assert forall|i: int| 1 < i <= s.len() && parent(i) >= 1
            implies #[trigger] above_parent(s, i) by {
                assert(parent(i) >= p + 1);
            }
        }
    }
}

/// Building from any sequence gives a heap-ordered sequence of the same
/// elements.
pub proof fn lemma_built<T: TotalOrder>(s: Seq<T>)
    ensures
        built(s).len() == s.len(),
        built(s).to_multiset() == s.to_multiset(),
        heap_ordered(built(s)),
{
    lemma_heapify(s, parent(s.len() as int));
}

/// The values that removing the root again and again yields, in the order
/// in which they come, until the sequence is empty.
pub open spec fn drained<T: TotalOrder>(s: Seq<T>) -> Seq<T>
    decreases s.len(),
{
    if s.len() == 0 {
        Seq::empty()
    } else {
        proof {
            if s.len() > 1 {
                lemma_swapped_keeps_elements(s, 1, s.len() as int);
                lemma_sift_down_keeps(swapped(s, 1, s.len() as int).drop_last(), 1);
            }
        }
        seq![at(s, 1)].add(drained(popped(s)))
    }
}

/// Removing the root of a heap-ordered sequence until nothing is left
/// yields all of its elements in non-decreasing order: the sequence sorted.
pub proof fn lemma_drained_is_sorted<T: TotalOrder>(s: Seq<T>)
    requires
        heap_ordered(s),
    ensures
        drained(s).len() == s.len(),
        drained(s).to_multiset() == s.to_multiset(),
        sorted_by(drained(s), leq_relation::<T>()),
        drained(s) == s.sort_by(leq_relation::<T>()),
    decreases s.len(),
{
    let leq = leq_relation::<T>();
    if s.len() == 0 {
        assert(s =~= Seq::<T>::empty());
    } else {
        let r = at(s, 1);
        let d = drained(popped(s));
        let q = seq![r].add(d);
        lemma_popped(s);
        lemma_drained_is_sorted(popped(s));
        lemma_root_is_least_element(s);
        vstd::seq_lib::to_multiset_insert(d, 0, r);
        assert(d.insert(0, r) =~= q);
        assert(s.to_multiset().remove(r).insert(r) =~= s.to_multiset());
        assert forall|i: int, j: int| 0 <= i < j < q.len() implies #[trigger] leq(q[i], q[j]) by {
            if i == 0 {
                d.to_multiset_ensures();
                assert(d.contains(d[j - 1]));
                assert(s.to_multiset().contains(d[j - 1]));
            } else {
                assert(leq(d[i - 1], d[j - 1]));
            }
        }
    }
    lemma_leq_is_total_ordering::<T>();
    s.lemma_sort_by_ensures(leq);
    vstd::seq_lib::lemma_sorted_unique(drained(s), s.sort_by(leq), leq);
}

/// Heap sort: building a heap from any sequence and removing the root until
/// nothing is left yields that sequence's elements in non-decreasing order.
pub proof fn lemma_build_then_drain_sorts<T: TotalOrder>(a: Seq<T>)
    ensures
        drained(built(a)).len() == a.len(),
        drained(built(a)).to_multiset() == a.to_multiset(),
        sorted_by(drained(built(a)), leq_relation::<T>()),
        drained(built(a)) == a.sort_by(leq_relation::<T>()),
{
    let leq = leq_relation::<T>();
    lemma_built(a);
    lemma_drained_is_sorted(built(a));
    lemma_leq_is_total_ordering::<T>();
    a.lemma_sort_by_ensures(leq);
    vstd::seq_lib::lemma_sorted_unique(drained(built(a)), a.sort_by(leq), leq);
}

/// What comes out of a heap depends on its elements alone: two heap-ordered
/// sequences of the same elements yield the same values in the same order,
/// however the elements are placed.
pub proof fn lemma_drained_depends_on_elements<T: TotalOrder>(s: Seq<T>, t: Seq<T>)
    requires
        heap_ordered(s),
        heap_ordered(t),
        s.to_multiset() == t.to_multiset(),
    ensures
        drained(s) == drained(t),
{
    lemma_drained_is_sorted(s);
    lemma_drained_is_sorted(t);
    lemma_leq_is_total_ordering::<T>();
    vstd::seq_lib::lemma_sorted_unique(drained(s), drained(t), leq_relation::<T>());
}

} // verus!
