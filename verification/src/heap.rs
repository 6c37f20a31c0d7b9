//! Array-backed binary min-heap.
//!
//! The elements lie in a vector in the order of their positions, which are
//! counted from 1: position `i` is stored at index `i - 1`. No placeholder
//! slot is kept, so the vector's length is the number of live elements.

use crate::heap_model::at;
use crate::heap_model::built;
use crate::heap_model::down_ready;
use crate::heap_model::heap_ordered;
use crate::heap_model::heapify;
use crate::heap_model::left_child;
use crate::heap_model::lemma_built;
use crate::heap_model::lemma_popped;
use crate::heap_model::lemma_pushed;
use crate::heap_model::lemma_root_is_least_element;
use crate::heap_model::lemma_sift_down_keeps;
use crate::heap_model::lemma_sift_down_orders;
use crate::heap_model::lemma_sift_up_keeps;
use crate::heap_model::lemma_sift_up_orders;
use crate::heap_model::lemma_smaller_child;
use crate::heap_model::ordered_from;
use crate::heap_model::parent;
use crate::heap_model::popped;
use crate::heap_model::pushed;
use crate::heap_model::right_child;
use crate::heap_model::sift_down;
use crate::heap_model::sift_up;
use crate::heap_model::smaller_child;
use crate::heap_model::swapped;
use crate::heap_model::up_ready;
use crate::order::is_less;
use crate::order::TotalOrder;
use vstd::multiset::Multiset;
use vstd::prelude::*;

verus! {

/// Position of the parent of position `i`.
pub fn parent_index(i: usize) -> (p: usize)
    ensures
        p == parent(i as int),
{
    i / 2
}

/// Position of the left child of position `i`.
pub fn left_child_index(i: usize) -> (l: usize)
    requires
        left_child(i as int) <= usize::MAX,
    ensures
        l == left_child(i as int),
{
    2 * i
}

/// Position of the right child of position `i`.
pub fn right_child_index(i: usize) -> (r: usize)
    requires
        right_child(i as int) <= usize::MAX,
    ensures
        r == right_child(i as int),
{
    2 * i + 1
}

/// Replaces the contents of `data` by the elements of `src`, in the same order.
fn fill_from<T: Copy>(data: &mut Vec<T>, src: &[T])
    ensures
        final(data)@ == src@,
{
    data.clear();
    let n = src.len();
    let mut k: usize = 0;
    while k < n
        invariant
            k <= n,
            n == src@.len(),
            data@ == src@.take(k as int),
        decreases n - k,
    {
        data.push(src[k]);
        k += 1;
    }
    assert(data@ == src@);
}

/// Exchanges the elements at positions `i` and `j`.
fn swap_positions<T: Copy>(data: &mut Vec<T>, i: usize, j: usize)
    requires
        1 <= i <= old(data)@.len(),
        1 <= j <= old(data)@.len(),
    ensures
        final(data)@ == swapped(old(data)@, i as int, j as int),
{
    let a = data[i - 1];
    let b = data[j - 1];
    data[i - 1] = b;
    data[j - 1] = a;
}

/// A binary min-heap: a priority queue that always yields its least element.
#[derive(Debug)]
pub struct BinaryHeap<T: TotalOrder + Copy> {
    data: Vec<T>,
}

impl<T: TotalOrder + Copy> View for BinaryHeap<T> {
    type V = Seq<T>;

    /// The live elements by position: position `i` is `self@[i - 1]`.
    closed spec fn view(&self) -> Seq<T> {
        self.data@
    }
}

impl<T: TotalOrder + Copy> Clone for BinaryHeap<T> {
    /// A heap with the same elements at the same positions.
    fn clone(&self) -> (h: Self)
        ensures
            h@ == self@,
    {
        proof {
            use_type_invariant(self);
        }
        let mut data: Vec<T> = Vec::new();
        fill_from(&mut data, self.data.as_slice());
        BinaryHeap { data }
    }
}

impl<T: TotalOrder + Copy> BinaryHeap<T> {
    #[verifier::type_invariant]
    spec fn inv(self) -> bool {
        heap_ordered(self.data@)
    }

    /// The live elements, without their positions.
    pub open spec fn elements(&self) -> Multiset<T> {
        self@.to_multiset()
    }

    /// Creates an empty heap.
    pub fn new() -> (h: Self)
        ensures
            h@ == Seq::<T>::empty(),
            h.elements() == Multiset::<T>::empty(),
            heap_ordered(h@),
    {
        proof {
            Seq::<T>::empty().to_multiset_ensures();
            assert(Seq::<T>::empty().to_multiset() =~= Multiset::<T>::empty());
        }
        BinaryHeap { data: Vec::new() }
    }

    /// Number of live elements.
    pub fn size(&self) -> (n: usize)
        ensures
            n == self@.len(),
    {
        self.data.len()
    }

    /// Whether the heap holds no element.
    pub fn is_empty(&self) -> (b: bool)
        ensures
            b == (self@.len() == 0),
    {
        0 == self.data.len()
    }

    /// The least element, which stays in the heap; `None` when the heap is empty.
    pub fn min(&self) -> (m: Option<T>)
        ensures
            self@.len() == 0 ==> m is None,
            self@.len() > 0 ==> m == Some(at(self@, 1)),
            self@.len() > 0 ==> self.elements().contains(m.unwrap()),
            forall|x: T| #[trigger] self.elements().contains(x) ==> m.unwrap().leq(x),
            heap_ordered(self@),
    {
        proof {
            use_type_invariant(self);
            lemma_root_is_least_element(self@);
        }
        if self.data.len() == 0 {
            None
        } else {
            Some(self.data[0])
        }
    }

    /// The position of the child of `c` that holds the smaller value. The
    /// left child is taken when `c` has no right child and when both children
    /// hold the same value.
    pub fn min_child(data: &Vec<T>, c: usize) -> (m: usize)
        requires
            1 <= c,
            left_child(c as int) <= data@.len(),
        ensures
            m == smaller_child(data@, c as int),
    {
        let n = data.len();
        let l = left_child_index(c);
        if l >= n {
            return l;
        }
        let r = right_child_index(c);
        if is_less(&data[r - 1], &data[l - 1]) {
            r
        } else {
            l
        }
    }

    /// Sifts the element at position `c` down until neither child is
    /// strictly smaller than it.
    pub fn move_down(data: &mut Vec<T>, c: usize)
        requires
            1 <= c,
        ensures
            final(data)@ == sift_down(old(data)@, c as int),
            final(data)@.len() == old(data)@.len(),
            final(data)@.to_multiset() == old(data)@.to_multiset(),
            forall|i: int|
                1 <= i < c && i <= old(data)@.len()
                    ==> #[trigger] at(final(data)@, i) == at(old(data)@, i),
            forall|lo: int|
                1 <= lo <= c && #[trigger] down_ready(old(data)@, lo, c as int)
                    ==> ordered_from(final(data)@, lo),
    {
        let n = data.len();
        let mut pos = c;
        while pos <= n / 2
            invariant
                1 <= pos,
                n == data@.len(),
                sift_down(data@, pos as int) == sift_down(old(data)@, c as int),
            ensures
                data@ == sift_down(old(data)@, c as int),
            decreases n - pos,
        {
            let m = Self::min_child(data, pos);
            proof {
                lemma_smaller_child(data@, pos as int);
            }
            if is_less(&data[m - 1], &data[pos - 1]) {
                swap_positions(data, pos, m);
                pos = m;
            } else {
                break ;
            }
        }
        proof {
            lemma_sift_down_keeps(old(data)@, c as int);
            assert forall|lo: int|
                1 <= lo <= c && #[trigger] down_ready(old(data)@, lo, c as int)
            implies ordered_from(data@, lo) by {
                lemma_sift_down_orders(old(data)@, lo, c as int);
            }
        }
    }

    /// Sifts the element at position `c` up until it is not strictly smaller
    /// than its parent, or is the root.
    pub fn move_up(data: &mut Vec<T>, c: usize)
        requires
            1 <= c <= old(data)@.len(),
        ensures
            final(data)@ == sift_up(old(data)@, c as int),
            final(data)@.len() == old(data)@.len(),
            final(data)@.to_multiset() == old(data)@.to_multiset(),
            forall|i: int|
                c < i <= old(data)@.len() ==> #[trigger] at(final(data)@, i) == at(old(data)@, i),
            up_ready(old(data)@, c as int) ==> heap_ordered(final(data)@),
    {
        let n = data.len();
        let mut pos = c;
        while pos > 1
            invariant
                1 <= pos <= n,
                n == data@.len(),
                sift_up(data@, pos as int) == sift_up(old(data)@, c as int),
            ensures
                data@ == sift_up(old(data)@, c as int),
            decreases pos,
        {
            let p = parent_index(pos);
            if is_less(&data[pos - 1], &data[p - 1]) {
                swap_positions(data, pos, p);
                pos = p;
            } else {
                break ;
            }
        }
        proof {
            lemma_sift_up_keeps(old(data)@, c as int);
            if up_ready(old(data)@, c as int) {
                lemma_sift_up_orders(old(data)@, c as int);
            }
        }
    }

    /// Inserts `val`.
    pub fn push(&mut self, val: T)
        ensures
            final(self)@ == pushed(old(self)@, val),
            final(self)@.len() == old(self)@.len() + 1,
            final(self).elements() == old(self).elements().insert(val),
            heap_ordered(final(self)@),
    {
        proof {
            use_type_invariant(&*self);
            lemma_pushed(self@, val);
        }
        let mut data: Vec<T> = Vec::new();
        std::mem::swap(&mut data, &mut self.data);
        data.push(val);
        let n = data.len();
        Self::move_up(&mut data, n);
        self.data = data;
    }

    /// Removes the least element and returns it; `None` when the heap is
    /// empty, which then stays as it is.
    pub fn pop(&mut self) -> (m: Option<T>)
        ensures
            old(self)@.len() == 0 ==> m is None,
            old(self)@.len() > 0 ==> m == Some(at(old(self)@, 1)),
            old(self)@.len() > 0 ==> old(self).elements().contains(m.unwrap()),
            forall|x: T| #[trigger] old(self).elements().contains(x) ==> m.unwrap().leq(x),
            final(self)@ == popped(old(self)@),
            old(self)@.len() == 0 ==> final(self)@.len() == 0,
            old(self)@.len() > 0 ==> final(self)@.len() == old(self)@.len() - 1,
            old(self)@.len() > 0
                ==> final(self).elements() == old(self).elements().remove(m.unwrap()),
            heap_ordered(final(self)@),
    {
        proof {
            use_type_invariant(&*self);
            if self@.len() > 0 {
                lemma_popped(self@);
            }
            lemma_root_is_least_element(self@);
        }
        let mut data: Vec<T> = Vec::new();
        std::mem::swap(&mut data, &mut self.data);
        let n = data.len();
        let m = if n == 0 {
            None
        } else if n == 1 {
            data.pop()
        } else {
            swap_positions(&mut data, 1, n);
            let least = data.pop();
            Self::move_down(&mut data, 1);
            least
        };
        assert(data@ =~= popped(old(self)@));
        self.data = data;
        m
    }

    /// Replaces the contents by the elements of `arr`, arranged as a heap by
    /// bottom-up heapify.
    pub fn build_new(&mut self, arr: &[T])
        ensures
            final(self)@ == built(arr@),
            final(self)@.len() == arr@.len(),
            final(self).elements() == arr@.to_multiset(),
            heap_ordered(final(self)@),
    {
        let mut data: Vec<T> = Vec::new();
        std::mem::swap(&mut data, &mut self.data);
        fill_from(&mut data, arr);
        let n = data.len();
        let mut p = parent_index(n);
        while p > 0
            invariant
                n == data@.len(),
                p <= n,
                heapify(data@, p as int) == built(arr@),
            decreases p,
        {
            Self::move_down(&mut data, p);
            p -= 1;
        }
        proof {
            lemma_built(arr@);
        }
        self.data = data;
    }
}

} // verus!
