//! A binary min-heap.
//!
//! The heap keeps its elements in a vector laid out as a complete binary
//! tree: the children of the element at `i` sit at `2i + 1` and `2i + 2`.
//! No element is below its parent, so the least element is at the root.
//!
//! What the heap holds is stated as a multiset and is true of every
//! element type. That the element handed out is the least one is true
//! where the comparison of the type is a total order.

use crate::order::{
    greater, le, lemma_le_reflexive, lemma_le_total, lemma_le_transitive, lemma_lt_transitive,
    less, lt, total_order,
};
use crate::slices::{lemma_swapped_multiset, swap, swapped};
use vstd::multiset::Multiset;
use vstd::prelude::*;

verus! {

/// The position of the parent of position `i`.
pub open spec fn parent(i: int) -> int {
    (i - 1) / 2
}

/// No element is below its parent.
pub open spec fn heap_ordered<T: Ord>(s: Seq<T>) -> bool {
    forall|k: int| 0 < k < s.len() ==> le(s[parent(k)], #[trigger] s[k])
}

/// `m` is among `elements` and none of them is below it.
pub open spec fn is_least<T: Ord>(m: T, elements: Multiset<T>) -> bool {
    elements.contains(m) && forall|x: T| elements.contains(x) ==> le(m, x)
}

/// Heap order but for the element at `i`, which may be below its parent.
/// Its children are not below its parent, so moving it up mends the order.
spec fn ordered_but_up<T: Ord>(s: Seq<T>, i: int) -> bool {
    &&& forall|k: int| 0 < k < s.len() && k != i ==> le(s[parent(k)], #[trigger] s[k])
    &&& forall|k: int|
        0 < k < s.len() && parent(k) == i && i > 0 ==> le(s[parent(i)], #[trigger] s[k])
}

/// Heap order but for the element at `i`, which may be above its
/// children. They are not below its parent, so moving it down mends the
/// order.
spec fn ordered_but_down<T: Ord>(s: Seq<T>, i: int) -> bool {
    &&& forall|k: int| 0 < k < s.len() && parent(k) != i ==> le(s[parent(k)], #[trigger] s[k])
    &&& forall|k: int|
        0 < k < s.len() && parent(k) == i && i > 0 ==> le(s[parent(i)], #[trigger] s[k])
}

/// In a heap no element is below the root.
proof fn lemma_root_is_least<T: Ord>(s: Seq<T>, i: int)
    requires
        total_order::<T>(),
        heap_ordered(s),
        0 <= i < s.len(),
    ensures
        le(s[0], s[i]),
    decreases i,
{
    if i == 0 {
        lemma_le_reflexive(s[0]);
    } else {
        lemma_root_is_least(s, parent(i));
        lemma_le_transitive(s[0], s[parent(i)], s[i]);
    }
}

/// The root of a heap is the least of its elements.
proof fn lemma_root_is_least_of_all<T: Ord>(s: Seq<T>)
    requires
        total_order::<T>(),
        heap_ordered(s),
        s.len() > 0,
    ensures
        is_least(s[0], s.to_multiset()),
{
    broadcast use vstd::seq_lib::to_multiset_contains;

    assert forall|x: T| s.to_multiset().contains(x) implies le(s[0], x) by {
        let i = choose|i: int| 0 <= i < s.len() && s[i] == x;
        lemma_root_is_least(s, i);
    }
}

/// Exchanging an element that is below its parent with that parent moves
/// the one fault of the order up to the parent's position.
proof fn lemma_step_up<T: Ord>(s: Seq<T>, i: int)
    requires
        total_order::<T>(),
        0 < i < s.len(),
        ordered_but_up(s, i),
        lt(s[i], s[parent(i)]),
    ensures
        ordered_but_up(swapped(s, i, parent(i)), parent(i)),
{
    let p = parent(i);
    let t = swapped(s, i, p);
    lemma_le_total(s[i], s[p]);
    assert forall|k: int| 0 < k < t.len() && k != p implies le(t[parent(k)], #[trigger] t[k]) by {
        if k != i && parent(k) == p {
            lemma_le_transitive(s[i], s[p], s[k]);
        }
    }
    assert forall|k: int| 0 < k < t.len() && parent(k) == p && p > 0 implies le(
        t[parent(p)],
        #[trigger] t[k],
    ) by {
        if k != i {
            lemma_le_transitive(s[parent(p)], s[p], s[k]);
        }
    }
}

/// Exchanging an element with its least child, if that child is below it,
/// moves the one fault of the order down to the child's position.
proof fn lemma_step_down<T: Ord>(s: Seq<T>, i: int, j: int)
    requires
        total_order::<T>(),
        0 <= i < j < s.len(),
        parent(j) == i,
        ordered_but_down(s, i),
        lt(s[j], s[i]),
        forall|k: int| 0 < k < s.len() && parent(k) == i ==> le(s[j], #[trigger] s[k]),
    ensures
        ordered_but_down(swapped(s, i, j), j),
{
    lemma_le_total(s[j], s[i]);
}

/// A min-heap of elements of type `T`.
#[derive(Debug)]
pub struct BinaryHeap<T: Ord> {
    carrier: Vec<T>,
}

impl<T: Ord> View for BinaryHeap<T> {
    type V = Multiset<T>;

    /// The elements of the heap, each as often as it was put in and not
    /// yet taken out.
    closed spec fn view(&self) -> Multiset<T> {
        self.carrier@.to_multiset()
    }
}

impl<T: Ord> BinaryHeap<T> {
    #[verifier::type_invariant]
    spec fn wf(&self) -> bool {
        total_order::<T>() ==> heap_ordered(self.carrier@)
    }

    /// An empty heap.
    pub fn new() -> (r: BinaryHeap<T>)
        ensures
            r@ == Multiset::<T>::empty(),
    {
        broadcast use vstd::seq_lib::to_multiset_len;

        let r = BinaryHeap { carrier: Vec::new() };
        assert(r@ =~= Multiset::<T>::empty()) by {
            assert(r@.len() == 0);
        }
        r
    }

    /// Puts `item` into the heap: it enters at the bottom and moves up
    /// past every parent that is above it.
    pub fn insert(&mut self, item: T)
        ensures
            final(self)@ == old(self)@.insert(item),
    {
        proof {
            use_type_invariant(&*self);
        }
        let ghost before = self.carrier@;
        let mut carrier: Vec<T> = Vec::new();
        core::mem::swap(&mut carrier, &mut self.carrier);
        let mut i = carrier.len();
        carrier.push(item);
        proof {
            vstd::seq_lib::to_multiset_build(before, item);
        }
        while i != 0 && greater(&carrier[(i - 1) / 2], &carrier[i])
            invariant
                i < carrier@.len(),
                carrier@.to_multiset() == before.to_multiset().insert(item),
                total_order::<T>() ==> ordered_but_up(carrier@, i as int),
            decreases i,
        {
            proof {
                if total_order::<T>() {
                    lemma_step_up(carrier@, i as int);
                }
            }
            swap(carrier.as_mut_slice(), i, (i - 1) / 2);
            i = (i - 1) / 2;
        }
        proof {
            if total_order::<T>() {
                if i != 0 {
                    lemma_le_total(carrier@[i as int], carrier@[parent(i as int)]);
                }
            }
        }
        self.carrier = carrier;
    }

    /// Takes the least element out, if the heap has any: the last element
    /// takes the root's place and moves down past every child that is
    /// below it.
    pub fn extract_min(&mut self) -> (r: Option<T>)
        ensures
            old(self)@.len() == 0 ==> r is None && final(self)@ == old(self)@,
            old(self)@.len() > 0 ==> r is Some && old(self)@.contains(r.unwrap()) && final(self)@
                == old(self)@.remove(r.unwrap()),
            total_order::<T>() && r is Some ==> is_least(r.unwrap(), old(self)@),
    {
        broadcast use vstd::seq_lib::to_multiset_len;

        proof {
            use_type_invariant(&*self);
        }
        let ghost before = self.carrier@;
        let n = self.carrier.len();
        if n == 0 {
            return None;
        }
        proof {
            if total_order::<T>() {
                lemma_root_is_least_of_all(before);
            }
            lemma_swapped_multiset(before, 0, n - 1);
        }
        let mut carrier: Vec<T> = Vec::new();
        core::mem::swap(&mut carrier, &mut self.carrier);
        swap(carrier.as_mut_slice(), 0, n - 1);
        let ghost exchanged = carrier@;
        let min = carrier.pop();
        let ghost rest = carrier@;
        proof {
            assert(exchanged =~= rest.push(before[0]));
            vstd::seq_lib::to_multiset_build(rest, before[0]);
            vstd::seq_lib::to_multiset_contains(before, before[0]);
        }
        let len = carrier.len();
        let mut i: usize = 0;
        while len >= 2 && i <= (len - 2) / 2
            invariant
                len == carrier@.len(),
                i < len || len == 0,
                carrier@.to_multiset() == rest.to_multiset(),
                total_order::<T>() ==> ordered_but_down(carrier@, i as int),
            ensures
                len == carrier@.len(),
                carrier@.to_multiset() == rest.to_multiset(),
                total_order::<T>() ==> heap_ordered(carrier@),
            decreases len - i,
        {
            let left = 2 * i + 1;
            let mut j = i;
            if less(&carrier[left], &carrier[j]) {
                j = left;
            }
            if left + 1 < len && less(&carrier[left + 1], &carrier[j]) {
                j = left + 1;
            }
            proof {
                if total_order::<T>() {
                    let s = carrier@;
                    lemma_le_total(s[left as int], s[i as int]);
                    lemma_le_total(s[i as int], s[left as int]);
                    if left + 1 < len {
                        lemma_le_total(s[left + 1], s[i as int]);
                        lemma_le_total(s[left + 1], s[left as int]);
                        lemma_le_total(s[left as int], s[left + 1]);
                        lemma_le_total(s[i as int], s[left + 1]);
                        if j == left + 1 && !lt(s[left as int], s[i as int]) {
                            lemma_le_transitive(s[left + 1], s[i as int], s[left as int]);
                        }
                        if j == left + 1 && lt(s[left as int], s[i as int]) {
                            lemma_lt_transitive(s[left + 1], s[left as int], s[i as int]);
                        }
                    }
                    lemma_le_reflexive(s[j as int]);
                    assert forall|k: int| 0 < k < s.len() && parent(k) == i implies le(
                        s[j as int],
                        #[trigger] s[k],
                    ) by {
                        if j == i {
                            lemma_le_total(s[k], s[i as int]);
                        }
                    }
                }
            }
            if j == i {
                break ;
            }
            proof {
                if total_order::<T>() {
                    lemma_step_down(carrier@, i as int, j as int);
                }
            }
            swap(carrier.as_mut_slice(), i, j);
            i = j;
        }
        self.carrier = carrier;
        min
    }

    /// The least element, if the heap has any.
    pub fn peek_min(&self) -> (r: Option<&T>)
        ensures
            self@.len() == 0 <==> r is None,
            r is Some ==> self@.contains(*r.unwrap()),
            total_order::<T>() && r is Some ==> is_least(*r.unwrap(), self@),
    {
        broadcast use vstd::seq_lib::to_multiset_len;

        proof {
            use_type_invariant(self);
        }
        if self.carrier.len() == 0 {
            None
        } else {
            proof {
                vstd::seq_lib::to_multiset_contains(self.carrier@, self.carrier@[0]);
                if total_order::<T>() {
                    lemma_root_is_least_of_all(self.carrier@);
                }
            }
            Some(&self.carrier[0])
        }
    }

    /// The number of elements.
    pub fn size(&self) -> (r: usize)
        ensures
            r == self@.len(),
    {
        broadcast use vstd::seq_lib::to_multiset_len;

        self.carrier.len()
    }

    /// Whether the heap has no elements.
    pub fn is_empty(&self) -> (r: bool)
        ensures
            r == (self@.len() == 0),
    {
        broadcast use vstd::seq_lib::to_multiset_len;

        self.carrier.len() == 0
    }
}

} // verus!
