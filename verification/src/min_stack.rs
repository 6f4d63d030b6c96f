//! A stack of integers that knows its minimum at every moment.
//!
//! Next to each element the stack keeps the minimum of everything up to
//! and including it, so the minimum of the whole stack is read off the
//! top in constant time.

use vstd::prelude::*;

verus! {

/// The least element of `s`, or `i32::MAX` if there is none.
pub open spec fn min_of(s: Seq<i32>) -> int
    decreases s.len(),
{
    if s.len() == 0 {
        i32::MAX as int
    } else if s.last() <= min_of(s.drop_last()) {
        s.last() as int
    } else {
        min_of(s.drop_last())
    }
}

/// The least of the first `i + 1` elements of `s`.
pub open spec fn prefix_min(s: Seq<i32>, i: int) -> int {
    min_of(s.take(i + 1))
}

/// `min_of` is a lower bound of the elements and, unless the sequence is
/// empty, one of them.
pub proof fn lemma_min_of(s: Seq<i32>)
    ensures
        forall|i: int| 0 <= i < s.len() ==> min_of(s) <= #[trigger] s[i],
        s.len() > 0 ==> exists|i: int| 0 <= i < s.len() && s[i] == min_of(s),
        i32::MIN <= min_of(s) <= i32::MAX,
    decreases s.len(),
{
    if s.len() > 0 {
        let t = s.drop_last();
        lemma_min_of(t);
        assert forall|i: int| 0 <= i < s.len() implies min_of(s) <= #[trigger] s[i] by {
            if i < t.len() {
                assert(t[i] == s[i]);
            }
        }
        if s.last() > min_of(t) {
            let i = choose|i: int| 0 <= i < t.len() && t[i] == min_of(t);
            assert(s[i] == min_of(s));
        }
    }
}

/// A stack with a constant-time minimum.
pub struct MinStack {
    stack: Vec<(i32, i32)>,
}

impl View for MinStack {
    type V = Seq<i32>;

    /// The elements, bottom first.
    closed spec fn view(&self) -> Seq<i32> {
        Seq::new(self.stack@.len(), |i: int| self.stack@[i].0)
    }
}

impl MinStack {
    /// Each entry carries the minimum of the elements up to it.
    #[verifier::type_invariant]
    spec fn wf(&self) -> bool {
        forall|i: int|
            0 <= i < self.stack@.len() ==> (#[trigger] self.stack@[i]).1 == prefix_min(self@, i)
    }

    /// An empty stack.
    pub fn new() -> (r: MinStack)
        ensures
            r@ == Seq::<i32>::empty(),
    {
        MinStack { stack: Vec::new() }
    }

    /// Puts `val` on top.
    pub fn push(&mut self, val: i32)
        ensures
            final(self)@ == old(self)@.push(val),
    {
        let below = self.get_min();
        proof {
            use_type_invariant(&*self);
        }
        let ghost before = self@;
        let ghost entries = self.stack@;
        let mut stack: Vec<(i32, i32)> = Vec::new();
        core::mem::swap(&mut stack, &mut self.stack);
        stack.push(
            (
                val,
                if val < below {
                    val
                } else {
                    below
                },
            ),
        );
        proof {
            let after = Seq::new(stack@.len(), |i: int| stack@[i].0);
            assert(after.take(after.len() as int) =~= after);
            assert(after.drop_last() =~= before);
            assert forall|i: int| 0 <= i < entries.len() implies #[trigger] prefix_min(after, i)
                == prefix_min(before, i) by {
                assert(after.take(i + 1) =~= before.take(i + 1));
            }
        }
        self.stack = stack;
    }

    /// Takes the top element off; an empty stack stays empty.
    pub fn pop(&mut self)
        ensures
            old(self)@.len() > 0 ==> final(self)@ == old(self)@.drop_last(),
            old(self)@.len() == 0 ==> final(self)@ == old(self)@,
    {
        proof {
            use_type_invariant(&*self);
        }
        let ghost before = self@;
        let mut stack: Vec<(i32, i32)> = Vec::new();
        core::mem::swap(&mut stack, &mut self.stack);
        stack.pop();
        proof {
            let after = Seq::new(stack@.len(), |i: int| stack@[i].0);
            assert forall|i: int| 0 <= i < stack@.len() implies #[trigger] prefix_min(after, i)
                == prefix_min(before, i) by {
                assert(after.take(i + 1) =~= before.take(i + 1));
            }
        }
        self.stack = stack;
    }

    /// The top element.
    pub fn top(&self) -> (r: i32)
        requires
            self@.len() > 0,
        ensures
            r == self@.last(),
    {
        self.stack[self.stack.len() - 1].0
    }

    /// The least element of the stack, or `i32::MAX` for an empty stack.
    pub fn get_min(&self) -> (r: i32)
        ensures
            r == min_of(self@),
            forall|i: int| 0 <= i < self@.len() ==> r <= #[trigger] self@[i],
            self@.len() > 0 ==> exists|i: int| 0 <= i < self@.len() && self@[i] == r,
    {
        proof {
            use_type_invariant(self);
            lemma_min_of(self@);
        }
        let n = self.stack.len();
        if n == 0 {
            i32::MAX
        } else {
            assert(self@.take(n as int) =~= self@);
            self.stack[n - 1].1
        }
    }
}

} // verus!
