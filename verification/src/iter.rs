//! Walking a sequence from its first element to its last.

use crate::a::{AllocatorAwareContainer, MemoryResource};
use crate::node::Node;
use crate::seque::Seque;
use vstd::prelude::*;

verus! {

/// A walk over the elements of a sequence, in order, by shared reference.
///
/// The walk keeps its place in the chain: a reference to the segment it is
/// reading and the next slot in it. It steps to the next segment when the
/// slots of this one are used up and elements are still to come.
pub struct SequeIter<'a, T, const N: usize> {
    node: &'a Node<T, N>,
    slot: usize,
    left: usize,
    len: usize,
}

impl<'a, T, const N: usize> SequeIter<'a, T, N> {
    /// The elements still to come, in the order they will come.
    pub closed spec fn remaining(&self) -> Seq<T> {
        Seq::new(self.left as nat, |i: int| self.node.slots()[self.slot + i].unwrap())
    }

    /// The number of elements of the sequence the walk was started on.
    pub closed spec fn len_view(&self) -> nat {
        self.len as nat
    }

    /// The walk stands inside its chain and everything still to come is there.
    pub closed spec fn wf(&self) -> bool {
        &&& self.node.wf()
        &&& self.slot <= N
        &&& self.slot + self.left <= self.node.slots().len()
        &&& self.left <= self.len
        &&& forall|i: int|
            self.slot <= i < self.slot + self.left ==> (#[trigger] self.node.slots()[i]) is Some
    }

    /// A walk over the first `len` slots of the chain that starts at `node`.
    pub fn new_iter_at(node: &'a Node<T, N>, len: usize) -> (iter: Self)
        requires
            node.wf(),
            len <= node.slots().len(),
            forall|i: int| 0 <= i < len ==> (#[trigger] node.slots()[i]) is Some,
        ensures
            iter.wf(),
            iter.len_view() == len,
            iter.remaining() == Seq::new(len as nat, |i: int| node.slots()[i].unwrap()),
    {
        SequeIter { node, slot: 0, left: len, len }
    }

    /// Steps to the segment chained after the one being read.
    fn update_next(&mut self)
        requires
            old(self).wf(),
            old(self).slot == N,
            old(self).left > 0,
        ensures
            final(self).wf(),
            final(self).slot == 0,
            final(self).left == old(self).left,
            final(self).len == old(self).len,
            final(self).remaining() == old(self).remaining(),
    {
        proof {
            self.node.lemma_unfold();
        }
        match self.node.next_node() {
            Some(rest) => {
                proof {
                    assert forall|i: int| 0 <= i < rest.slots().len() implies rest.slots()[i]
                        == self.node.slots()[N + i] by {
                    }
                }
                self.node = rest;
                self.slot = 0;
            },
            None => {},
        }
    }

    /// The next element, or `None` once all have been given.
    pub fn next(&mut self) -> (item: Option<&'a T>)
        requires
            old(self).wf(),
        ensures
            final(self).wf(),
            final(self).len_view() == old(self).len_view(),
            match item {
                Some(value) => {
                    &&& old(self).remaining().len() > 0
                    &&& *value == old(self).remaining()[0]
                    &&& final(self).remaining() == old(self).remaining().drop_first()
                },
                None => old(self).remaining().len() == 0 && final(self).remaining() == old(
                    self,
                ).remaining(),
            },
    {
        if self.left == 0 {
            return None;
        }
        if self.slot == N {
            self.update_next();
        }
        let value = self.node.get_data_unchecked(self.slot);
        proof {
            self.node.lemma_shape();
        }
        self.slot = self.slot + 1;
        self.left = self.left - 1;
        Some(value)
    }

    /// The bounds on the number of elements still to come: none from below,
    /// the length of the sequence from above.
    pub fn size_hint(&self) -> (bounds: (usize, Option<usize>))
        ensures
            bounds == (0usize, Some(self.len_view() as usize)),
    {
        (0, Some(self.len))
    }
}

/// A walk over the elements of a sequence, in order, by mutable reference.
///
/// The walk holds the sequence for as long as it lives and lends out one
/// element at a time: a reference it has given has to be let go before the
/// next is asked for. What is written through a reference is in the sequence
/// from then on.
///
/// Each step finds its element from the head of the chain, as
/// [`Seque::index_mut`] does.
pub struct SequeIterMut<'a, T, R: MemoryResource, const N: usize> {
    /// The sequence being walked.
    pub seque: &'a mut Seque<T, R, N>,
    /// The position of the element that comes next.
    pub pos: usize,
}

impl<'a, T, R: MemoryResource, const N: usize> SequeIterMut<'a, T, R, N> {
    /// The elements still to come, as they are now.
    pub open spec fn remaining(&self) -> Seq<T> {
        self.seque@.skip(self.pos as int)
    }

    /// The number of elements of the sequence being walked.
    pub open spec fn len_view(&self) -> usize {
        self.seque@.len() as usize
    }

    /// The sequence is well formed and the walk has not run past its end.
    pub open spec fn wf(&self) -> bool {
        self.seque.wf() && self.pos <= self.seque@.len()
    }

    /// A walk over `seque` that starts at position `pos`.
    pub fn new_iter_at(seque: &'a mut Seque<T, R, N>, pos: usize) -> (iter: Self)
        ensures
            *iter.seque == *old(seque),
            *final(iter.seque) == *final(seque),
            iter.pos == pos,
    {
        SequeIterMut { seque, pos }
    }

    /// The next element, or `None` once all have been given. The walk moves
    /// on by one element; nothing else about the sequence changes but what is
    /// written through the reference.
    pub fn next(&mut self) -> (item: Option<&mut T>)
        requires
            old(self).wf(),
        ensures
            final(self).wf(),
            *final(final(self).seque) == *final(old(self).seque),
            final(self).seque.capacity_view() == old(self).seque.capacity_view(),
            final(self).seque.allocator_view() == old(self).seque.allocator_view(),
            final(self).seque.segment_blocks() == old(self).seque.segment_blocks(),
            final(self).seque.requests() == old(self).seque.requests(),
            match item {
                Some(value) => {
                    &&& old(self).remaining().len() > 0
                    &&& *value == old(self).remaining()[0]
                    &&& final(self).seque@ == old(self).seque@.update(
                        old(self).pos as int,
                        *final(value),
                    )
                    &&& final(self).pos == old(self).pos + 1
                },
                None => {
                    &&& old(self).remaining().len() == 0
                    &&& final(self).seque@ == old(self).seque@
                    &&& final(self).pos == old(self).pos
                },
            },
    {
        let at: usize = self.pos;
        proof {
            self.seque.lemma_wf();
        }
        match self.seque.index_mut(at) {
            Ok(value) => {
                self.pos = at + 1;
                Some(value)
            },
            Err(_) => None,
        }
    }

    /// The bounds on the number of elements still to come: none from below,
    /// the length of the sequence from above.
    pub fn size_hint(&self) -> (bounds: (usize, Option<usize>))
        requires
            self.wf(),
        ensures
            bounds == (0usize, Some(self.len_view())),
    {
        (0, Some(self.seque.len()))
    }
}

} // verus!
