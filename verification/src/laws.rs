//! What holds of a sequence across calls.

use crate::a::{
    lemma_settle_granted, lemma_total_bytes_add, lemma_undo_settles, settle, total_bytes, undo,
    AllocatorAwareContainer, MemoryResource,
};
use crate::node::footprint;
use crate::seque::Seque;
use crate::tracking::TrackingResource;
use vstd::prelude::*;

verus! {

/// One write to a sequence: an element appended, or the element at a position
/// replaced.
pub enum Write<T> {
    /// What `push_back` does.
    Push(T),
    /// What an assignment through `index_mut`, or through a reference lent by
    /// a mutable walk, does.
    Replace(nat, T),
}

impl<T> Write<T> {
    /// The value written.
    pub open spec fn value(self) -> T {
        match self {
            Write::Push(value) => value,
            Write::Replace(_, value) => value,
        }
    }

    /// The position of `elements` the write lands at, if it lands: the end for
    /// a push, the position named for a replacement that is in range.
    pub open spec fn lands_at(self, elements: Seq<T>) -> Option<int> {
        match self {
            Write::Push(_) => Some(elements.len() as int),
            Write::Replace(at, _) => if at < elements.len() {
                Some(at as int)
            } else {
                None
            },
        }
    }

    /// The elements after the write.
    pub open spec fn apply(self, elements: Seq<T>) -> Seq<T> {
        match self {
            Write::Push(value) => elements.push(value),
            Write::Replace(at, value) => if at < elements.len() {
                elements.update(at as int, value)
            } else {
                elements
            },
        }
    }
}

/// The elements after all of `writes`, made in order on `start`.
pub open spec fn replay<T>(start: Seq<T>, writes: Seq<Write<T>>) -> Seq<T>
    decreases writes.len(),
{
    if writes.len() == 0 {
        start
    } else {
        writes.last().apply(replay(start, writes.drop_last()))
    }
}

/// The position that write number `j` of `writes` lands at.
pub open spec fn landing<T>(start: Seq<T>, writes: Seq<Write<T>>, j: int) -> Option<int> {
    writes[j].lands_at(replay(start, writes.take(j)))
}

/// Reading a position gives the value most recently written there: if write
/// `j` landed at position `i` and no later write did, the element at `i` is
/// the value of write `j`.
pub proof fn lemma_read_gives_last_written<T>(
    start: Seq<T>,
    writes: Seq<Write<T>>,
    j: int,
    i: int,
)
    requires
        0 <= j < writes.len(),
        landing(start, writes, j) == Some(i),
        forall|k: int| j < k < writes.len() ==> landing(start, writes, k) != Some(i),
    ensures
        0 <= i < replay(start, writes).len(),
        replay(start, writes)[i] == writes[j].value(),
    decreases writes.len(),
{
    let last = writes.len() - 1;
    let earlier = writes.drop_last();
    if j < last {
        assert(earlier.take(j) =~= writes.take(j));
        assert forall|k: int| j < k < earlier.len() implies landing(start, earlier, k) != Some(
            i,
        ) by {
            assert(earlier.take(k) =~= writes.take(k));
            assert(landing(start, writes, k) != Some(i));
        }
        lemma_read_gives_last_written(start, earlier, j, i);
        assert(landing(start, writes, last) != Some(i));
    }
}

/// A position that no write landed at holds what it held at the start.
pub proof fn lemma_unwritten_is_kept<T>(start: Seq<T>, writes: Seq<Write<T>>, i: int)
    requires
        0 <= i < start.len(),
        forall|k: int| 0 <= k < writes.len() ==> landing(start, writes, k) != Some(i),
    ensures
        i < replay(start, writes).len(),
        replay(start, writes)[i] == start[i],
    decreases writes.len(),
{
    if writes.len() > 0 {
        let last = writes.len() - 1;
        let earlier = writes.drop_last();
        assert forall|k: int| 0 <= k < earlier.len() implies landing(start, earlier, k) != Some(
            i,
        ) by {
            assert(earlier.take(k) =~= writes.take(k));
            assert(landing(start, writes, k) != Some(i));
        }
        lemma_unwritten_is_kept(start, earlier, i);
        assert(landing(start, writes, last) != Some(i));
    }
}

/// What is left of `elements` after a walk has given `given` of them.
pub open spec fn after_steps<T>(elements: Seq<T>, given: nat) -> Seq<T>
    decreases given,
{
    if given == 0 {
        elements
    } else {
        after_steps(elements, (given - 1) as nat).drop_first()
    }
}

/// A walk gives the elements once each, in order: after `given` steps the
/// element that comes next is the one at position `given`, and after as many
/// steps as there are elements nothing is left.
pub proof fn lemma_walk_in_order<T>(elements: Seq<T>, given: nat)
    requires
        given <= elements.len(),
    ensures
        after_steps(elements, given) == elements.skip(given as int),
        after_steps(elements, given).len() == elements.len() - given,
        given < elements.len() ==> after_steps(elements, given)[0] == elements[given as int],
    decreases given,
{
    if given > 0 {
        lemma_walk_in_order(elements, (given - 1) as nat);
    }
}

/// Releasing a sequence undoes the requests that were granted for it: the
/// releases give back what the requests obtained, the region obtained last
/// first, and leave outstanding exactly what is not the sequence's.
pub proof fn lemma_release_undoes_requests<T, R: MemoryResource, const N: usize>(
    seque: Seque<T, R, N>,
)
    requires
        seque.wf(),
    ensures
        seque.releases() == undo(seque.requests()),
        seque.allocator_view().outstanding() == settle(seque.foreign(), seque.requests()),
        settle(seque.allocator_view().outstanding(), seque.releases()) == seque.foreign(),
{
    seque.lemma_wf();
    lemma_settle_granted(seque.foreign(), seque.requests());
    lemma_undo_settles(seque.foreign(), seque.requests());
}

/// The count of a tracking resource that a sequence allocates through is the
/// bytes of the sequence's segments plus the bytes of what else is
/// outstanding. Releasing the sequence leaves exactly the latter, so the count
/// is then back where it stood before the sequence was made.
pub proof fn lemma_tracked_bytes<T, R: MemoryResource, const N: usize>(
    seque: Seque<T, TrackingResource<R>, N>,
)
    requires
        seque.wf(),
    ensures
        seque.allocator_view()@.count_view() == total_bytes(seque.foreign()) + footprint::<T>(
            seque.capacity_view() / (N as nat),
            N as nat,
        ),
{
    seque.lemma_wf();
    seque.allocator_view()@.lemma_count();
    lemma_total_bytes_add(seque.foreign(), seque.segment_blocks());
}

} // verus!
