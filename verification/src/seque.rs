//! The segmented sequence: a chain of equal segments that grows a segment at a
//! time and never moves what it holds.

use crate::a::{
    array_request, ledger, lemma_log_grows, lemma_settle_concat, lemma_settle_push, total_bytes,
    undo, Allocator, AllocatorAwareContainer, Block, Event, MemoryResource,
};
use crate::error::{AllocationFailed, IndexOutOfBounds};
use crate::iter::{SequeIter, SequeIterMut};
use crate::node::{abandoned, footprint, refusal, slot_block, Node};
use vstd::layout::size_of;
use vstd::multiset::Multiset;
use vstd::prelude::*;

verus! {

/// The number of segments of `n` slots that a sequence asked to hold
/// `requested` elements starts with: one if that is enough, else `requested`
/// divided by `n`, rounded up.
pub open spec fn segments_for(requested: nat, n: nat) -> nat
    recommends
        n > 0,
{
    if requested <= n {
        1
    } else if requested % n == 0 {
        requested / n
    } else {
        requested / n + 1
    }
}

/// `segments_for` names enough segments to hold the request: at least one, and
/// at least two once a single segment is too small.
pub proof fn lemma_segments_for_holds(requested: nat, n: nat)
    requires
        n > 0,
    ensures
        segments_for(requested, n) >= 1,
        n * segments_for(requested, n) >= requested,
        requested > n ==> segments_for(requested, n) >= 2,
{
    let q = requested / n;
    let r = requested % n;
    vstd::arithmetic::div_mod::lemma_fundamental_div_mod(requested as int, n as int);
    if requested <= n {
        assert(n * 1 == n) by (nonlinear_arith);
    } else {
        assert(n * (q + 1) == n * q + n) by (nonlinear_arith);
        assert(q >= 1) by (nonlinear_arith)
            requires
                requested == n * q + r,
                r < n,
                requested > n,
                n > 0,
        ;
        if r == 0 {
            assert(q >= 2) by (nonlinear_arith)
                requires
                    requested == n * q,
                    requested > n,
                    n > 0,
            ;
        }
    }
}

/// No smaller number of segments holds the request.
pub proof fn lemma_segments_for_least(requested: nat, n: nat, k: nat)
    requires
        n > 0,
        k >= 1,
        n * k >= requested,
    ensures
        segments_for(requested, n) <= k,
{
    let q = requested / n;
    let r = requested % n;
    vstd::arithmetic::div_mod::lemma_fundamental_div_mod(requested as int, n as int);
    if requested > n {
        if r == 0 {
            assert(q <= k) by (nonlinear_arith)
                requires
                    n * k >= n * q,
                    n > 0,
            ;
        } else {
            assert(q + 1 <= k) by (nonlinear_arith)
                requires
                    n * k >= n * q + r,
                    r > 0,
                    n > 0,
            ;
        }
    }
}

/// The calls of an attempt to allocate `segments` segments of `n` slots that
/// the resource refused partway: it refused the slots of the first segment;
/// or it granted them, the attempt to chain the other segments was abandoned,
/// and the slots of the first segment were given back.
pub open spec fn given_up<T>(n: usize, segments: nat, calls: Seq<Event>) -> bool {
    ||| calls == seq![array_request::<T>(n, None)]
    ||| {
        &&& calls.len() >= 2
        &&& calls.first() == array_request::<T>(n, Some(calls.first().region().addr))
        &&& abandoned::<T>(n, (segments - 1) as nat, calls.subrange(1, calls.len() - 1))
        &&& calls.last() == Event::Release {
            block: slot_block::<T>(calls.first().region().addr, n),
        }
    }
}

/// A growable sequence of `T` kept in a chain of segments of `N` slots each,
/// every region of which comes from the resource `R` behind its own handle.
///
/// Position `i` is slot `i % N` of segment `i / N`. The first `len()` slots hold
/// the elements; the slots after them are empty. When an element arrives and
/// every slot is taken, one segment is chained on: the capacity grows by `N`,
/// never by more. A position is found by walking the chain from its first
/// segment, so reaching position `i` takes `i / N` steps, a push included:
/// pushing is not constant time on average.
///
/// The sequence gives its regions back when it is [`release`](Self::release)d,
/// the region it obtained last first. Dropping it instead drops the handle
/// without telling the resource. The elements are dropped either way.
pub struct Seque<T, R: MemoryResource, const N: usize> {
    length: usize,
    capacity: usize,
    node: Node<T, N>,
    alloc: Allocator<R>,
}

impl<T, R: MemoryResource, const N: usize> View for Seque<T, R, N> {
    type V = Seq<T>;

    /// The elements, in the order they were pushed.
    closed spec fn view(&self) -> Seq<T> {
        Seq::new(self.length as nat, |i: int| self.node.slots()[i].unwrap())
    }
}

impl<T, R: MemoryResource, const N: usize> Seque<T, R, N> {
    /// The number of slots in the chain.
    pub closed spec fn capacity_view(&self) -> nat {
        self.capacity as nat
    }

    /// The slots of the chain, in order: the elements first, empty slots after
    /// them.
    pub closed spec fn slots(&self) -> Seq<Option<T>> {
        self.node.slots()
    }

    /// The slots of segment `k` of the chain, counted from the first.
    pub closed spec fn segment_slots(&self, k: nat) -> Seq<Option<T>> {
        self.node.segment(k).own_slots()
    }

    /// Every request that was granted for the segments of the sequence, oldest
    /// first: the slots of the first segment, then, for each segment chained
    /// on, its record and its slots.
    pub closed spec fn requests(&self) -> Seq<Event> {
        seq![array_request::<T>(N, Some(self.node.data_view()))] + self.node.requests()
    }

    /// The releases that give the regions of the sequence back, in the order
    /// they are made.
    pub closed spec fn releases(&self) -> Seq<Event> {
        self.node.releases()
    }

    /// The regions the segments of the sequence occupy.
    pub closed spec fn segment_blocks(&self) -> Multiset<Block> {
        self.node.blocks()
    }

    /// Every slot holds an element.
    pub open spec fn full(&self) -> bool {
        self@.len() == self.capacity_view()
    }

    /// What the resource has outstanding that is not the sequence's.
    pub open spec fn foreign(&self) -> Multiset<Block> {
        self.allocator_view().outstanding().sub(self.segment_blocks())
    }

    /// The bookkeeping agrees with the chain, the elements fill the front of
    /// it, and its regions are on the resource's ledger.
    pub closed spec fn wf(&self) -> bool {
        &&& self.node.wf()
        &&& self.alloc.wf()
        &&& self.capacity == N * self.node.segments()
        &&& self.length <= self.capacity
        &&& forall|i: int| 0 <= i < self.length ==> (#[trigger] self.node.slots()[i]) is Some
        &&& forall|i: int|
            self.length <= i < self.capacity ==> (#[trigger] self.node.slots()[i]) is None
        &&& self.node.blocks().subset_of(self.alloc.outstanding())
    }

    /// What well-formedness says to the outside.
    pub proof fn lemma_wf(&self)
        requires
            self.wf(),
        ensures
            N > 0,
            self@.len() <= self.capacity_view() <= usize::MAX,
            self.capacity_view() % (N as nat) == 0,
            self.capacity_view() >= N,
            self.slots().len() == self.capacity_view(),
            forall|i: int| 0 <= i < self@.len() ==> #[trigger] self.slots()[i] == Some(self@[i]),
            forall|i: int|
                self@.len() <= i < self.capacity_view() ==> (#[trigger] self.slots()[i]) is None,
            self.allocator_view().wf(),
            self.segment_blocks().subset_of(self.allocator_view().outstanding()),
            self.allocator_view().outstanding() == self.foreign().add(self.segment_blocks()),
            self.segment_blocks().len() == 2 * (self.capacity_view() / (N as nat)) - 1,
            total_bytes(self.segment_blocks()) == footprint::<T>(
                self.capacity_view() / (N as nat),
                N as nat,
            ),
            self.requests().len() == 2 * (self.capacity_view() / (N as nat)) - 1,
            forall|i: int|
                0 <= i < self.requests().len() ==> (#[trigger] self.requests()[i]).granted(),
            ledger(self.requests()) == self.segment_blocks(),
            self.releases() == undo(self.requests()),
    {
        self.node.lemma_shape();
        self.node.lemma_footprint();
        self.node.lemma_requests();
        self.node.lemma_requests_settle(Multiset::empty());
        let first = array_request::<T>(N, Some(self.node.data_view()));
        lemma_settle_concat(Multiset::empty(), seq![first], self.node.requests());
        lemma_settle_push(Multiset::empty(), Seq::empty(), first);
        let k = self.node.segments();
        vstd::arithmetic::div_mod::lemma_div_multiples_vanish(k as int, N as int);
        vstd::arithmetic::div_mod::lemma_mod_multiples_basic(k as int, N as int);
        assert(N * k == k * N) by (nonlinear_arith);
        assert(N * k >= N) by (nonlinear_arith)
            requires
                k >= 1,
        ;
    }

    /// The element at position `i` is in slot `i % N` of segment `i / N`.
    pub proof fn lemma_position(&self, i: int)
        requires
            self.wf(),
            0 <= i < self@.len(),
        ensures
            N > 0,
            0 <= i / (N as int) < self.capacity_view() / (N as nat),
            self.segment_slots((i / (N as int)) as nat).len() == N,
            self.segment_slots((i / (N as int)) as nat)[i % (N as int)] == Some(self@[i]),
    {
        self.lemma_wf();
        self.node.lemma_shape();
        self.node.lemma_slot_position(i);
    }

    /// The number of slots in a segment.
    pub fn node_array_len(&self) -> (n: usize)
        ensures
            n == N,
    {
        N
    }

    /// The number of elements.
    pub fn len(&self) -> (n: usize)
        ensures
            n == self@.len(),
    {
        self.length
    }

    pub fn is_empty(&self) -> (empty: bool)
        ensures
            empty == (self@.len() == 0),
    {
        self.length == 0
    }

    /// The number of elements the chain has slots for.
    pub fn capacity(&self) -> (n: usize)
        ensures
            n == self.capacity_view(),
    {
        self.capacity
    }

    /// An empty sequence with room for at least `capacity` elements: one
    /// segment if that is enough, else the fewest segments that are.
    ///
    /// The segments are allocated at once, through `alloc`. If the resource
    /// refuses one of them, or the capacity cannot be counted in a `usize`,
    /// whatever was allocated is given back and the handle is returned in the
    /// error.
    pub fn with_capacity_in(capacity: usize, alloc: Allocator<R>) -> (outcome: Result<
        Self,
        AllocationFailed<Allocator<R>>,
    >)
        requires
            alloc.wf(),
            N > 0,
        ensures
            N * segments_for(capacity as nat, N as nat) > usize::MAX ==> outcome is Err,
            N * size_of::<T>() > usize::MAX ==> outcome is Err,
            match outcome {
                Ok(seque) => {
                    &&& seque.wf()
                    &&& seque@ == Seq::<T>::empty()
                    &&& seque.capacity_view() == N * segments_for(capacity as nat, N as nat)
                    &&& seque.foreign() == alloc.outstanding()
                    &&& seque.allocator_view().log() == alloc.log() + seque.requests()
                },
                Err(e) => {
                    &&& e.returned.wf()
                    &&& e.returned.outstanding() == alloc.outstanding()
                    &&& alloc.log().is_prefix_of(e.returned.log())
                    &&& if N * segments_for(capacity as nat, N as nat) > usize::MAX || N
                        * size_of::<T>() > usize::MAX {
                        e.returned.log() == alloc.log()
                    } else {
                        given_up::<T>(
                            N,
                            segments_for(capacity as nat, N as nat),
                            e.returned.log().skip(alloc.log().len() as int),
                        )
                    }
                },
            },
    {
        let ghost log = alloc.log();
        let mut alloc = alloc;
        proof {
            vstd::arithmetic::div_mod::lemma_fundamental_div_mod(capacity as int, N as int);
            assert(capacity % N != 0 ==> 2 * (capacity / N) <= capacity) by (nonlinear_arith)
                requires
                    capacity == N * (capacity / N) + capacity % N,
                    0 <= capacity % N < N,
                    capacity / N >= 0,
            ;
        }
        let segments: usize = if capacity <= N {
            1
        } else if capacity % N == 0 {
            capacity / N
        } else {
            capacity / N + 1
        };
        let total: usize = match N.checked_mul(segments) {
            Some(total) => total,
            None => {
                return Err(AllocationFailed { returned: alloc });
            },
        };
        let mut node: Node<T, N> = match Node::with_data(&mut alloc) {
            Some(node) => node,
            None => {
                proof {
                    if N * size_of::<T>() <= usize::MAX {
                        let calls = seq![array_request::<T>(N, None)];
                        assert(alloc.log() =~= log + calls);
                        lemma_log_grows(log, calls);
                    }
                }
                return Err(AllocationFailed { returned: alloc });
            },
        };
        let ghost first = array_request::<T>(N, Some(node.data_view()));
        let ghost asked = alloc.log();
        proof {
            assert(asked =~= log + seq![first]);
            lemma_log_grows(log, seq![first]);
        }
        match node.allocate_node_chain(segments - 1, &mut alloc) {
            Ok(_) => {
                proof {
                    node.lemma_shape();
                }
                Ok(Seque { length: 0, capacity: total, node, alloc })
            },
            Err(_) => {
                let ghost failed = alloc.log();
                node.deallocate(&mut alloc);
                proof {
                    let rest = failed.skip(asked.len() as int);
                    let back = seq![
                        Event::Release { block: slot_block::<T>(node.data_view(), N) },
                    ];
                    let calls = seq![first] + rest + back;
                    assert(alloc.log() =~= log + calls);
                    lemma_log_grows(log, calls);
                    assert(calls.subrange(1, calls.len() - 1) =~= rest);
                }
                Err(AllocationFailed { returned: alloc })
            },
        }
    }

    /// Appends `value`. If every slot is taken, one more segment is chained on
    /// first; if the resource refuses it, nothing changes and `value` comes
    /// back in the error.
    pub fn push_back(&mut self, value: T) -> (outcome: Result<(), AllocationFailed<T>>)
        requires
            old(self).wf(),
        ensures
            final(self).wf(),
            final(self).foreign() == old(self).foreign(),
            old(self).allocator_view().log().is_prefix_of(final(self).allocator_view().log()),
            old(self).requests().is_prefix_of(final(self).requests()),
            !old(self).full() ==> {
                &&& outcome is Ok
                &&& final(self).requests() == old(self).requests()
                &&& final(self).allocator_view() == old(self).allocator_view()
            },
            old(self).full() && old(self).capacity_view() + N > usize::MAX ==> outcome is Err,
            match outcome {
                Ok(_) => {
                    &&& final(self)@ == old(self)@.push(value)
                    &&& final(self).capacity_view() == if old(self).full() {
                        old(self).capacity_view() + N
                    } else {
                        old(self).capacity_view() as int
                    }
                    &&& final(self).allocator_view().log() == old(self).allocator_view().log()
                        + final(self).requests().skip(old(self).requests().len() as int)
                },
                Err(e) => {
                    &&& e.returned == value
                    &&& old(self).full()
                    &&& final(self)@ == old(self)@
                    &&& final(self).capacity_view() == old(self).capacity_view()
                    &&& final(self).requests() == old(self).requests()
                    &&& if old(self).capacity_view() + N > usize::MAX {
                        final(self).allocator_view() == old(self).allocator_view()
                    } else {
                        refusal::<T>(
                            N,
                            final(self).allocator_view().log().skip(
                                old(self).allocator_view().log().len() as int,
                            ),
                        )
                    }
                },
            },
    {
        proof {
            self.node.lemma_shape();
        }
        if self.length >= self.capacity {
            assert(self.capacity >= N) by (nonlinear_arith)
                requires
                    self.capacity == N * self.node.segments(),
                    self.node.segments() >= 1,
            ;
            let amount: usize = self.length / self.capacity;
            assert(amount == 1) by (nonlinear_arith)
                requires
                    amount == self.length / self.capacity,
                    self.length == self.capacity,
                    self.capacity > 0,
            ;
            let grown: usize = match N.checked_mul(amount) {
                Some(by) => match self.capacity.checked_add(by) {
                    Some(grown) => grown,
                    None => {
                        return Err(AllocationFailed { returned: value });
                    },
                },
                None => {
                    return Err(AllocationFailed { returned: value });
                },
            };
            match self.node.allocate_node_chain(amount, &mut self.alloc) {
                Ok(_) => {
                    proof {
                        let k = old(self).node.segments();
                        assert(N * (k + 1) == N * k + N) by (nonlinear_arith);
                    }
                    self.capacity = grown;
                },
                Err(_) => {
                    return Err(AllocationFailed { returned: value });
                },
            }
        }
        self.node.write_data_unchecked(self.length, value);
        self.length = self.length + 1;
        Ok(())
    }

    /// The element at `index`, or the length and the index if there is none.
    pub fn index(&self, index: usize) -> (outcome: Result<&T, IndexOutOfBounds>)
        requires
            self.wf(),
        ensures
            match outcome {
                Ok(value) => index < self@.len() && *value == self@[index as int],
                Err(e) => index >= self@.len() && e.length == self@.len() && e.index == index,
            },
    {
        if index >= self.length {
            return Err(IndexOutOfBounds { length: self.length, index });
        }
        proof {
            self.node.lemma_shape();
        }
        Ok(self.node.get_data_unchecked(index))
    }

    /// Write access to the element at `index`, or the length and the index if
    /// there is none. Only that element can change.
    pub fn index_mut(&mut self, index: usize) -> (outcome: Result<&mut T, IndexOutOfBounds>)
        requires
            old(self).wf(),
        ensures
            match outcome {
                Ok(value) => {
                    &&& index < old(self)@.len()
                    &&& *value == old(self)@[index as int]
                    &&& final(self)@ == old(self)@.update(index as int, *final(value))
                    &&& final(self).wf()
                    &&& final(self).capacity_view() == old(self).capacity_view()
                    &&& final(self).allocator_view() == old(self).allocator_view()
                    &&& final(self).segment_blocks() == old(self).segment_blocks()
                    &&& final(self).requests() == old(self).requests()
                },
                Err(e) => {
                    &&& index >= old(self)@.len()
                    &&& e.length == old(self)@.len()
                    &&& e.index == index
                    &&& *final(self) == *old(self)
                },
            },
    {
        if index >= self.length {
            return Err(IndexOutOfBounds { length: self.length, index });
        }
        proof {
            self.node.lemma_shape();
        }
        let value = self.node.get_data_unchecked_mut(index);
        Ok(value)
    }

    /// A fresh walk over the elements, first to last.
    pub fn iter(&self) -> (iter: SequeIter<'_, T, N>)
        requires
            self.wf(),
        ensures
            iter.wf(),
            iter.remaining() == self@,
            iter.len_view() == self@.len(),
    {
        proof {
            self.node.lemma_shape();
        }
        SequeIter::new_iter_at(&self.node, self.length)
    }

    /// A fresh walk over the elements, first to last, that lets them be
    /// changed. The sequence is the walk's until the walk is let go.
    pub fn iter_mut(&mut self) -> (iter: SequeIterMut<'_, T, R, N>)
        requires
            old(self).wf(),
        ensures
            iter.wf(),
            iter.remaining() == old(self)@,
            *iter.seque == *old(self),
            *final(iter.seque) == *final(self),
            iter.pos == 0,
    {
        SequeIterMut::new_iter_at(self, 0)
    }

    /// Gives every region of the sequence back to the resource and returns the
    /// handle. The elements are dropped.
    pub fn release(self) -> (handle: Allocator<R>)
        requires
            self.wf(),
        ensures
            handle.wf(),
            handle.log() == self.allocator_view().log() + self.releases(),
            handle.outstanding() == self.foreign(),
    {
        let Seque { length, capacity, node, alloc } = self;
        let mut alloc = alloc;
        node.deallocate(&mut alloc);
        alloc
    }
}

impl<T, R: MemoryResource, const N: usize> AllocatorAwareContainer for Seque<T, R, N> {
    type Resource = R;

    closed spec fn allocator_view(&self) -> Allocator<R> {
        self.alloc
    }

    fn allocator(&self) -> (handle: &Allocator<R>) {
        &self.alloc
    }
}

} // verus!
