//! The allocation capability: memory resources and the handle that fronts them.
//!
//! A resource hands out regions of its address space and takes them back. The
//! regions are described by plain addresses; what a container keeps in a region
//! is the container's own business. Every contract here is stated over the log
//! of the calls made on a resource, and over the ledger that follows from it:
//! the regions issued and not yet taken back.

use vstd::layout::{align_of, layout_for_type_is_valid, size_of};
use vstd::multiset::Multiset;
use vstd::prelude::*;

verus! {

/// A region of a resource's address space: where it starts, how many bytes it
/// spans, and the alignment it was requested with.
pub struct Block {
    pub addr: usize,
    pub size: usize,
    pub align: usize,
}

impl Block {
    /// The region starts on a multiple of its alignment and ends inside the
    /// address space.
    pub open spec fn well_placed(self) -> bool {
        &&& self.align > 0
        &&& self.addr as int % self.align as int == 0
        &&& self.addr + self.size <= usize::MAX
    }

    /// The two regions have a byte in common. An empty region has none.
    pub open spec fn overlaps(self, other: Block) -> bool {
        &&& self.size > 0
        &&& other.size > 0
        &&& self.addr < other.addr + other.size
        &&& other.addr < self.addr + self.size
    }

    /// The region is well placed and shares no byte with a region of
    /// `outstanding`.
    pub open spec fn free_in(self, outstanding: Multiset<Block>) -> bool {
        &&& self.well_placed()
        &&& forall|other: Block| #[trigger] outstanding.contains(other) ==> !self.overlaps(other)
    }
}

/// The region that `count` objects of type `T` occupy when laid out from `addr`.
pub open spec fn array_block<T>(addr: usize, count: usize) -> Block {
    Block { addr, size: (size_of::<T>() * count) as usize, align: align_of::<T>() as usize }
}

/// One call made on a resource, with its answer.
pub enum Event {
    /// A request for `size` bytes at alignment `align`, answered with an
    /// address or refused.
    Allocate { size: usize, align: usize, answer: Option<usize> },
    /// A region given back.
    Release { block: Block },
}

impl Event {
    /// The regions outstanding after the call, given those outstanding before.
    pub open spec fn apply(self, outstanding: Multiset<Block>) -> Multiset<Block> {
        match self {
            Event::Allocate { size, align, answer: Some(addr) } => outstanding.insert(
                Block { addr, size, align },
            ),
            Event::Allocate { size, align, answer: None } => outstanding,
            Event::Release { block } => outstanding.remove(block),
        }
    }
}

impl Event {
    /// The call is a request that was granted.
    pub open spec fn granted(self) -> bool {
        self matches Event::Allocate { answer: Some(_), .. }
    }

    /// The region the call is about: the one a granted request obtained, or
    /// the one given back.
    pub open spec fn region(self) -> Block
        recommends
            self is Release || self.granted(),
    {
        match self {
            Event::Allocate { size, align, answer } => Block {
                addr: answer.unwrap(),
                size,
                align,
            },
            Event::Release { block } => block,
        }
    }
}

/// The request for room for `count` objects of type `T`, as answered.
pub open spec fn array_request<T>(count: usize, answer: Option<usize>) -> Event {
    Event::Allocate {
        size: (size_of::<T>() * count) as usize,
        align: align_of::<T>() as usize,
        answer,
    }
}

/// The regions outstanding after the calls of `events`, made in order on a
/// resource that had `before` outstanding.
pub open spec fn settle(before: Multiset<Block>, events: Seq<Event>) -> Multiset<Block>
    decreases events.len(),
{
    if events.len() == 0 {
        before
    } else {
        events.last().apply(settle(before, events.drop_last()))
    }
}

/// The ledger of a log: the regions outstanding after its calls, made in order
/// on a resource with nothing outstanding.
pub open spec fn ledger(log: Seq<Event>) -> Multiset<Block> {
    settle(Multiset::empty(), log)
}

/// One more call changes the outcome of a run of calls by what the call does.
pub proof fn lemma_settle_push(before: Multiset<Block>, events: Seq<Event>, event: Event)
    ensures
        settle(before, events.push(event)) == event.apply(settle(before, events)),
{
    assert(events.push(event).drop_last() =~= events);
}

/// A run of calls followed by another has the outcome of the second run made
/// on the outcome of the first.
pub proof fn lemma_settle_concat(before: Multiset<Block>, first: Seq<Event>, second: Seq<Event>)
    ensures
        settle(before, first + second) == settle(settle(before, first), second),
    decreases second.len(),
{
    if second.len() > 0 {
        lemma_settle_concat(before, first, second.drop_last());
        assert((first + second).drop_last() =~= first + second.drop_last());
    }
}

/// A log that has grown by a run of calls still starts with what it held.
pub proof fn lemma_log_grows(log: Seq<Event>, more: Seq<Event>)
    ensures
        log.is_prefix_of(log + more),
        (log + more).skip(log.len() as int) == more,
{
}

/// The releases that give back what a run of granted requests obtained, the
/// region obtained last first.
pub open spec fn undo(requests: Seq<Event>) -> Seq<Event> {
    Seq::new(
        requests.len(),
        |i: int| Event::Release { block: requests[requests.len() - 1 - i].region() },
    )
}

/// Undoing two runs of requests undoes the later run first.
pub proof fn lemma_undo_concat(first: Seq<Event>, second: Seq<Event>)
    ensures
        undo(first + second) == undo(second) + undo(first),
{
}

/// A run of granted requests adds what it obtains to what was outstanding.
pub proof fn lemma_settle_granted(before: Multiset<Block>, requests: Seq<Event>)
    requires
        forall|i: int| 0 <= i < requests.len() ==> (#[trigger] requests[i]).granted(),
    ensures
        settle(before, requests) == before.add(ledger(requests)),
    decreases requests.len(),
{
    if requests.len() > 0 {
        lemma_settle_granted(before, requests.drop_last());
    }
}

/// Giving back, newest first, what a run of granted requests obtained leaves
/// outstanding what was outstanding before the run.
pub proof fn lemma_undo_settles(before: Multiset<Block>, requests: Seq<Event>)
    requires
        forall|i: int| 0 <= i < requests.len() ==> (#[trigger] requests[i]).granted(),
    ensures
        settle(settle(before, requests), undo(requests)) == before,
    decreases requests.len(),
{
    if requests.len() > 0 {
        let earlier = requests.drop_last();
        let last = requests.last();
        let back = Event::Release { block: last.region() };
        let after = settle(before, requests);
        lemma_undo_settles(before, earlier);
        assert(requests =~= earlier + seq![last]);
        lemma_undo_concat(earlier, seq![last]);
        assert(undo(seq![last]) =~= seq![back]);
        lemma_settle_concat(after, seq![back], undo(earlier));
        lemma_settle_push(after, Seq::empty(), back);
        assert(settle(after, seq![back]) =~= settle(before, earlier));
    }
}

/// The bytes spanned by all the regions of a ledger together.
pub open spec fn total_bytes(ledger: Multiset<Block>) -> nat
    decreases ledger.len(),
{
    if ledger.len() == 0 {
        0
    } else {
        let block = ledger.choose();
        block.size as nat + total_bytes(ledger.remove(block))
    }
}

/// Any region of a ledger can be counted first.
pub proof fn lemma_total_bytes_remove(ledger: Multiset<Block>, block: Block)
    requires
        ledger.contains(block),
    ensures
        total_bytes(ledger) == block.size + total_bytes(ledger.remove(block)),
    decreases ledger.len(),
{
    let first = ledger.choose();
    if first != block {
        lemma_total_bytes_remove(ledger.remove(first), block);
        lemma_total_bytes_remove(ledger.remove(block), first);
        assert(ledger.remove(first).remove(block) =~= ledger.remove(block).remove(first));
    }
}

/// A region that joins a ledger adds its size to the total.
pub proof fn lemma_total_bytes_insert(ledger: Multiset<Block>, block: Block)
    ensures
        total_bytes(ledger.insert(block)) == total_bytes(ledger) + block.size,
{
    lemma_total_bytes_remove(ledger.insert(block), block);
    assert(ledger.insert(block).remove(block) =~= ledger);
}

/// The total of a ledger is the total of any part of it plus the total of the
/// rest.
pub proof fn lemma_total_bytes_add(part: Multiset<Block>, rest: Multiset<Block>)
    ensures
        total_bytes(part.add(rest)) == total_bytes(part) + total_bytes(rest),
    decreases part.len(),
{
    if part.len() == 0 {
        assert(part.add(rest) =~= rest);
    } else {
        let block = part.choose();
        lemma_total_bytes_add(part.remove(block), rest);
        lemma_total_bytes_remove(part.add(rest), block);
        assert(part.add(rest).remove(block) =~= part.remove(block).add(rest));
    }
}

/// A source of raw regions.
///
/// `log` is what the contracts are written against: the calls made on the
/// resource so far, oldest first, each with its answer. The regions issued and
/// not yet released are the [`ledger`] of the log. A release must name a
/// region of the ledger with the size and alignment it was requested with.
///
/// An implementation that is not verified may leave the two spec functions at
/// their defaults; it then carries the contracts below as obligations that
/// nothing checks.
pub trait MemoryResource {
    /// The calls made on the resource so far, oldest first.
    open spec fn log(&self) -> Seq<Event> {
        Seq::empty()
    }

    /// What the implementation needs to hold of itself between calls.
    open spec fn wf(&self) -> bool {
        true
    }

    /// Asks for a free region of `size` bytes at alignment `align`. Exhaustion is
    /// an ordinary answer, `None`.
    fn allocate_bytes(&mut self, size: usize, align: usize) -> (answer: Option<usize>)
        requires
            old(self).wf(),
        ensures
            final(self).wf(),
            final(self).log() == old(self).log().push(Event::Allocate { size, align, answer }),
            answer matches Some(addr) ==> (Block { addr, size, align }).free_in(
                ledger(old(self).log()),
            ),
    ;

    /// Gives back a region obtained from `allocate_bytes` with this `size` and
    /// `align`.
    fn deallocate_bytes(&mut self, pointer: usize, size: usize, align: usize)
        requires
            old(self).wf(),
            ledger(old(self).log()).contains(Block { addr: pointer, size, align }),
        ensures
            final(self).wf(),
            final(self).log() == old(self).log().push(
                Event::Release { block: Block { addr: pointer, size, align } },
            ),
    ;
}

/// The front end of one memory resource: byte-level requests pass through
/// unchanged, typed requests are sized and aligned for the element type.
///
/// The handle owns its resource. Whoever needs to allocate through it borrows
/// it mutably for the call, so two requests can never be in flight at once.
pub struct Allocator<R: MemoryResource> {
    resource: R,
}

impl<R: MemoryResource> View for Allocator<R> {
    type V = R;

    closed spec fn view(&self) -> R {
        self.resource
    }
}

impl<R: MemoryResource> Allocator<R> {
    /// The resource behind the handle is in a state it accepts calls in.
    pub open spec fn wf(&self) -> bool {
        self@.wf()
    }

    /// The calls made on the handle's resource so far, oldest first.
    pub open spec fn log(&self) -> Seq<Event> {
        self@.log()
    }

    /// The regions obtained from the handle's resource and not yet released.
    pub open spec fn outstanding(&self) -> Multiset<Block> {
        ledger(self@.log())
    }

    pub fn new(resource: R) -> (handle: Self)
        ensures
            handle@ == resource,
    {
        Allocator { resource }
    }

    /// Read access to the resource, for inspection.
    pub fn get(&self) -> (resource: &R)
        ensures
            *resource == self@,
    {
        &self.resource
    }

    /// Takes the handle apart again.
    pub fn into_inner(self) -> (resource: R)
        ensures
            resource == self@,
    {
        self.resource
    }

    /// Hands the request to the resource and the resource's answer back.
    pub fn allocate_bytes(&mut self, size: usize, align: usize) -> (answer: Option<usize>)
        requires
            old(self).wf(),
        ensures
            final(self).wf(),
            final(self).log() == old(self).log().push(Event::Allocate { size, align, answer }),
            final(self).outstanding() == (Event::Allocate { size, align, answer }).apply(
                old(self).outstanding(),
            ),
            answer matches Some(addr) ==> (Block { addr, size, align }).free_in(
                old(self).outstanding(),
            ),
    {
        let answer = self.resource.allocate_bytes(size, align);
        proof {
            lemma_settle_push(
                Multiset::empty(),
                old(self).log(),
                Event::Allocate { size, align, answer },
            );
        }
        answer
    }

    /// Hands the region back to the resource.
    pub fn deallocate_bytes(&mut self, pointer: usize, size: usize, align: usize)
        requires
            old(self).wf(),
            old(self).outstanding().contains(Block { addr: pointer, size, align }),
        ensures
            final(self).wf(),
            final(self).log() == old(self).log().push(
                Event::Release { block: Block { addr: pointer, size, align } },
            ),
            final(self).outstanding() == old(self).outstanding().remove(
                Block { addr: pointer, size, align },
            ),
    {
        proof {
            lemma_settle_push(
                Multiset::empty(),
                self.log(),
                Event::Release { block: Block { addr: pointer, size, align } },
            );
        }
        self.resource.deallocate_bytes(pointer, size, align)
    }

    /// Asks for room for `num_objects` values of type `T`. A request whose byte
    /// count does not fit the address space is refused without reaching the
    /// resource.
    pub fn allocate<T>(&mut self, num_objects: usize) -> (answer: Option<usize>)
        requires
            old(self).wf(),
        ensures
            final(self).wf(),
            final(self).log() == if size_of::<T>() * num_objects <= usize::MAX {
                old(self).log().push(array_request::<T>(num_objects, answer))
            } else {
                old(self).log()
            },
            size_of::<T>() * num_objects > usize::MAX ==> answer is None,
            match answer {
                Some(addr) => {
                    &&& array_block::<T>(addr, num_objects).free_in(old(self).outstanding())
                    &&& final(self).outstanding() == old(self).outstanding().insert(
                        array_block::<T>(addr, num_objects),
                    )
                },
                None => final(self).outstanding() == old(self).outstanding(),
            },
    {
        layout_for_type_is_valid::<T>();
        match core::mem::size_of::<T>().checked_mul(num_objects) {
            Some(size) => self.allocate_bytes(size, core::mem::align_of::<T>()),
            None => None,
        }
    }

    /// Gives back the room of `num_objects` values of type `T` at `pointer`.
    pub fn deallocate<T>(&mut self, pointer: usize, num_objects: usize)
        requires
            old(self).wf(),
            size_of::<T>() * num_objects <= usize::MAX,
            old(self).outstanding().contains(array_block::<T>(pointer, num_objects)),
        ensures
            final(self).wf(),
            final(self).log() == old(self).log().push(
                Event::Release { block: array_block::<T>(pointer, num_objects) },
            ),
            final(self).outstanding() == old(self).outstanding().remove(
                array_block::<T>(pointer, num_objects),
            ),
    {
        layout_for_type_is_valid::<T>();
        self.deallocate_bytes(
            pointer,
            core::mem::size_of::<T>() * num_objects,
            core::mem::align_of::<T>(),
        )
    }
}

/// A container that allocates through a handle and can show it.
pub trait AllocatorAwareContainer {
    type Resource: MemoryResource;

    /// The handle the container allocates through.
    open spec fn allocator_view(&self) -> Allocator<Self::Resource> {
        arbitrary()
    }

    fn allocator(&self) -> (handle: &Allocator<Self::Resource>)
        ensures
            *handle == self.allocator_view(),
    ;
}

} // verus!
