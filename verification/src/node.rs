//! One segment of a sequence and the chain of segments that hangs off it.

use crate::a::{
    array_block, array_request, lemma_log_grows, lemma_settle_concat, lemma_settle_push,
    lemma_total_bytes_add, lemma_total_bytes_insert, settle, total_bytes, undo, Allocator,
    Block, Event, MemoryResource,
};
use crate::error::AllocationFailed;
use vstd::layout::size_of;
use vstd::multiset::Multiset;
use vstd::prelude::*;

verus! {

/// The region that holds the record of a chained segment: two addresses, that
/// of its slots and that of the record after it.
pub open spec fn record_block(addr: usize) -> Block {
    array_block::<usize>(addr, 2)
}

/// The region that holds the `n` slots of a segment of `T`.
pub open spec fn slot_block<T>(addr: usize, n: usize) -> Block {
    array_block::<T>(addr, n)
}

/// The bytes in the regions of a chain of `segments` segments of `n` slots of
/// `T`: the slots of each, and a record for each but the first.
pub open spec fn footprint<T>(segments: nat, n: nat) -> nat
    recommends
        segments >= 1,
{
    (segments * (n * size_of::<T>()) + (segments - 1) * (2 * size_of::<usize>())) as nat
}

/// The record of a chained segment is asked for and granted at `record`, its
/// `n` slots are refused, and the record is given back.
pub open spec fn slots_refused<T>(n: usize, record: usize) -> Seq<Event> {
    seq![
        array_request::<usize>(2, Some(record)),
        array_request::<T>(n, None),
        Event::Release { block: record_block(record) },
    ]
}

/// The calls of an attempt to allocate one chained segment of `n` slots that
/// the resource refused: it refused the record, or it granted the record and
/// refused the slots.
pub open spec fn refusal<T>(n: usize, calls: Seq<Event>) -> bool {
    ||| calls == seq![array_request::<usize>(2, None)]
    ||| exists|record: usize| calls == #[trigger] slots_refused::<T>(n, record)
}

/// The requests are those of chained segments of `n` slots, all granted: a
/// record, then slots, then a record again, and so on.
pub open spec fn chaining<T>(n: usize, requests: Seq<Event>) -> bool {
    &&& requests.len() % 2 == 0
    &&& forall|i: int|
        0 <= i < requests.len() ==> (#[trigger] requests[i]).granted() && requests[i] == (if i
            % 2 == 0 {
            array_request::<usize>(2, Some(requests[i].region().addr))
        } else {
            array_request::<T>(n, Some(requests[i].region().addr))
        })
}

/// The calls of an attempt to chain up to `amount` segments of `n` slots that
/// was refused partway and undone: the requests granted for the segments it
/// got to, fewer than `amount`; the refusal; and the releases that give back
/// what was granted, the region obtained last first.
pub open spec fn abandoned<T>(n: usize, amount: nat, calls: Seq<Event>) -> bool {
    exists|granted: Seq<Event>, refused: Seq<Event>|
        #![trigger chaining::<T>(n, granted), refusal::<T>(n, refused)]
        {
            &&& chaining::<T>(n, granted)
            &&& granted.len() < 2 * amount
            &&& refusal::<T>(n, refused)
            &&& calls == granted + refused + undo(granted)
        }
}

/// A refusal at the first segment is an abandoned attempt with nothing to undo.
pub proof fn lemma_abandoned_at_once<T>(n: usize, amount: nat, refused: Seq<Event>)
    requires
        amount > 0,
        refusal::<T>(n, refused),
    ensures
        abandoned::<T>(n, amount, refused),
{
    let nothing = Seq::<Event>::empty();
    assert(chaining::<T>(n, nothing));
}

/// An attempt abandoned after a segment was chained is an abandoned attempt
/// of one segment more: the segment's record and slots are asked for before
/// it and given back after it.
pub proof fn lemma_abandoned_later<T>(
    n: usize,
    amount: nat,
    record: usize,
    data: usize,
    deeper: Seq<Event>,
)
    requires
        amount > 0,
        abandoned::<T>(n, (amount - 1) as nat, deeper),
    ensures
        abandoned::<T>(
            n,
            amount,
            seq![array_request::<usize>(2, Some(record)), array_request::<T>(n, Some(data))]
                + deeper + seq![
                Event::Release { block: slot_block::<T>(data, n) },
                Event::Release { block: record_block(record) },
            ],
        ),
{
    let own = seq![array_request::<usize>(2, Some(record)), array_request::<T>(n, Some(data))];
    let back = seq![
        Event::Release { block: slot_block::<T>(data, n) },
        Event::Release { block: record_block(record) },
    ];
    let (granted, refused) = choose|granted: Seq<Event>, refused: Seq<Event>|
        #![trigger chaining::<T>(n, granted), refusal::<T>(n, refused)]
        {
            &&& chaining::<T>(n, granted)
            &&& granted.len() < 2 * (amount - 1)
            &&& refusal::<T>(n, refused)
            &&& deeper == granted + refused + undo(granted)
        };
    let more = own + granted;
    assert(own + deeper + back =~= more + refused + undo(more));
    assert(chaining::<T>(n, more));
}

struct Link<T, const N: usize> {
    record: usize,
    node: Box<Node<T, N>>,
}

/// A segment of `N` slots, each empty or holding a `T`, and the segments
/// chained after it.
///
/// A segment holds a region for its slots, obtained from a memory resource
/// and given back when the chain is deallocated. Every segment but the first
/// of a chain holds a second region, for its record: the two addresses by
/// which the chain finds the segment's slots and the segment after it. The
/// first segment is embedded in whatever owns the chain and has no record.
/// The values in the slots are kept by the segment itself.
///
/// The operations that follow the chain take one step of recursion for each
/// segment they pass.
pub struct Node<T, const N: usize> {
    data: usize,
    slots: Vec<Option<T>>,
    next: Option<Link<T, N>>,
}

impl<T, const N: usize> Node<T, N> {
    /// The number of segments in the chain, this one included.
    pub closed spec fn segments(self) -> nat
        decreases self,
    {
        match self.next {
            None => 1,
            Some(link) => 1 + link.node.segments(),
        }
    }

    /// The slots of the whole chain, in order.
    pub closed spec fn slots(self) -> Seq<Option<T>>
        decreases self,
    {
        match self.next {
            None => self.slots@,
            Some(link) => self.slots@ + link.node.slots(),
        }
    }

    /// The regions the chain occupies.
    pub closed spec fn blocks(self) -> Multiset<Block>
        decreases self,
    {
        match self.next {
            None => Multiset::singleton(slot_block::<T>(self.data, N)),
            Some(link) => Multiset::singleton(slot_block::<T>(self.data, N)).insert(
                record_block(link.record),
            ).add(link.node.blocks()),
        }
    }

    /// The requests that chained the segments after this one, oldest first:
    /// for each segment its record, then its slots, segment by segment down
    /// the chain.
    pub closed spec fn requests(self) -> Seq<Event>
        decreases self,
    {
        match self.next {
            None => Seq::empty(),
            Some(link) => seq![
                array_request::<usize>(2, Some(link.record)),
                array_request::<T>(N, Some(link.node.data)),
            ] + link.node.requests(),
        }
    }

    /// The releases that give the chain back, in the order they are made: the
    /// segments chained after this one first, the last of them before the one
    /// that leads to it and the slots of each before its record; then the
    /// slots of this segment.
    pub closed spec fn releases(self) -> Seq<Event>
        decreases self,
    {
        match self.next {
            None => seq![Event::Release { block: slot_block::<T>(self.data, N) }],
            Some(link) => link.node.releases().push(
                Event::Release { block: record_block(link.record) },
            ).push(Event::Release { block: slot_block::<T>(self.data, N) }),
        }
    }

    /// Every segment of the chain has its `N` slots, and `N` slots are
    /// something a resource can be asked for.
    pub closed spec fn wf(self) -> bool
        decreases self,
    {
        &&& N > 0
        &&& N * size_of::<T>() <= usize::MAX
        &&& self.slots@.len() == N
        &&& match self.next {
            None => true,
            Some(link) => link.node.wf(),
        }
    }

    /// The chain that hangs off this segment, if any does.
    pub closed spec fn next_view(self) -> Option<Node<T, N>> {
        match self.next {
            None => None,
            Some(link) => Some(*link.node),
        }
    }

    /// The slots of this segment alone.
    pub closed spec fn own_slots(self) -> Seq<Option<T>> {
        self.slots@
    }

    /// The segment `k` links down the chain; the last one if the chain is
    /// shorter.
    pub closed spec fn segment(self, k: nat) -> Node<T, N>
        decreases k,
    {
        if k == 0 {
            self
        } else {
            match self.next {
                Some(link) => link.node.segment((k - 1) as nat),
                None => self,
            }
        }
    }

    /// Where the slots of this segment live.
    pub closed spec fn data_view(self) -> usize {
        self.data
    }

    /// A well-formed chain of `k` segments has `N * k` slots.
    pub proof fn lemma_shape(self)
        requires
            self.wf(),
        ensures
            N > 0,
            N * size_of::<T>() <= usize::MAX,
            self.segments() >= 1,
            self.slots().len() == N * self.segments(),
            self.blocks().len() == 2 * self.segments() - 1,
        decreases self,
    {
        match self.next {
            None => {},
            Some(link) => {
                link.node.lemma_shape();
                assert(N * (1 + link.node.segments()) == N + N * link.node.segments())
                    by (nonlinear_arith);
            },
        }
    }

    /// Two requests chained each segment after the first, and all were
    /// granted; the releases give back what they obtained, the region obtained
    /// last first, and the slots of the first segment at the end.
    pub proof fn lemma_requests(self)
        requires
            self.wf(),
        ensures
            self.requests().len() == 2 * (self.segments() - 1),
            forall|i: int|
                0 <= i < self.requests().len() ==> (#[trigger] self.requests()[i]).granted(),
            self.releases() == undo(self.requests()).push(
                Event::Release { block: slot_block::<T>(self.data_view(), N) },
            ),
        decreases self,
    {
        match self.next {
            None => {},
            Some(link) => {
                link.node.lemma_requests();
            },
        }
    }

    /// Made on a ledger that holds the slots of the first segment, the
    /// requests of a chain leave the regions of the chain outstanding on top
    /// of what was there.
    pub proof fn lemma_requests_settle(self, before: Multiset<Block>)
        requires
            self.wf(),
        ensures
            settle(before.insert(slot_block::<T>(self.data_view(), N)), self.requests())
                == before.add(self.blocks()),
        decreases self,
    {
        let own_slots = slot_block::<T>(self.data, N);
        match self.next {
            None => {},
            Some(link) => {
                let record = array_request::<usize>(2, Some(link.record));
                let slots = array_request::<T>(N, Some(link.node.data));
                let start = before.insert(own_slots);
                link.node.lemma_requests_settle(start.insert(record_block(link.record)));
                lemma_settle_concat(start, seq![record, slots], link.node.requests());
                lemma_settle_push(start, Seq::empty(), record);
                lemma_settle_push(start, seq![record], slots);
                assert(seq![record].push(slots) =~= seq![record, slots]);
            },
        }
    }

    /// Slot `i` of a chain is slot `i % N` of the segment `i / N` links down.
    pub proof fn lemma_slot_position(self, i: int)
        requires
            self.wf(),
            0 <= i < self.slots().len(),
        ensures
            0 <= i / (N as int) < self.segments(),
            self.segment((i / (N as int)) as nat).own_slots().len() == N,
            self.slots()[i] == self.segment((i / (N as int)) as nat).own_slots()[i % (N as int)],
        decreases self,
    {
        let n = N as int;
        if i < n {
            vstd::arithmetic::div_mod::lemma_small_mod(i as nat, N as nat);
            vstd::arithmetic::div_mod::lemma_basic_div(i, n);
        } else {
            match self.next {
                None => {},
                Some(link) => {
                    link.node.lemma_slot_position(i - n);
                    vstd::arithmetic::div_mod::lemma_fundamental_div_mod(i - n, n);
                    let q = (i - n) / n;
                    assert(i == (q + 1) * n + (i - n) % n) by (nonlinear_arith)
                        requires
                            i - n == n * q + (i - n) % n,
                    ;
                    vstd::arithmetic::div_mod::lemma_fundamental_div_mod_converse(
                        i,
                        n,
                        (i - n) / n + 1,
                        (i - n) % n,
                    );
                },
            }
        }
    }

    /// The regions of a well-formed chain span what `footprint` says.
    pub proof fn lemma_footprint(self)
        requires
            self.wf(),
        ensures
            total_bytes(self.blocks()) == footprint::<T>(self.segments(), N as nat),
        decreases self,
    {
        broadcast use vstd::layout::layout_of_primitives;

        let own = slot_block::<T>(self.data, N);
        assert(Multiset::singleton(own) =~= Multiset::<Block>::empty().insert(own));
        lemma_total_bytes_insert(Multiset::empty(), own);
        match self.next {
            None => {
                assert(1 * (N * size_of::<T>()) == N * size_of::<T>()) by (nonlinear_arith);
                assert(0 * (2 * size_of::<usize>()) == 0) by (nonlinear_arith);
            },
            Some(link) => {
                let record = record_block(link.record);
                let k = link.node.segments();
                link.node.lemma_footprint();
                lemma_total_bytes_insert(Multiset::singleton(own), record);
                lemma_total_bytes_add(
                    Multiset::singleton(own).insert(record),
                    link.node.blocks(),
                );
                assert((1 + k) * (N * size_of::<T>()) == N * size_of::<T>() + k * (N
                    * size_of::<T>())) by (nonlinear_arith);
                assert((1 + k - 1) * (2 * size_of::<usize>()) == 2 * size_of::<usize>() + (k
                    - 1) * (2 * size_of::<usize>())) by (nonlinear_arith);
            },
        }
    }

    /// The slots of a chain are the `N` slots of its first segment followed by
    /// the slots of the chain that hangs off it.
    pub proof fn lemma_unfold(self)
        requires
            self.wf(),
        ensures
            match self.next_view() {
                Some(rest) => {
                    &&& rest.wf()
                    &&& self.segments() == 1 + rest.segments()
                    &&& self.slots().len() == N + rest.slots().len()
                    &&& self.slots() == self.slots().subrange(0, N as int) + rest.slots()
                },
                None => self.segments() == 1 && self.slots().len() == N,
            },
    {
    }

    /// `N` slots with nothing in them.
    fn empty_slots() -> (slots: Vec<Option<T>>)
        ensures
            slots@ == Seq::new(N as nat, |i: int| None::<T>),
    {
        let mut slots: Vec<Option<T>> = Vec::new();
        let mut filled: usize = 0;
        while filled < N
            invariant
                filled <= N,
                slots@ == Seq::new(filled as nat, |i: int| None::<T>),
            decreases N - filled,
        {
            slots.push(None);
            filled = filled + 1;
        }
        slots
    }

    /// A segment whose slots live at `data`, all of them empty, with nothing
    /// chained after it.
    pub fn over(data: usize) -> (node: Self)
        requires
            N > 0,
            N * size_of::<T>() <= usize::MAX,
        ensures
            node.wf(),
            node.segments() == 1,
            node.slots() == Seq::new(N as nat, |i: int| None::<T>),
            node.data_view() == data,
            node.blocks() == Multiset::singleton(slot_block::<T>(data, N)),
            node.requests() == Seq::<Event>::empty(),
            node.releases() == seq![Event::Release { block: slot_block::<T>(data, N) }],
    {
        Node { data, slots: Self::empty_slots(), next: None }
    }

    /// Asks the resource for the slots of one segment and builds the segment
    /// over them. `None` is the resource's refusal handed on; it leaves the
    /// ledger as it was.
    pub fn with_data<R: MemoryResource>(alloc: &mut Allocator<R>) -> (node: Option<Self>)
        requires
            old(alloc).wf(),
            N > 0,
        ensures
            final(alloc).wf(),
            N * size_of::<T>() > usize::MAX ==> node is None,
            final(alloc).log() == if N * size_of::<T>() <= usize::MAX {
                old(alloc).log().push(
                    array_request::<T>(
                        N,
                        match node {
                            Some(node) => Some(node.data_view()),
                            None => None,
                        },
                    ),
                )
            } else {
                old(alloc).log()
            },
            match node {
                Some(node) => {
                    &&& node.wf()
                    &&& node.segments() == 1
                    &&& node.slots() == Seq::new(N as nat, |i: int| None::<T>)
                    &&& node.blocks() == Multiset::singleton(
                        slot_block::<T>(node.data_view(), N),
                    )
                    &&& node.requests() == Seq::<Event>::empty()
                    &&& node.releases() == seq![
                        Event::Release { block: slot_block::<T>(node.data_view(), N) },
                    ]
                    &&& slot_block::<T>(node.data_view(), N).free_in(old(alloc).outstanding())
                    &&& final(alloc).outstanding() == old(alloc).outstanding().add(node.blocks())
                },
                None => final(alloc).outstanding() == old(alloc).outstanding(),
            },
    {
        match alloc.allocate::<T>(N) {
            Some(data) => Some(Self::over(data)),
            None => None,
        }
    }

    /// Allocates one chained segment: first its record, then its slots. If the
    /// slots are refused the record is given back.
    fn allocate_next_node<R: MemoryResource>(alloc: &mut Allocator<R>) -> (link: Option<
        Link<T, N>,
    >)
        requires
            old(alloc).wf(),
            N > 0,
        ensures
            final(alloc).wf(),
            old(alloc).log().is_prefix_of(final(alloc).log()),
            match link {
                Some(link) => {
                    &&& link.node.wf()
                    &&& link.node.segments() == 1
                    &&& link.node.slots() == Seq::new(N as nat, |i: int| None::<T>)
                    &&& link.node.requests() == Seq::<Event>::empty()
                    &&& link.node.releases() == seq![
                        Event::Release { block: slot_block::<T>(link.node.data, N) },
                    ]
                    &&& final(alloc).log() == old(alloc).log() + seq![
                        array_request::<usize>(2, Some(link.record)),
                        array_request::<T>(N, Some(link.node.data)),
                    ]
                    &&& final(alloc).outstanding() == old(alloc).outstanding().insert(
                        record_block(link.record),
                    ).add(link.node.blocks())
                },
                None => {
                    &&& final(alloc).outstanding() == old(alloc).outstanding()
                    &&& N * size_of::<T>() <= usize::MAX ==> refusal::<T>(
                        N,
                        final(alloc).log().skip(old(alloc).log().len() as int),
                    )
                },
            },
    {
        let ghost log = alloc.log();
        match alloc.allocate::<usize>(2) {
            Some(record) => {
                match Self::with_data(alloc) {
                    Some(node) => Some(Link { record, node: Box::new(node) }),
                    None => {
                        alloc.deallocate::<usize>(record, 2);
                        proof {
                            if N * size_of::<T>() <= usize::MAX {
                                assert(alloc.log() =~= log + slots_refused::<T>(N, record));
                                lemma_log_grows(log, slots_refused::<T>(N, record));
                            }
                        }
                        None
                    },
                }
            },
            None => {
                proof {
                    let calls = seq![array_request::<usize>(2, None)];
                    assert(alloc.log() =~= log + calls);
                    lemma_log_grows(log, calls);
                }
                None
            },
        }
    }

    /// Walks to the last segment of the chain and chains `amount` fresh
    /// segments after it, each with its record and its slots allocated through
    /// `alloc`, in that order, segment by segment.
    ///
    /// All of them or none: if the resource refuses a request, what was
    /// allocated for this call is given back and the chain is as it was.
    pub fn allocate_node_chain<R: MemoryResource>(
        &mut self,
        amount: usize,
        alloc: &mut Allocator<R>,
    ) -> (outcome: Result<(), AllocationFailed<()>>)
        requires
            old(self).wf(),
            old(alloc).wf(),
        ensures
            final(self).wf(),
            final(alloc).wf(),
            final(self).data_view() == old(self).data_view(),
            old(alloc).log().is_prefix_of(final(alloc).log()),
            match outcome {
                Ok(_) => {
                    &&& final(self).segments() == old(self).segments() + amount
                    &&& final(self).slots() == old(self).slots() + Seq::new(
                        (N * amount) as nat,
                        |i: int| None::<T>,
                    )
                    &&& old(self).requests().is_prefix_of(final(self).requests())
                    &&& final(self).requests().len() == old(self).requests().len() + 2 * amount
                    &&& final(alloc).log() == old(alloc).log() + final(self).requests().skip(
                        old(self).requests().len() as int,
                    )
                    &&& old(alloc).outstanding().subset_of(final(alloc).outstanding())
                    &&& final(self).blocks() == old(self).blocks().add(
                        final(alloc).outstanding().sub(old(alloc).outstanding()),
                    )
                },
                Err(_) => {
                    &&& amount > 0
                    &&& *final(self) == *old(self)
                    &&& final(alloc).outstanding() == old(alloc).outstanding()
                    &&& abandoned::<T>(
                        N,
                        amount as nat,
                        final(alloc).log().skip(old(alloc).log().len() as int),
                    )
                },
            },
        decreases amount, old(self).segments(),
    {
        let ghost log = alloc.log();
        match &mut self.next {
            Some(link) => link.node.allocate_node_chain(amount, alloc),
            None => {
                if amount == 0 {
                    return Ok(());
                }
                match Self::allocate_next_node(alloc) {
                    Some(mut link) => {
                        let ghost asked = alloc.log();
                        let ghost own = seq![
                            array_request::<usize>(2, Some(link.record)),
                            array_request::<T>(N, Some(link.node.data)),
                        ];
                        match link.node.allocate_node_chain(amount - 1, alloc) {
                            Ok(_) => {
                                proof {
                                    assert(N + N * (amount - 1) == N * amount)
                                        by (nonlinear_arith);
                                }
                                self.next = Some(link);
                                Ok(())
                            },
                            Err(e) => {
                                let ghost failed = alloc.log();
                                let Link { record, node } = link;
                                let tail: Node<T, N> = *node;
                                tail.deallocate(alloc);
                                alloc.deallocate::<usize>(record, 2);
                                proof {
                                    let back = seq![
                                        Event::Release { block: slot_block::<T>(tail.data, N) },
                                        Event::Release { block: record_block(record) },
                                    ];
                                    let deeper = failed.skip(asked.len() as int);
                                    assert(failed =~= asked + deeper);
                                    assert(alloc.log() =~= log + (own + deeper + back));
                                    lemma_log_grows(log, own + deeper + back);
                                    lemma_abandoned_later::<T>(
                                        N,
                                        amount as nat,
                                        record,
                                        tail.data,
                                        deeper,
                                    );
                                }
                                Err(e)
                            },
                        }
                    },
                    None => {
                        proof {
                            lemma_abandoned_at_once::<T>(
                                N,
                                amount as nat,
                                alloc.log().skip(log.len() as int),
                            );
                        }
                        Err(AllocationFailed { returned: () })
                    },
                }
            },
        }
    }

    /// The chain that hangs off this segment, if any does.
    pub fn next_node(&self) -> (rest: Option<&Self>)
        ensures
            match rest {
                Some(rest) => self.next_view() == Some(*rest),
                None => self.next_view() is None,
            },
    {
        match &self.next {
            Some(link) => Some(&*link.node),
            None => None,
        }
    }

    /// The value in slot `idx` of the chain: slot `idx % N` of the segment
    /// `idx / N` links down. The slot has to exist and hold a value.
    pub fn get_data_unchecked(&self, idx: usize) -> (value: &T)
        requires
            self.wf(),
            idx < self.slots().len(),
            self.slots()[idx as int] is Some,
        ensures
            *value == self.slots()[idx as int].unwrap(),
        decreases self,
    {
        if idx < N {
            match &self.slots[idx] {
                Some(value) => value,
                None => vstd::pervasive::unreached(),
            }
        } else {
            match &self.next {
                Some(link) => link.node.get_data_unchecked(idx - N),
                None => vstd::pervasive::unreached(),
            }
        }
    }

    /// Write access to the value in slot `idx` of the chain. The slot has to
    /// exist and hold a value.
    pub fn get_data_unchecked_mut(&mut self, idx: usize) -> (value: &mut T)
        requires
            old(self).wf(),
            idx < old(self).slots().len(),
            old(self).slots()[idx as int] is Some,
        ensures
            *value == old(self).slots()[idx as int].unwrap(),
            final(self).slots() == old(self).slots().update(idx as int, Some(*final(value))),
            final(self).wf(),
            final(self).segments() == old(self).segments(),
            final(self).blocks() == old(self).blocks(),
            final(self).data_view() == old(self).data_view(),
            final(self).requests() == old(self).requests(),
            final(self).releases() == old(self).releases(),
        decreases *old(self),
    {
        if idx < N {
            match &mut self.slots[idx] {
                Some(value) => value,
                None => vstd::pervasive::unreached(),
            }
        } else {
            match &mut self.next {
                Some(link) => link.node.get_data_unchecked_mut(idx - N),
                None => vstd::pervasive::unreached(),
            }
        }
    }

    /// Puts `val` into slot `idx` of the chain, whatever the slot held. The
    /// slot has to exist.
    pub fn write_data_unchecked(&mut self, idx: usize, val: T)
        requires
            old(self).wf(),
            idx < old(self).slots().len(),
        ensures
            final(self).slots() == old(self).slots().update(idx as int, Some(val)),
            final(self).wf(),
            final(self).segments() == old(self).segments(),
            final(self).blocks() == old(self).blocks(),
            final(self).data_view() == old(self).data_view(),
            final(self).requests() == old(self).requests(),
            final(self).releases() == old(self).releases(),
        decreases *old(self),
    {
        if idx < N {
            self.slots[idx] = Some(val);
        } else {
            match &mut self.next {
                Some(link) => {
                    link.node.write_data_unchecked(idx - N, val);
                },
                None => {},
            }
        }
    }

    /// Gives back every region of the chain: those of the segments chained
    /// after this one first, the last segment before the one that leads to it
    /// and the slots of a segment before its record; then the slots of this
    /// segment. The elements still in the slots are dropped.
    pub fn deallocate<R: MemoryResource>(self, alloc: &mut Allocator<R>)
        requires
            self.wf(),
            old(alloc).wf(),
            self.blocks().subset_of(old(alloc).outstanding()),
        ensures
            final(alloc).wf(),
            final(alloc).log() == old(alloc).log() + self.releases(),
            final(alloc).outstanding() == old(alloc).outstanding().sub(self.blocks()),
        decreases self,
    {
        let Node { data, slots, next } = self;
        match next {
            Some(link) => {
                let Link { record, node } = link;
                let tail: Node<T, N> = *node;
                tail.deallocate(alloc);
                alloc.deallocate::<usize>(record, 2);
            },
            None => {},
        }
        alloc.deallocate::<T>(data, N);
    }
}

} // verus!
