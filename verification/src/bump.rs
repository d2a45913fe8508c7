//! A resource over a fixed range of addresses that only ever moves forward.

use crate::a::{ledger, lemma_settle_push, Block, Event, MemoryResource};
use vstd::arithmetic::div_mod::{lemma_fundamental_div_mod, lemma_mod_multiples_basic};
use vstd::multiset::Multiset;
use vstd::prelude::*;

verus! {

/// The first multiple of `align` at or after `offset`.
pub open spec fn align_up(offset: nat, align: nat) -> nat
    recommends
        align > 0,
{
    if offset % align == 0 {
        offset
    } else {
        (offset + (align - offset % align)) as nat
    }
}

/// `align_up` names a multiple of `align`, no smaller than `offset`, and the
/// nearest such.
pub proof fn lemma_align_up(offset: nat, align: nat)
    requires
        align > 0,
    ensures
        align_up(offset, align) % align == 0,
        offset <= align_up(offset, align) < offset + align,
{
    let o = offset as int;
    let d = align as int;
    if o % d != 0 {
        lemma_fundamental_div_mod(o, d);
        assert(o + (d - o % d) == d * (o / d + 1)) by (nonlinear_arith)
            requires
                o == d * (o / d) + o % d,
        ;
        lemma_mod_multiples_basic(o / d + 1, d);
    }
}

/// Where a bump resource with `used` of its `capacity` bytes taken places a
/// request, if it still has the room.
pub open spec fn bump_placement(used: nat, capacity: nat, size: nat, align: nat) -> Option<nat> {
    if align > 0 && align_up(used, align) + size <= capacity {
        Some(align_up(used, align))
    } else {
        None
    }
}

/// A bump resource over the addresses `0 .. capacity`.
///
/// A request is placed at the first aligned address at or after the cursor
/// and moves the cursor past it. Releasing a region gives nothing back: the
/// cursor never retreats, and once the range is used up every request that
/// needs room is refused.
pub struct BumpResource {
    capacity: usize,
    used: usize,
    log: Ghost<Seq<Event>>,
}

impl BumpResource {
    /// The number of bytes in the range.
    pub closed spec fn capacity_view(&self) -> nat {
        self.capacity as nat
    }

    /// The position of the cursor: every byte before it is spent.
    pub closed spec fn used_view(&self) -> nat {
        self.used as nat
    }

    pub fn new(capacity: usize) -> (resource: Self)
        ensures
            resource.wf(),
            resource.capacity_view() == capacity,
            resource.used_view() == 0,
            resource.log() == Seq::<Event>::empty(),
    {
        BumpResource { capacity, used: 0, log: Ghost(Seq::empty()) }
    }

    pub fn capacity(&self) -> (bytes: usize)
        ensures
            bytes == self.capacity_view(),
    {
        self.capacity
    }

    pub fn used(&self) -> (bytes: usize)
        ensures
            bytes == self.used_view(),
    {
        self.used
    }

    /// Moves the cursor past the request if the range has the room for it.
    fn place(&mut self, size: usize, align: usize) -> (answer: Option<usize>)
        requires
            old(self).used <= old(self).capacity,
        ensures
            final(self).capacity == old(self).capacity,
            final(self).log == old(self).log,
            old(self).used <= final(self).used <= final(self).capacity,
            match bump_placement(
                old(self).used as nat,
                old(self).capacity as nat,
                size as nat,
                align as nat,
            ) {
                Some(addr) => {
                    &&& answer == Some(addr as usize)
                    &&& final(self).used == addr + size
                    &&& old(self).used <= addr
                    &&& (Block { addr: addr as usize, size, align }).well_placed()
                },
                None => answer is None && final(self).used == old(self).used,
            },
    {
        if align == 0 {
            return None;
        }
        proof {
            lemma_align_up(self.used as nat, align as nat);
        }
        let rest: usize = self.used % align;
        let start: usize = if rest == 0 {
            self.used
        } else if align - rest <= self.capacity - self.used {
            self.used + (align - rest)
        } else {
            return None;
        };
        if size > self.capacity - start {
            return None;
        }
        self.used = start + size;
        Some(start)
    }
}

impl MemoryResource for BumpResource {
    closed spec fn log(&self) -> Seq<Event> {
        self.log@
    }

    closed spec fn wf(&self) -> bool {
        &&& self.used <= self.capacity
        &&& forall|block: Block| #[trigger]
            ledger(self.log@).contains(block) ==> block.addr + block.size <= self.used
    }

    fn allocate_bytes(&mut self, size: usize, align: usize) -> (answer: Option<usize>)
        ensures
            final(self).capacity_view() == old(self).capacity_view(),
            match bump_placement(
                old(self).used_view(),
                old(self).capacity_view(),
                size as nat,
                align as nat,
            ) {
                Some(addr) => answer == Some(addr as usize) && final(self).used_view() == addr
                    + size,
                None => answer is None && final(self).used_view() == old(self).used_view(),
            },
    {
        let answer = self.place(size, align);
        let ghost event = Event::Allocate { size, align, answer };
        proof {
            lemma_settle_push(Multiset::empty(), self.log@, event);
            assert forall|block: Block| #[trigger]
                ledger(self.log@.push(event)).contains(block) implies block.addr + block.size
                <= self.used by {
                if !ledger(self.log@).contains(block) {
                    assert(block == Block { addr: answer.unwrap(), size, align });
                }
            }
        }
        self.log = Ghost(self.log@.push(event));
        answer
    }

    fn deallocate_bytes(&mut self, pointer: usize, size: usize, align: usize)
        ensures
            final(self).capacity_view() == old(self).capacity_view(),
            final(self).used_view() == old(self).used_view(),
    {
        let ghost event = Event::Release { block: Block { addr: pointer, size, align } };
        proof {
            lemma_settle_push(Multiset::empty(), self.log@, event);
            assert forall|block: Block| #[trigger]
                ledger(self.log@.push(event)).contains(block) implies ledger(
                self.log@,
            ).contains(block) by {}
        }
        self.log = Ghost(self.log@.push(event));
    }
}

} // verus!
