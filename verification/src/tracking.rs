//! A decorator that keeps count of the bytes another resource has outstanding
//! on its behalf.

use crate::a::{
    ledger, lemma_settle_push, lemma_total_bytes_insert, lemma_total_bytes_remove, total_bytes,
    Block, Event, MemoryResource,
};
use vstd::multiset::Multiset;
use vstd::prelude::*;

verus! {

/// Bytes were still outstanding when a tracking resource was wound up.
#[derive(Debug, Clone, Copy, PartialEq, Eq, Structural)]
pub struct Leak {
    pub bytes: usize,
}

/// Wraps a resource and counts the bytes of the regions issued through the
/// wrapper and not yet released.
///
/// The wrapper has a log of its own: only what passed through it is on its
/// ledger, and only that is counted. A request whose bytes would push the
/// count past `usize::MAX` is handed back to the inner resource and refused.
pub struct TrackingResource<R: MemoryResource> {
    inner: R,
    count: usize,
    log: Ghost<Seq<Event>>,
}

/// What the inner resource sees of a request made on the wrapper when the
/// wrapper's count stands at `count`: the request with the inner resource's
/// own answer, and the region coming straight back if the wrapper cannot
/// count it.
pub open spec fn passed_on(
    count: nat,
    size: usize,
    align: usize,
    inner_answer: Option<usize>,
) -> Seq<Event> {
    let request = Event::Allocate { size, align, answer: inner_answer };
    match inner_answer {
        Some(addr) => if count + size > usize::MAX {
            seq![request, Event::Release { block: Block { addr, size, align } }]
        } else {
            seq![request]
        },
        None => seq![request],
    }
}

/// The wrapper's answer to a request, given the inner resource's.
pub open spec fn counted_answer(
    count: nat,
    size: usize,
    inner_answer: Option<usize>,
) -> Option<usize> {
    if count + size > usize::MAX {
        None
    } else {
        inner_answer
    }
}

impl<R: MemoryResource> TrackingResource<R> {
    /// The wrapped resource.
    pub closed spec fn inner_view(&self) -> R {
        self.inner
    }

    /// The count the wrapper keeps.
    pub closed spec fn count_view(&self) -> nat {
        self.count as nat
    }

    /// The count is the total of the ledger.
    pub proof fn lemma_count(self)
        requires
            self.wf(),
        ensures
            self.inner_view().wf(),
            self.count_view() == total_bytes(ledger(self.log())),
            ledger(self.log()).subset_of(ledger(self.inner_view().log())),
    {
    }

    pub fn new(inner: R) -> (resource: Self)
        requires
            inner.wf(),
        ensures
            resource.wf(),
            resource.inner_view() == inner,
            resource.count_view() == 0,
            resource.log() == Seq::<Event>::empty(),
    {
        TrackingResource { inner, count: 0, log: Ghost(Seq::empty()) }
    }

    /// The bytes outstanding: allocated through the wrapper, less released
    /// through it.
    pub fn count(&self) -> (bytes: usize)
        requires
            self.wf(),
        ensures
            bytes == self.count_view(),
            bytes == total_bytes(ledger(self.log())),
    {
        self.count
    }

    /// Read access to the wrapped resource.
    pub fn inner(&self) -> (inner: &R)
        ensures
            *inner == self.inner_view(),
    {
        &self.inner
    }

    /// Winds the wrapper up: hands the inner resource back if nothing is
    /// outstanding, and reports the bytes still unreleased otherwise.
    pub fn finish(self) -> (outcome: Result<R, Leak>)
        requires
            self.wf(),
        ensures
            match outcome {
                Ok(inner) => total_bytes(ledger(self.log())) == 0 && inner == self.inner_view(),
                Err(leak) => leak.bytes > 0 && leak.bytes == total_bytes(ledger(self.log())),
            },
    {
        if self.count == 0 {
            Ok(self.inner)
        } else {
            Err(Leak { bytes: self.count })
        }
    }
}

impl<R: MemoryResource> MemoryResource for TrackingResource<R> {
    closed spec fn log(&self) -> Seq<Event> {
        self.log@
    }

    closed spec fn wf(&self) -> bool {
        &&& self.inner.wf()
        &&& ledger(self.log@).subset_of(ledger(self.inner.log()))
        &&& self.count == total_bytes(ledger(self.log@))
    }

    fn allocate_bytes(&mut self, size: usize, align: usize) -> (answer: Option<usize>)
        ensures
            final(self).count_view() == old(self).count_view() + (if answer is Some {
                size as nat
            } else {
                0
            }),
            exists|inner_answer: Option<usize>|
                {
                    &&& answer == counted_answer(old(self).count_view(), size, inner_answer)
                    &&& final(self).inner_view().log() == old(self).inner_view().log()
                        + #[trigger] passed_on(old(self).count_view(), size, align, inner_answer)
                },
    {
        let ghost before = self.inner.log();
        let inner_answer = self.inner.allocate_bytes(size, align);
        let ghost request = Event::Allocate { size, align, answer: inner_answer };
        proof {
            lemma_settle_push(Multiset::empty(), before, request);
        }
        let answer = match inner_answer {
            Some(addr) => {
                let ghost block = Block { addr, size, align };
                match self.count.checked_add(size) {
                    Some(count) => {
                        proof {
                            lemma_total_bytes_insert(ledger(self.log@), block);
                            assert forall|other: Block| #[trigger]
                                ledger(self.log@).contains(other) implies !block.overlaps(
                                other,
                            ) by {
                                assert(ledger(before).contains(other));
                            }
                        }
                        self.count = count;
                        Some(addr)
                    },
                    None => {
                        proof {
                            lemma_settle_push(
                                Multiset::empty(),
                                before.push(request),
                                Event::Release { block },
                            );
                        }
                        self.inner.deallocate_bytes(addr, size, align);
                        None
                    },
                }
            },
            None => None,
        };
        proof {
            lemma_settle_push(
                Multiset::empty(),
                self.log@,
                Event::Allocate { size, align, answer },
            );
            assert(self.inner.log() == before + passed_on(
                old(self).count_view(),
                size,
                align,
                inner_answer,
            ));
        }
        self.log = Ghost(self.log@.push(Event::Allocate { size, align, answer }));
        answer
    }

    fn deallocate_bytes(&mut self, pointer: usize, size: usize, align: usize)
        ensures
            final(self).count_view() == old(self).count_view() - size,
            final(self).inner_view().log() == old(self).inner_view().log().push(
                Event::Release { block: Block { addr: pointer, size, align } },
            ),
    {
        let ghost block = Block { addr: pointer, size, align };
        proof {
            lemma_total_bytes_remove(ledger(self.log@), block);
            lemma_settle_push(Multiset::empty(), self.log@, Event::Release { block });
            lemma_settle_push(Multiset::empty(), self.inner.log(), Event::Release { block });
        }
        self.count = self.count - size;
        self.inner.deallocate_bytes(pointer, size, align);
        self.log = Ghost(self.log@.push(Event::Release { block }));
    }
}

} // verus!
