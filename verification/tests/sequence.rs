use std::cell::Cell;
use std::rc::Rc;
use yaap::a::{Allocator, MemoryResource};
use yaap::bump::BumpResource;
use yaap::error::IndexOutOfBounds;
use yaap::prelude::AllocatorAwareContainer;
use yaap::seque::Seque;
use yaap::tracking::TrackingResource;

type Counted = TrackingResource<BumpResource>;

fn counted(bytes: usize) -> Allocator<Counted> {
    Allocator::new(TrackingResource::new(BumpResource::new(bytes)))
}

const WORD: usize = std::mem::size_of::<usize>();

fn capacity_for<const N: usize>(requested: usize) -> usize {
    let c = Seque::<u8, Counted, N>::with_capacity_in(requested, counted(1 << 20)).ok().unwrap();
    assert!(c.is_empty());
    assert_eq!(c.len(), 0);
    c.capacity()
}

#[test]
fn a_request_within_one_segment_gets_one_segment() {
    assert_eq!(capacity_for::<16>(0), 16);
    assert_eq!(capacity_for::<16>(1), 16);
    assert_eq!(capacity_for::<16>(15), 16);
    assert_eq!(capacity_for::<16>(16), 16);
    assert_eq!(capacity_for::<1>(0), 1);
    assert_eq!(capacity_for::<1>(1), 1);
}

#[test]
fn a_larger_request_gets_the_fewest_segments_that_hold_it() {
    assert_eq!(capacity_for::<16>(17), 32);
    assert_eq!(capacity_for::<16>(31), 32);
    assert_eq!(capacity_for::<16>(32), 32);
    assert_eq!(capacity_for::<16>(33), 48);
    assert_eq!(capacity_for::<16>(48), 48);
    assert_eq!(capacity_for::<16>(49), 64);
    assert_eq!(capacity_for::<16>(1000), 1008);
    assert_eq!(capacity_for::<1>(2), 2);
    assert_eq!(capacity_for::<1>(7), 7);
    assert_eq!(capacity_for::<3>(4), 6);
    assert_eq!(capacity_for::<3>(6), 6);
    assert_eq!(capacity_for::<3>(7), 9);
}

#[test]
fn construction_allocates_every_segment_at_once() {
    let c = Seque::<usize, Counted, 16>::with_capacity_in(40, counted(4096)).ok().unwrap();
    assert_eq!(c.capacity(), 48);
    assert_eq!(c.allocator().get().count(), 3 * 16 * WORD + 2 * 2 * WORD);
    let res = c.release().into_inner();
    assert_eq!(res.count(), 0);
}

#[test]
fn seventeen_pushes_into_one_segment_of_sixteen() {
    let mut c = Seque::<i32, Counted, 16>::with_capacity_in(1, counted(4096)).ok().unwrap();
    assert_eq!(c.capacity(), 16);
    c.push_back(4).unwrap();
    assert_eq!(*c.index(0).unwrap(), 4);
    for v in 0..15 {
        c.push_back(100 + v).unwrap();
        assert_eq!(c.capacity(), 16);
    }
    assert_eq!(c.len(), 16);
    c.push_back(-17).unwrap();
    assert_eq!(c.capacity(), 32);
    assert_eq!(c.len(), 17);
    assert_eq!(*c.index(16).unwrap(), -17);
    assert_eq!(*c.index(0).unwrap(), 4);
    assert_eq!(*c.index(15).unwrap(), 114);
}

#[test]
fn a_request_for_nothing_still_gets_a_segment() {
    let c = Seque::<u64, Counted, 16>::with_capacity_in(0, counted(4096)).ok().unwrap();
    assert_eq!(c.capacity(), 16);
    assert_eq!(c.len(), 0);
    assert!(c.is_empty());
    assert_eq!(c.node_array_len(), 16);
    assert_eq!(c.allocator().get().count(), 16 * 8);
    assert_eq!(c.index(0).err(), Some(IndexOutOfBounds { length: 0, index: 0 }));
    assert!(c.iter().next().is_none());
}

#[test]
fn growth_is_one_segment_at_a_time() {
    let mut c = Seque::<u8, Counted, 4>::with_capacity_in(0, counted(4096)).ok().unwrap();
    let mut capacities = Vec::new();
    for i in 0..21 {
        c.push_back(i).unwrap();
        capacities.push(c.capacity());
    }
    assert_eq!(
        capacities,
        vec![4, 4, 4, 4, 8, 8, 8, 8, 12, 12, 12, 12, 16, 16, 16, 16, 20, 20, 20, 20, 24]
    );
    assert_eq!(c.allocator().get().count(), 6 * 4 + 5 * 2 * WORD);
}

#[test]
fn reading_gives_what_was_last_written() {
    let mut c = Seque::<String, Counted, 3>::with_capacity_in(2, counted(4096)).ok().unwrap();
    for i in 0..10 {
        c.push_back(format!("v{}", i)).unwrap();
    }
    for i in 0..10 {
        assert_eq!(c.index(i).unwrap(), &format!("v{}", i));
    }
    *c.index_mut(4).unwrap() = String::from("four");
    c.index_mut(9).unwrap().push_str("!");
    *c.index_mut(4).unwrap() = String::from("vier");
    c.push_back(String::from("v10")).unwrap();
    for i in 0..11 {
        let expected = match i {
            4 => String::from("vier"),
            9 => String::from("v9!"),
            _ => format!("v{}", i),
        };
        assert_eq!(c.index(i).unwrap(), &expected);
    }
}

#[test]
fn reading_past_the_end_reports_length_and_index() {
    let mut c = Seque::<u8, Counted, 16>::with_capacity_in(1, counted(4096)).ok().unwrap();
    assert_eq!(c.index(0).err(), Some(IndexOutOfBounds { length: 0, index: 0 }));
    assert_eq!(c.index_mut(3).err(), Some(IndexOutOfBounds { length: 0, index: 3 }));
    c.push_back(1).unwrap();
    c.push_back(2).unwrap();
    assert!(c.index(1).is_ok());
    assert_eq!(c.index(2).err(), Some(IndexOutOfBounds { length: 2, index: 2 }));
    assert_eq!(c.index(15).err(), Some(IndexOutOfBounds { length: 2, index: 15 }));
    assert_eq!(c.index(16).err(), Some(IndexOutOfBounds { length: 2, index: 16 }));
    assert_eq!(
        c.index_mut(usize::MAX).err(),
        Some(IndexOutOfBounds { length: 2, index: usize::MAX })
    );
    assert_eq!(c.len(), 2);
    assert_eq!(*c.index(0).unwrap(), 1);
    assert_eq!(*c.index(1).unwrap(), 2);
}

#[test]
fn a_walk_gives_every_element_once_in_order() {
    for m in [0usize, 1, 3, 4, 5, 8, 9, 12, 13] {
        let mut c = Seque::<usize, Counted, 4>::with_capacity_in(12, counted(4096)).ok().unwrap();
        for i in 0..m {
            c.push_back(10 * i).unwrap();
        }
        let mut walk = c.iter();
        assert_eq!(walk.size_hint(), (0, Some(m)));
        for i in 0..m {
            assert_eq!(walk.next(), Some(&(10 * i)));
        }
        assert_eq!(walk.next(), None);
        assert_eq!(walk.next(), None);
        assert_eq!(walk.size_hint(), (0, Some(m)));
    }
}

#[test]
fn every_walk_starts_afresh() {
    let mut c = Seque::<u8, Counted, 2>::with_capacity_in(0, counted(4096)).ok().unwrap();
    for i in 0..5 {
        c.push_back(i).unwrap();
    }
    let mut first = c.iter();
    assert_eq!(first.next(), Some(&0));
    assert_eq!(first.next(), Some(&1));
    let mut second = c.iter();
    assert_eq!(second.next(), Some(&0));
    assert_eq!(first.next(), Some(&2));
    assert_eq!(second.next(), Some(&1));
}

#[test]
fn what_a_mutable_walk_writes_is_seen_afterwards() {
    let mut c = Seque::<i64, Counted, 4>::with_capacity_in(0, counted(4096)).ok().unwrap();
    for i in 0..10 {
        c.push_back(i).unwrap();
    }
    let mut walk = c.iter_mut();
    assert_eq!(walk.size_hint(), (0, Some(10)));
    let mut steps = 0;
    while let Some(value) = walk.next() {
        assert_eq!(*value, steps);
        *value = -*value;
        steps += 1;
    }
    assert_eq!(steps, 10);
    assert!(walk.next().is_none());

    let mut walk = c.iter();
    for i in 0..10 {
        assert_eq!(walk.next(), Some(&-i));
        assert_eq!(*c.index(i as usize).unwrap(), -i);
    }
    assert_eq!(walk.next(), None);
    assert_eq!(c.len(), 10);
    assert_eq!(c.capacity(), 12);
}

#[test]
fn a_mutable_walk_can_stop_early() {
    let mut c = Seque::<u8, Counted, 4>::with_capacity_in(0, counted(4096)).ok().unwrap();
    for i in 0..6 {
        c.push_back(i).unwrap();
    }
    {
        let mut walk = c.iter_mut();
        *walk.next().unwrap() = 10;
        *walk.next().unwrap() = 11;
    }
    let mut seen = Vec::new();
    let mut walk = c.iter();
    while let Some(v) = walk.next() {
        seen.push(*v);
    }
    assert_eq!(seen, vec![10, 11, 2, 3, 4, 5]);
}

#[test]
fn releasing_gives_every_byte_back() {
    let mut c = Seque::<usize, Counted, 16>::with_capacity_in(1, counted(4096)).ok().unwrap();
    assert_eq!(c.allocator().get().count(), 16 * WORD);
    for i in 0..33 {
        c.push_back(i).unwrap();
    }
    assert_eq!(c.capacity(), 48);
    assert_eq!(c.allocator().get().count(), 3 * 16 * WORD + 2 * 2 * WORD);
    let res = c.release().into_inner();
    assert_eq!(res.count(), 0);
    assert!(res.finish().is_ok());
}

#[test]
fn releasing_leaves_what_was_outstanding_before() {
    let mut alloc = counted(4096);
    let kept = alloc.allocate_bytes(24, 8).unwrap();
    let mut c = Seque::<u16, Counted, 8>::with_capacity_in(20, alloc).ok().unwrap();
    for i in 0..30 {
        c.push_back(i).unwrap();
    }
    assert_eq!(c.allocator().get().count(), 24 + 4 * 16 + 3 * 2 * WORD);
    let mut alloc = c.release();
    assert_eq!(alloc.get().count(), 24);
    alloc.deallocate_bytes(kept, 24, 8);
    assert_eq!(alloc.get().count(), 0);
}

#[test]
fn dropping_without_releasing_leaves_the_bytes_outstanding() {
    let mut res = TrackingResource::new(BumpResource::new(4096));
    assert_eq!(res.allocate_bytes(16 * WORD, WORD), Some(0));
    // What a sequence of one segment holds, never given back:
    assert_eq!(res.finish().err().map(|leak| leak.bytes), Some(16 * WORD));
}

#[test]
fn a_refused_first_segment_fails_construction() {
    let failed = Seque::<usize, Counted, 16>::with_capacity_in(1, counted(16 * WORD - 1));
    let alloc = failed.err().unwrap().returned;
    assert_eq!(alloc.get().count(), 0);
    assert_eq!(alloc.get().inner().used(), 0);
}

#[test]
fn a_refused_later_segment_fails_construction_and_gives_the_rest_back() {
    // Room for two segments and their record, and for the record of a third.
    let room = 2 * 16 * WORD + 2 * 2 * WORD;
    let failed = Seque::<usize, Counted, 16>::with_capacity_in(33, counted(room));
    let alloc = failed.err().unwrap().returned;
    assert_eq!(alloc.get().count(), 0);
    assert_eq!(alloc.get().inner().used(), room);

    let fits = Seque::<usize, Counted, 16>::with_capacity_in(32, counted(room));
    assert_eq!(fits.ok().unwrap().capacity(), 32);
}

#[test]
fn a_capacity_past_the_largest_number_fails_construction() {
    let failed = Seque::<u8, Counted, 16>::with_capacity_in(usize::MAX, counted(4096));
    let alloc = failed.err().unwrap().returned;
    assert_eq!(alloc.get().count(), 0);
    assert_eq!(alloc.get().inner().used(), 0);

    let failed = Seque::<u8, Counted, 16>::with_capacity_in(usize::MAX - 14, counted(4096));
    assert!(failed.is_err());
}

#[test]
fn a_capacity_no_resource_can_back_fails_construction() {
    let failed = Seque::<u8, Counted, 1>::with_capacity_in(usize::MAX, counted(64));
    let alloc = failed.err().unwrap().returned;
    assert_eq!(alloc.get().count(), 0);
}

#[test]
fn a_segment_too_large_to_count_fails_construction() {
    let failed = Seque::<[u8; 1 << 40], Counted, { 1 << 30 }>::with_capacity_in(1, counted(64));
    let alloc = failed.err().unwrap().returned;
    assert_eq!(alloc.get().inner().used(), 0);
}

#[test]
fn a_refused_segment_fails_the_push_and_changes_nothing() {
    let mut c = Seque::<usize, Counted, 16>::with_capacity_in(1, counted(16 * WORD + 2 * WORD))
        .ok()
        .unwrap();
    for i in 0..16 {
        c.push_back(i).unwrap();
    }
    let failed = c.push_back(99);
    assert_eq!(failed.err().map(|e| e.returned), Some(99));
    assert_eq!(c.len(), 16);
    assert_eq!(c.capacity(), 16);
    assert_eq!(c.allocator().get().count(), 16 * WORD);
    for i in 0..16 {
        assert_eq!(*c.index(i).unwrap(), i);
    }
    assert!(c.index(16).is_err());
    assert_eq!(c.push_back(100).err().map(|e| e.returned), Some(100));
    let res = c.release().into_inner();
    assert_eq!(res.count(), 0);
}

#[test]
fn elements_without_size_take_no_room() {
    let mut c = Seque::<(), Counted, 4>::with_capacity_in(0, counted(2 * WORD)).ok().unwrap();
    for _ in 0..8 {
        c.push_back(()).unwrap();
    }
    assert_eq!(c.capacity(), 8);
    assert_eq!(c.allocator().get().count(), 2 * WORD);
    assert_eq!(c.push_back(()).err().map(|e| e.returned), Some(()));
    assert_eq!(c.len(), 8);
}

#[test]
fn segments_of_one_slot_work() {
    let mut c = Seque::<u32, Counted, 1>::with_capacity_in(3, counted(4096)).ok().unwrap();
    assert_eq!(c.capacity(), 3);
    for i in 0..5 {
        c.push_back(i * i).unwrap();
    }
    assert_eq!(c.capacity(), 5);
    let mut walk = c.iter();
    for i in 0..5 {
        assert_eq!(walk.next(), Some(&(i * i)));
    }
    assert_eq!(walk.next(), None);
}

#[test]
fn the_handle_can_be_seen_through_the_trait() {
    fn used_by<C: AllocatorAwareContainer<Resource = BumpResource>>(container: &C) -> usize {
        container.allocator().get().used()
    }
    let alloc = Allocator::new(BumpResource::new(64));
    let c = Seque::<u8, BumpResource, 16>::with_capacity_in(0, alloc).ok().unwrap();
    assert_eq!(used_by(&c), 16);
}

/// Counts itself in while it lives.
struct Tally(Rc<Cell<usize>>);

impl Tally {
    fn new(alive: &Rc<Cell<usize>>) -> Self {
        alive.set(alive.get() + 1);
        Tally(Rc::clone(alive))
    }
}

impl Drop for Tally {
    fn drop(&mut self) {
        self.0.set(self.0.get() - 1);
    }
}

#[test]
fn releasing_drops_the_elements() {
    let alive = Rc::new(Cell::new(0));
    let mut c = Seque::<Tally, Counted, 4>::with_capacity_in(0, counted(4096)).ok().unwrap();
    for _ in 0..10 {
        assert!(c.push_back(Tally::new(&alive)).is_ok());
    }
    assert_eq!(alive.get(), 10);
    let res = c.release().into_inner();
    assert_eq!(alive.get(), 0);
    assert_eq!(res.count(), 0);
}

#[test]
fn dropping_drops_the_elements() {
    let alive = Rc::new(Cell::new(0));
    {
        let mut c =
            Seque::<Tally, Counted, 4>::with_capacity_in(0, counted(4096)).ok().unwrap();
        for _ in 0..10 {
            assert!(c.push_back(Tally::new(&alive)).is_ok());
        }
        assert_eq!(alive.get(), 10);
    }
    assert_eq!(alive.get(), 0);
}

#[test]
fn writing_over_an_element_drops_the_old_one() {
    let alive = Rc::new(Cell::new(0));
    let mut c = Seque::<Tally, Counted, 4>::with_capacity_in(0, counted(4096)).ok().unwrap();
    assert!(c.push_back(Tally::new(&alive)).is_ok());
    assert_eq!(alive.get(), 1);
    *c.index_mut(0).unwrap() = Tally::new(&alive);
    assert_eq!(alive.get(), 1);
    drop(c);
    assert_eq!(alive.get(), 0);
}

#[test]
fn a_refused_push_hands_the_value_back_alive() {
    let alive = Rc::new(Cell::new(0));
    let room = 4 * std::mem::size_of::<Tally>();
    let mut c = Seque::<Tally, Counted, 4>::with_capacity_in(0, counted(room)).ok().unwrap();
    for _ in 0..4 {
        assert!(c.push_back(Tally::new(&alive)).is_ok());
    }
    let back = c.push_back(Tally::new(&alive)).err().unwrap().returned;
    assert_eq!(alive.get(), 5);
    drop(back);
    assert_eq!(alive.get(), 4);
}
