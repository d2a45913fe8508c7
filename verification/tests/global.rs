use std::collections::HashMap;
use yaap::a::{Allocator, MemoryResource};
use yaap::prelude::AllocatorAwareContainer;
use yaap::seque::Seque;
use yaap::tracking::TrackingResource;

/// Regions of the process heap. Each region is a buffer of its own, kept until
/// the region is given back.
struct Global {
    live: HashMap<usize, Vec<u8>>,
}

impl Global {
    fn new() -> Self {
        Global { live: HashMap::new() }
    }
}

impl MemoryResource for Global {
    fn allocate_bytes(&mut self, size: usize, align: usize) -> Option<usize> {
        if align == 0 {
            return None;
        }
        let buffer: Vec<u8> = Vec::with_capacity(size.checked_add(align)?);
        let base = buffer.as_ptr() as usize;
        let addr = base.checked_add((align - base % align) % align)?;
        self.live.insert(addr, buffer);
        Some(addr)
    }

    fn deallocate_bytes(&mut self, pointer: usize, _size: usize, _align: usize) {
        assert!(self.live.remove(&pointer).is_some());
    }
}

type Counted = TrackingResource<Global>;

fn counted() -> Allocator<Counted> {
    Allocator::new(TrackingResource::new(Global::new()))
}

/// Lets the sequence go and checks that the resource has all its bytes back.
fn settle<T>(c: Seque<T, Counted, 16>) {
    let res = c.release().into_inner();
    assert_eq!(res.count(), 0);
    let heap = res.finish().unwrap();
    assert!(heap.live.is_empty());
}

#[test]
fn global_none() {
    let c = Seque::<usize, Counted, 16>::with_capacity_in(0, counted()).ok().unwrap();
    settle(c);
}

#[test]
fn global_single() {
    let mut c = Seque::<usize, Counted, 16>::with_capacity_in(1, counted()).ok().unwrap();
    c.push_back(4).unwrap();
    assert_eq!(4, *c.index(0).unwrap());
    *c.index_mut(0).unwrap() = 5;
    settle(c);
}

#[test]
fn global_reallocate() {
    let mut c = Seque::<usize, Counted, 16>::with_capacity_in(1, counted()).ok().unwrap();
    for i in 0..c.node_array_len() + 1 {
        c.push_back(2 + i).unwrap();
    }
    assert_eq!(c.allocator().get().count(), 128 + 16 + 128);
    settle(c);
}

#[test]
fn global_large_allocate() {
    let mut c = Seque::<usize, Counted, 16>::with_capacity_in(16 * 2, counted()).ok().unwrap();
    for i in 0..16 + 2 {
        c.push_back(2 + i).unwrap();
    }

    let mut walk = c.iter_mut();
    while let Some(val) = walk.next() {
        *val -= 1;
    }

    let mut walk = c.iter();
    let mut i = 0;
    while let Some(val) = walk.next() {
        assert_eq!(*val, 1 + i);
        i += 1;
    }
    assert_eq!(i, 18);
    settle(c);
}

#[test]
#[should_panic(expected = "index out of bounds")]
fn global_no_push() {
    let mut c = Seque::<u8, Counted, 16>::with_capacity_in(1, counted()).ok().unwrap();
    match c.index_mut(0) {
        Ok(slot) => *slot = 5,
        Err(e) => panic!("index out of bounds: the len is {} but the idx is {}", e.length, e.index),
    }
}

#[test]
#[should_panic(expected = "index out of bounds")]
fn global_no_push_empty() {
    let mut c = Seque::<u8, Counted, 16>::with_capacity_in(0, counted()).ok().unwrap();
    match c.index_mut(0) {
        Ok(slot) => *slot = 5,
        Err(e) => panic!("index out of bounds: the len is {} but the idx is {}", e.length, e.index),
    }
}
