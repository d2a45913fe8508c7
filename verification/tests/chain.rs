use yaap::a::Allocator;
use yaap::bump::BumpResource;
use yaap::node::Node;
use yaap::tracking::TrackingResource;

type Counted = TrackingResource<BumpResource>;

fn counted(bytes: usize) -> Allocator<Counted> {
    Allocator::new(TrackingResource::new(BumpResource::new(bytes)))
}

const WORD: usize = std::mem::size_of::<usize>();

#[test]
fn a_segment_asks_for_its_slots() {
    let mut alloc = counted(1024);
    let node = Node::<u32, 4>::with_data(&mut alloc).unwrap();
    assert_eq!(alloc.get().count(), 16);
    assert!(node.next_node().is_none());
    node.deallocate(&mut alloc);
    assert_eq!(alloc.get().count(), 0);
}

#[test]
fn a_refused_segment_leaves_nothing_behind() {
    let mut alloc = counted(15);
    assert!(Node::<u32, 4>::with_data(&mut alloc).is_none());
    assert_eq!(alloc.get().count(), 0);
    assert_eq!(alloc.get().inner().used(), 0);
}

#[test]
fn a_segment_too_large_to_count_is_refused() {
    let mut alloc = counted(1024);
    assert!(Node::<[u8; 1 << 40], { 1 << 30 }>::with_data(&mut alloc).is_none());
    assert_eq!(alloc.get().count(), 0);
}

#[test]
fn a_segment_built_over_an_address_is_empty() {
    let mut node = Node::<u8, 2>::over(64);
    assert!(node.next_node().is_none());
    node.write_data_unchecked(1, 7);
    assert_eq!(*node.get_data_unchecked(1), 7);
}

#[test]
fn chaining_asks_for_a_record_and_slots_per_segment() {
    let mut alloc = counted(1024);
    let mut node = Node::<u32, 4>::with_data(&mut alloc).unwrap();
    assert!(node.allocate_node_chain(2, &mut alloc).is_ok());
    assert_eq!(alloc.get().count(), 16 + 2 * (2 * WORD + 16));
    assert!(node.next_node().is_some());
    assert!(node.next_node().unwrap().next_node().is_some());
    assert!(node.next_node().unwrap().next_node().unwrap().next_node().is_none());
    node.deallocate(&mut alloc);
    assert_eq!(alloc.get().count(), 0);
}

#[test]
fn chaining_extends_from_the_last_segment() {
    let mut alloc = counted(1024);
    let mut node = Node::<u32, 4>::with_data(&mut alloc).unwrap();
    assert!(node.allocate_node_chain(1, &mut alloc).is_ok());
    node.write_data_unchecked(5, 55);
    assert!(node.allocate_node_chain(1, &mut alloc).is_ok());
    assert_eq!(*node.get_data_unchecked(5), 55);
    node.write_data_unchecked(11, 111);
    assert_eq!(*node.get_data_unchecked(11), 111);
    assert_eq!(*node.next_node().unwrap().get_data_unchecked(1), 55);
    assert_eq!(*node.next_node().unwrap().next_node().unwrap().get_data_unchecked(3), 111);
    node.deallocate(&mut alloc);
    assert_eq!(alloc.get().count(), 0);
}

#[test]
fn chaining_nothing_changes_nothing() {
    let mut alloc = counted(1024);
    let mut node = Node::<u32, 4>::with_data(&mut alloc).unwrap();
    assert!(node.allocate_node_chain(0, &mut alloc).is_ok());
    assert!(node.next_node().is_none());
    assert_eq!(alloc.get().count(), 16);
    node.deallocate(&mut alloc);
}

#[test]
fn chaining_is_all_or_nothing() {
    // Room for the first segment and one chained segment, not for a second.
    let mut alloc = counted(16 + 2 * WORD + 16 + 2 * WORD + 15);
    let mut node = Node::<u32, 4>::with_data(&mut alloc).unwrap();
    assert!(node.allocate_node_chain(2, &mut alloc).is_err());
    assert!(node.next_node().is_none());
    assert_eq!(alloc.get().count(), 16);
    node.deallocate(&mut alloc);
    assert_eq!(alloc.get().count(), 0);
}

#[test]
fn a_refused_record_fails_the_chain() {
    let mut alloc = counted(16 + WORD);
    let mut node = Node::<u32, 4>::with_data(&mut alloc).unwrap();
    assert!(node.allocate_node_chain(1, &mut alloc).is_err());
    assert!(node.next_node().is_none());
    assert_eq!(alloc.get().count(), 16);
    node.deallocate(&mut alloc);
}

#[test]
fn slots_are_found_segment_by_segment() {
    let mut alloc = counted(4096);
    let mut node = Node::<usize, 3>::with_data(&mut alloc).unwrap();
    assert!(node.allocate_node_chain(3, &mut alloc).is_ok());
    for i in 0..12 {
        node.write_data_unchecked(i, 100 + i);
    }
    for i in 0..12 {
        assert_eq!(*node.get_data_unchecked(i), 100 + i);
    }
    let mut segment = &node;
    for k in 0..4 {
        for j in 0..3 {
            assert_eq!(*segment.get_data_unchecked(j), 100 + 3 * k + j);
        }
        if k < 3 {
            segment = segment.next_node().unwrap();
        }
    }
    assert!(segment.next_node().is_none());
    node.deallocate(&mut alloc);
    assert_eq!(alloc.get().count(), 0);
}

#[test]
fn a_slot_can_be_changed_in_place_and_written_over() {
    let mut alloc = counted(4096);
    let mut node = Node::<String, 2>::with_data(&mut alloc).unwrap();
    assert!(node.allocate_node_chain(1, &mut alloc).is_ok());
    node.write_data_unchecked(0, String::from("a"));
    node.write_data_unchecked(3, String::from("d"));
    node.get_data_unchecked_mut(3).push('!');
    *node.get_data_unchecked_mut(0) = String::from("z");
    assert_eq!(node.get_data_unchecked(0), "z");
    assert_eq!(node.get_data_unchecked(3), "d!");
    node.write_data_unchecked(3, String::from("e"));
    assert_eq!(node.get_data_unchecked(3), "e");
    node.deallocate(&mut alloc);
    assert_eq!(alloc.get().count(), 0);
}
