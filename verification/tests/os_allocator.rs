use acore::layout::Layout;
use acore::os::mm::buddy_allocator::BuddyAllocatorInner;
use acore::os::mm::linked_list::LinkedList;
use acore::os::mm::range::Range;

#[test]
fn list_allocator_splits_a_page_for_small_blocks() {
    let mut a = BuddyAllocatorInner::new(8);
    a.add(0x1000, 0x2000);
    let l = Layout { size: 16, align: 8 };
    let p = a.allocate(l);
    assert_eq!(p, 0x1000);
    let q = a.allocate(l);
    assert_eq!(q, 0x1010);
}

#[test]
fn list_allocator_returns_null_when_out_of_memory() {
    let mut a = BuddyAllocatorInner::new(8);
    a.add(0x1000, 0x2000);
    assert_eq!(a.allocate(Layout { size: 0x2000, align: 8 }), 0);
    let mut empty = BuddyAllocatorInner::new(8);
    assert_eq!(empty.allocate(Layout { size: 8, align: 8 }), 0);
}

#[test]
fn list_allocator_merges_a_freed_buddy_found_in_its_list() {
    let mut a = BuddyAllocatorInner::new(8);
    a.add(0x1000, 0x2000);
    let l = Layout { size: 16, align: 8 };
    assert_eq!(a.allocate(l), 0x1000);
    let b = a.allocate(l);
    assert_eq!(b, 0x1010);
    let c = a.allocate(l);
    assert_eq!(c, 0x1020);
    a.dealloc(b, l);
    a.dealloc(c, l);
    assert_eq!(a.allocate(Layout { size: 32, align: 8 }), 0x1020);
}

#[test]
fn list_allocator_does_not_see_a_buddy_at_the_head_of_its_list() {
    let mut a = BuddyAllocatorInner::new(8);
    a.add(0x1000, 0x2000);
    let l = Layout { size: 16, align: 8 };
    let p = a.allocate(l);
    let q = a.allocate(l);
    a.dealloc(q, l);
    a.dealloc(p, l);
    assert_eq!(a.allocate(Layout { size: 0x1000, align: 8 }), 0);
    assert_eq!(a.allocate(l), 0x1000);
}

#[test]
fn list_allocator_adds_unaligned_memory_in_aligned_blocks() {
    let mut a = BuddyAllocatorInner::new(8);
    a.add(0x1008, 0x1040);
    let l = Layout { size: 8, align: 8 };
    assert_eq!(a.allocate(l), 0x1008);
    let l16 = Layout { size: 16, align: 8 };
    assert_eq!(a.allocate(l16), 0x1010);
    let l32 = Layout { size: 32, align: 8 };
    assert_eq!(a.allocate(l32), 0x1020);
    assert_eq!(a.allocate(l), 0);
}

#[test]
fn linked_list_keeps_the_newest_block_first() {
    let mut l = LinkedList::new();
    assert!(l.is_empty());
    l.push_front(0x10);
    l.push_front(0x20);
    assert_eq!(l.find_pre(0x10), Some(0));
    assert_eq!(l.find_pre(0), Some(1));
    assert_eq!(l.find_pre(0x30), None);
    l.pop(0);
    assert_eq!(l.pop_front(), Some(0x20));
    assert_eq!(l.pop_front(), None);
    assert!(l.is_empty());
}

#[test]
fn range_yields_each_value_once() {
    let r = Range::new(3, 6);
    let mut it = r.iter();
    assert_eq!(it.next(), Some(3));
    assert_eq!(it.next(), Some(4));
    assert_eq!(it.next(), Some(5));
    assert_eq!(it.next(), None);
    assert_eq!(it.next(), None);
    let mut empty = Range::new(7, 7).iter();
    assert_eq!(empty.next(), None);
}

#[test]
fn list_allocator_checks_its_inputs() {
    let mut a = BuddyAllocatorInner::new(8);
    assert!(a.can_add(0x1000, 0x2000));
    assert!(!a.can_add(0x1001, 0x1007));
    assert!(a.can_add(0x1001, 0x1010));
    assert!(!a.can_add(0x1010, 0x1000));
    assert!(!a.can_add(usize::MAX - 3, usize::MAX));
    a.add(0x1000, 0x2000);
    let l = Layout { size: 16, align: 8 };
    assert!(a.can_serve(l));
    let p = a.allocate(l);
    assert!(a.can_release(p, l));
}

#[test]
fn linked_list_reports_its_head_and_length() {
    let mut l = LinkedList::new();
    assert_eq!(l.front(), None);
    assert_eq!(l.nodes_len(), 0);
    l.push_front(0x40);
    l.push_front(0x80);
    assert_eq!(l.front(), Some(0x80));
    assert_eq!(l.nodes_len(), 2);
}
