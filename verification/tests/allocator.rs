use acore::allocator::buddy_allocator::BuddyAllocatorInner;
use acore::layout::Layout;

#[test]
fn tree_allocator_hands_out_aligned_blocks() {
    let mut a: BuddyAllocatorInner<8, 16> = BuddyAllocatorInner::new();
    a.init(0x1000);
    let p = a.allocate(Layout { size: 20, align: 8 });
    assert_eq!(p, 0x1000);
    assert_eq!(a.used, 32);
    assert_eq!(a.used(), 32);
    let q = a.allocate(Layout { size: 16, align: 16 });
    assert_eq!(q, 0x1020);
    assert_eq!(a.used, 48);
}

#[test]
fn tree_allocator_free_gives_the_block_back() {
    let mut a: BuddyAllocatorInner<8, 16> = BuddyAllocatorInner::new();
    a.init(0x1000);
    let layout = Layout { size: 20, align: 8 };
    let p = a.allocate(layout);
    assert_eq!(a.used, 32);
    a.dealloc(p, layout);
    assert_eq!(a.used, 0);
    assert_eq!(a.used(), 0);
    let whole = a.allocate(Layout { size: 64, align: 1 });
    assert_eq!(whole, 0x1000);
    assert_eq!(a.used, 64);
}

#[test]
fn tree_allocator_rounds_small_requests_to_the_minimum() {
    let mut a: BuddyAllocatorInner<8, 16> = BuddyAllocatorInner::new();
    a.init(0);
    let p = a.allocate(Layout { size: 1, align: 1 });
    assert_eq!(p, 0);
    assert_eq!(a.used, 16);
    let q = a.allocate(Layout { size: 1, align: 1 });
    assert_eq!(q, 16);
    assert_eq!(a.used, 32);
}

#[test]
fn tree_allocator_alignment_raises_the_block_size() {
    let mut a: BuddyAllocatorInner<8, 16> = BuddyAllocatorInner::new();
    a.init(0x100);
    let p = a.allocate(Layout { size: 4, align: 32 });
    assert_eq!(p, 0x100);
    assert_eq!(a.used, 32);
    let q = a.allocate(Layout { size: 4, align: 1 });
    assert_eq!(q, 0x120);
}

#[test]
fn tree_allocator_merges_buddies_on_free() {
    let mut a: BuddyAllocatorInner<8, 16> = BuddyAllocatorInner::new();
    a.init(0);
    let l = Layout { size: 16, align: 1 };
    let p0 = a.allocate(l);
    let p1 = a.allocate(l);
    let p2 = a.allocate(l);
    let p3 = a.allocate(l);
    assert_eq!((p0, p1, p2, p3), (0, 16, 32, 48));
    a.dealloc(p1, l);
    a.dealloc(p0, l);
    assert_eq!(a.used, 32);
    let big = a.allocate(Layout { size: 32, align: 1 });
    assert_eq!(big, 0);
    assert_eq!(a.used, 64);
}

#[test]
fn tree_allocator_blocks_in_use_never_overlap() {
    let mut a: BuddyAllocatorInner<8, 16> = BuddyAllocatorInner::new();
    a.init(0);
    let p = a.allocate(Layout { size: 16, align: 1 });
    let q = a.allocate(Layout { size: 32, align: 1 });
    let r = a.allocate(Layout { size: 16, align: 1 });
    assert_eq!((p, q, r), (0, 32, 16));
    let blocks = [(p, 16), (q, 32), (r, 16)];
    for (i, (x, xs)) in blocks.iter().enumerate() {
        for (y, ys) in blocks.iter().skip(i + 1) {
            assert!(x + xs <= *y || y + ys <= *x);
        }
    }
}

#[test]
fn tree_allocator_reports_what_it_can_serve_and_free() {
    let mut a: BuddyAllocatorInner<8, 16> = BuddyAllocatorInner::new();
    a.init(0x1000);
    assert!(a.can_serve(Layout { size: 64, align: 1 }));
    assert!(!a.can_serve(Layout { size: 65, align: 1 }));
    let l = Layout { size: 32, align: 1 };
    let p = a.allocate(l);
    assert!(!a.can_serve(Layout { size: 64, align: 1 }));
    assert!(a.can_serve(l));
    assert!(a.can_release(p, l));
    assert!(!a.can_release(p, Layout { size: 64, align: 1 }));
    assert!(!a.can_release(0x0fff, l));
    assert!(!a.can_release(0x1040, l));
    // a block that is not in use has nothing to give back
    assert!(a.can_release(0x1020, l));
}
