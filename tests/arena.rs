use upb_arena::policy::{GrowthPolicy, DEFAULT_INITIAL_BLOCK, MAX_SUPPORTED_ALIGN};
use upb_arena::{Arena, FuseError, FuseGroups, Region};

fn overlaps(a: Region, b: Region) -> bool {
    a.block == b.block && a.offset < b.offset + b.len && b.offset < a.offset + a.len
}

#[test]
fn test_arena_new_and_free() {
    let mut groups = FuseGroups::new();
    let arena = Arena::new(&mut groups);
    assert!(arena.free(&mut groups));
}

#[test]
fn copy_in_keeps_value_bytes() {
    let mut groups = FuseGroups::new();
    let mut arena = Arena::new(&mut groups);
    let r = arena.copy_in(0x0102_0304_0506_0708);
    assert_eq!(r.offset % 8, 0);
    assert_eq!(arena.bytes(r), &[8u8, 7, 6, 5, 4, 3, 2, 1][..]);
    let _ = arena.allocate_bytes(5000, 4);
    assert_eq!(arena.bytes(r), &[8u8, 7, 6, 5, 4, 3, 2, 1][..]);
}

#[test]
fn copy_bytes_and_str_round_trip() {
    let mut groups = FuseGroups::new();
    let mut arena = Arena::new(&mut groups);
    let a = arena.copy_slice_in(&[1, 2, 3, 250]);
    let s = arena.copy_str_in("héllo");
    let e = arena.copy_slice_in(&[]);
    assert_eq!(arena.bytes(a), &[1u8, 2, 3, 250][..]);
    assert_eq!(arena.bytes(s), "héllo".as_bytes());
    assert_eq!(arena.bytes(e).len(), 0);
}

#[test]
fn allocations_never_overlap_and_are_aligned() {
    let mut groups = FuseGroups::new();
    let mut arena = Arena::new(&mut groups);
    let sizes = [1usize, 7, 16, 3, 200, 64, 1000, 2, 300, 5];
    let aligns = [1usize, 2, 4, 8, 16, 1, 8, 2, 16, 4];
    let mut regions: Vec<Region> = Vec::new();
    for i in 0..sizes.len() {
        let r = arena.allocate_bytes(sizes[i], aligns[i]);
        assert_eq!(r.len, sizes[i]);
        assert_eq!(r.offset % aligns[i], 0);
        regions.push(r);
    }
    for i in 0..regions.len() {
        for j in 0..regions.len() {
            if i != j {
                assert!(!overlaps(regions[i], regions[j]));
            }
        }
    }
}

#[test]
fn growth_makes_one_block_and_keeps_earlier_bytes() {
    let mut groups = FuseGroups::new();
    let mut arena = Arena::new(&mut groups);
    let first = arena.copy_slice_in(&[9u8; 10]);
    assert_eq!(first.block, 0);
    let big = arena.allocate_bytes(1000, 8);
    assert_eq!(big.block, 1);
    assert_eq!(big.offset, 0);
    assert!(!overlaps(first, big));
    assert_eq!(arena.bytes(first), &[9u8; 10][..]);
    let small = arena.allocate_bytes(DEFAULT_INITIAL_BLOCK, 1);
    assert_eq!(small.block, 2);
}

#[test]
fn growth_policy_doubles_up_to_cap() {
    let p = GrowthPolicy::configured(100, 2, 300, 8).unwrap();
    assert_eq!(p.next_block(0, 10), (100, 100));
    assert_eq!(p.next_block(100, 10), (200, 200));
    assert_eq!(p.next_block(200, 10), (300, 300));
    assert_eq!(p.next_block(300, 10), (300, 300));
    assert_eq!(p.next_block(100, 5000), (5000, 100));
    assert!(GrowthPolicy::configured(0, 2, 300, 8).is_none());
    assert!(GrowthPolicy::configured(10, 2, 300, MAX_SUPPORTED_ALIGN * 2).is_none());
}

#[test]
fn fused_memory_outlives_one_member() {
    let mut groups = FuseGroups::new();
    let mut a = Arena::new(&mut groups);
    let b = Arena::new(&mut groups);
    let before = a.copy_slice_in(b"before");
    assert_eq!(a.fuse(&b, &mut groups), Ok(()));
    let after = a.copy_slice_in(b"after");
    let id = a.raw();
    assert_eq!(groups.live_count(id), 2);
    assert!(!a.free(&mut groups));
    assert_eq!(groups.read_parked(id, before), b"before");
    assert_eq!(groups.read_parked(id, after), b"after");
    assert!(b.free(&mut groups));
}

#[test]
fn fuse_is_transitive() {
    let mut groups = FuseGroups::new();
    let a = Arena::new(&mut groups);
    let b = Arena::new(&mut groups);
    let c = Arena::new(&mut groups);
    assert_eq!(a.fuse(&b, &mut groups), Ok(()));
    assert_eq!(b.fuse(&c, &mut groups), Ok(()));
    assert_eq!(groups.find(a.raw()), groups.find(c.raw()));
    assert_eq!(groups.live_count(a.raw()), 3);
    assert!(!b.free(&mut groups));
    assert!(!a.free(&mut groups));
    assert!(c.free(&mut groups));
}

#[test]
fn fixed_arena_refuses_fusion() {
    let mut groups = FuseGroups::new();
    let mut f = Arena::with_buffer(&mut groups, vec![0u8; 64]);
    let a = Arena::new(&mut groups);
    let r = f.allocate_bytes(16, 8);
    assert_eq!(r.block, 0);
    assert_eq!(f.fuse(&a, &mut groups), Err(FuseError::FixedBuffer));
    assert_eq!(a.fuse(&f, &mut groups), Err(FuseError::FixedBuffer));
    assert_ne!(groups.find(a.raw()), groups.find(f.raw()));
    assert_eq!(groups.live_count(a.raw()), 1);
    assert!(groups.fixed(f.raw()));
    assert!(f.free(&mut groups));
    assert!(a.free(&mut groups));
}

#[test]
fn bump_allocation_follows_the_fill() {
    let mut groups = FuseGroups::new();
    let mut arena = Arena::new(&mut groups);
    let a = arena.allocate_bytes(10, 8);
    let b = arena.allocate_bytes(3, 1);
    let c = arena.allocate_bytes(8, 8);
    assert_eq!((a.block, a.offset), (0, 0));
    assert_eq!((b.block, b.offset), (0, 10));
    assert_eq!((c.block, c.offset), (0, 16));
}

#[test]
fn fuse_counts_add_and_repeat_is_no_op() {
    let mut groups = FuseGroups::new();
    let a = Arena::new(&mut groups);
    let b = Arena::new(&mut groups);
    let c = Arena::new(&mut groups);
    assert_eq!(b.fuse(&c, &mut groups), Ok(()));
    assert_eq!(a.fuse(&b, &mut groups), Ok(()));
    assert_eq!(groups.live_count(a.raw()), 3);
    assert_eq!(b.fuse(&a, &mut groups), Ok(()));
    assert_eq!(a.fuse(&a, &mut groups), Ok(()));
    assert_eq!(groups.live_count(c.raw()), 3);
    assert!(!a.free(&mut groups));
    assert_eq!(groups.live_count(b.raw()), 2);
    assert!(!b.free(&mut groups));
    assert_eq!(groups.live_count(c.raw()), 1);
    assert!(c.free(&mut groups));
    assert_eq!(groups.live_count(0), 0);
}

#[test]
fn raw_handle_reaches_the_same_blocks() {
    let mut groups = FuseGroups::new();
    let mut a = Arena::new(&mut groups);
    let r = a.copy_slice_in(b"kept");
    let id = a.into_raw(&mut groups);
    assert_eq!(groups.read_parked(id, r), b"kept");
    let mut back = Arena::from_raw(id, &mut groups);
    assert_eq!(back.raw(), id);
    assert_eq!(back.bytes(r), b"kept");
    let next = back.allocate_bytes(2, 1);
    assert_eq!((next.block, next.offset), (0, 4));
    assert_eq!(groups.live_count(id), 1);
    assert!(back.free(&mut groups));
}
