use bump_gc::BumpHeap;
use bump_gc::BumpOptions;
use bump_gc::HeapError;
use bump_gc::PocketSize;

#[test]
fn new() {
    let _bump = BumpHeap::default();
}

#[test]
fn allocate_no_drop() {
    let mut bump = BumpHeap::default();
    let _one = bump.alloc_u64(1).unwrap();
}

#[test]
fn allocate_no_drop_deref() {
    let mut bump = BumpHeap::default();
    let one = bump.alloc_u64(1).unwrap();
    assert_eq!(bump.read_u64(&one).unwrap(), 1u64);
}

#[test]
fn allocate() {
    let mut bump = BumpHeap::default();
    let one_hundred = bump.alloc_u64(100).unwrap();
    assert_eq!(bump.read_u64(&one_hundred).unwrap(), 100u64);
}

#[test]
fn trigger_scavenge() {
    let mut bump = BumpHeap::default();
    let i: u64 = 1000;
    let rooted = bump.alloc_u64(i).unwrap();
    assert_eq!(bump.read_u64(&rooted).unwrap(), i);
    bump.scavenge().unwrap();
    assert_eq!(bump.read_u64(&rooted).unwrap(), i);
}

#[test]
fn allocate_a_bunch() {
    let mut bump = BumpHeap::default();
    for i in 0..4000u64 {
        let rooted = bump.alloc_u64(i).unwrap();
        assert_eq!(bump.read_u64(&rooted).unwrap(), i);
        bump.release(rooted).unwrap();
    }
}

#[test]
fn next_up_picks_smallest_class() {
    assert!(matches!(PocketSize::next_up(0), Some(PocketSize::Mini)));
    assert!(matches!(PocketSize::next_up(1), Some(PocketSize::Mini)));
    assert!(matches!(PocketSize::next_up(2), Some(PocketSize::Tiny)));
    assert!(matches!(PocketSize::next_up(32), Some(PocketSize::Tiny)));
    assert!(matches!(PocketSize::next_up(33), Some(PocketSize::Small)));
    assert!(matches!(PocketSize::next_up(128), Some(PocketSize::Small)));
    assert!(matches!(PocketSize::next_up(2048), Some(PocketSize::Medium)));
    assert!(matches!(PocketSize::next_up(8192), Some(PocketSize::Large)));
    assert!(matches!(PocketSize::next_up(32768), Some(PocketSize::Huge)));
    assert!(PocketSize::next_up(32769).is_none());
}

#[test]
fn scavenge_moves_to_tiny_pocket() {
    let mut bump = BumpHeap::default();
    let h = bump.alloc_u64(100).unwrap();
    assert_eq!(bump.read_u64(&h).unwrap(), 100u64);
    bump.scavenge().unwrap();
    assert_eq!(bump.read_u64(&h).unwrap(), 100u64);
    let d = bump.descriptor(&h).unwrap();
    assert!(matches!(d.containing_heap(), bump_gc::ContainingHeap::Intermediate(32)));
}

#[test]
fn too_large_allocation_fails() {
    let mut bump = BumpHeap::default();
    let r = bump.allocate(bump_gc::HeapValue::new(vec![0u8; 40000]));
    assert!(matches!(r, Err(HeapError::TooLarge)));
}

#[test]
fn old_region_overflow_is_fatal() {
    let mut bump = BumpHeap::new(BumpOptions::new(64, 64));
    let mut kept = Vec::new();
    let mut saw_out_of_space = false;
    for i in 0..64u64 {
        match bump.alloc_u64(i) {
            Ok(h) => kept.push(h),
            Err(e) => {
                assert_eq!(e, HeapError::OldOutOfSpace);
                saw_out_of_space = true;
                break;
            }
        }
    }
    assert!(saw_out_of_space);
}

#[test]
fn release_then_major_reclaims_pocket() {
    // an old region this small keeps fragmentation at one half after the
    // promotion, so the major cycle sweeps without compacting and the
    // reclaimed slot stays visible on its class stack
    let mut bump = BumpHeap::new(BumpOptions::new(4096, 64));
    let h = bump.alloc_u64(7).unwrap();
    bump.scavenge().unwrap();
    let before = bump.root_count();
    bump.release(h).unwrap();
    bump.major();
    assert_eq!(bump.root_count(), before - 1);
    assert_eq!(bump.stack_len(1), 1);
}

#[test]
fn retained_survive_major_cycles() {
    // 50 retained handles: each surviving u64 takes a 32-byte pocket, so the
    // 2048-byte default old region holds at most 64 survivors
    let mut bump = BumpHeap::default();
    let mut permanent = Vec::new();
    for i in 0..50u64 {
        let rooted = bump.alloc_u64(i).unwrap();
        assert_eq!(bump.read_u64(&rooted).unwrap(), i);
        permanent.push((rooted, i));
    }
    bump.major();
    for (perm, i) in &permanent {
        assert_eq!(bump.read_u64(perm).unwrap(), *i);
    }
    for i in 0..1000u64 {
        let rooted = bump.alloc_u64(i).unwrap();
        assert_eq!(bump.read_u64(&rooted).unwrap(), i);
        bump.release(rooted).unwrap();
    }
    bump.major();
    for (perm, i) in permanent {
        assert_eq!(bump.read_u64(&perm).unwrap(), i);
        bump.release(perm).unwrap();
    }
    bump.major();
}

#[test]
fn scavenge_resets_eden() {
    let mut bump = BumpHeap::default();
    let _ = bump.alloc_u64(1).unwrap();
    assert_eq!(bump.young_used(), 8);
    bump.scavenge().unwrap();
    assert_eq!(bump.young_used(), 0);
}

#[test]
fn padding_rounds_to_alignment() {
    assert_eq!(bump_gc::padding_for(6144, 4096), 2048);
    assert_eq!(bump_gc::padding_for(4096, 4096), 0);
    assert_eq!(bump_gc::padding_for(1, 4096), 4095);
}

#[test]
fn read_u64_rejects_other_sizes() {
    let mut bump = BumpHeap::default();
    let h = bump.allocate(bump_gc::HeapValue::new(vec![1u8, 2, 3, 4])).unwrap();
    assert!(matches!(bump.read_u64(&h), Err(HeapError::SizeMisalign)));
}

#[test]
fn unknown_handle_is_not_found() {
    let bump = BumpHeap::default();
    let stray = bump_gc::Rooted::new(bump_gc::AllocId::new(999));
    assert!(matches!(bump.read_u64(&stray), Err(HeapError::NoAllocationFound)));
}

#[test]
fn fast_path_advances_frontier_only() {
    let mut bump = BumpHeap::default();
    let _a = bump.alloc_u64(1).unwrap();
    let _b = bump.alloc_u64(2).unwrap();
    assert_eq!(bump.young_used(), 16);
    assert_eq!(bump.old_used(), 0);
    assert_eq!(bump.root_count(), 2);
}

#[test]
fn second_major_changes_nothing() {
    let mut bump = BumpHeap::default();
    let kept = bump.alloc_u64(11).unwrap();
    let dropped = bump.alloc_u64(22).unwrap();
    bump.scavenge().unwrap();
    bump.release(dropped).unwrap();
    bump.major();
    let roots = bump.root_count();
    let used = bump.old_used();
    let stack = bump.stack_len(1);
    bump.major();
    assert_eq!(bump.root_count(), roots);
    assert_eq!(bump.old_used(), used);
    assert_eq!(bump.stack_len(1), stack);
    assert_eq!(bump.read_u64(&kept).unwrap(), 11);
}
