use kernel::allocator::{AllocErr, Allocator, Layout};
use kernel::sizes::{align_up, bin_size, fit_bin, is_power_of_two, BINS};

fn layout(size: usize, align: usize) -> Layout {
    Layout::from_size_align(size, align)
}

fn nonempty_bins(a: &Allocator) -> Vec<(usize, Vec<usize>)> {
    let mut out = Vec::new();
    for k in 0..BINS {
        let blocks = a.free_blocks(k);
        if !blocks.is_empty() {
            out.push((k, blocks));
        }
    }
    out
}

#[test]
fn init_page_is_one_top_block() {
    let a = Allocator::new(0, 4096);
    assert_eq!(nonempty_bins(&a), vec![(12, vec![0])]);
    assert_eq!(a.start(), 0);
    assert_eq!(a.end(), 4096);
}

#[test]
fn allocate_splits_page_then_dealloc_rebuilds_it() {
    let mut a = Allocator::new(0, 4096);
    assert_eq!(a.allocate(layout(100, 8)), Ok(0));
    assert_eq!(
        nonempty_bins(&a),
        vec![
            (7, vec![128]),
            (8, vec![256]),
            (9, vec![512]),
            (10, vec![1024]),
            (11, vec![2048]),
        ]
    );
    a.dealloc(0, layout(100, 8));
    assert_eq!(nonempty_bins(&a), vec![(12, vec![0])]);
}

#[test]
fn init_carves_largest_block_first() {
    let a = Allocator::new(0, 24);
    assert_eq!(nonempty_bins(&a), vec![(3, vec![16]), (4, vec![0])]);
}

#[test]
fn init_leaves_short_tail_unused() {
    let a = Allocator::new(8, 8 + 64 + 5);
    assert_eq!(nonempty_bins(&a), vec![(6, vec![8])]);
    let b = Allocator::new(100, 107);
    assert_eq!(nonempty_bins(&b), vec![]);
    let c = Allocator::new(5, 5);
    assert_eq!(nonempty_bins(&c), vec![]);
}

#[test]
fn init_repeats_the_top_bin_for_large_regions() {
    let top = 1usize << 29;
    let a = Allocator::new(0, 3 * top + 8);
    assert_eq!(
        nonempty_bins(&a),
        vec![(3, vec![3 * top]), (29, vec![2 * top, top, 0])]
    );
}

#[test]
fn init_binary_decomposition() {
    // 1000 = 512 + 256 + 128 + 64 + 32 + 8
    let a = Allocator::new(0, 1000);
    assert_eq!(
        nonempty_bins(&a),
        vec![
            (3, vec![992]),
            (5, vec![960]),
            (6, vec![896]),
            (7, vec![768]),
            (8, vec![512]),
            (9, vec![0]),
        ]
    );
}

#[test]
fn allocate_rejects_alignment_not_power_of_two() {
    let mut a = Allocator::new(0, 4096);
    assert_eq!(
        a.allocate(layout(16, 3)),
        Err(AllocErr::Unsupported { details: "layout alignment must be 2^n" })
    );
    assert_eq!(
        a.allocate(layout(16, 0)),
        Err(AllocErr::Unsupported { details: "layout alignment must be 2^n" })
    );
    assert_eq!(nonempty_bins(&a), vec![(12, vec![0])]);
}

#[test]
fn allocate_rejects_zero_size() {
    let mut a = Allocator::new(0, 4096);
    assert_eq!(
        a.allocate(layout(0, 8)),
        Err(AllocErr::Unsupported { details: "allocating size cannot be equal 0" })
    );
    assert_eq!(nonempty_bins(&a), vec![(12, vec![0])]);
}

#[test]
fn allocate_too_large_is_exhausted() {
    let mut a = Allocator::new(0, 4096);
    let l = layout((1usize << 29) + 1, 8);
    assert_eq!(a.allocate(l), Err(AllocErr::Exhausted { request: l }));
    let l = layout(8, 1usize << 30);
    assert_eq!(a.allocate(l), Err(AllocErr::Exhausted { request: l }));
    assert_eq!(nonempty_bins(&a), vec![(12, vec![0])]);
}

#[test]
fn allocate_from_used_up_region_is_exhausted() {
    let mut a = Allocator::new(0, 16);
    assert_eq!(a.allocate(layout(16, 16)), Ok(0));
    let l = layout(8, 8);
    assert_eq!(a.allocate(l), Err(AllocErr::Exhausted { request: l }));
    assert_eq!(nonempty_bins(&a), vec![]);
}

#[test]
fn allocate_larger_than_any_free_block_is_exhausted() {
    let mut a = Allocator::new(0, 24);
    let l = layout(17, 8);
    assert_eq!(a.allocate(l), Err(AllocErr::Exhausted { request: l }));
    assert_eq!(nonempty_bins(&a), vec![(3, vec![16]), (4, vec![0])]);
}

#[test]
fn consecutive_allocations_do_not_overlap() {
    let mut a = Allocator::new(0, 4096);
    let x = a.allocate(layout(100, 8)).unwrap();
    let y = a.allocate(layout(100, 8)).unwrap();
    let z = a.allocate(layout(24, 32)).unwrap();
    assert_eq!((x, y, z), (0, 128, 256));
    assert!(x + 100 <= y && y + 100 <= z);
}

#[test]
fn allocation_is_aligned() {
    let mut a = Allocator::new(0, 4096);
    let x = a.allocate(layout(8, 64)).unwrap();
    assert_eq!(x % 64, 0);
    let y = a.allocate(layout(8, 256)).unwrap();
    assert_eq!((x, y), (0, 256));
}

#[test]
fn allocation_rounds_up_from_unaligned_block() {
    // The region starts at 8, so its blocks are 8 past a multiple of 16:
    // 16 bytes aligned to 16 need a 32-byte block to fit after rounding.
    let mut a = Allocator::new(8, 8 + 64);
    assert_eq!(a.bin_for(layout(16, 16)), Some(5));
    assert_eq!(a.allocate(layout(16, 16)), Ok(16));
    assert_eq!(nonempty_bins(&a), vec![(5, vec![40])]);
}

#[test]
fn unaligned_start_allocations_do_not_overlap() {
    let mut a = Allocator::new(8, 40);
    assert_eq!(nonempty_bins(&a), vec![(5, vec![8])]);
    let p = a.allocate(layout(16, 16)).unwrap();
    assert_eq!(p, 16);
    assert!(p + 16 <= 8 + 32);
    let l = layout(8, 8);
    assert_eq!(a.allocate(l), Err(AllocErr::Exhausted { request: l }));
    let mut b = Allocator::new(8, 72);
    let x = b.allocate(layout(16, 16)).unwrap();
    let y = b.allocate(layout(8, 8)).unwrap();
    assert!(x + 16 <= y || y + 8 <= x);
    assert_eq!((x, y), (16, 40));
}

#[test]
fn round_trip_restores_free_bytes() {
    let mut a = Allocator::new(0, 1000);
    let before = nonempty_bins(&a);
    let p = a.allocate(layout(40, 16)).unwrap();
    a.dealloc(p, layout(40, 16));
    assert_eq!(nonempty_bins(&a), before);
}

#[test]
fn dealloc_merges_buddies_up_the_bins() {
    let mut a = Allocator::new(0, 64);
    assert_eq!(a.allocate(layout(8, 8)), Ok(0));
    assert_eq!(
        nonempty_bins(&a),
        vec![(3, vec![8]), (4, vec![16]), (5, vec![32])]
    );
    a.dealloc(0, layout(8, 8));
    assert_eq!(nonempty_bins(&a), vec![(6, vec![0])]);
}

#[test]
fn dealloc_without_free_buddy_just_inserts() {
    let mut a = Allocator::new(0, 64);
    let x = a.allocate(layout(8, 8)).unwrap();
    let y = a.allocate(layout(8, 8)).unwrap();
    assert_eq!((x, y), (0, 8));
    a.dealloc(x, layout(8, 8));
    assert_eq!(
        nonempty_bins(&a),
        vec![(3, vec![0]), (4, vec![16]), (5, vec![32])]
    );
    a.dealloc(y, layout(8, 8));
    assert_eq!(nonempty_bins(&a), vec![(6, vec![0])]);
}

#[test]
fn dealloc_recovers_block_from_shifted_pointer() {
    let mut a = Allocator::new(8, 8 + 64);
    let p = a.allocate(layout(16, 16)).unwrap();
    assert_eq!(p, 16);
    a.dealloc(p, layout(16, 16));
    assert_eq!(nonempty_bins(&a), vec![(6, vec![8])]);
}

#[test]
fn buddies_are_measured_from_region_start() {
    // Blocks at 24 and 32 are buddies relative to 24, though 24 is not
    // 16-aligned in absolute terms.
    let mut a = Allocator::new(24, 24 + 16);
    assert_eq!(a.allocate(layout(8, 8)), Ok(24));
    assert_eq!(nonempty_bins(&a), vec![(3, vec![32])]);
    a.dealloc(24, layout(8, 8));
    assert_eq!(nonempty_bins(&a), vec![(4, vec![24])]);
}

#[test]
fn top_bin_blocks_are_not_merged() {
    let top = 1usize << 29;
    let mut a = Allocator::new(0, 2 * top);
    assert_eq!(nonempty_bins(&a), vec![(29, vec![top, 0])]);
    let p = a.allocate(layout(top, 8)).unwrap();
    assert_eq!(p, top);
    a.dealloc(p, layout(top, 8));
    assert_eq!(nonempty_bins(&a), vec![(29, vec![top, 0])]);
}

#[test]
fn size_class_helpers() {
    assert_eq!(bin_size(3), 8);
    assert_eq!(bin_size(12), 4096);
    assert!(is_power_of_two(1));
    assert!(is_power_of_two(64));
    assert!(!is_power_of_two(0));
    assert!(!is_power_of_two(96));
    assert_eq!(fit_bin(100, 8), Some(7));
    assert_eq!(fit_bin(1, 1), Some(3));
    assert_eq!(fit_bin(8, 32), Some(5));
    assert_eq!(fit_bin(1 << 29, 1), Some(29));
    assert_eq!(fit_bin((1 << 29) + 1, 1), None);
    assert_eq!(align_up(9, 8), 16);
    assert_eq!(align_up(16, 8), 16);
}

fn total_free(a: &Allocator) -> usize {
    (0..BINS).map(|k| a.free_blocks(k).len() << k).sum()
}

#[test]
fn blocks_stay_aligned_to_their_bin_from_start() {
    let start = 40;
    let mut a = Allocator::new(start, start + 5000);
    let mut held = Vec::new();
    for (size, align) in [(24, 8), (100, 4), (8, 8), (700, 64), (3, 1), (64, 16)] {
        let p = a.allocate(layout(size, align)).unwrap();
        held.push((p, size, align));
    }
    a.dealloc(held[1].0, layout(held[1].1, held[1].2));
    a.dealloc(held[4].0, layout(held[4].1, held[4].2));
    for k in 0..BINS {
        for b in a.free_blocks(k) {
            assert!(k >= 3);
            assert_eq!((b - start) % (1 << k), 0);
            assert!(b + (1 << k) <= start + 5000);
        }
    }
}

#[test]
fn split_then_merge_restores_block() {
    let mut a = Allocator::new(0, 64);
    assert_eq!(a.allocate(layout(32, 32)), Ok(0));
    assert_eq!(nonempty_bins(&a), vec![(5, vec![32])]);
    a.dealloc(0, layout(32, 32));
    assert_eq!(nonempty_bins(&a), vec![(6, vec![0])]);
}

#[test]
fn total_free_bytes_follow_allocations() {
    let mut a = Allocator::new(0, 1000);
    assert_eq!(total_free(&a), 1000);
    let p = a.allocate(layout(100, 8)).unwrap();
    assert_eq!(total_free(&a), 1000 - 128);
    let q = a.allocate(layout(5, 8)).unwrap();
    assert_eq!(total_free(&a), 1000 - 128 - 8);
    a.dealloc(p, layout(100, 8));
    assert_eq!(total_free(&a), 1000 - 8);
    a.dealloc(q, layout(5, 8));
    assert_eq!(total_free(&a), 1000);
}

#[test]
fn describe_names_each_bin() {
    let a = Allocator::new(0, 24);
    let text = a.describe();
    assert!(text.starts_with("Allocator { bin0 (must be empty): [], bin1 (must be empty): [], "));
    assert!(text.contains(", bin3 (8): [16], bin4 (16): [0], bin5 (32): [], "));
    assert!(text.contains(", bin10 (1K): [], "));
    assert!(text.ends_with(", bin28 (256M): [], bin29 (512M): [] }"));
    let b = Allocator::new(0, 1 << 30);
    assert!(b.describe().ends_with("bin29 (512M): [536870912, 0] }"));
}
