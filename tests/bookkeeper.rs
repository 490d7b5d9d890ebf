use ralloc::{aligner, canonicalize_brk, Block, Bookkeeper, Segment};

fn entries(bk: &Bookkeeper) -> Vec<Block> {
    let mut v = Vec::new();
    for i in 0..bk.len() {
        v.push(bk.get(i));
    }
    v
}

fn held_free(bk: &Bookkeeper, b: &Block) -> bool {
    entries(bk).iter().any(|e| e.start <= b.start && b.start + b.size <= e.start + e.size)
}

fn blk(start: usize, size: usize) -> Block {
    Block { start, size }
}

/// A bookkeeper whose buffer lies far below a segment starting at 4096.
fn setup(entries_cap: usize) -> (Bookkeeper, Segment) {
    (Bookkeeper::new(blk(0, entries_cap * 16)), Segment::new(4096, 1 << 20))
}

#[test]
fn aligner_pads_to_next_multiple() {
    assert_eq!(aligner(0, 8), 0);
    assert_eq!(aligner(3, 8), 5);
    assert_eq!(aligner(16, 8), 0);
    assert_eq!(aligner(17, 16), 15);
    assert_eq!(aligner(12345, 1), 0);
}

#[test]
fn canonicalize_brk_rounds_up() {
    assert_eq!(canonicalize_brk(1), 200);
    assert_eq!(canonicalize_brk(100), 200);
    assert_eq!(canonicalize_brk(300), 600);
    assert_eq!(canonicalize_brk(1000), 1500);
}

#[test]
fn block_split_align_merge() {
    let b = blk(10, 30);
    assert_eq!(b.split(12), (blk(10, 12), blk(22, 18)));
    assert_eq!(b.align(8), Some((blk(10, 6), blk(16, 24))));
    assert_eq!(blk(10, 3).align(8), None);
    let mut l = blk(0, 10);
    let mut r = blk(10, 5);
    assert!(l.left_to(&r));
    assert_eq!(l.merge_right(&mut r), Ok(()));
    assert_eq!(l, blk(0, 15));
    assert_eq!(r, blk(15, 0));
    let mut far = blk(20, 5);
    assert_eq!(l.merge_right(&mut far), Err(()));
    assert_eq!(l, blk(0, 15));
    assert!(blk(24, 1).aligned_to(8));
    assert!(!blk(25, 1).aligned_to(8));
    assert_eq!(blk(4, 6).end(), 10);
    assert_eq!(blk(4, 6).empty_right(), blk(10, 0));
    assert_eq!(blk(4, 6).empty_left(), blk(4, 0));
    assert!(blk(4, 0).is_empty());
}

#[test]
fn first_allocation_requests_canonical_size() {
    let (mut bk, mut seg) = setup(64);
    let b = bk.allocate(&mut seg, 100, 1).unwrap();
    assert_eq!(b, blk(4096, 100));
    assert_eq!(seg.end, 4096 + 200);
    assert_eq!(entries(&bk), vec![blk(4196, 100)]);
    assert!(bk.check());
}

#[test]
fn fresh_allocation_pads_alignment() {
    let mut bk = Bookkeeper::new(blk(0, 1024));
    let mut seg = Segment::new(4100, 1 << 20);
    let b = bk.allocate(&mut seg, 10, 16).unwrap();
    assert_eq!(b, blk(4112, 10));
    assert_eq!(seg.end, 4100 + 12 + 200);
    assert_eq!(entries(&bk), vec![blk(4100, 12), blk(4122, 190)]);
    assert!(bk.check());
}

#[test]
fn free_then_allocate_reuses_address() {
    let (mut bk, mut seg) = setup(64);
    let b = bk.allocate(&mut seg, 100, 8).unwrap();
    assert!(bk.free(&mut seg, b));
    assert_eq!(entries(&bk), vec![blk(4096, 200)]);
    let c = bk.allocate(&mut seg, 100, 8).unwrap();
    assert_eq!(c.start, b.start);
    assert_eq!(seg.end, 4096 + 200);
}

fn two_halves() -> (Bookkeeper, Segment, Block, Block) {
    let (mut bk, mut seg) = setup(64);
    let x = bk.allocate(&mut seg, 100, 1).unwrap();
    let y = bk.allocate(&mut seg, 100, 1).unwrap();
    assert_eq!(y, blk(4196, 100));
    assert_eq!(bk.len(), 0);
    let (a, b) = x.split(50);
    (bk, seg, a, b)
}

#[test]
fn coalesce_left_then_right() {
    let (mut bk, mut seg, a, b) = two_halves();
    assert!(bk.free(&mut seg, a));
    assert!(bk.free(&mut seg, b));
    assert_eq!(entries(&bk), vec![blk(4096, 100)]);
    assert!(bk.check());
}

#[test]
fn coalesce_right_then_left() {
    let (mut bk, mut seg, a, b) = two_halves();
    assert!(bk.free(&mut seg, b));
    assert!(bk.free(&mut seg, a));
    assert_eq!(entries(&bk), vec![blk(4096, 100)]);
    assert!(bk.check());
}

#[test]
fn free_empty_block_is_noop() {
    let (mut bk, mut seg) = setup(64);
    assert!(bk.free(&mut seg, blk(5000, 0)));
    assert_eq!(bk.len(), 0);
}

#[test]
fn free_between_entries_inserts() {
    let (mut bk, mut seg) = setup(64);
    let a = bk.allocate(&mut seg, 10, 1).unwrap();
    let b = bk.allocate(&mut seg, 10, 1).unwrap();
    let c = bk.allocate(&mut seg, 10, 1).unwrap();
    assert_eq!((a.start, b.start, c.start), (4096, 4106, 4116));
    assert!(bk.free(&mut seg, a));
    assert_eq!(entries(&bk), vec![blk(4096, 10), blk(4126, 170)]);
    assert!(bk.free(&mut seg, c));
    assert_eq!(entries(&bk), vec![blk(4096, 10), blk(4116, 180)]);
    assert!(bk.free(&mut seg, b));
    assert_eq!(entries(&bk), vec![blk(4096, 200)]);
    assert!(bk.check());
}

#[test]
fn allocation_splits_alignment_gap() {
    let (mut bk, mut seg) = setup(64);
    let a = bk.allocate(&mut seg, 3, 1).unwrap();
    assert!(bk.free(&mut seg, a));
    let _ = bk.allocate(&mut seg, 197, 1).unwrap();
    let x = bk.allocate(&mut seg, 100, 1).unwrap();
    assert!(bk.free(&mut seg, x));
    assert_eq!(entries(&bk), vec![blk(4293, 203)]);
    let y = bk.allocate(&mut seg, 50, 32).unwrap();
    assert_eq!(y, blk(4320, 50));
    assert_eq!(entries(&bk), vec![blk(4293, 27), blk(4370, 126)]);
    assert!(bk.check());
}

#[test]
fn shrink_then_grow_stays_in_place() {
    let (mut bk, mut seg) = setup(64);
    let b = bk.allocate(&mut seg, 100, 8).unwrap();
    let s = bk.realloc(&mut seg, b, 40, 8).unwrap();
    assert_eq!(s, blk(b.start, 40));
    assert_eq!(entries(&bk), vec![blk(4136, 160)]);
    let g = bk.realloc(&mut seg, s, 100, 8).unwrap();
    assert_eq!(g, blk(b.start, 100));
    assert_eq!(entries(&bk), vec![blk(4196, 100)]);
    assert!(bk.check());
}

#[test]
fn realloc_moves_when_right_is_taken() {
    let (mut bk, mut seg) = setup(64);
    let a = bk.allocate(&mut seg, 50, 1).unwrap();
    let _b = bk.allocate(&mut seg, 50, 1).unwrap();
    let m = bk.realloc(&mut seg, a, 80, 1).unwrap();
    assert_eq!(m, blk(4196, 80));
    assert_eq!(entries(&bk), vec![blk(4096, 50), blk(4276, 20)]);
    assert!(bk.check());
}

#[test]
fn realloc_inplace_fails_untouched() {
    let (mut bk, mut seg) = setup(64);
    let a = bk.allocate(&mut seg, 50, 1).unwrap();
    let _b = bk.allocate(&mut seg, 150, 1).unwrap();
    let before = entries(&bk);
    assert_eq!(bk.realloc_inplace(&mut seg, a, 60), Err(a));
    assert_eq!(entries(&bk), before);
    assert_eq!(bk.realloc_inplace(&mut seg, a, 30), Ok(blk(4096, 30)));
    assert_eq!(entries(&bk), vec![blk(4126, 20)]);
}

#[test]
fn breaker_exhaustion_gives_none() {
    let mut bk = Bookkeeper::new(blk(0, 1024));
    let mut seg = Segment::new(4096, 4096 + 150);
    assert_eq!(bk.allocate(&mut seg, 100, 1), None);
    assert_eq!(seg.end, 4096);
    assert_eq!(bk.len(), 0);
}

#[test]
fn growth_keeps_tracked_blocks() {
    let (mut bk, mut seg) = setup(4);
    let buf0 = bk.buffer_block();
    let mut held = Vec::new();
    for _ in 0..19 {
        held.push(bk.allocate(&mut seg, 10, 1).unwrap());
    }
    let mut freed = Vec::new();
    for (i, b) in held.iter().enumerate() {
        if i % 2 == 0 {
            let before = entries(&bk);
            assert!(bk.free(&mut seg, *b));
            freed.push(*b);
            for e in before.iter() {
                assert!(held_free(&bk, e), "lost {:?}", e);
            }
            assert!(bk.check());
            assert!(bk.len() + 2 <= bk.cap());
        }
    }
    assert_ne!(bk.buffer_block(), buf0);
    for b in freed.iter() {
        assert!(held_free(&bk, b));
    }
}

#[test]
fn growth_keeps_entries_exactly() {
    let (mut bk, mut seg) = setup(64);
    let mut held = Vec::new();
    for _ in 0..10 {
        held.push(bk.allocate(&mut seg, 10, 1).unwrap());
    }
    for i in [0usize, 2, 4, 6, 8] {
        assert!(bk.free(&mut seg, held[i]));
    }
    let before = entries(&bk);
    assert_eq!(before.len(), 6);
    assert!(bk.reserve(&mut seg, 200));
    assert!(bk.cap() >= 200);
    let after = entries(&bk);
    for e in before.iter() {
        assert!(after.contains(e), "lost {:?}", e);
    }
    assert!(after.contains(&blk(0, 1024)));
    assert!(bk.check());
}

#[test]
fn reserve_grows_capacity() {
    let (mut bk, mut seg) = setup(4);
    assert!(bk.reserve(&mut seg, 3));
    assert_eq!(bk.cap(), 4);
    assert!(bk.reserve(&mut seg, 10));
    assert_eq!(bk.cap(), (10 + 2) * 2 + 17);
    assert_eq!(bk.buffer_block().size, bk.cap() * 16);
    assert!(entries(&bk).contains(&blk(0, 64)));
    assert!(bk.check());
}

#[test]
fn for_each_hands_out_everything() {
    let (mut bk, mut seg) = setup(64);
    let a = bk.allocate(&mut seg, 10, 1).unwrap();
    let _b = bk.allocate(&mut seg, 10, 1).unwrap();
    assert!(bk.free(&mut seg, a));
    let all = bk.for_each();
    assert_eq!(all, vec![blk(4116, 180), blk(4096, 10), blk(0, 1024)]);
}

#[test]
fn free_fails_untouched_when_growth_is_refused() {
    let mut bk = Bookkeeper::new(blk(0, 32));
    let mut seg = Segment::new(4096, 4096 + 10);
    assert_eq!(bk.cap(), 2);
    assert!(!bk.free(&mut seg, blk(100, 10)));
    assert_eq!(bk.len(), 0);
    assert_eq!(bk.buffer_block(), blk(0, 32));
    assert_eq!(seg.end, 4096);
    assert!(!bk.reserve(&mut seg, 3));
    assert_eq!(bk.cap(), 2);
}

#[test]
fn realloc_gives_none_when_breaker_is_exhausted() {
    let mut bk = Bookkeeper::new(blk(0, 1024));
    let mut seg = Segment::new(4096, 4096 + 200);
    let a = bk.allocate(&mut seg, 100, 1).unwrap();
    let b = bk.allocate(&mut seg, 100, 1).unwrap();
    assert_eq!((a.start, b.start), (4096, 4196));
    assert_eq!(bk.realloc(&mut seg, a, 150, 1), None);
    assert_eq!(bk.len(), 0);
    assert_eq!(seg.end, 4296);
}

#[test]
fn allocations_are_aligned_and_inside_the_segment() {
    let (mut bk, mut seg) = setup(64);
    let mut held: Vec<Block> = Vec::new();
    for (k, align) in [1usize, 2, 4, 8, 16, 32, 64, 128].iter().enumerate() {
        for size in [1usize, 7, 33, 100] {
            let b = bk.allocate(&mut seg, size, *align).unwrap();
            assert_eq!(b.start % align, 0);
            assert_eq!(b.size, size);
            assert!(b.start >= 4096 && b.start + b.size <= seg.end);
            for h in held.iter() {
                assert!(h.start + h.size <= b.start || b.start + b.size <= h.start);
            }
            held.push(b);
        }
        if k % 2 == 1 {
            let h = held.remove(0);
            assert!(bk.free(&mut seg, h));
        }
        assert!(bk.check());
    }
}

#[test]
fn fitting_entry_needs_no_growth_with_three_spare_slots() {
    let mut bk = Bookkeeper::new(blk(0, 64));
    let mut seg = Segment::new(8192, 1 << 20);
    assert!(bk.free(&mut seg, blk(5000, 100)));
    assert_eq!((bk.len(), bk.cap()), (1, 4));
    let b = bk.allocate(&mut seg, 50, 1).unwrap();
    assert_eq!(b, blk(5000, 50));
    assert_eq!(bk.cap(), 4);
    assert_eq!(bk.buffer_block(), blk(0, 64));
    assert_eq!(seg.end, 8192);
    assert_eq!(entries(&bk), vec![blk(5050, 50)]);
}

#[test]
fn free_of_empty_block_anywhere_is_noop() {
    let (mut bk, mut seg) = setup(64);
    let a = bk.allocate(&mut seg, 100, 1).unwrap();
    assert!(bk.free(&mut seg, a));
    let before = entries(&bk);
    assert!(bk.free(&mut seg, blk(4100, 0)));
    assert!(bk.free(&mut seg, blk(usize::MAX, 0)));
    assert_eq!(entries(&bk), before);
}
