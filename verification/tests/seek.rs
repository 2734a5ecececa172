use zipmount::seek::{
    boundary_bits, build_span, copy_window, index_span, plan_seek, point_before, prime_value,
    read_window, snapshot_window, takes_checkpoint, IndexBuilder, SeekStep, DEFAULT_SPAN,
    MIN_INDEXABLE,
    MIN_SPAN,
};

#[test]
fn reads_get_what_lies_inside_the_entry() {
    assert_eq!(read_window(100, 0, 10), Some((0, 10)));
    assert_eq!(read_window(100, 95, 10), Some((95, 100)));
    assert_eq!(read_window(100, 100, 10), None);
    assert_eq!(read_window(100, 5, 0), None);
    let data = b"hello world";
    let mut buf = vec![0u8; 5];
    assert_eq!(copy_window(data, 6, &mut buf), 5);
    assert_eq!(&buf, b"world");
    let mut buf = vec![9u8; 4];
    assert_eq!(copy_window(data, 9, &mut buf), 2);
    assert_eq!(buf, vec![b'l', b'd', 9, 9]);
    assert_eq!(copy_window(data, 11, &mut buf), 0);
}

#[test]
fn span_grows_slower_than_entry_size() {
    // Small entries get the floor, large ones a span that keeps the index
    // within its memory ceiling, capped.
    assert_eq!(index_span(DEFAULT_SPAN, 1 << 20), MIN_SPAN);
    assert_eq!(index_span(DEFAULT_SPAN, 1 << 30), 1 << 20);
    assert_eq!(index_span(DEFAULT_SPAN, 1 << 40), DEFAULT_SPAN);
    assert_eq!(index_span(1000, 1 << 40), MIN_SPAN);
    assert_eq!(index_span(DEFAULT_SPAN, u64::MAX), DEFAULT_SPAN);
    assert_eq!(build_span(10), 32768);
    assert_eq!(build_span(1 << 20), 1 << 20);
}

#[test]
fn checkpoints_go_on_inner_block_boundaries_only() {
    assert!(takes_checkpoint(128, 2000, 0, 1000));
    assert!(takes_checkpoint(128 | 5, 2000, 1000, 1000));
    assert!(!takes_checkpoint(128 | 64, 2000, 0, 1000));
    assert!(!takes_checkpoint(0, 2000, 0, 1000));
    assert!(!takes_checkpoint(128, 1500, 1000, 1000));
    assert_eq!(boundary_bits(128 | 5), 5);
    assert_eq!(prime_value(0b1010_0000, 3), 0b101);
}

#[test]
fn snapshots_put_the_ring_in_order() {
    let ring = [5u8, 6, 7, 1, 2, 3, 4];
    // Three bytes written since the ring last wrapped: 5, 6, 7 are the newest.
    assert_eq!(snapshot_window(&ring, 4), vec![1, 2, 3, 4, 5, 6, 7]);
    assert_eq!(snapshot_window(&ring, 0), ring.to_vec());
    assert_eq!(snapshot_window(&ring, 7), ring.to_vec());
}

#[test]
fn the_nearest_earlier_checkpoint_is_found() {
    let points = vec![100u64, 200, 300];
    assert_eq!(point_before(&points, 50), None);
    assert_eq!(point_before(&points, 100), Some(0));
    assert_eq!(point_before(&points, 250), Some(1));
    assert_eq!(point_before(&points, 1000), Some(2));
    assert_eq!(point_before(&Vec::new(), 5), None);
}

#[test]
fn seeks_take_the_cheapest_way() {
    assert_eq!(plan_seek(true, 10, 10, None, false, 0), SeekStep::Stay);
    assert_eq!(plan_seek(true, 10, 20, None, false, 0), SeekStep::Skip);
    assert_eq!(plan_seek(true, 10, 2000, Some(1500), true, 0), SeekStep::Restore);
    assert_eq!(plan_seek(true, 1600, 2000, Some(1500), true, 0), SeekStep::Skip);
    assert_eq!(plan_seek(false, 0, 0, None, false, 0), SeekStep::Restore);
    assert_eq!(
        plan_seek(true, 5000, 10, None, false, MIN_INDEXABLE),
        SeekStep::BuildThenRestore
    );
    assert_eq!(plan_seek(true, 5000, 10, None, false, MIN_INDEXABLE - 1), SeekStep::Restore);
    assert_eq!(plan_seek(true, 5000, 10, None, true, MIN_INDEXABLE), SeekStep::Restore);
}

#[test]
fn checkpoints_are_taken_a_span_apart() {
    use_builder();
}

fn use_builder() {
    let window: Vec<u8> = (0..32768u32).map(|i| (i % 251) as u8).collect();
    let mut b = IndexBuilder::new(100_000);
    // A step that ends mid-block: no point.
    assert!(!b.after_step(10, 60_000, 0, &window, 0));
    // A block boundary, but not yet a span after the start.
    assert!(!b.after_step(10, 30_000, 128, &window, 0));
    // A boundary a span after the start: the first point.
    assert!(b.after_step(10, 20_000, 128 | 3, &window, 100));
    // The last block's boundary never gets one.
    assert!(!b.after_step(10, 200_000, 128 | 64, &window, 0));
    assert!(b.after_step(10, 1, 128, &window, 0));
    let index = b.finish();
    assert_eq!(index.point_count(), 2);
    assert_eq!(index.span(), 100_000);
    let first = index.point_before(150_000).unwrap();
    assert_eq!((first.out_pos, first.in_pos, first.bits), (110_000, 30, 3));
    assert_eq!(first.window.len(), 32768);
    assert_eq!(&first.window[..100], &window[32668..]);
    assert!(index.point_before(1000).is_none());
    assert_eq!(index.point_before(u64::MAX).unwrap().out_pos, 310_001);
    assert!(index.memory_bytes() >= 2 * 32768);
    assert_eq!(IndexBuilder::new(1).finish().span(), 32768);
}
