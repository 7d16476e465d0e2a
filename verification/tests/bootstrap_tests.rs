use dataset_report::dm_test::{block_count, draw_block_starts, resample_blocks};

#[test]
fn block_count_is_ceiling() {
    assert_eq!(block_count(10, 3), 4);
    assert_eq!(block_count(9, 3), 3);
    assert_eq!(block_count(0, 3), 0);
    assert_eq!(block_count(1, 5), 1);
    assert_eq!(block_count(usize::MAX, 2), usize::MAX / 2 + 1);
}

#[test]
fn resample_blocks_concatenates_and_truncates() {
    let c = [10, 11, 12, 13, 14, 15, 16];
    let s = resample_blocks(&c, 3, &[4, 0, 2]);
    assert_eq!(s, vec![14, 15, 16, 10, 11, 12, 12]);
    let short = resample_blocks(&c, 2, &[5]);
    assert_eq!(short, vec![15, 16]);
}

#[test]
fn resample_blocks_works_on_floats() {
    let c = [0.5, -1.0, 2.0, 3.5];
    let s = resample_blocks(&c, 2, &[2, 1]);
    assert_eq!(s, vec![2.0, 3.5, -1.0, 2.0]);
}

#[test]
fn draw_block_starts_stay_in_range() {
    let mut rng = rand::thread_rng();
    let starts = draw_block_starts(&mut rng, 10_000, 2);
    assert_eq!(starts.len(), 5000);
    assert!(starts.iter().all(|&s| s + 2 <= 10_000));
    // The starts are spread over the range, not pinned to its upper end.
    assert!(starts.iter().any(|&s| s != 9998));
    let mut distinct = starts.clone();
    distinct.sort_unstable();
    distinct.dedup();
    assert!(distinct.len() > 100);
    let one = draw_block_starts(&mut rng, 5, 5);
    assert_eq!(one, vec![0]);
}
