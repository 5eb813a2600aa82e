use rsync::meta::{file_changed, get_block_size, FileMeta};

fn meta(len: u64, modified: Option<i128>) -> FileMeta {
    FileMeta { len, modified }
}

fn block_size(len: u64) -> usize {
    get_block_size(&meta(len, None))
}

#[test]
fn test_block_size_calculation() {
    let small_meta = meta(372, Some(1));

    assert!(get_block_size(&small_meta) >= 8 * 1024 || small_meta.len < 8 * 1024);
    assert_eq!(get_block_size(&small_meta), 372);
}

#[test]
fn block_size_stays_in_its_range() {
    assert_eq!(block_size(0), 0);
    assert_eq!(block_size(1), 1);
    assert_eq!(block_size(8191), 8191);
    assert_eq!(block_size(8192), 8192);
    assert_eq!(block_size(10 * 1024), 8192);
    assert_eq!(block_size(8192 * 4000 + 3999), 8192);
    assert_eq!(block_size(8193 * 4000), 8193);
    assert_eq!(block_size(100_000 * 4000), 100_000);
    assert_eq!(block_size(262_144 * 4000), 262_144);
    assert_eq!(block_size(262_145 * 4000), 262_144);
    assert_eq!(block_size(u64::MAX), 262_144);
}

#[test]
fn block_size_grows_with_the_file() {
    let mut last = 0;
    for step in 0..2000u64 {
        let size = block_size(step * step * 1000);
        assert!(last <= size);
        last = size;
    }
}

#[test]
fn block_count_meets_its_target() {
    for len in [8192 * 4000u64, 8192 * 4000 + 1, 50_000_000, 777_777_777, 262_144 * 4000] {
        let size = block_size(len) as u64;
        let count = (len + size - 1) / size;
        assert!(count == 4000 || count == 4001);
    }
}

#[test]
fn block_count_leaves_its_target_exactly_at_the_bounds() {
    let count = |len: u64| {
        let size = block_size(len) as u64;
        (len + size - 1) / size
    };
    assert_eq!(count(3999 * 8192), 3999);
    assert_eq!(count(3999 * 8192 + 1), 4000);
    assert_eq!(count(4001 * 262_144), 4001);
    assert_eq!(count(4001 * 262_144 + 1), 4002);
}

#[test]
fn test_file_changed_detection() {
    let meta1 = meta(7, Some(1_000_000_000));
    let meta2 = meta(7, Some(1_100_000_000));

    // file2 is newer, so it should be detected as changed
    assert!(file_changed(&meta2, &meta1));
    // file1 is older, so it should not be detected as changed
    assert!(!file_changed(&meta1, &meta2));
}

#[test]
fn size_alone_makes_a_change() {
    assert!(file_changed(&meta(6, Some(5)), &meta(7, Some(5))));
    assert!(file_changed(&meta(8, Some(5)), &meta(7, Some(9))));
    assert!(!file_changed(&meta(7, Some(5)), &meta(7, Some(5))));
}

#[test]
fn missing_time_counts_as_the_epoch() {
    assert!(!file_changed(&meta(7, None), &meta(7, None)));
    assert!(file_changed(&meta(7, Some(1)), &meta(7, None)));
    assert!(!file_changed(&meta(7, Some(0)), &meta(7, None)));
    assert!(!file_changed(&meta(7, Some(-1)), &meta(7, None)));
    assert!(file_changed(&meta(7, None), &meta(7, Some(-1))));
}
