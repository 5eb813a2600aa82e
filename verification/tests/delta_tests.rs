use rsync::apply::{offsets_fit, op_bytes, op_step, process_ops, rebuild, Step};
use rsync::blocks::{build_block_map, BlockEntry};
use rsync::delta::{check_map, DeltaOp, Scan};
use rsync::meta::{get_block_size, FileMeta};
use rsync::rolling::Rolling;
use std::collections::HashMap;

fn copy(index: u64) -> DeltaOp {
    DeltaOp::CopyBlock { index }
}

fn insert(data: &[u8]) -> DeltaOp {
    DeltaOp::InsertData { data: data.to_vec() }
}

fn delta(dst: &[u8], src: &[u8], block_size: usize) -> Vec<DeltaOp> {
    check_map(build_block_map(dst, block_size), src, block_size)
}

/// Bytes without a pattern that a block could repeat.
fn noise(len: usize, seed: u32) -> Vec<u8> {
    let mut x = seed;
    (0..len)
        .map(|_| {
            x = x.wrapping_mul(1_664_525).wrapping_add(1_013_904_223);
            (x >> 24) as u8
        })
        .collect()
}

#[test]
fn short_source_is_inserted_as_it_is() {
    assert_eq!(delta(b"abcd", b"abcd", 4), vec![insert(b"abcd")]);
    assert_eq!(delta(b"abcd", b"ab", 4), vec![insert(b"ab")]);
    assert_eq!(delta(b"abcd", b"", 4), vec![insert(b"")]);
}

#[test]
fn empty_destination_takes_the_whole_source() {
    assert_eq!(delta(b"", b"new data", 0), vec![insert(b"new data")]);
    assert_eq!(delta(b"", b"", 0), vec![insert(b"")]);
    assert_eq!(rebuild(b"", b"new data", 0), b"new data");
}

#[test]
fn unchanged_file_is_only_copied() {
    assert_eq!(delta(b"aaaabbbbcc", b"aaaabbbbcc", 4), vec![copy(0), copy(1), copy(2)]);
    assert_eq!(delta(b"aaaabbbb", b"aaaabbbb", 4), vec![copy(0), copy(1)]);
}

#[test]
fn equal_blocks_are_copied_from_the_first_of_them() {
    assert_eq!(delta(b"aaaabbbbaaaa", b"bbbbaaaaaaaa", 4), vec![copy(1), copy(0), copy(0)]);
}

#[test]
fn inserted_bytes_do_not_hide_the_blocks_behind_them() {
    assert_eq!(
        delta(b"abcdefghijkl", b"abcdXefghYYijkl", 4),
        vec![copy(0), insert(b"X"), copy(1), insert(b"YY"), copy(2)]
    );
}

#[test]
fn deleted_bytes_do_not_hide_the_blocks_behind_them() {
    assert_eq!(delta(b"abcdefghijkl", b"abcdfghijkl", 4), vec![copy(0), insert(b"fgh"), copy(2)]);
}

#[test]
fn short_end_is_matched_as_a_whole_or_not_at_all() {
    assert_eq!(delta(b"abcdefghij", b"XXXXXij", 4), vec![insert(b"XXXXXij")]);
    assert_eq!(delta(b"abcdefghij", b"XXabcdij", 4), vec![insert(b"XX"), copy(0), copy(2)]);
    assert_eq!(delta(b"abcdefghij", b"abcdijk", 4), vec![copy(0), insert(b"ijk")]);
    assert_eq!(delta(b"abcdefghij", b"abcdefgh", 4), vec![copy(0), copy(1)]);
}

#[test]
fn bytes_before_a_matched_window_are_flushed_first() {
    assert_eq!(delta(b"zyx", b"aazyx", 3), vec![insert(b"aa"), copy(0)]);
    assert_eq!(delta(b"abcdef", b"wwwwwxyz", 4), vec![insert(b"wwwwwxyz")]);
}

#[test]
fn bytes_before_a_matched_short_end_are_flushed_first() {
    assert_eq!(delta(b"abcdxyz", b"QQxyz", 4), vec![insert(b"QQ"), copy(1)]);
    assert_eq!(delta(b"abcdxyz", b"abcdQQxyz", 4), vec![copy(0), insert(b"QQ"), copy(1)]);
}

#[test]
fn nothing_known_inserts_everything() {
    let map: HashMap<u32, Vec<BlockEntry>> = HashMap::new();
    assert_eq!(check_map(map, b"some longer source", 4), vec![insert(b"some longer source")]);
}

#[test]
fn weak_match_alone_is_no_match() {
    let mut map: HashMap<u32, Vec<BlockEntry>> = HashMap::new();
    let weak = Rolling::init(b"abcd").checksum();
    map.insert(weak, vec![BlockEntry { index: 3, strong: [0; 32] }]);
    assert_eq!(check_map(map, b"abcdefgh", 4), vec![insert(b"abcdefgh")]);
}

#[test]
fn scan_follows_the_matches_it_is_told() {
    let mut scan = Scan::new(b"abcdefghij", 4);
    assert!(scan.has_window());
    assert_eq!(scan.window(), b"abcd");
    assert_eq!(scan.weak(), Rolling::init(b"abcd").checksum());
    scan.advance(None);
    assert_eq!(scan.window(), b"bcde");
    assert_eq!(scan.weak(), Rolling::init(b"bcde").checksum());
    scan.advance(Some(8));
    assert_eq!(scan.window(), b"fghi");
    assert_eq!(scan.weak(), Rolling::init(b"fghi").checksum());
    scan.advance(None);
    scan.advance(None);
    assert!(!scan.has_window());
    assert_eq!(scan.rest(), b"hij");
    assert_eq!(
        scan.finish(Some(6)),
        vec![insert(b"a"), copy(8), insert(b"fg"), copy(6)]
    );
}

#[test]
fn scan_ends_without_a_match() {
    let mut scan = Scan::new(b"abcde", 4);
    scan.advance(None);
    scan.advance(None);
    assert_eq!(scan.finish(None), vec![insert(b"abcde")]);

    let mut scan = Scan::new(b"abcd", 4);
    scan.advance(Some(1));
    assert_eq!(scan.rest(), b"");
    assert_eq!(scan.finish(Some(2)), vec![copy(1)]);
}

#[test]
fn operations_write_blocks_and_data() {
    let dst = b"abcdefghij";
    assert_eq!(op_bytes(&copy(0), dst, 4), b"abcd");
    assert_eq!(op_bytes(&copy(2), dst, 4), b"ij");
    assert_eq!(op_bytes(&copy(3), dst, 4), b"");
    assert_eq!(op_bytes(&copy(u64::MAX), dst, 1), b"");
    assert_eq!(op_bytes(&insert(b"xyz"), dst, 4), b"xyz");
    assert_eq!(process_ops(vec![copy(2), insert(b"-"), copy(0)], dst, 4), b"ij-abcd");
    assert_eq!(process_ops(Vec::new(), dst, 4), b"");
}

#[test]
fn steps_say_where_to_read_and_what_to_write() {
    assert_eq!(op_step(&copy(0), 8192), Step::CopyFrom { offset: 0 });
    assert_eq!(op_step(&copy(5), 8192), Step::CopyFrom { offset: 40_960 });
    assert_eq!(op_step(&copy(u64::MAX), 1), Step::CopyFrom { offset: u64::MAX });
    assert_eq!(op_step(&insert(b"xyz"), 8192), Step::Write { data: b"xyz" });
}

#[test]
fn offsets_fit_up_to_the_largest_number() {
    assert!(offsets_fit(&Vec::new(), 4));
    assert!(offsets_fit(&vec![insert(b"x"), copy(3)], 4));
    assert!(offsets_fit(&vec![copy(u64::MAX)], 1));
    assert!(offsets_fit(&vec![copy(u64::MAX)], 0));
    assert!(offsets_fit(&vec![copy(u64::MAX / 4)], 4));
    assert!(!offsets_fit(&vec![copy(u64::MAX / 4 + 1)], 4));
    assert!(!offsets_fit(&vec![copy(0), copy(u64::MAX)], 2));
}

#[test]
fn delta_rebuilds_the_source() {
    let old = noise(5000, 1);
    let mut shifted = noise(77, 2);
    shifted.extend_from_slice(&old[..3000]);
    shifted.extend_from_slice(&noise(10, 3));
    shifted.extend_from_slice(&old[3100..]);
    let sources = [old.clone(), shifted, noise(4000, 4), Vec::new(), old[..100].to_vec()];
    for src in &sources {
        for block_size in [0, 1, 2, 64, 100, 4999, 5000, 5001] {
            assert_eq!(&rebuild(&old, src, block_size), src);
            assert_eq!(&rebuild(src, &old, block_size), &old);
        }
    }
}

#[test]
fn operations_cover_the_source() {
    let old = noise(2010, 10);
    let mut new = noise(33, 11);
    new.extend_from_slice(&old[100..]);
    let mut pos = 0;
    for op in delta(&old, &new, 50) {
        match op {
            DeltaOp::CopyBlock { index } => {
                let start = index as usize * 50;
                let block = &old[start..(start + 50).min(old.len())];
                assert_eq!(block, &new[pos..(pos + 50).min(new.len())]);
                pos += block.len();
            }
            DeltaOp::InsertData { data } => {
                assert_eq!(data, &new[pos..pos + data.len()]);
                pos += data.len();
            }
        }
    }
    assert_eq!(pos, new.len());
}

#[test]
fn no_window_that_starts_in_an_insertion_is_a_block() {
    let old = noise(2010, 5);
    let mut new = noise(33, 6);
    new.extend_from_slice(&old[120..1500]);
    new.extend_from_slice(&noise(61, 12));
    let mut pos = 0;
    let mut insertions = 0;
    for op in delta(&old, &new, 50) {
        match op {
            DeltaOp::CopyBlock { .. } => pos += 50,
            DeltaOp::InsertData { data } => {
                insertions += 1;
                for start in pos..pos + data.len() {
                    let window = &new[start..(start + 50).min(new.len())];
                    if window.len() == 50 || start == new.len() - 49 {
                        assert!(!old.chunks(50).any(|block| block == window));
                    }
                }
                pos += data.len();
            }
        }
    }
    assert_eq!(insertions, 2);
    assert_eq!(pos, new.len());
}

#[test]
fn unchanged_start_is_copied() {
    let old = noise(10_000, 7);
    let mut new = old.clone();
    new.truncate(8000);
    new.extend_from_slice(&noise(500, 8));
    let ops = delta(&old, &new, 1000);
    for (i, op) in ops.iter().take(8).enumerate() {
        assert_eq!(op, &copy(i as u64));
    }
    assert_eq!(ops.len(), 9);
}

#[test]
fn insertions_are_apart() {
    let old = noise(3000, 9);
    let mut new = Vec::new();
    for i in 0..10 {
        new.extend_from_slice(&noise(7, 100 + i));
        new.extend_from_slice(&old[i as usize * 300..(i as usize + 1) * 300]);
    }
    let ops = delta(&old, &new, 100);
    for pair in ops.windows(2) {
        let inserts = pair.iter().filter(|op| matches!(op, DeltaOp::InsertData { .. })).count();
        assert!(inserts < 2);
    }
    assert_eq!(ops.len(), 40);
}

#[test]
fn appended_data_keeps_the_whole_blocks() {
    // 10 KB of 'A's, then some data behind them: the block size is 8 KiB.
    let original = vec![b'A'; 10 * 1024];
    let mut updated = original.clone();
    updated.extend_from_slice(b"APPENDED DATA");
    let block_size = get_block_size(&FileMeta { len: original.len() as u64, modified: None });
    assert_eq!(block_size, 8 * 1024);
    let mut end = vec![b'A'; 2 * 1024];
    end.extend_from_slice(b"APPENDED DATA");
    assert_eq!(delta(&original, &updated, block_size), vec![copy(0), insert(&end)]);
}
