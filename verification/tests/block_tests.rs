use rsync::blocks::{add_entry, build_block_map, find_block, find_digest, BlockEntry, BlockMapper};
use rsync::rolling::Rolling;
use rsync::strong::{check_hash, digests_equal};
use std::collections::HashMap;

/// BLAKE3 of no bytes.
const EMPTY_DIGEST: [u8; 32] = [
    0xaf, 0x13, 0x49, 0xb9, 0xf5, 0xf9, 0xa1, 0xa6, 0xa0, 0x40, 0x4d, 0xea, 0x36, 0xdc, 0xc9, 0x49,
    0x9b, 0xcb, 0x25, 0xc9, 0xad, 0xc1, 0x12, 0xb7, 0xcc, 0x9a, 0x93, 0xca, 0xe4, 0x1f, 0x32, 0x62,
];

fn digest(data: &[u8]) -> [u8; 32] {
    *blake3::hash(data).as_bytes()
}

fn weak(data: &[u8]) -> u32 {
    Rolling::init(data).checksum()
}

#[test]
fn check_hash_compares_with_the_digest() {
    assert!(check_hash(&EMPTY_DIGEST, b""));
    assert!(!check_hash(&EMPTY_DIGEST, b"x"));
    assert!(check_hash(&digest(b"block"), b"block"));

    let mut other = digest(b"block");
    other[31] ^= 1;
    assert!(!check_hash(&other, b"block"));
}

#[test]
fn digests_differ_in_any_byte() {
    let x = [7u8; 32];
    assert!(digests_equal(&x, &x));
    for i in 0..32 {
        let mut y = x;
        y[i] = 8;
        assert!(!digests_equal(&x, &y));
    }
}

#[test]
fn first_entry_with_the_digest_is_found() {
    let entries = vec![
        BlockEntry { index: 4, strong: [1; 32] },
        BlockEntry { index: 2, strong: [2; 32] },
        BlockEntry { index: 9, strong: [2; 32] },
    ];
    assert_eq!(find_digest(&entries, &[1; 32]), Some(4));
    assert_eq!(find_digest(&entries, &[2; 32]), Some(2));
    assert_eq!(find_digest(&entries, &[3; 32]), None);
    assert_eq!(find_digest(&Vec::new(), &[3; 32]), None);
}

#[test]
fn entries_are_added_behind() {
    let mut map: HashMap<u32, Vec<BlockEntry>> = HashMap::new();
    let first = BlockEntry { index: 0, strong: [1; 32] };
    let second = BlockEntry { index: 1, strong: [2; 32] };
    let third = BlockEntry { index: 2, strong: [3; 32] };
    add_entry(&mut map, 5, first);
    add_entry(&mut map, 6, second);
    add_entry(&mut map, 5, third);
    assert_eq!(map.len(), 2);
    assert_eq!(map[&5], vec![first, third]);
    assert_eq!(map[&6], vec![second]);
}

#[test]
fn every_block_is_mapped_once() {
    let dest = b"aaaabbbbaaaacc";
    let map = build_block_map(dest, 4);
    assert_eq!(map.len(), 3);
    assert_eq!(
        map[&weak(b"aaaa")],
        vec![
            BlockEntry { index: 0, strong: digest(b"aaaa") },
            BlockEntry { index: 2, strong: digest(b"aaaa") },
        ]
    );
    assert_eq!(map[&weak(b"bbbb")], vec![BlockEntry { index: 1, strong: digest(b"bbbb") }]);
    assert_eq!(map[&weak(b"cc")], vec![BlockEntry { index: 3, strong: digest(b"cc") }]);
}

#[test]
fn files_without_blocks_have_an_empty_map() {
    assert!(build_block_map(b"", 4).is_empty());
    assert!(build_block_map(b"", 0).is_empty());
    assert!(build_block_map(b"abc", 0).is_empty());
}

#[test]
fn one_block_may_be_longer_than_the_file() {
    let map = build_block_map(b"abc", 100);
    assert_eq!(map.len(), 1);
    assert_eq!(map[&weak(b"abc")], vec![BlockEntry { index: 0, strong: digest(b"abc") }]);
}

#[test]
fn blocks_with_one_weak_checksum_are_told_apart() {
    // Both have byte sum 2 and prefix sum 4.
    let x = [0u8, 2, 0];
    let y = [1u8, 0, 1];
    assert_eq!(weak(&x), weak(&y));
    let map = build_block_map(&[0, 2, 0, 1, 0, 1], 3);
    assert_eq!(map.len(), 1);
    assert_eq!(find_block(&map, weak(&x), &x), Some(0));
    assert_eq!(find_block(&map, weak(&y), &y), Some(1));
    assert_eq!(find_block(&map, weak(&x), b"other"), None);
    assert_eq!(find_block(&map, weak(&x) ^ 1, &x), None);
}

#[test]
fn mapping_block_by_block_maps_the_file() {
    for dest in [&b"aaaabbbbaaaacc"[..], &b"aaaabbbb"[..], &b"abc"[..], &b""[..]] {
        let mut mapper = BlockMapper::new(4);
        let mut rest = dest;
        while mapper.wants_more() {
            let (block, behind) = rest.split_at(rest.len().min(4));
            mapper.add_block(block);
            rest = behind;
        }
        assert!(rest.is_empty());
        assert_eq!(mapper.finish(), build_block_map(dest, 4));
    }
}

#[test]
fn mapper_wants_no_more_after_a_short_block() {
    assert!(!BlockMapper::new(0).wants_more());
    assert!(BlockMapper::new(0).finish().is_empty());

    let mut mapper = BlockMapper::new(4);
    assert!(mapper.wants_more());
    mapper.add_block(b"abcd");
    assert!(mapper.wants_more());
    mapper.add_block(b"ef");
    assert!(!mapper.wants_more());
    let map = mapper.finish();
    assert_eq!(map.len(), 2);
    assert_eq!(map[&weak(b"ef")], vec![BlockEntry { index: 1, strong: digest(b"ef") }]);
}
