//! What the metadata of two files decides: whether the one has to be updated
//! from the other, and how large its blocks are.

use crate::blocks::{block_count, lemma_block_count, lesser};
use vstd::prelude::*;

verus! {

/// Smallest block size of a file that is divided: 8 KiB.
pub const MIN_BLOCK: u64 = 8 * 1024;

/// Largest block size: 256 KiB.
pub const MAX_BLOCK: u64 = 256 * 1024;

/// The number of blocks to aim for.
pub const TARGET_BLOCKS: u64 = 4000;

/// What is read from the metadata of a file.
#[derive(Clone, Copy, Debug, PartialEq, Eq)]
pub struct FileMeta {
    /// Length in bytes.
    pub len: u64,
    /// Modification time in nanoseconds since the Unix epoch, negative before
    /// it; nothing where the platform has no such time.
    pub modified: Option<i128>,
}

impl FileMeta {
    /// The modification time, the epoch where there is none.
    pub open spec fn time(self) -> int {
        match self.modified {
            Some(t) => t as int,
            None => 0,
        }
    }
}

/// A source file has changed against a destination file: the sizes differ, or
/// the source is newer.
pub open spec fn changed(src: FileMeta, dst: FileMeta) -> bool {
    src.len != dst.len || src.time() > dst.time()
}

/// The block size for a file of `len` bytes: the whole file where it is small,
/// else the size that gives the target number of blocks, kept between the
/// smallest and the largest block size.
pub open spec fn block_size_for(len: nat) -> nat {
    if len < MIN_BLOCK {
        len
    } else if len / (TARGET_BLOCKS as nat) < MIN_BLOCK {
        MIN_BLOCK as nat
    } else {
        lesser((len / (TARGET_BLOCKS as nat)) as int, MAX_BLOCK as int) as nat
    }
}

/// Decides whether a source file has changed compared with the destination file.
pub fn file_changed(src_meta: &FileMeta, dst_meta: &FileMeta) -> (r: bool)
    ensures
        r == changed(*src_meta, *dst_meta),
        src_meta.len != dst_meta.len ==> r,
        src_meta.len == dst_meta.len ==> match (src_meta.modified, dst_meta.modified) {
            (Some(s), Some(d)) => r <==> s > d,
            (Some(s), None) => r <==> s > 0,
            (None, Some(d)) => r <==> d < 0,
            (None, None) => !r,
        },
{
    if src_meta.len != dst_meta.len {
        return true;
    }
    let src_time: i128 = match src_meta.modified {
        Some(t) => t,
        None => 0,
    };
    let dst_time: i128 = match dst_meta.modified {
        Some(t) => t,
        None => 0,
    };
    src_time > dst_time
}

/// Calculates the block size for a file from its length.
pub fn get_block_size(file_meta: &FileMeta) -> (r: usize)
    ensures
        r == block_size_for(file_meta.len as nat),
        file_meta.len < 8192 ==> r == file_meta.len,
        8192 <= file_meta.len < 4000 * 8192 ==> r == 8192,
        4000 * 8192 <= file_meta.len < 4000 * 262144 ==> 4000 * r <= file_meta.len < 4000 * (r + 1),
        4000 * 262144 <= file_meta.len ==> r == 262144,
{
    let file_len: u64 = file_meta.len;
    if file_len < MIN_BLOCK {
        return file_len as usize;
    }
    let ideal: u64 = file_len / TARGET_BLOCKS;
    if ideal < MIN_BLOCK {
        MIN_BLOCK as usize
    } else if ideal > MAX_BLOCK {
        MAX_BLOCK as usize
    } else {
        ideal as usize
    }
}

/// Files of different sizes differ, the source being the shorter or the longer
/// one, the older or the newer one.
pub proof fn lemma_other_size_is_a_change(src: FileMeta, dst: FileMeta)
    requires
        src.len != dst.len,
    ensures
        changed(src, dst),
        changed(dst, src),
{
}

/// Between files of one size the times decide, to the nanosecond and however far
/// from the epoch: the source has changed exactly where its time is the later
/// one. A missing time counts as the epoch.
pub proof fn lemma_later_time_is_a_change(src: FileMeta, dst: FileMeta)
    requires
        src.len == dst.len,
    ensures
        match (src.modified, dst.modified) {
            (Some(s), Some(d)) => changed(src, dst) <==> s > d,
            (Some(s), None) => changed(src, dst) <==> s > 0,
            (None, Some(d)) => changed(src, dst) <==> d < 0,
            (None, None) => !changed(src, dst),
        },
{
}

/// The time of a source counts one nanosecond at a time: a source as old as the
/// destination is unchanged, and one nanosecond later it has changed.
pub proof fn lemma_one_nanosecond_is_a_change(len: u64, time: i128)
    requires
        time < i128::MAX,
    ensures
        !changed(
            FileMeta { len, modified: Some(time) },
            FileMeta { len, modified: Some(time) },
        ),
        changed(
            FileMeta { len, modified: Some((time + 1) as i128) },
            FileMeta { len, modified: Some(time) },
        ),
        !changed(
            FileMeta { len, modified: Some(time) },
            FileMeta { len, modified: Some((time + 1) as i128) },
        ),
{
}

/// A destination file that has the length of the source file and is not older,
/// as after a synchronization, leaves the next synchronization nothing to do.
pub proof fn lemma_synchronized_file_is_unchanged(src: FileMeta, dst: FileMeta)
    requires
        dst.len == src.len,
        dst.time() >= src.time(),
    ensures
        !changed(src, dst),
{
}

/// Of two files of one size at most one has changed against the other.
pub proof fn lemma_newer_one_way(x: FileMeta, y: FileMeta)
    requires
        x.len == y.len,
    ensures
        !(changed(x, y) && changed(y, x)),
        changed(x, y) || changed(y, x) <==> x.time() != y.time(),
{
}

/// Block sizes stay in their range, and only an empty file has none.
pub proof fn lemma_block_size_range(len: nat)
    ensures
        len < MIN_BLOCK ==> block_size_for(len) == len,
        len >= MIN_BLOCK ==> MIN_BLOCK <= block_size_for(len) <= MAX_BLOCK,
        block_size_for(len) == 0 <==> len == 0,
        block_size_for(len) <= len,
{
}

/// Between the smallest and the largest block size, the block size is the
/// largest one of which the target number of blocks fits into the file. Shorter
/// files are cut into blocks of the smallest size, or are one block where they
/// are shorter than that; longer files are cut into blocks of the largest size.
pub proof fn lemma_block_size_divides_into_target(len: nat)
    ensures
        len < 8192 ==> block_size_for(len) == len,
        8192 <= len < 4000 * 8192 ==> block_size_for(len) == 8192,
        4000 * 8192 <= len < 4000 * 262144 ==> 4000 * block_size_for(len) <= len < 4000 * (
        block_size_for(len) + 1),
        4000 * 262144 <= len ==> block_size_for(len) == 262144,
{
}

/// A longer file never has smaller blocks.
pub proof fn lemma_block_size_monotone(x: nat, y: nat)
    requires
        x <= y,
    ensures
        block_size_for(x) <= block_size_for(y),
{
}

/// The number of blocks meets its target: it is at most one above it exactly as
/// long as the largest block size allows, and not below it exactly from where
/// the smallest one allows. A small file that is not empty is one block.
pub proof fn lemma_block_count_meets_target(len: nat)
    ensures
        0 < len < MIN_BLOCK ==> block_count(len, block_size_for(len)) == 1,
        block_count(len, block_size_for(len)) <= TARGET_BLOCKS + 1 <==> len <= (TARGET_BLOCKS + 1)
            * MAX_BLOCK,
        block_count(len, block_size_for(len)) >= TARGET_BLOCKS <==> len > (TARGET_BLOCKS - 1)
            * MIN_BLOCK,
{
    let bs = block_size_for(len);
    if len > 0 {
        lemma_block_count(len, bs, 0);
        lemma_block_count(len, bs, 1);
        lemma_block_count(len, bs, TARGET_BLOCKS - 1);
        lemma_block_count(len, bs, TARGET_BLOCKS + 1);
        assert(0 * bs == 0 && 1 * bs == bs);
    }
}

} // verus!
