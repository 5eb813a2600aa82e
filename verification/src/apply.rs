//! Applying a delta to a destination file.

use crate::blocks::{block_at, build_block_map, file_index, lemma_block_count, lesser};
use crate::delta::{check_map, delta, ops_view, DeltaOp, Op};
use crate::laws::{collision_free, lemma_copies_are_blocks, lemma_delta_rebuilds_source};
use vstd::prelude::*;
use vstd::slice::slice_subrange;

verus! {

/// The bytes that `op` writes, with `dst` as the destination file: the block it
/// copies, as far as the file reaches, or the data it inserts.
pub open spec fn op_data(op: Op, dst: Seq<u8>, block_size: nat) -> Seq<u8> {
    match op {
        Op::CopyBlock { index } => block_at(dst, block_size, index as int),
        Op::InsertData { data } => data,
    }
}

/// The bytes that `ops` write, one operation after the other.
pub open spec fn applied(ops: Seq<Op>, dst: Seq<u8>, block_size: nat) -> Seq<u8>
    decreases ops.len(),
{
    if ops.len() == 0 {
        Seq::empty()
    } else {
        applied(ops.drop_last(), dst, block_size) + op_data(ops.last(), dst, block_size)
    }
}

/// The position in the file of the block that `op` copies fits a file offset.
pub open spec fn offset_fits(op: Op, block_size: nat) -> bool {
    op matches Op::CopyBlock { index } ==> index * block_size <= u64::MAX
}

/// The position in the file of the block that each operation copies fits a file
/// offset.
pub open spec fn all_offsets_fit(ops: Seq<DeltaOp>, block_size: nat) -> bool {
    forall|i: int| 0 <= i < ops.len() ==> offset_fits(#[trigger] ops[i]@, block_size)
}

/// Tells whether the position of every block that `ops` copy fits a file offset.
pub fn offsets_fit(ops: &Vec<DeltaOp>, block_size: usize) -> (r: bool)
    ensures
        r <==> all_offsets_fit(ops@, block_size as nat),
        r <==> forall|i: int|
            0 <= i < ops@.len() ==> (#[trigger] ops@[i] matches DeltaOp::CopyBlock { index }
                ==> index * block_size <= u64::MAX),
{
    let mut i: usize = 0;
    while i < ops.len()
        invariant
            i <= ops.len(),
            forall|j: int| 0 <= j < i ==> offset_fits(#[trigger] ops@[j]@, block_size as nat),
        decreases ops.len() - i,
    {
        if let DeltaOp::CopyBlock { index } = &ops[i] {
            if index.checked_mul(block_size as u64).is_none() {
                assert(!offset_fits(ops@[i as int]@, block_size as nat));
                return false;
            }
        }
        i = i + 1;
    }
    proof {
        assert forall|j: int| 0 <= j < ops@.len() implies (#[trigger] ops@[j] matches
            DeltaOp::CopyBlock { index } ==> index * block_size <= u64::MAX) by {
            assert(offset_fits(ops@[j]@, block_size as nat));
        }
    }
    true
}

/// What there is to do for one operation.
#[derive(Debug, PartialEq, Eq)]
pub enum Step<'a> {
    /// Read a block of the destination file, from `offset` on and as far as the
    /// file reaches, and write it.
    CopyFrom { offset: u64 },
    /// Write the data.
    Write { data: &'a [u8] },
}

/// The bytes that `step` writes, with `dst` as the destination file.
pub open spec fn step_data(step: Step, dst: Seq<u8>, block_size: nat) -> Seq<u8> {
    match step {
        Step::CopyFrom { offset } => dst.subrange(
            lesser(offset as int, dst.len() as int),
            lesser(offset + block_size, dst.len() as int),
        ),
        Step::Write { data } => data@,
    }
}

/// What there is to do for the operation `op`. It writes the bytes that the
/// operation stands for, whatever the destination file holds.
pub fn op_step<'a>(op: &'a DeltaOp, block_size: usize) -> (r: Step<'a>)
    requires
        offset_fits(op@, block_size as nat),
    ensures
        match op@ {
            Op::CopyBlock { index } => r matches Step::CopyFrom { offset } && offset == index
                * block_size,
            Op::InsertData { data } => r matches Step::Write { data: d } && d@ == data,
        },
        forall|dst: Seq<u8>| #[trigger]
            step_data(r, dst, block_size as nat) == op_data(op@, dst, block_size as nat),
{
    match op {
        DeltaOp::CopyBlock { index } => Step::CopyFrom { offset: *index * block_size as u64 },
        DeltaOp::InsertData { data } => Step::Write { data: data.as_slice() },
    }
}

/// The bytes that one operation writes.
pub fn op_bytes<'a>(op: &'a DeltaOp, dst: &'a [u8], block_size: usize) -> (r: &'a [u8])
    requires
        offset_fits(op@, block_size as nat),
    ensures
        r@ == op_data(op@, dst@, block_size as nat),
        match *op {
            DeltaOp::CopyBlock { index } => {
                let start = index * block_size;
                &&& start >= dst@.len() ==> r@.len() == 0
                &&& start <= dst@.len() < start + block_size ==> r@ == dst@.skip(start)
                &&& start + block_size <= dst@.len() ==> r@ == dst@.subrange(
                    start,
                    start + block_size,
                )
            },
            DeltaOp::InsertData { data } => r@ == data@,
        },
{
    let step = op_step(op, block_size);
    assert(step_data(step, dst@, block_size as nat) == op_data(op@, dst@, block_size as nat));
    match step {
        Step::CopyFrom { offset } => {
            let len: usize = dst.len();
            let start: usize = if offset < len as u64 {
                offset as usize
            } else {
                len
            };
            let end: usize = if len - start < block_size {
                len
            } else {
                start + block_size
            };
            slice_subrange(dst, start, end)
        },
        Step::Write { data } => data,
    }
}

/// Applies `ops` to the destination file whose bytes are `dst` and returns the
/// bytes of the file that takes its place.
pub fn process_ops(ops: Vec<DeltaOp>, dst: &[u8], block_size: usize) -> (r: Vec<u8>)
    requires
        all_offsets_fit(ops@, block_size as nat),
    ensures
        r@ == applied(ops_view(ops@), dst@, block_size as nat),
{
    let ghost bs = block_size as nat;
    let ghost all = ops_view(ops@);
    let mut out: Vec<u8> = Vec::new();
    let mut i: usize = 0;
    assert(applied(all.take(0), dst@, bs) =~= Seq::<u8>::empty());
    while i < ops.len()
        invariant
            i <= ops.len(),
            bs == block_size,
            all == ops_view(ops@),
            all_offsets_fit(ops@, bs),
            out@ == applied(all.take(i as int), dst@, bs),
        decreases ops.len() - i,
    {
        let ghost before = out@;
        let bytes = op_bytes(&ops[i], dst, block_size);
        out.extend_from_slice(bytes);
        proof {
            assert(all.take(i + 1).drop_last() =~= all.take(i as int));
            assert(out@ =~= before + bytes@);
        }
        i = i + 1;
    }
    assert(all.take(ops.len() as int) =~= all);
    out
}

/// Brings the contents `dst` of a destination file up to the contents `src` of
/// the source file: maps the blocks of the one, computes the delta for the
/// other, and applies it.
pub fn rebuild(dst: &[u8], src: &[u8], block_size: usize) -> (r: Vec<u8>)
    ensures
        r@ == applied(
            delta(file_index(dst@, block_size as nat), src@, block_size as nat),
            dst@,
            block_size as nat,
        ),
        collision_free(src@, dst@, block_size as nat) ==> r@ == src@,
{
    let ghost bs = block_size as nat;
    let map = build_block_map(dst, block_size);
    let ops = check_map(map, src, block_size);
    proof {
        assert(dst.len() == dst@.len());
        lemma_copies_are_blocks(src@, dst@, bs);
        assert forall|i: int| 0 <= i < ops@.len() implies offset_fits(#[trigger] ops@[i]@, bs) by {
            assert(ops@[i]@ == ops_view(ops@)[i]);
            if let Op::CopyBlock { index } = ops@[i]@ {
                lemma_block_count(dst@.len(), bs, index as int);
            }
        }
        if collision_free(src@, dst@, bs) {
            lemma_delta_rebuilds_source(src@, dst@, bs);
        }
    }
    process_ops(ops, dst, block_size)
}

} // verus!
