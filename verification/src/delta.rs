//! Deltas: the operations that turn a destination file into the source file.

use crate::blocks::{find_block, index_view, lookup, BlockEntry, Listed};
use crate::rolling::{
    lemma_checksum_keeps_both_halves, lemma_roll_slides_window, weak_checksum, window_state,
    Rolling,
};
use std::collections::HashMap;
use vstd::prelude::*;
use vstd::slice::{slice_subrange, slice_to_vec};

verus! {

/// An operation needed to rebuild the source file from the destination file.
#[derive(Debug, PartialEq, Eq)]
pub enum DeltaOp {
    /// Copy the block of the destination file at the given index.
    CopyBlock { index: u64 },
    /// Insert data that the destination file does not hold.
    InsertData { data: Vec<u8> },
}

/// A delta operation with its data as a sequence.
pub enum Op {
    CopyBlock { index: u64 },
    InsertData { data: Seq<u8> },
}

impl View for DeltaOp {
    type V = Op;

    open spec fn view(&self) -> Op {
        match *self {
            DeltaOp::CopyBlock { index } => Op::CopyBlock { index },
            DeltaOp::InsertData { data } => Op::InsertData { data: data@ },
        }
    }
}

/// A list of operations, each by its view.
pub open spec fn ops_view(ops: Seq<DeltaOp>) -> Seq<Op> {
    ops.map_values(|op: DeltaOp| op@)
}

/// A list of operations and its view hold the same operations, with the same
/// blocks and the same data, in the same order.
pub proof fn lemma_ops_view_keeps_operations(ops: Seq<DeltaOp>, j: int)
    requires
        0 <= j < ops.len(),
    ensures
        ops_view(ops).len() == ops.len(),
        match ops[j] {
            DeltaOp::CopyBlock { index } => ops_view(ops)[j] == (Op::CopyBlock { index }),
            DeltaOp::InsertData { data } => ops_view(ops)[j] == (Op::InsertData { data: data@ }),
        },
{
}

/// The operations that insert `data`: none where there is no data.
pub open spec fn inserting(data: Seq<u8>) -> Seq<Op> {
    if data.len() == 0 {
        Seq::empty()
    } else {
        seq![Op::InsertData { data }]
    }
}

/// The delta for the bytes of `src` from `lit` on, when `pos` is the next
/// position to look at and no match was found for the bytes between the two.
///
/// A window of `block_size` bytes that stands for a destination block is copied
/// and skipped as a whole; otherwise the scan moves on by one byte. What is left
/// at the end, shorter than a block, is matched as a whole or not at all. The
/// bytes between two matches are inserted together.
pub open spec fn delta_from(
    index: Map<u32, Seq<Listed>>,
    src: Seq<u8>,
    block_size: nat,
    lit: int,
    pos: int,
) -> Seq<Op>
    decreases src.len() - pos,
{
    let len = src.len() as int;
    if 0 < block_size && pos + block_size <= len {
        match lookup(index, src.subrange(pos, pos + block_size)) {
            Some(block) => inserting(src.subrange(lit, pos)).push(Op::CopyBlock { index: block })
                + delta_from(index, src, block_size, pos + block_size, pos + block_size),
            None => delta_from(index, src, block_size, lit, pos + 1),
        }
    } else if pos < len {
        match lookup(index, src.subrange(pos, len)) {
            Some(block) => inserting(src.subrange(lit, pos)).push(Op::CopyBlock { index: block }),
            None => inserting(src.subrange(lit, len)),
        }
    } else {
        inserting(src.subrange(lit, len))
    }
}

/// The delta for the source `src` against the destination blocks in `index`. A
/// source that is no longer than one block is inserted as it is, and so is any
/// source where the blocks have no bytes.
pub open spec fn delta(index: Map<u32, Seq<Listed>>, src: Seq<u8>, block_size: nat) -> Seq<Op> {
    if block_size == 0 || src.len() <= block_size {
        seq![Op::InsertData { data: src }]
    } else {
        delta_from(index, src, block_size, 0, 0)
    }
}

/// Where a scan over a source file stands.
pub struct ScanState {
    /// The bytes of the source file.
    pub src: Seq<u8>,
    /// The length of a block.
    pub block_size: nat,
    /// The next position to look at.
    pub pos: nat,
    /// The bytes before `pos` that matched nothing and are not inserted yet.
    pub pending: Seq<u8>,
    /// The operations found so far.
    pub ops: Seq<Op>,
}

impl ScanState {
    /// A whole block is left at the current position.
    pub open spec fn has_window(self) -> bool {
        self.pos + self.block_size <= self.src.len()
    }

    /// The block-sized window at the current position.
    pub open spec fn window(self) -> Seq<u8> {
        self.src.subrange(self.pos as int, (self.pos + self.block_size) as int)
    }

    /// Everything from the current position on.
    pub open spec fn rest(self) -> Seq<u8> {
        self.src.subrange(self.pos as int, self.src.len() as int)
    }

    /// The scan after its window matched block `found`, or matched nothing.
    pub open spec fn advanced(self, found: Option<u64>) -> ScanState {
        match found {
            Some(index) => ScanState {
                pos: self.pos + self.block_size,
                pending: Seq::empty(),
                ops: (self.ops + inserting(self.pending)).push(Op::CopyBlock { index }),
                ..self
            },
            None => ScanState {
                pos: self.pos + 1,
                pending: self.pending.push(self.src[self.pos as int]),
                ..self
            },
        }
    }

    /// All operations, once the rest matched block `found`, or matched nothing.
    pub open spec fn finished(self, found: Option<u64>) -> Seq<Op> {
        match found {
            Some(index) if self.rest().len() > 0 => (self.ops + inserting(self.pending)).push(
                Op::CopyBlock { index },
            ),
            _ => self.ops + inserting(self.pending + self.rest()),
        }
    }
}

/// A scan over a source file, from its start to its end.
pub struct Scan<'a> {
    src: &'a [u8],
    block_size: usize,
    pos: usize,
    rolling: Rolling,
    pending: Vec<u8>,
    ops: Vec<DeltaOp>,
}

impl<'a> View for Scan<'a> {
    type V = ScanState;

    closed spec fn view(&self) -> ScanState {
        ScanState {
            src: self.src@,
            block_size: self.block_size as nat,
            pos: self.pos as nat,
            pending: self.pending@,
            ops: ops_view(self.ops@),
        }
    }
}

impl<'a> Scan<'a> {
    /// The position lies in the file, and the rolling checksum is the one of
    /// the window there.
    pub closed spec fn well_formed(&self) -> bool {
        &&& self@.block_size > 0
        &&& self@.pos <= self@.src.len()
        &&& self@.has_window() ==> self.rolling@ == window_state(self@.window())
    }

    /// Starts a scan over a source file of at least one block.
    pub fn new(src: &'a [u8], block_size: usize) -> (r: Self)
        requires
            0 < block_size <= src@.len(),
        ensures
            r.well_formed(),
            r@ == (ScanState {
                src: src@,
                block_size: block_size as nat,
                pos: 0,
                pending: Seq::empty(),
                ops: Seq::empty(),
            }),
    {
        let rolling = Rolling::init(slice_subrange(src, 0, block_size));
        let r = Scan { src, block_size, pos: 0, rolling, pending: Vec::new(), ops: Vec::new() };
        assert(r@.ops =~= Seq::<Op>::empty());
        r
    }

    /// Tells whether a whole block is left at the current position.
    pub fn has_window(&self) -> (r: bool)
        requires
            self.well_formed(),
        ensures
            r == self@.has_window(),
    {
        self.src.len() - self.pos >= self.block_size
    }

    /// The block-sized window at the current position.
    pub fn window(&self) -> (r: &'a [u8])
        requires
            self.well_formed(),
            self@.has_window(),
        ensures
            r@ == self@.window(),
    {
        assert(self.pos + self.block_size <= self.src.len());
        slice_subrange(self.src, self.pos, self.pos + self.block_size)
    }

    /// The weak checksum of the window at the current position.
    pub fn weak(&self) -> (r: u32)
        requires
            self.well_formed(),
            self@.has_window(),
        ensures
            r == weak_checksum(self@.window()),
    {
        self.rolling.checksum()
    }

    /// Everything from the current position on.
    pub fn rest(&self) -> (r: &'a [u8])
        requires
            self.well_formed(),
        ensures
            r@ == self@.rest(),
    {
        slice_subrange(self.src, self.pos, self.src.len())
    }

    /// Turns the pending bytes into an operation.
    fn flush(&mut self)
        ensures
            final(self)@ == (ScanState {
                pending: Seq::empty(),
                ops: old(self)@.ops + inserting(old(self)@.pending),
                ..old(self)@
            }),
            final(self).rolling == old(self).rolling,
    {
        if !self.pending.is_empty() {
            let mut data: Vec<u8> = Vec::new();
            std::mem::swap(&mut data, &mut self.pending);
            self.ops.push(DeltaOp::InsertData { data });
        }
        proof {
            assert(self.pending@ =~= Seq::<u8>::empty());
            assert(self@.ops =~= old(self)@.ops + inserting(old(self)@.pending));
        }
    }

    /// Moves on: over the whole window where it matched block `found`, else by
    /// one byte, which becomes pending.
    pub fn advance(&mut self, found: Option<u64>)
        requires
            old(self).well_formed(),
            old(self)@.has_window(),
        ensures
            final(self).well_formed(),
            final(self)@ == old(self)@.advanced(found),
    {
        let len: usize = self.src.len();
        match found {
            Some(index) => {
                self.flush();
                self.ops.push(DeltaOp::CopyBlock { index });
                self.pos = self.pos + self.block_size;
                if len - self.pos >= self.block_size {
                    self.rolling = Rolling::init(
                        slice_subrange(self.src, self.pos, self.pos + self.block_size),
                    );
                }
                proof {
                    assert(self@.ops =~= old(self)@.advanced(found).ops);
                }
            },
            None => {
                let out: u8 = self.src[self.pos];
                self.pending.push(out);
                self.pos = self.pos + 1;
                if len - self.pos >= self.block_size {
                    let inp: u8 = self.src[self.pos + self.block_size - 1];
                    proof {
                        lemma_roll_slides_window(old(self)@.window(), inp);
                        assert(old(self)@.window().drop_first().push(inp) =~= self@.window());
                    }
                    self.rolling.roll(out, inp);
                }
            },
        }
    }

    /// Ends the scan where no whole block is left: the rest matched block
    /// `found`, or matched nothing and becomes part of the pending bytes.
    pub fn finish(self, found: Option<u64>) -> (r: Vec<DeltaOp>)
        requires
            self.well_formed(),
        ensures
            ops_view(r@) == self@.finished(found),
    {
        let ghost start = self@;
        let mut scan = self;
        let rest = slice_subrange(scan.src, scan.pos, scan.src.len());
        match found {
            Some(index) if rest.len() > 0 => {
                scan.flush();
                scan.ops.push(DeltaOp::CopyBlock { index });
                assert(scan@.ops =~= start.finished(found));
            },
            _ => {
                scan.pending.extend_from_slice(rest);
                assert(scan.pending@ =~= start.pending + start.rest());
                scan.flush();
            },
        }
        scan.ops
    }
}

/// Compares the source file whose bytes are `src` with the blocks of the
/// destination file in `block_map`, and returns the operations that rebuild the
/// source from the destination.
pub fn check_map(
    block_map: HashMap<u32, Vec<BlockEntry>>,
    src: &[u8],
    block_size: usize,
) -> (r: Vec<DeltaOp>)
    ensures
        ops_view(r@) == delta(index_view(block_map@), src@, block_size as nat),
{
    let ghost bs = block_size as nat;
    let ghost index = index_view(block_map@);
    if block_size == 0 || src.len() <= block_size {
        let mut operations: Vec<DeltaOp> = Vec::new();
        operations.push(DeltaOp::InsertData { data: slice_to_vec(src) });
        assert(ops_view(operations@) =~= delta(index, src@, bs));
        return operations;
    }
    let mut scan = Scan::new(src, block_size);
    let ghost mut lit: int = 0;
    assert(scan@.pending =~= src@.subrange(0, 0));
    assert(scan@.ops + delta_from(index, src@, bs, 0, 0) =~= delta(index, src@, bs));
    while scan.has_window()
        invariant
            scan.well_formed(),
            bs == block_size,
            bs > 0,
            index == index_view(block_map@),
            scan@.src == src@,
            scan@.block_size == bs,
            0 <= lit <= scan@.pos,
            scan@.pending == src@.subrange(lit, scan@.pos as int),
            scan@.pos <= src@.len(),
            scan@.ops + delta_from(index, src@, bs, lit, scan@.pos as int) == delta(
                index,
                src@,
                bs,
            ),
        decreases src@.len() - scan@.pos,
    {
        let ghost before = scan@;
        proof {
            lemma_checksum_keeps_both_halves(before.window(), before.window());
        }
        let found = find_block(&block_map, scan.weak(), scan.window());
        scan.advance(found);
        proof {
            let pos = before.pos as int;
            match found {
                Some(block) => {
                    let head = inserting(before.pending).push(Op::CopyBlock { index: block });
                    let tail = delta_from(index, src@, bs, pos + bs, pos + bs);
                    assert(before.ops + (head + tail) =~= scan@.ops + tail);
                    lit = pos + bs;
                    assert(scan@.pending =~= src@.subrange(lit, lit));
                },
                None => {
                    assert(scan@.pending =~= src@.subrange(lit, pos + 1));
                },
            }
        }
    }
    let rest = scan.rest();
    let found = if rest.len() > 0 {
        proof {
            lemma_checksum_keeps_both_halves(rest@, rest@);
        }
        find_block(&block_map, Rolling::init(rest).checksum(), rest)
    } else {
        None
    };
    proof {
        let s = scan@;
        let len = src@.len() as int;
        assert(s.pending + s.rest() =~= src@.subrange(lit, len));
        if let Some(block) = found {
            assert(s.ops + inserting(s.pending).push(Op::CopyBlock { index: block }) =~= (s.ops
                + inserting(s.pending)).push(Op::CopyBlock { index: block }));
        }
    }
    scan.finish(found)
}

} // verus!
