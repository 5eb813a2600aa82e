//! What holds of block maps, deltas and their application together.

use crate::apply::applied;
use crate::blocks::{
    block_at, block_count, blocks_under, candidates, file_index, lemma_block_count, lemma_candidates,
    lemma_first_with, lesser, lookup, Listed,
};
use crate::delta::{delta, delta_from, inserting, Op};
use crate::rolling::{lemma_checksum_keeps_both_halves, weak_checksum};
use crate::strong::blake3_digest;
use vstd::prelude::*;

verus! {

/// The bytes from `p` to `q` of a source of `len` bytes are one of the windows
/// that a delta looks up: a whole block, or the shorter end of the file.
pub open spec fn looked_up(p: int, q: int, len: int, block_size: nat) -> bool {
    0 <= p <= q <= len && (q == p + block_size || (q == len && q < p + block_size))
}

/// No window of `src` has both the weak checksum and the digest of a block of
/// `dst` that holds other bytes.
pub open spec fn collision_free(src: Seq<u8>, dst: Seq<u8>, block_size: nat) -> bool {
    forall|p: int, q: int, i: int|
        #![trigger src.subrange(p, q), block_at(dst, block_size, i)]
        looked_up(p, q, src.len() as int, block_size) && 0 <= i < block_count(
            dst.len(),
            block_size,
        ) && weak_checksum(src.subrange(p, q)) == weak_checksum(block_at(dst, block_size, i))
            && blake3_digest(src.subrange(p, q)) == blake3_digest(block_at(dst, block_size, i))
            ==> src.subrange(p, q) == block_at(dst, block_size, i)
}

/// Each block that is listed under a weak checksum is one of the first `n`
/// blocks of the file, with that weak checksum and its own digest.
proof fn lemma_blocks_under(file: Seq<u8>, block_size: nat, weak: u32, n: nat, j: int)
    requires
        n <= u64::MAX,
        0 <= j < blocks_under(file, block_size, weak, n).len(),
    ensures
        ({
            let e = blocks_under(file, block_size, weak, n)[j];
            let block = block_at(file, block_size, e.index as int);
            e.index < n && e.digest == blake3_digest(block) && weak_checksum(block) as u32 == weak
        }),
    decreases n,
{
    let before = blocks_under(file, block_size, weak, (n - 1) as nat);
    if j < before.len() {
        lemma_blocks_under(file, block_size, weak, (n - 1) as nat, j);
    }
}

/// Each of the first `n` blocks of a file is listed under its weak checksum.
proof fn lemma_block_is_under(file: Seq<u8>, block_size: nat, n: nat, i: nat)
    requires
        i < n <= u64::MAX,
    ensures
        ({
            let block = block_at(file, block_size, i as int);
            blocks_under(file, block_size, weak_checksum(block) as u32, n).contains(
                Listed { index: i as u64, digest: blake3_digest(block) },
            )
        }),
    decreases n,
{
    let block = block_at(file, block_size, i as int);
    let weak = weak_checksum(block) as u32;
    let e = Listed { index: i as u64, digest: blake3_digest(block) };
    let all = blocks_under(file, block_size, weak, n);
    let before = blocks_under(file, block_size, weak, (n - 1) as nat);
    if i == n - 1 {
        assert(all[all.len() - 1] == e);
    } else {
        lemma_block_is_under(file, block_size, (n - 1) as nat, i);
        let j = choose|j: int| 0 <= j < before.len() && before[j] == e;
        assert(all[j] == e);
    }
}

/// The blocks listed under a weak checksum are in the order in which they stand
/// in the file, and none is listed twice.
proof fn lemma_blocks_under_are_ordered(
    file: Seq<u8>,
    block_size: nat,
    weak: u32,
    n: nat,
    j: int,
    k: int,
)
    requires
        n <= u64::MAX,
        0 <= j < k < blocks_under(file, block_size, weak, n).len(),
    ensures
        blocks_under(file, block_size, weak, n)[j].index < blocks_under(
            file,
            block_size,
            weak,
            n,
        )[k].index,
    decreases n,
{
    let i = (n - 1) as nat;
    let before = blocks_under(file, block_size, weak, i);
    if k < before.len() {
        lemma_blocks_under_are_ordered(file, block_size, weak, i, j, k);
    } else {
        lemma_blocks_under(file, block_size, weak, i, j);
    }
}

/// The bytes from where block `i` starts up to where the next one starts, or up
/// to the end of the file.
pub open spec fn bytes_of_block(file: Seq<u8>, block_size: nat, i: int) -> Seq<u8> {
    if i * block_size + block_size <= file.len() {
        file.subrange(i * block_size, i * block_size + block_size)
    } else {
        file.subrange(i * block_size, file.len() as int)
    }
}

/// Block `i` of a file starts `i` block sizes behind its start. It is a whole
/// block, or what is left of the file; beyond the end there is nothing.
pub proof fn lemma_block_is_cut_from_file(file: Seq<u8>, block_size: nat, i: int)
    requires
        i >= 0,
    ensures
        i * block_size + block_size <= file.len() ==> block_at(file, block_size, i)
            == file.subrange(i * block_size, i * block_size + block_size),
        i * block_size <= file.len() < i * block_size + block_size ==> block_at(file, block_size, i)
            == file.subrange(i * block_size, file.len() as int),
        file.len() < i * block_size ==> block_at(file, block_size, i) == Seq::<u8>::empty(),
{
    assert(i * block_size >= 0) by (nonlinear_arith)
        requires
            i >= 0,
            block_size >= 0,
    ;
}

/// The index of a file lists nothing but its blocks: each entry has the position
/// of a block that starts inside the file, its digest, and stands under its weak
/// checksum, behind the entries of earlier blocks. No list is empty.
pub proof fn lemma_index_lists_blocks(file: Seq<u8>, block_size: nat, weak: u32)
    requires
        file.len() <= u64::MAX,
        file_index(file, block_size).contains_key(weak),
    ensures
        ({
            let list = file_index(file, block_size)[weak];
            &&& block_size > 0
            &&& list.len() > 0
            &&& forall|j: int|
                0 <= j < list.len() ==> (#[trigger] list[j]).index * block_size < file.len()
            &&& forall|j: int|
                0 <= j < list.len() ==> (#[trigger] list[j]).digest == blake3_digest(
                    bytes_of_block(file, block_size, list[j].index as int),
                )
            &&& forall|j: int|
                0 <= j < list.len() ==> weak == weak_checksum(
                    bytes_of_block(file, block_size, (#[trigger] list[j]).index as int),
                )
            &&& forall|j: int, k: int|
                0 <= j < k < list.len() ==> (#[trigger] list[j]).index < (#[trigger] list[k]).index
        }),
{
    let n = block_count(file.len(), block_size);
    let list = file_index(file, block_size)[weak];
    assert(list == blocks_under(file, block_size, weak, n));
    if block_size > 0 {
        lemma_block_count(file.len(), block_size, 0);
    }
    assert forall|j: int| 0 <= j < list.len() implies {
        let e = #[trigger] list[j];
        let block = bytes_of_block(file, block_size, e.index as int);
        e.index * block_size < file.len() && e.digest == blake3_digest(block) && weak
            == weak_checksum(block)
    } by {
        let i = list[j].index as int;
        lemma_blocks_under(file, block_size, weak, n, j);
        lemma_block_count(file.len(), block_size, i);
        lemma_block_is_cut_from_file(file, block_size, i);
        lemma_checksum_keeps_both_halves(block_at(file, block_size, i), Seq::empty());
    }
    assert forall|j: int, k: int| 0 <= j < k < list.len() implies (#[trigger] list[j]).index < (
    #[trigger] list[k]).index by {
        lemma_blocks_under_are_ordered(file, block_size, weak, n, j, k);
    }
}

/// The index of a file misses none of its blocks, however many there are: each
/// one that starts inside the file is listed under its weak checksum, with its
/// position and its digest. Blocks of no bytes are not listed.
pub proof fn lemma_index_misses_no_block(file: Seq<u8>, block_size: nat, i: int)
    requires
        file.len() <= u64::MAX,
    ensures
        block_size == 0 ==> file_index(file, block_size) == Map::<u32, Seq<Listed>>::empty(),
        block_size > 0 && 0 <= i && i * block_size < file.len() ==> {
            let block = bytes_of_block(file, block_size, i);
            let weak = weak_checksum(block) as u32;
            &&& i <= u64::MAX
            &&& weak == weak_checksum(block)
            &&& file_index(file, block_size).contains_key(weak)
            &&& file_index(file, block_size)[weak].contains(
                Listed { index: i as u64, digest: blake3_digest(block) },
            )
        },
{
    let n = block_count(file.len(), block_size);
    if block_size == 0 {
        assert(file_index(file, block_size) =~= Map::<u32, Seq<Listed>>::empty());
    } else if 0 <= i && i * block_size < file.len() {
        lemma_block_count(file.len(), block_size, i);
        lemma_block_is_cut_from_file(file, block_size, i);
        lemma_block_is_under(file, block_size, n, i as nat);
        lemma_checksum_keeps_both_halves(block_at(file, block_size, i), Seq::empty());
    }
}

/// A match is confirmed twice: the block that stands for the bytes `w` is a
/// block of the file, and has both their weak checksum and their digest.
pub proof fn lemma_match_is_confirmed(
    file: Seq<u8>,
    block_size: nat,
    w: Seq<u8>,
)
    requires
        file.len() <= u64::MAX,
    ensures
        lookup(file_index(file, block_size), w) matches Some(index) ==> {
            let block = block_at(file, block_size, index as int);
            &&& index < block_count(file.len(), block_size)
            &&& weak_checksum(block) == weak_checksum(w)
            &&& blake3_digest(block) == blake3_digest(w)
        },
{
    if let Some(index) = lookup(file_index(file, block_size), w) {
        let n = block_count(file.len(), block_size);
        let weak = weak_checksum(w) as u32;
        let list = candidates(file_index(file, block_size), weak);
        lemma_candidates(file, block_size, weak, n);
        if block_size > 0 {
            lemma_block_count(file.len(), block_size, 0);
        }
        lemma_first_with(list, blake3_digest(w));
        let j = choose|j: int|
            #![trigger list[j]]
            0 <= j < list.len() && list[j].index == index && list[j].digest == blake3_digest(w);
        lemma_blocks_under(file, block_size, weak, n, j);
        lemma_checksum_keeps_both_halves(w, block_at(file, block_size, index as int));
        lemma_checksum_keeps_both_halves(block_at(file, block_size, index as int), w);
    }
}

/// No block is missed: the bytes of a block of the file always find a match.
pub proof fn lemma_block_finds_match(
    file: Seq<u8>,
    block_size: nat,
    i: int,
)
    requires
        file.len() <= u64::MAX,
        0 <= i < block_count(file.len(), block_size),
    ensures
        lookup(file_index(file, block_size), block_at(file, block_size, i)) is Some,
{
    let n = block_count(file.len(), block_size);
    let block = block_at(file, block_size, i);
    let weak = weak_checksum(block) as u32;
    let list = candidates(file_index(file, block_size), weak);
    lemma_candidates(file, block_size, weak, n);
    lemma_block_count(file.len(), block_size, i);
    lemma_block_is_under(file, block_size, n, i as nat);
    let e = Listed { index: i as u64, digest: blake3_digest(block) };
    assert(list.contains(e));
    let j = choose|j: int| 0 <= j < list.len() && list[j] == e;
    lemma_first_with(list, blake3_digest(block));
    assert(list[j].digest == blake3_digest(block));
}

/// A look-up goes by the weak checksum first and by the digest then: it gives the
/// first block that is listed under the weak checksum of the bytes `w` and has
/// their digest, and nothing only where there is none.
pub proof fn lemma_lookup_goes_by_both(index: Map<u32, Seq<Listed>>, w: Seq<u8>)
    ensures
        weak_checksum(w) <= u32::MAX,
        !index.contains_key(weak_checksum(w) as u32) ==> lookup(index, w) is None,
        index.contains_key(weak_checksum(w) as u32) ==> {
            let list = index[weak_checksum(w) as u32];
            match lookup(index, w) {
                Some(block) => exists|j: int|
                    #![trigger list[j]]
                    0 <= j < list.len() && list[j].index == block && list[j].digest
                        == blake3_digest(w) && (forall|k: int|
                        0 <= k < j ==> #[trigger] list[k].digest != blake3_digest(w)),
                None => forall|j: int|
                    0 <= j < list.len() ==> #[trigger] list[j].digest != blake3_digest(w),
            }
        },
{
    lemma_checksum_keeps_both_halves(w, w);
    lemma_first_with(candidates(index, weak_checksum(w) as u32), blake3_digest(w));
}

/// The first match is taken: of the blocks of a file that have both the weak
/// checksum and the digest of the bytes `w`, a look-up gives the one that stands
/// first in the file, and nothing only where no block has both.
pub proof fn lemma_first_match_is_taken(file: Seq<u8>, block_size: nat, w: Seq<u8>, i: int)
    requires
        file.len() <= u64::MAX,
        block_size > 0,
        i >= 0,
        i * block_size < file.len(),
        weak_checksum(bytes_of_block(file, block_size, i)) == weak_checksum(w),
        blake3_digest(bytes_of_block(file, block_size, i)) == blake3_digest(w),
    ensures
        lookup(file_index(file, block_size), w) matches Some(block) && {
            &&& block <= i
            &&& block * block_size < file.len()
            &&& weak_checksum(bytes_of_block(file, block_size, block as int)) == weak_checksum(w)
            &&& blake3_digest(bytes_of_block(file, block_size, block as int)) == blake3_digest(w)
        },
{
    let index = file_index(file, block_size);
    let weak = weak_checksum(w) as u32;
    let e = Listed { index: i as u64, digest: blake3_digest(w) };
    lemma_index_misses_no_block(file, block_size, i);
    lemma_index_lists_blocks(file, block_size, weak);
    lemma_lookup_goes_by_both(index, w);
    let list = index[weak];
    let at = choose|at: int| 0 <= at < list.len() && list[at] == e;
    assert(list[at].digest == blake3_digest(w));
    let j = choose|j: int|
        #![trigger list[j]]
        0 <= j < list.len() && list[j].index == lookup(index, w)->0 && list[j].digest
            == blake3_digest(w) && (forall|k: int|
            0 <= k < j ==> #[trigger] list[k].digest != blake3_digest(w));
    assert(j <= at);
    assert(list[j].index <= list[at].index);
}

/// What single operations write: a copy writes the bytes of its block, nothing
/// where the block starts beyond the end of the destination file, and an
/// insertion writes its data. No operations write nothing.
pub proof fn lemma_applied_one(index: u64, data: Seq<u8>, dst: Seq<u8>, block_size: nat)
    ensures
        applied(Seq::empty(), dst, block_size) == Seq::<u8>::empty(),
        applied(seq![Op::InsertData { data }], dst, block_size) == data,
        index * block_size <= dst.len() ==> applied(
            seq![Op::CopyBlock { index }],
            dst,
            block_size,
        ) == bytes_of_block(dst, block_size, index as int),
        index * block_size > dst.len() ==> applied(
            seq![Op::CopyBlock { index }],
            dst,
            block_size,
        ) == Seq::<u8>::empty(),
{
    let copy = seq![Op::CopyBlock { index }];
    let insert = seq![Op::InsertData { data }];
    reveal_with_fuel(applied, 2);
    lemma_block_is_cut_from_file(dst, block_size, index as int);
    assert(copy.drop_last() =~= Seq::<Op>::empty());
    assert(insert.drop_last() =~= Seq::<Op>::empty());
    assert(applied(insert, dst, block_size) =~= data);
    assert(applied(copy, dst, block_size) =~= block_at(dst, block_size, index as int));
}

/// What two lists of operations write together is what they write one after
/// the other.
pub proof fn lemma_applied_concat(x: Seq<Op>, y: Seq<Op>, dst: Seq<u8>, block_size: nat)
    ensures
        applied(x + y, dst, block_size) == applied(x, dst, block_size) + applied(
            y,
            dst,
            block_size,
        ),
    decreases y.len(),
{
    if y.len() == 0 {
        assert(x + y =~= x);
        assert(applied(x, dst, block_size) + applied(y, dst, block_size) =~= applied(
            x,
            dst,
            block_size,
        ));
    } else {
        assert((x + y).drop_last() =~= x + y.drop_last());
        assert((x + y).last() == y.last());
        lemma_applied_concat(x, y.drop_last(), dst, block_size);
        assert(applied(x + y, dst, block_size) =~= applied(x, dst, block_size) + applied(
            y,
            dst,
            block_size,
        ));
    }
}

/// Inserting data and copying a block behind it writes the one behind the other.
proof fn lemma_applied_insert_copy(data: Seq<u8>, index: u64, dst: Seq<u8>, block_size: nat)
    ensures
        applied(inserting(data), dst, block_size) == data,
        applied(inserting(data).push(Op::CopyBlock { index }), dst, block_size) == data + block_at(
            dst,
            block_size,
            index as int,
        ),
{
    let ins = inserting(data);
    let all = ins.push(Op::CopyBlock { index });
    assert(all.drop_last() =~= ins);
    if data.len() == 0 {
        assert(applied(ins, dst, block_size) =~= data);
    } else {
        assert(ins.drop_last() =~= Seq::<Op>::empty());
        assert(ins.last() == (Op::InsertData { data }));
        assert(applied(ins.drop_last(), dst, block_size) =~= Seq::<u8>::empty());
        assert(applied(ins, dst, block_size) =~= data);
    }
}

/// Applying the delta from a position on writes the source from there on.
proof fn lemma_delta_from_rebuilds(
    src: Seq<u8>,
    dst: Seq<u8>,
    block_size: nat,
    lit: int,
    pos: int,
)
    requires
        dst.len() <= u64::MAX,
        collision_free(src, dst, block_size),
        block_size > 0,
        0 <= lit <= pos <= src.len(),
    ensures
        applied(
            delta_from(file_index(dst, block_size), src, block_size, lit, pos),
            dst,
            block_size,
        ) == src.subrange(lit, src.len() as int),
    decreases src.len() - pos,
{
    let len = src.len() as int;
    let gap = src.subrange(lit, pos);
    let end = if pos + block_size <= len {
        pos + block_size
    } else {
        len
    };
    let w = src.subrange(pos, end);
    if pos < len {
        lemma_match_is_confirmed(dst, block_size, w);
        match lookup(file_index(dst, block_size), w) {
            Some(index) => {
                assert(looked_up(pos, end, len, block_size));
                assert(w == block_at(dst, block_size, index as int));
                lemma_applied_insert_copy(gap, index, dst, block_size);
                if pos + block_size <= len {
                    let head = inserting(gap).push(Op::CopyBlock { index });
                    let tail = delta_from(file_index(dst, block_size), src, block_size, end, end);
                    lemma_delta_from_rebuilds(src, dst, block_size, end, end);
                    lemma_applied_concat(head, tail, dst, block_size);
                    assert(gap + w + src.subrange(end, len) =~= src.subrange(lit, len));
                } else {
                    assert(gap + w =~= src.subrange(lit, len));
                }
            },
            None => {
                if pos + block_size <= len {
                    lemma_delta_from_rebuilds(src, dst, block_size, lit, pos + 1);
                } else {
                    lemma_applied_insert_copy(src.subrange(lit, len), 0, dst, block_size);
                }
            },
        }
    } else {
        lemma_applied_insert_copy(src.subrange(lit, len), 0, dst, block_size);
    }
}

/// A delta rebuilds the source: applied to the destination file whose blocks it
/// was computed against, it writes exactly the bytes of the source file, for
/// every source, destination and block size, unless the strong hash takes two
/// different runs of bytes for one.
pub proof fn lemma_delta_rebuilds_source(
    src: Seq<u8>,
    dst: Seq<u8>,
    block_size: nat,
)
    requires
        dst.len() <= u64::MAX,
        collision_free(src, dst, block_size),
    ensures
        applied(delta(file_index(dst, block_size), src, block_size), dst, block_size) == src,
{
    if block_size == 0 || src.len() <= block_size {
        let ops = delta(file_index(dst, block_size), src, block_size);
        assert(ops.drop_last() =~= Seq::<Op>::empty());
        assert(applied(ops.drop_last(), dst, block_size) =~= Seq::<u8>::empty());
        assert(applied(ops, dst, block_size) =~= src);
    } else {
        lemma_delta_from_rebuilds(src, dst, block_size, 0, 0);
        assert(src.subrange(0, src.len() as int) =~= src);
    }
}

/// It is enough that the strong hash tells the two files apart: where equal
/// digests mean equal bytes for every run of the source and every run of the
/// destination, the delta rebuilds the source.
pub proof fn lemma_delta_rebuilds_if_hash_tells_apart(
    src: Seq<u8>,
    dst: Seq<u8>,
    block_size: nat,
)
    requires
        dst.len() <= u64::MAX,
        forall|p: int, q: int, s: int, t: int|
            #![trigger src.subrange(p, q), dst.subrange(s, t)]
            0 <= p <= q <= src.len() && 0 <= s <= t <= dst.len() && blake3_digest(
                src.subrange(p, q),
            ) == blake3_digest(dst.subrange(s, t)) ==> src.subrange(p, q) == dst.subrange(s, t),
    ensures
        applied(delta(file_index(dst, block_size), src, block_size), dst, block_size) == src,
{
    assert forall|p: int, q: int, i: int|
        #![trigger src.subrange(p, q), block_at(dst, block_size, i)]
        looked_up(p, q, src.len() as int, block_size) && 0 <= i < block_count(
            dst.len(),
            block_size,
        ) && weak_checksum(src.subrange(p, q)) == weak_checksum(block_at(dst, block_size, i))
            && blake3_digest(src.subrange(p, q)) == blake3_digest(
            block_at(dst, block_size, i),
        ) implies src.subrange(p, q) == block_at(dst, block_size, i) by {
        lemma_block_count(dst.len(), block_size, i);
        assert(i * block_size >= 0) by (nonlinear_arith)
            requires
                i >= 0,
                block_size >= 0,
        ;
        let end = lesser(i * block_size + block_size, dst.len() as int);
        assert(block_at(dst, block_size, i) == dst.subrange(i * block_size, end));
    }
    lemma_delta_rebuilds_source(src, dst, block_size);
}

/// Each block that the operations copy is one of the first `n` blocks.
pub open spec fn copies_below(ops: Seq<Op>, n: nat) -> bool {
    forall|j: int|
        0 <= j < ops.len() ==> (#[trigger] ops[j] matches Op::CopyBlock { index } ==> index < n)
}

/// Every block that the delta from a position on copies is a block of the file.
proof fn lemma_delta_from_copies_blocks(
    src: Seq<u8>,
    dst: Seq<u8>,
    block_size: nat,
    lit: int,
    pos: int,
)
    requires
        dst.len() <= u64::MAX,
        block_size > 0,
        0 <= lit <= pos <= src.len(),
    ensures
        copies_below(
            delta_from(file_index(dst, block_size), src, block_size, lit, pos),
            block_count(dst.len(), block_size),
        ),
    decreases src.len() - pos,
{
    let len = src.len() as int;
    if pos + block_size <= len {
        let w = src.subrange(pos, pos + block_size);
        lemma_match_is_confirmed(dst, block_size, w);
        if lookup(file_index(dst, block_size), w) is Some {
            lemma_delta_from_copies_blocks(
                src,
                dst,
                block_size,
                pos + block_size,
                pos + block_size,
            );
        } else {
            lemma_delta_from_copies_blocks(src, dst, block_size, lit, pos + 1);
        }
    } else if pos < len {
        lemma_match_is_confirmed(dst, block_size, src.subrange(pos, len));
    }
}

/// A delta copies nothing that is not there: each block that it copies is a
/// block of the destination file.
pub proof fn lemma_copies_are_blocks(
    src: Seq<u8>,
    dst: Seq<u8>,
    block_size: nat,
)
    requires
        dst.len() <= u64::MAX,
    ensures
        copies_below(
            delta(file_index(dst, block_size), src, block_size),
            block_count(dst.len(), block_size),
        ),
{
    if block_size > 0 && src.len() > block_size {
        lemma_delta_from_copies_blocks(src, dst, block_size, 0, 0);
    }
}

/// The operations copy blocks and insert nothing.
pub open spec fn only_copies(ops: Seq<Op>) -> bool {
    forall|j: int| 0 <= j < ops.len() ==> #[trigger] ops[j] is CopyBlock
}

/// The delta of a file against itself from block `i` on.
proof fn lemma_delta_from_of_itself(file: Seq<u8>, block_size: nat, i: int)
    requires
        file.len() <= u64::MAX,
        block_size > 0,
        0 <= i <= block_count(file.len(), block_size),
        i * block_size <= file.len() || i == block_count(file.len(), block_size),
    ensures
        ({
            let start = lesser(i * block_size, file.len() as int);
            let ops = delta_from(file_index(file, block_size), file, block_size, start, start);
            only_copies(ops) && ops.len() == block_count(file.len(), block_size) - i
        }),
    decreases block_count(file.len(), block_size) - i,
{
    let len = file.len() as int;
    let count = block_count(file.len(), block_size);
    let start = lesser(i * block_size, len);
    lemma_block_count(file.len(), block_size, i);
    assert(i * block_size >= 0) by (nonlinear_arith)
        requires
            i >= 0,
            block_size >= 0,
    ;
    if i < count {
        lemma_block_finds_match(file, block_size, i);
        lemma_block_count(file.len(), block_size, i + 1);
        assert((i + 1) * block_size == i * block_size + block_size) by (nonlinear_arith);
        assert(file.subrange(start, start) =~= Seq::<u8>::empty());
        if start + block_size <= len {
            lemma_delta_from_of_itself(file, block_size, i + 1);
        }
    } else {
        assert(file.subrange(start, len) =~= Seq::<u8>::empty());
    }
}

/// An unchanged file is copied, not sent: the delta of a file of more than one
/// block against itself copies one block for each of its blocks and inserts
/// nothing.
pub proof fn lemma_delta_of_unchanged_file(file: Seq<u8>, block_size: nat)
    requires
        file.len() <= u64::MAX,
        0 < block_size < file.len(),
    ensures
        only_copies(delta(file_index(file, block_size), file, block_size)),
        delta(file_index(file, block_size), file, block_size).len() == block_count(
            file.len(),
            block_size,
        ),
{
    lemma_delta_from_of_itself(file, block_size, 0);
}

/// The delta from block `i` on, where the first `k` blocks are unchanged.
proof fn lemma_delta_from_unchanged_start(
    src: Seq<u8>,
    dst: Seq<u8>,
    block_size: nat,
    k: int,
    i: int,
)
    requires
        dst.len() <= u64::MAX,
        block_size > 0,
        0 <= i <= k,
        k * block_size <= src.len(),
        k * block_size <= dst.len(),
        src.subrange(0, k * block_size) == dst.subrange(0, k * block_size),
    ensures
        ({
            let start = i * block_size;
            let ops = delta_from(file_index(dst, block_size), src, block_size, start, start);
            ops.len() >= k - i && only_copies(ops.take(k - i))
        }),
    decreases k - i,
{
    let start = i * block_size;
    let end = (i + 1) * block_size;
    let ops = delta_from(file_index(dst, block_size), src, block_size, start, start);
    if i < k {
        let w = src.subrange(start, end);
        assert(end == start + block_size && 0 <= start && end <= k * block_size)
            by (nonlinear_arith)
            requires
                start == i * block_size,
                end == (i + 1) * block_size,
                0 <= i,
                i + 1 <= k,
                block_size >= 0,
        ;
        assert(w =~= src.subrange(0, k * block_size).subrange(start, end));
        assert(block_at(dst, block_size, i) =~= dst.subrange(0, k * block_size).subrange(
            start,
            end,
        ));
        lemma_block_count(dst.len(), block_size, i);
        lemma_block_finds_match(dst, block_size, i);
        lemma_delta_from_unchanged_start(src, dst, block_size, k, i + 1);
        assert(src.subrange(start, start) =~= Seq::<u8>::empty());
        let tail = delta_from(file_index(dst, block_size), src, block_size, end, end);
        assert forall|j: int| 0 <= j < k - i implies #[trigger] ops.take(k - i)[j] is CopyBlock by {
            if j > 0 {
                assert(ops[j] == tail[j - 1]);
                assert(tail.take(k - i - 1)[j - 1] is CopyBlock);
            }
        }
    }
}

/// Blocks that did not change are copied: where a source of more than one block
/// starts with the first `k` blocks of the destination file, its delta starts
/// with `k` copies.
pub proof fn lemma_unchanged_start_is_copied(src: Seq<u8>, dst: Seq<u8>, block_size: nat, k: int)
    requires
        dst.len() <= u64::MAX,
        0 < block_size < src.len(),
        0 <= k,
        k * block_size <= src.len(),
        k * block_size <= dst.len(),
        src.subrange(0, k * block_size) == dst.subrange(0, k * block_size),
    ensures
        delta(file_index(dst, block_size), src, block_size).len() >= k,
        only_copies(delta(file_index(dst, block_size), src, block_size).take(k)),
{
    assert(0 * block_size == 0);
    lemma_delta_from_unchanged_start(src, dst, block_size, k, 0);
}

/// The delta from a position on, where nothing matches.
proof fn lemma_delta_from_without_match(
    index: Map<u32, Seq<Listed>>,
    src: Seq<u8>,
    block_size: nat,
    lit: int,
    pos: int,
)
    requires
        block_size > 0,
        0 <= lit <= pos <= src.len(),
        forall|p: int, q: int|
            looked_up(p, q, src.len() as int, block_size) ==> lookup(
                index,
                #[trigger] src.subrange(p, q),
            ) is None,
    ensures
        delta_from(index, src, block_size, lit, pos) == inserting(
            src.subrange(lit, src.len() as int),
        ),
    decreases src.len() - pos,
{
    let len = src.len() as int;
    if pos + block_size <= len {
        assert(looked_up(pos, pos + block_size, len, block_size));
        lemma_delta_from_without_match(index, src, block_size, lit, pos + 1);
    } else if pos < len {
        assert(looked_up(pos, len, len, block_size));
    }
}

/// A file without known blocks is sent whole: where no window of the source
/// stands for a block, the delta is one insertion of the source. With an empty
/// index that is the case for every source.
pub proof fn lemma_delta_without_match(
    index: Map<u32, Seq<Listed>>,
    src: Seq<u8>,
    block_size: nat,
)
    requires
        index.dom().is_empty() || forall|p: int, q: int|
            looked_up(p, q, src.len() as int, block_size) ==> lookup(
                index,
                #[trigger] src.subrange(p, q),
            ) is None,
    ensures
        delta(index, src, block_size) == seq![Op::InsertData { data: src }],
{
    if index.dom().is_empty() {
        assert forall|p: int, q: int|
            looked_up(p, q, src.len() as int, block_size) implies lookup(
            index,
            #[trigger] src.subrange(p, q),
        ) is None by {
            assert(!index.dom().contains(weak_checksum(src.subrange(p, q)) as u32));
        }
    }
    if block_size > 0 && src.len() > block_size {
        lemma_delta_from_without_match(index, src, block_size, 0, 0);
        assert(src.subrange(0, src.len() as int) =~= src);
    }
}

/// Every insertion has data, and no two insertions follow each other.
pub open spec fn insertions_apart(ops: Seq<Op>) -> bool {
    &&& forall|j: int|
        0 <= j < ops.len() ==> (#[trigger] ops[j] matches Op::InsertData { data } ==> data.len()
            > 0)
    &&& forall|j: int|
        0 < j < ops.len() ==> (#[trigger] ops[j] is InsertData ==> ops[j - 1] is CopyBlock)
}

/// The number of bytes of a source of `len` bytes that `op` accounts for, where
/// it takes up the source at `pos`: a block, or what is left of the source, for
/// a copy, and its data for an insertion.
pub open spec fn span(op: Op, pos: int, len: int, block_size: nat) -> int {
    match op {
        Op::CopyBlock { .. } => lesser(block_size as int, len - pos),
        Op::InsertData { data } => data.len() as int,
    }
}

/// The position at which the operation `j` takes up a source of `len` bytes,
/// where the first one takes it up at `start`.
pub open spec fn position(ops: Seq<Op>, start: int, len: int, block_size: nat, j: int) -> int
    decreases j,
{
    if j <= 0 {
        start
    } else {
        let before = position(ops, start, len, block_size, j - 1);
        before + span(ops[j - 1], before, len, block_size)
    }
}

/// At the position `p` the operation `op` stands for the bytes of the source:
/// it inserts them, or copies the block that stands for them.
pub open spec fn in_place(
    index: Map<u32, Seq<Listed>>,
    src: Seq<u8>,
    block_size: nat,
    op: Op,
    p: int,
) -> bool {
    let len = src.len() as int;
    match op {
        Op::CopyBlock { index: block } => 0 <= p < len && lookup(
            index,
            src.subrange(p, lesser(p + block_size, len)),
        ) == Some(block),
        Op::InsertData { data } => 0 <= p && p + data.len() <= len && data == src.subrange(
            p,
            (p + data.len()) as int,
        ),
    }
}

/// The operations cover the source from `start` on, without a gap or an
/// overlap, each one in its place.
pub open spec fn covers(
    index: Map<u32, Seq<Listed>>,
    src: Seq<u8>,
    block_size: nat,
    ops: Seq<Op>,
    start: int,
) -> bool {
    let len = src.len() as int;
    &&& forall|j: int|
        0 <= j < ops.len() ==> in_place(
            index,
            src,
            block_size,
            #[trigger] ops[j],
            position(ops, start, len, block_size, j),
        )
    &&& position(ops, start, len, block_size, ops.len() as int) == len
}

/// Where the end of a source of `len` bytes that is shorter than a block starts,
/// as it is looked up by a scan that moves on byte by byte from `p`.
pub open spec fn short_end(p: int, len: int, block_size: nat) -> int {
    if p + block_size <= len {
        len - block_size + 1
    } else {
        p
    }
}

/// No window of `block_size` bytes of the source that starts between `p` and `q`
/// stands for a block in `index`, wherever it ends. Where `q` is the end of the
/// source, its short end does not stand for a block either.
pub open spec fn unmatched(
    index: Map<u32, Seq<Listed>>,
    src: Seq<u8>,
    block_size: nat,
    p: int,
    q: int,
) -> bool {
    let len = src.len() as int;
    let end = short_end(p, len, block_size);
    &&& forall|k: int|
        p <= k < q && k + block_size <= len ==> lookup(
            index,
            #[trigger] src.subrange(k, k + block_size),
        ) is None
    &&& q == len && end < len ==> lookup(index, src.subrange(end, len)) is None
}

/// Positions in two lists of operations, the one behind the other.
proof fn lemma_position_concat(
    x: Seq<Op>,
    y: Seq<Op>,
    start: int,
    len: int,
    block_size: nat,
    j: int,
)
    requires
        0 <= j <= x.len() + y.len(),
    ensures
        position(x + y, start, len, block_size, j) == if j <= x.len() {
            position(x, start, len, block_size, j)
        } else {
            position(
                y,
                position(x, start, len, block_size, x.len() as int),
                len,
                block_size,
                j - x.len(),
            )
        },
    decreases j,
{
    reveal_with_fuel(position, 2);
    if j > 0 {
        lemma_position_concat(x, y, start, len, block_size, j - 1);
        if j <= x.len() {
            assert((x + y)[j - 1] == x[j - 1]);
        } else {
            assert((x + y)[j - 1] == y[j - 1 - x.len()]);
        }
    }
}

/// `holds` is true of each operation at its position.
spec fn each(
    ops: Seq<Op>,
    start: int,
    len: int,
    block_size: nat,
    holds: spec_fn(Op, int) -> bool,
) -> bool {
    forall|j: int|
        0 <= j < ops.len() ==> holds(
            #[trigger] ops[j],
            position(ops, start, len, block_size, j),
        )
}

/// What holds of each operation of two lists holds of the one behind the other.
proof fn lemma_each_concat(
    x: Seq<Op>,
    y: Seq<Op>,
    start: int,
    mid: int,
    len: int,
    block_size: nat,
    holds: spec_fn(Op, int) -> bool,
)
    requires
        mid == position(x, start, len, block_size, x.len() as int),
        each(x, start, len, block_size, holds),
        each(y, mid, len, block_size, holds),
    ensures
        each(x + y, start, len, block_size, holds),
        position(x + y, start, len, block_size, (x + y).len() as int) == position(
            y,
            mid,
            len,
            block_size,
            y.len() as int,
        ),
{
    let ops = x + y;
    let n = x.len() as int;
    assert forall|j: int| 0 <= j < ops.len() implies holds(
        #[trigger] ops[j],
        position(ops, start, len, block_size, j),
    ) by {
        lemma_position_concat(x, y, start, len, block_size, j);
        if j < n {
            assert(holds(x[j], position(x, start, len, block_size, j)));
        } else {
            assert(holds(y[j - n], position(y, mid, len, block_size, j - n)));
        }
    }
    lemma_position_concat(x, y, start, len, block_size, ops.len() as int);
}

/// Insertions that are apart in two lists are apart in the one behind the other,
/// where a copy lies between them.
proof fn lemma_apart_concat(x: Seq<Op>, y: Seq<Op>)
    requires
        x.len() > 0,
        x.last() is CopyBlock,
        insertions_apart(x),
        insertions_apart(y),
    ensures
        insertions_apart(x + y),
{
    let ops = x + y;
    let n = x.len() as int;
    assert forall|j: int| 0 < j < ops.len() && #[trigger] ops[j] is InsertData implies ops[j
        - 1] is CopyBlock by {
        if j > n {
            assert(ops[j] == y[j - n]);
            assert(ops[j - 1] == y[j - n - 1]);
        } else if j < n {
            assert(ops[j] == x[j]);
        }
    }
}

/// An operation stands in its place, and inserts nothing that has a match. An
/// insertion ends where a whole block is left, at the short end or at the end.
spec fn well_placed(
    index: Map<u32, Seq<Listed>>,
    src: Seq<u8>,
    block_size: nat,
) -> spec_fn(Op, int) -> bool {
    |op: Op, p: int|
        {
            &&& in_place(index, src, block_size, op, p)
            &&& op matches Op::InsertData { data } ==> {
                let len = src.len() as int;
                let q = (p + data.len()) as int;
                &&& unmatched(index, src, block_size, p, q)
                &&& q + block_size <= len || q == short_end(p, len, block_size) || q == len
            }
        }
}

/// Inserting the bytes between `lit` and `pos` and copying a block for those
/// behind them is well placed.
proof fn lemma_insert_copy_well_placed(
    index: Map<u32, Seq<Listed>>,
    src: Seq<u8>,
    block_size: nat,
    lit: int,
    pos: int,
    block: u64,
)
    requires
        block_size > 0,
        0 <= lit <= pos < src.len(),
        lit < pos ==> pos - 1 + block_size <= src.len(),
        unmatched(index, src, block_size, lit, pos),
        lookup(index, src.subrange(pos, lesser(pos + block_size, src.len() as int))) == Some(block),
    ensures
        ({
            let len = src.len() as int;
            let ops = inserting(src.subrange(lit, pos)).push(Op::CopyBlock { index: block });
            &&& insertions_apart(ops)
            &&& each(ops, lit, len, block_size, well_placed(index, src, block_size))
            &&& position(ops, lit, len, block_size, ops.len() as int) == lesser(
                pos + block_size,
                len,
            )
        }),
{
    reveal_with_fuel(position, 3);
}

/// The shape of the delta from a position on.
proof fn lemma_delta_from_shape(
    index: Map<u32, Seq<Listed>>,
    src: Seq<u8>,
    block_size: nat,
    lit: int,
    pos: int,
)
    requires
        block_size > 0,
        0 <= lit <= pos <= src.len(),
        lit < pos ==> pos - 1 + block_size <= src.len(),
        forall|p: int|
            lit <= p < pos && p + block_size <= src.len() ==> lookup(
                index,
                #[trigger] src.subrange(p, p + block_size),
            ) is None,
    ensures
        ({
            let len = src.len() as int;
            let ops = delta_from(index, src, block_size, lit, pos);
            &&& insertions_apart(ops)
            &&& each(ops, lit, len, block_size, well_placed(index, src, block_size))
            &&& position(ops, lit, len, block_size, ops.len() as int) == len
        }),
    decreases src.len() - pos,
{
    let len = src.len() as int;
    let end = lesser(pos + block_size, len);
    let found = lookup(index, src.subrange(pos, end));
    if pos < len && found is Some {
        let block = found->0;
        let head = inserting(src.subrange(lit, pos)).push(Op::CopyBlock { index: block });
        lemma_insert_copy_well_placed(index, src, block_size, lit, pos, block);
        if pos + block_size <= len {
            let tail = delta_from(index, src, block_size, end, end);
            let holds = well_placed(index, src, block_size);
            lemma_delta_from_shape(index, src, block_size, end, end);
            lemma_apart_concat(head, tail);
            lemma_each_concat(head, tail, lit, end, len, block_size, holds);
        }
    } else if pos + block_size <= len {
        lemma_delta_from_shape(index, src, block_size, lit, pos + 1);
    } else {
        reveal_with_fuel(position, 2);
        assert(short_end(lit, len, block_size) == pos);
    }
}

/// A delta covers the source: its operations account for the bytes of the source
/// one after the other, from the first to the last, each insertion with these
/// bytes as its data and each copy with the block that stands for them. This
/// rests on no assumption about collisions.
pub proof fn lemma_delta_covers_source(
    index: Map<u32, Seq<Listed>>,
    src: Seq<u8>,
    block_size: nat,
)
    ensures
        covers(index, src, block_size, delta(index, src, block_size), 0),
{
    if block_size == 0 || src.len() <= block_size {
        reveal_with_fuel(position, 2);
        assert(src.subrange(0, src.len() as int) =~= src);
    } else {
        let ops = delta(index, src, block_size);
        let len = src.len() as int;
        lemma_delta_from_shape(index, src, block_size, 0, 0);
        assert forall|j: int| 0 <= j < ops.len() implies in_place(
            index,
            src,
            block_size,
            #[trigger] ops[j],
            position(ops, 0, len, block_size, j),
        ) by {
            assert(well_placed(index, src, block_size)(
                ops[j],
                position(ops, 0, len, block_size, j),
            ));
        }
    }
}

/// Neighbouring bytes are inserted together: in the delta for a source that is
/// not empty every insertion has data, and no two follow each other.
pub proof fn lemma_insertions_are_apart(
    index: Map<u32, Seq<Listed>>,
    src: Seq<u8>,
    block_size: nat,
)
    requires
        src.len() > 0,
    ensures
        insertions_apart(delta(index, src, block_size)),
{
    if 0 < block_size < src.len() {
        lemma_delta_from_shape(index, src, block_size, 0, 0);
    }
}

/// What the shape of a delta says of one of its operations.
proof fn lemma_operation_is_placed(
    index: Map<u32, Seq<Listed>>,
    src: Seq<u8>,
    block_size: nat,
    j: int,
)
    requires
        0 < block_size < src.len(),
        0 <= j < delta(index, src, block_size).len(),
    ensures
        ({
            let ops = delta(index, src, block_size);
            let len = src.len() as int;
            let p = position(ops, 0, len, block_size, j);
            let q = p + span(ops[j], p, len, block_size);
            &&& position(ops, 0, len, block_size, j + 1) == q
            &&& j + 1 == ops.len() ==> q == len
            &&& well_placed(index, src, block_size)(ops[j], p)
            &&& ops[j] is InsertData ==> ops[j]->data.len() > 0 && (j + 1 < ops.len() ==> ops[j
                + 1] is CopyBlock)
        }),
{
    let ops = delta(index, src, block_size);
    lemma_delta_from_shape(index, src, block_size, 0, 0);
    assert(well_placed(index, src, block_size)(
        ops[j],
        position(ops, 0, src.len() as int, block_size, j),
    ));
    if j + 1 < ops.len() {
        assert(ops[j + 1] is InsertData ==> ops[j + 1 - 1] is CopyBlock);
    }
}

/// Bytes are inserted where nothing stands for them, and only there: an insertion
/// from `p` to `q` holds the bytes of the source between the two, no window of a
/// whole block that starts in it stands for a block in `index`, and it goes on up
/// to the next window that does. Behind the last whole block it goes on up to the
/// short end, and further only where that stands for no block, up to the end of
/// the source.
pub proof fn lemma_insertion_runs_to_next_match(
    index: Map<u32, Seq<Listed>>,
    src: Seq<u8>,
    block_size: nat,
    j: int,
)
    requires
        0 < block_size < src.len(),
        0 <= j < delta(index, src, block_size).len(),
        delta(index, src, block_size)[j] is InsertData,
    ensures
        ({
            let ops = delta(index, src, block_size);
            let len = src.len() as int;
            let p = position(ops, 0, len, block_size, j);
            let q = (p + ops[j]->data.len()) as int;
            let end = if p + block_size <= len {
                len - block_size + 1
            } else {
                p
            };
            &&& 0 <= p < q <= len
            &&& ops[j]->data == src.subrange(p, q)
            &&& forall|k: int|
                p <= k < q && k + block_size <= len ==> lookup(
                    index,
                    #[trigger] src.subrange(k, k + block_size),
                ) is None
            &&& q + block_size <= len ==> lookup(index, src.subrange(q, q + block_size)) is Some
            &&& q + block_size > len && q < len ==> q == end && lookup(
                index,
                src.subrange(end, len),
            ) is Some
            &&& q == len && end < len ==> lookup(index, src.subrange(end, len)) is None
        }),
{
    let ops = delta(index, src, block_size);
    lemma_operation_is_placed(index, src, block_size, j);
    if j + 1 < ops.len() {
        lemma_operation_is_placed(index, src, block_size, j + 1);
    }
}

/// A source that is no longer than one block is inserted whole, and so is any
/// source where the blocks have no bytes, whatever the index holds.
pub proof fn lemma_short_source_is_inserted(
    index: Map<u32, Seq<Listed>>,
    src: Seq<u8>,
    block_size: nat,
)
    requires
        block_size == 0 || src.len() <= block_size,
    ensures
        delta(index, src, block_size) == seq![Op::InsertData { data: src }],
{
}

/// Only new data is inserted: in the delta for a source of more than one block,
/// no window of the source that starts in an insertion is a block of the
/// destination file, whether it ends in that insertion or reaches into what is
/// copied behind it. Nor is the short end of a source that ends in an insertion.
pub proof fn lemma_inserted_data_is_new(
    src: Seq<u8>,
    dst: Seq<u8>,
    block_size: nat,
    j: int,
    i: int,
)
    requires
        dst.len() <= u64::MAX,
        0 < block_size < src.len(),
        0 <= j < delta(file_index(dst, block_size), src, block_size).len(),
        delta(file_index(dst, block_size), src, block_size)[j] is InsertData,
        0 <= i < block_count(dst.len(), block_size),
    ensures
        ({
            let ops = delta(file_index(dst, block_size), src, block_size);
            let len = src.len() as int;
            let p = position(ops, 0, len, block_size, j);
            let q = position(ops, 0, len, block_size, j + 1);
            let end = short_end(p, len, block_size);
            let block = block_at(dst, block_size, i);
            &&& 0 <= p < q <= len
            &&& ops[j]->data == src.subrange(p, q)
            &&& forall|k: int|
                p <= k < q && k + block_size <= len ==> #[trigger] src.subrange(k, k + block_size)
                    != block
            &&& q == len && end < len ==> src.subrange(end, len) != block
        }),
{
    let index = file_index(dst, block_size);
    let ops = delta(index, src, block_size);
    let len = src.len() as int;
    lemma_delta_from_shape(index, src, block_size, 0, 0);
    lemma_block_finds_match(dst, block_size, i);
    let p = position(ops, 0, len, block_size, j);
    assert(position(ops, 0, len, block_size, j + 1) == p + ops[j]->data.len());
    assert(well_placed(index, src, block_size)(ops[j], p));
}

} // verus!
