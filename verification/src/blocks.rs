//! The blocks of a destination file, found again by their weak checksums.

use crate::rolling::{weak_checksum, Rolling};
use crate::strong::{blake3_digest, digests_equal, strong_hash};
use std::collections::HashMap;
use vstd::prelude::*;
use vstd::slice::slice_subrange;

verus! {

broadcast use vstd::std_specs::hash::group_hash_axioms;

/// A block of the destination file.
#[derive(Clone, Copy, Debug, PartialEq, Eq)]
pub struct BlockEntry {
    /// Position of the block, counted in blocks.
    pub index: u64,
    /// Strong hash of the bytes of the block.
    pub strong: [u8; 32],
}

/// A block entry with its digest as a sequence.
pub struct Listed {
    pub index: u64,
    pub digest: Seq<u8>,
}

impl View for BlockEntry {
    type V = Listed;

    open spec fn view(&self) -> Listed {
        Listed { index: self.index, digest: self.strong@ }
    }
}

/// The entries of a list, each by its view.
pub open spec fn listing(entries: Seq<BlockEntry>) -> Seq<Listed> {
    entries.map_values(|e: BlockEntry| e@)
}

/// A block map, each list of entries by its listing.
pub open spec fn index_view(map: Map<u32, Vec<BlockEntry>>) -> Map<u32, Seq<Listed>> {
    map.map_values(|entries: Vec<BlockEntry>| listing(entries@))
}

/// The blocks that `index` lists under the weak checksum `weak`, in their order.
pub open spec fn candidates(index: Map<u32, Seq<Listed>>, weak: u32) -> Seq<Listed> {
    if index.contains_key(weak) {
        index[weak]
    } else {
        Seq::empty()
    }
}

/// The index of the first block in `list` whose digest is `digest`.
pub open spec fn first_with(list: Seq<Listed>, digest: Seq<u8>) -> Option<u64>
    decreases list.len(),
{
    if list.len() == 0 {
        None
    } else if list[0].digest == digest {
        Some(list[0].index)
    } else {
        first_with(list.drop_first(), digest)
    }
}

/// The block of the destination that stands for the bytes `w`: the first one
/// listed under their weak checksum that has their digest.
pub open spec fn lookup(index: Map<u32, Seq<Listed>>, w: Seq<u8>) -> Option<u64> {
    first_with(candidates(index, weak_checksum(w) as u32), blake3_digest(w))
}

/// The number of blocks of `block_size` bytes that a file of `len` bytes has,
/// the last one possibly shorter. Blocks of no bytes divide nothing.
pub open spec fn block_count(len: nat, block_size: nat) -> nat {
    if block_size == 0 {
        0
    } else {
        ((len + block_size - 1) / block_size as int) as nat
    }
}

/// The smaller one of two numbers.
pub open spec fn lesser(x: int, y: int) -> int {
    if x <= y {
        x
    } else {
        y
    }
}

/// The bytes of block `i`: `block_size` bytes, or what the file has left there.
pub open spec fn block_at(file: Seq<u8>, block_size: nat, i: int) -> Seq<u8> {
    let start = lesser(i * block_size, file.len() as int);
    let end = lesser(start + block_size, file.len() as int);
    file.subrange(start, end)
}

/// Those of the first `n` blocks of `file` whose weak checksum is `weak`, in
/// the order in which they stand in the file.
pub open spec fn blocks_under(file: Seq<u8>, block_size: nat, weak: u32, n: nat) -> Seq<Listed>
    decreases n,
{
    if n == 0 {
        Seq::empty()
    } else {
        let i = (n - 1) as nat;
        let block = block_at(file, block_size, i as int);
        let before = blocks_under(file, block_size, weak, i);
        if weak_checksum(block) as u32 == weak {
            before.push(Listed { index: i as u64, digest: blake3_digest(block) })
        } else {
            before
        }
    }
}

/// The index of the first `n` blocks of `file`: from each weak checksum that
/// occurs to the blocks that have it.
pub open spec fn index_of_first(file: Seq<u8>, block_size: nat, n: nat) -> Map<u32, Seq<Listed>> {
    Map::new(
        |weak: u32| blocks_under(file, block_size, weak, n).len() > 0,
        |weak: u32| blocks_under(file, block_size, weak, n),
    )
}

/// The index of all blocks of `file`.
pub open spec fn file_index(file: Seq<u8>, block_size: nat) -> Map<u32, Seq<Listed>> {
    index_of_first(file, block_size, block_count(file.len(), block_size))
}

/// A block map and its view hold the same: the same weak checksums, and under
/// each the same positions and hashes in the same order.
pub proof fn lemma_index_view_keeps_entries(map: Map<u32, Vec<BlockEntry>>, weak: u32, j: int)
    ensures
        index_view(map).contains_key(weak) <==> map.contains_key(weak),
        map.contains_key(weak) ==> index_view(map)[weak].len() == map[weak]@.len(),
        map.contains_key(weak) && 0 <= j < map[weak]@.len() ==> {
            &&& index_view(map)[weak][j].index == map[weak]@[j].index
            &&& index_view(map)[weak][j].digest == map[weak]@[j].strong@
        },
{
}

/// The first entry with a digest is an entry with that digest before which none
/// has it; where none is found, none has it.
pub proof fn lemma_first_with(list: Seq<Listed>, digest: Seq<u8>)
    ensures
        match first_with(list, digest) {
            Some(index) => exists|j: int|
                #![trigger list[j]]
                0 <= j < list.len() && list[j].index == index && list[j].digest == digest && (
                forall|k: int| 0 <= k < j ==> #[trigger] list[k].digest != digest),
            None => forall|j: int| 0 <= j < list.len() ==> #[trigger] list[j].digest != digest,
        },
    decreases list.len(),
{
    if list.len() > 0 && list[0].digest != digest {
        let tail = list.drop_first();
        lemma_first_with(tail, digest);
        assert forall|k: int| 0 < k < list.len() implies #[trigger] list[k] == tail[k - 1] by {}
        if let Some(index) = first_with(list, digest) {
            let j = choose|j: int|
                #![trigger tail[j]]
                0 <= j < tail.len() && tail[j].index == index && tail[j].digest == digest && (
                forall|k: int| 0 <= k < j ==> #[trigger] tail[k].digest != digest);
            assert(list[j + 1] == tail[j]);
        }
    } else if list.len() > 0 {
        assert(list[0].digest == digest);
    }
}

/// What an index of blocks lists under a weak checksum.
pub proof fn lemma_candidates(file: Seq<u8>, block_size: nat, weak: u32, n: nat)
    ensures
        candidates(index_of_first(file, block_size, n), weak) == blocks_under(
            file,
            block_size,
            weak,
            n,
        ),
{
    assert(candidates(index_of_first(file, block_size, n), weak) =~= blocks_under(
        file,
        block_size,
        weak,
        n,
    ));
}

/// A block below the block count starts inside the file, one at or beyond it
/// does not.
pub proof fn lemma_block_count(len: nat, block_size: nat, i: int)
    requires
        block_size > 0,
        i >= 0,
    ensures
        i < block_count(len, block_size) <==> i * block_size < len,
        block_count(len, block_size) <= len,
{
    let count = block_count(len, block_size) as int;
    let bs = block_size as int;
    let top = len + bs - 1;
    vstd::arithmetic::div_mod::lemma_fundamental_div_mod(top, bs);
    assert(count * bs <= top < count * bs + bs) by (nonlinear_arith)
        requires
            top == bs * count + top % bs,
            0 <= top % bs < bs,
    ;
    if i < count {
        assert(i * bs + bs <= count * bs) by (nonlinear_arith)
            requires
                i + 1 <= count,
                bs > 0,
        ;
    } else {
        assert(count * bs <= i * bs) by (nonlinear_arith)
            requires
                count <= i,
                bs > 0,
        ;
    }
    if count > len {
        assert((len + 1) * bs <= count * bs) by (nonlinear_arith)
            requires
                len + 1 <= count,
                bs > 0,
        ;
        assert((len + 1) * bs >= len + bs) by (nonlinear_arith)
            requires
                bs >= 1,
                len >= 0,
        ;
    }
}

/// Finds the first entry whose strong hash is `digest` and returns its index.
pub fn find_digest(entries: &Vec<BlockEntry>, digest: &[u8; 32]) -> (r: Option<u64>)
    ensures
        r == first_with(listing(entries@), digest@),
        match r {
            Some(index) => exists|j: int|
                #![trigger entries@[j]]
                0 <= j < entries@.len() && entries@[j].index == index && entries@[j].strong@
                    == digest@ && (forall|k: int|
                    0 <= k < j ==> #[trigger] entries@[k].strong@ != digest@),
            None => forall|j: int|
                0 <= j < entries@.len() ==> #[trigger] entries@[j].strong@ != digest@,
        },
{
    let ghost list = listing(entries@);
    let mut i: usize = 0;
    assert(list.skip(0) =~= list);
    while i < entries.len()
        invariant
            i <= entries.len(),
            list == listing(entries@),
            first_with(list, digest@) == first_with(list.skip(i as int), digest@),
            forall|k: int| 0 <= k < i ==> #[trigger] entries@[k].strong@ != digest@,
        decreases entries.len() - i,
    {
        if digests_equal(&entries[i].strong, digest) {
            return Some(entries[i].index);
        }
        assert(list.skip(i as int).drop_first() =~= list.skip(i + 1));
        i = i + 1;
    }
    None
}

/// Finds the destination block that stands for the bytes of `window`, which
/// have the weak checksum `weak`. The strong hash is computed only where some
/// block has that weak checksum.
pub fn find_block(map: &HashMap<u32, Vec<BlockEntry>>, weak: u32, window: &[u8]) -> (r: Option<u64>)
    ensures
        r == first_with(candidates(index_view(map@), weak), blake3_digest(window@)),
        !map@.contains_key(weak) ==> r is None,
        map@.contains_key(weak) ==> {
            let list = map@[weak]@;
            match r {
                Some(index) => exists|j: int|
                    #![trigger list[j]]
                    0 <= j < list.len() && list[j].index == index && list[j].strong@
                        == blake3_digest(window@) && (forall|k: int|
                        0 <= k < j ==> #[trigger] list[k].strong@ != blake3_digest(window@)),
                None => forall|j: int|
                    0 <= j < list.len() ==> #[trigger] list[j].strong@ != blake3_digest(window@),
            }
        },
{
    match map.get(&weak) {
        Some(entries) => {
            let digest = strong_hash(window);
            find_digest(entries, &digest)
        },
        None => None,
    }
}

/// Adds `entry` behind the entries that `map` lists under `weak`.
pub fn add_entry(map: &mut HashMap<u32, Vec<BlockEntry>>, weak: u32, entry: BlockEntry)
    ensures
        index_view(final(map)@) == index_view(old(map)@).insert(
            weak,
            candidates(index_view(old(map)@), weak).push(entry@),
        ),
        final(map)@ == old(map)@.insert(weak, final(map)@[weak]),
        old(map)@.contains_key(weak) ==> final(map)@[weak]@ == old(map)@[weak]@.push(entry),
        !old(map)@.contains_key(weak) ==> final(map)@[weak]@ == seq![entry],
{
    map.entry(weak).or_insert(Vec::new()).push(entry);
    proof {
        let before = index_view(old(map)@);
        let list = candidates(before, weak).push(entry@);
        assert(index_view(map@)[weak] =~= list);
        assert(index_view(map@) =~= before.insert(weak, list));
    }
}

/// A block map while its file is read.
pub struct MapperState {
    /// The part of the file that was read.
    pub file: Seq<u8>,
    /// The length of a block.
    pub block_size: nat,
    /// The blocks that were mapped.
    pub index: Map<u32, Seq<Listed>>,
    /// More of the file is wanted.
    pub open: bool,
}

/// Maps the blocks of a file that is read block by block.
pub struct BlockMapper {
    map: HashMap<u32, Vec<BlockEntry>>,
    block_size: usize,
    next: u64,
    open: bool,
    file: Ghost<Seq<u8>>,
}

impl View for BlockMapper {
    type V = MapperState;

    closed spec fn view(&self) -> MapperState {
        MapperState {
            file: self.file@,
            block_size: self.block_size as nat,
            index: index_view(self.map@),
            open: self.open,
        }
    }
}

impl BlockMapper {
    /// All blocks of the part that was read are mapped, and as long as more of
    /// the file is wanted that part ends with a whole block.
    pub closed spec fn well_formed(&self) -> bool {
        &&& self@.index == file_index(self@.file, self@.block_size)
        &&& self.open ==> {
            &&& self.block_size > 0
            &&& self.next < u64::MAX
            &&& self.file@.len() == self.next * self.block_size
        }
    }

    /// Starts with nothing read. Blocks of no bytes divide nothing, so that
    /// nothing of the file is wanted for them.
    pub fn new(block_size: usize) -> (r: Self)
        ensures
            r.well_formed(),
            r@.file == Seq::<u8>::empty(),
            r@.block_size == block_size,
            r@.index == Map::<u32, Seq<Listed>>::empty(),
            r@.open <==> block_size > 0,
    {
        let r = BlockMapper {
            map: HashMap::new(),
            block_size,
            next: 0,
            open: block_size > 0,
            file: Ghost(Seq::empty()),
        };
        proof {
            if block_size > 0 {
                lemma_block_count(0, block_size as nat, 0);
            }
            assert(r@.index =~= Map::empty());
            assert(r@.index =~= file_index(r@.file, r@.block_size));
        }
        r
    }

    /// Tells whether more of the file is wanted.
    pub fn wants_more(&self) -> (r: bool)
        ensures
            r == self@.open,
    {
        self.open
    }

    /// Maps the next bytes of the file: a whole block, or the rest of the file
    /// where that is shorter, after which no more is wanted. Nor is it once as
    /// many blocks are mapped as an index can count.
    pub fn add_block(&mut self, block: &[u8])
        requires
            old(self).well_formed(),
            old(self)@.open,
            block@.len() <= old(self)@.block_size,
        ensures
            final(self).well_formed(),
            final(self)@.file == old(self)@.file + block@,
            final(self)@.block_size == old(self)@.block_size,
            final(self)@.index == file_index(final(self)@.file, old(self)@.block_size),
            final(self)@.open <==> block@.len() == old(self)@.block_size && block_count(
                final(self)@.file.len(),
                old(self)@.block_size,
            ) < u64::MAX,
    {
        let ghost bs = self.block_size as nat;
        let ghost before = self.file@;
        let ghost after = before + block@;
        let i: u64 = self.next;
        let len: usize = block.len();
        proof {
            lemma_index_of_extended_file(before, block@, bs, i as nat);
            lemma_block_count(after.len(), bs, i as int);
            lemma_block_count(after.len(), bs, i + 1);
            lemma_block_count(before.len(), bs, i as int);
            if i > 0 {
                lemma_block_count(after.len(), bs, i - 1);
                lemma_block_count(before.len(), bs, i - 1);
            }
            assert((i + 1) * bs == i * bs + bs) by (nonlinear_arith);
            assert((i - 1) * bs == i * bs - bs) by (nonlinear_arith);
            assert(block_count(before.len(), bs) == i);
            assert(block_count(after.len(), bs) == if len > 0 {
                i + 1
            } else {
                i as int
            });
        }
        if len > 0 {
            let weak: u32 = Rolling::init(block).checksum();
            let strong = strong_hash(block);
            add_entry(&mut self.map, weak, BlockEntry { index: i, strong });
            self.next = i + 1;
            proof {
                lemma_candidates(after, bs, weak, i as nat);
                assert(block@ =~= block_at(after, bs, i as int));
                assert(index_view(self.map@) =~= index_of_first(after, bs, (i + 1) as nat));
            }
        }
        self.open = len == self.block_size && self.next < u64::MAX;
        self.file = Ghost(after);
    }

    /// The map of the blocks of what was read.
    pub fn finish(self) -> (r: HashMap<u32, Vec<BlockEntry>>)
        requires
            self.well_formed(),
        ensures
            index_view(r@) == self@.index,
            index_view(r@) == file_index(self@.file, self@.block_size),
    {
        self.map
    }
}

/// What follows a file changes nothing of its whole blocks.
proof fn lemma_blocks_of_extended_file(
    file: Seq<u8>,
    more: Seq<u8>,
    block_size: nat,
    weak: u32,
    n: nat,
)
    requires
        n * block_size <= file.len(),
    ensures
        blocks_under(file + more, block_size, weak, n) == blocks_under(file, block_size, weak, n),
    decreases n,
{
    if n > 0 {
        let i = n - 1;
        assert(i * block_size + block_size == n * block_size && i * block_size >= 0)
            by (nonlinear_arith)
            requires
                i == n - 1,
                i >= 0,
                block_size >= 0,
        ;
        lemma_blocks_of_extended_file(file, more, block_size, weak, i as nat);
        assert(block_at(file + more, block_size, i) =~= block_at(file, block_size, i));
    }
}

/// What follows a file changes nothing of the index of its whole blocks.
proof fn lemma_index_of_extended_file(file: Seq<u8>, more: Seq<u8>, block_size: nat, n: nat)
    requires
        n * block_size <= file.len(),
    ensures
        index_of_first(file + more, block_size, n) == index_of_first(file, block_size, n),
{
    assert forall|weak: u32| #[trigger]
        blocks_under(file + more, block_size, weak, n) == blocks_under(
            file,
            block_size,
            weak,
            n,
        ) by {
        lemma_blocks_of_extended_file(file, more, block_size, weak, n);
    }
    assert(index_of_first(file + more, block_size, n) =~= index_of_first(file, block_size, n));
}

/// Builds the map of all blocks of a destination file whose bytes are `dest`:
/// from each weak checksum to the blocks that have it.
pub fn build_block_map(dest: &[u8], block_size: usize) -> (r: HashMap<u32, Vec<BlockEntry>>)
    ensures
        index_view(r@) == file_index(dest@, block_size as nat),
{
    let len: usize = dest.len();
    let mut mapper = BlockMapper::new(block_size);
    let mut start: usize = 0;
    assert(dest@.take(0) =~= Seq::<u8>::empty());
    while mapper.wants_more()
        invariant
            len == dest@.len(),
            start <= len,
            mapper.well_formed(),
            mapper@.block_size == block_size,
            mapper@.file == dest@.take(start as int),
            mapper@.open ==> block_size > 0,
            mapper@.open || start == len || block_size == 0,
        decreases
            len - start + if mapper@.open {
                1int
            } else {
                0
            },
    {
        let end: usize = if len - start < block_size {
            len
        } else {
            start + block_size
        };
        mapper.add_block(slice_subrange(dest, start, end));
        proof {
            assert(dest@.take(start as int) + dest@.subrange(start as int, end as int)
                =~= dest@.take(end as int));
            lemma_block_count(end as nat, block_size as nat, 0);
        }
        start = end;
    }
    proof {
        if block_size > 0 {
            assert(dest@.take(len as int) =~= dest@);
        } else {
            assert(file_index(dest@, 0) =~= file_index(dest@.take(start as int), 0));
        }
    }
    mapper.finish()
}

} // verus!
