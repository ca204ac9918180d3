//! The block index: a tree of bounding intervals over the data blocks of a
//! file, searched from the root for the blocks that may hold records of a
//! query.

use crate::bbiread::{BBIReadError, Block, CIR_TREE_MAGIC};
use crate::codec::{get_u16, get_u32, get_u64, get_u8, u16_at, u32_at, u64_at, u8_at, Endianness};
use vstd::prelude::*;

verus! {

/// Bytes of the header that stands before the root of the index.
pub const CIR_TREE_HEADER_SIZE: u64 = 48;

/// Bytes of one entry of a leaf.
pub const LEAF_ENTRY_SIZE: usize = 32;

/// Bytes of one entry of an inner node.
pub const CHILD_ENTRY_SIZE: usize = 24;

/// The deepest index that is searched. An index that branches at least two
/// ways over fewer than 2^64 blocks has no more levels than this.
pub const MAX_INDEX_DEPTH: u32 = 64;

/// One entry of a node: the interval that it bounds, from `start_base` on
/// chromosome `start_chrom_ix` to `end_base` on chromosome `end_chrom_ix`,
/// and what it points to. In a leaf that is a data block of `size` bytes at
/// `offset`; in an inner node it is the child node at `offset`, and `size`
/// is zero.
#[derive(Clone, Copy, Debug, PartialEq, Eq, Structural)]
pub struct IndexEntry {
    pub start_chrom_ix: u32,
    pub start_base: u32,
    pub end_chrom_ix: u32,
    pub end_base: u32,
    pub offset: u64,
    pub size: u64,
}

/// Whether the interval of `entry` overlaps `[start, end)` on chromosome
/// `chrom`: it ends after the query's start and starts before its end, in
/// the order of chromosome first and base second.
pub open spec fn entry_overlaps(entry: IndexEntry, chrom: u32, start: u32, end: u32) -> bool {
    (entry.end_chrom_ix > chrom || (entry.end_chrom_ix == chrom && entry.end_base > start)) && (
    entry.start_chrom_ix < chrom || (entry.start_chrom_ix == chrom && entry.start_base < end))
}

/// Whether the interval of `inner` lies within that of `outer`.
pub open spec fn entry_within(inner: IndexEntry, outer: IndexEntry) -> bool {
    (outer.start_chrom_ix < inner.start_chrom_ix || (outer.start_chrom_ix == inner.start_chrom_ix
        && outer.start_base <= inner.start_base)) && (inner.end_chrom_ix < outer.end_chrom_ix || (
    inner.end_chrom_ix == outer.end_chrom_ix && inner.end_base <= outer.end_base))
}

/// The data block that a leaf entry points to.
pub open spec fn entry_block(entry: IndexEntry) -> Block {
    Block { offset: entry.offset, size: entry.size }
}

/// The leaf entry that starts at `at`.
pub open spec fn leaf_entry_at(data: Seq<u8>, endianness: Endianness, at: int) -> IndexEntry {
    IndexEntry {
        start_chrom_ix: u32_at(data, at, endianness),
        start_base: u32_at(data, at + 4, endianness),
        end_chrom_ix: u32_at(data, at + 8, endianness),
        end_base: u32_at(data, at + 12, endianness),
        offset: u64_at(data, at + 16, endianness),
        size: u64_at(data, at + 24, endianness),
    }
}

/// The entry of an inner node that starts at `at`.
pub open spec fn child_entry_at(data: Seq<u8>, endianness: Endianness, at: int) -> IndexEntry {
    IndexEntry {
        start_chrom_ix: u32_at(data, at, endianness),
        start_base: u32_at(data, at + 4, endianness),
        end_chrom_ix: u32_at(data, at + 8, endianness),
        end_base: u32_at(data, at + 12, endianness),
        offset: u64_at(data, at + 16, endianness),
        size: 0,
    }
}

/// The first `n` entries of the leaf whose entries start at `base`.
pub open spec fn leaf_entries(data: Seq<u8>, endianness: Endianness, base: int, n: nat) -> Seq<
    IndexEntry,
> {
    Seq::new(n, |i: int| leaf_entry_at(data, endianness, base + 32 * i))
}

/// The blocks of the entries of `entries` that overlap the query, in their
/// order.
pub open spec fn overlapping_blocks(entries: Seq<IndexEntry>, chrom: u32, start: u32, end: u32) -> Seq<
    Block,
> {
    entries.filter(|entry: IndexEntry| entry_overlaps(entry, chrom, start, end)).map_values(
        |entry: IndexEntry| entry_block(entry),
    )
}

/// What the search of the node at `offset` finds, going at most `depth`
/// levels down: the blocks of the leaf entries that overlap the query, in the
/// order of the tree, where only children are entered whose own interval
/// overlaps it.
pub open spec fn node_blocks(
    data: Seq<u8>,
    endianness: Endianness,
    offset: int,
    depth: nat,
    chrom: u32,
    start: u32,
    end: u32,
) -> Result<Seq<Block>, BBIReadError>
    decreases depth, 0nat,
{
    if depth == 0 {
        Err(BBIReadError::IndexTooDeep)
    } else if offset < 0 || offset + 4 > data.len() {
        Err(BBIReadError::UnexpectedEof)
    } else {
        let count = u16_at(data, offset + 2, endianness) as nat;
        if u8_at(data, offset) == 1 {
            if offset + 4 + 32 * count > data.len() {
                Err(BBIReadError::UnexpectedEof)
            } else {
                Ok(
                    overlapping_blocks(
                        leaf_entries(data, endianness, offset + 4, count),
                        chrom,
                        start,
                        end,
                    ),
                )
            }
        } else {
            if offset + 4 + 24 * count > data.len() {
                Err(BBIReadError::UnexpectedEof)
            } else {
                children_blocks(
                    data,
                    endianness,
                    offset + 4,
                    count,
                    (depth - 1) as nat,
                    chrom,
                    start,
                    end,
                )
            }
        }
    }
}

/// What the search finds under the first `n` entries of the inner node whose
/// entries start at `base`.
pub open spec fn children_blocks(
    data: Seq<u8>,
    endianness: Endianness,
    base: int,
    n: nat,
    depth: nat,
    chrom: u32,
    start: u32,
    end: u32,
) -> Result<Seq<Block>, BBIReadError>
    decreases depth, n,
{
    if n == 0 {
        Ok(Seq::empty())
    } else {
        match children_blocks(data, endianness, base, (n - 1) as nat, depth, chrom, start, end) {
            Err(e) => Err(e),
            Ok(found) => {
                let child = child_entry_at(data, endianness, base + 24 * (n - 1));
                if entry_overlaps(child, chrom, start, end) {
                    match node_blocks(
                        data,
                        endianness,
                        child.offset as int,
                        depth,
                        chrom,
                        start,
                        end,
                    ) {
                        Err(e) => Err(e),
                        Ok(below) => Ok(found + below),
                    }
                } else {
                    Ok(found)
                }
            },
        }
    }
}

/// What a search of the index that starts at `index_offset` finds: the index
/// must start with its magic number, and its root follows its header.
pub open spec fn spec_search_cir_tree(
    data: Seq<u8>,
    endianness: Endianness,
    index_offset: u64,
    chrom: u32,
    start: u32,
    end: u32,
) -> Result<Seq<Block>, BBIReadError> {
    if index_offset + 48 > data.len() {
        Err(BBIReadError::UnexpectedEof)
    } else if u32_at(data, index_offset as int, endianness) != CIR_TREE_MAGIC {
        Err(BBIReadError::BadIndexMagic)
    } else {
        node_blocks(
            data,
            endianness,
            index_offset + 48,
            MAX_INDEX_DEPTH as nat,
            chrom,
            start,
            end,
        )
    }
}

/// Tells whether the interval of `entry` overlaps the query.
pub fn overlaps(entry: &IndexEntry, chrom: u32, start: u32, end: u32) -> (r: bool)
    ensures
        r == entry_overlaps(*entry, chrom, start, end),
{
    (entry.end_chrom_ix > chrom || (entry.end_chrom_ix == chrom && entry.end_base > start)) && (
    entry.start_chrom_ix < chrom || (entry.start_chrom_ix == chrom && entry.start_base < end))
}

/// Adding one entry to a list adds its block to the overlapping ones, if it
/// overlaps.
pub proof fn lemma_overlapping_blocks_push(
    entries: Seq<IndexEntry>,
    entry: IndexEntry,
    chrom: u32,
    start: u32,
    end: u32,
)
    ensures
        overlapping_blocks(entries.push(entry), chrom, start, end) == if entry_overlaps(
            entry,
            chrom,
            start,
            end,
        ) {
            overlapping_blocks(entries, chrom, start, end).push(entry_block(entry))
        } else {
            overlapping_blocks(entries, chrom, start, end)
        },
{
    let pred = |entry: IndexEntry| entry_overlaps(entry, chrom, start, end);
    entries.lemma_filter_push(entry, pred);
    if entry_overlaps(entry, chrom, start, end) {
        assert(entries.push(entry).filter(pred) == entries.filter(pred).push(entry));
        assert(overlapping_blocks(entries.push(entry), chrom, start, end) =~= overlapping_blocks(
            entries,
            chrom,
            start,
            end,
        ).push(entry_block(entry)));
    } else {
        assert(entries.push(entry).filter(pred) == entries.filter(pred));
    }
}

/// Searches the node at `offset` and what lies below it, and appends what it
/// finds to `blocks`.
fn search_node(
    data: &[u8],
    endianness: Endianness,
    offset: u64,
    depth: u32,
    chrom: u32,
    start: u32,
    end: u32,
    blocks: &mut Vec<Block>,
) -> (r: Result<(), BBIReadError>)
    ensures
        match r {
            Ok(()) => node_blocks(data@, endianness, offset as int, depth as nat, chrom, start, end)
                == Ok::<Seq<Block>, BBIReadError>(
                final(blocks)@.skip(old(blocks)@.len() as int),
            ) && final(blocks)@.take(old(blocks)@.len() as int) == old(blocks)@
                && final(blocks)@.len() >= old(blocks)@.len(),
            Err(e) => node_blocks(data@, endianness, offset as int, depth as nat, chrom, start, end)
                == Err::<Seq<Block>, BBIReadError>(e),
        },
    decreases depth,
{
    if depth == 0 {
        return Err(BBIReadError::IndexTooDeep);
    }
    let len: u64 = data.len() as u64;
    if len < 4 || offset > len - 4 {
        return Err(BBIReadError::UnexpectedEof);
    }
    let at: usize = offset as usize;
    let is_leaf = get_u8(data, at, endianness).unwrap();
    let count: usize = get_u16(data, at + 2, endianness).unwrap() as usize;
    let base: usize = at + 4;
    let ghost before = blocks@;
    if is_leaf == 1 {
        if (data.len() - base) / LEAF_ENTRY_SIZE < count {
            return Err(BBIReadError::UnexpectedEof);
        }
        let mut i: usize = 0;
        assert(leaf_entries(data@, endianness, base as int, 0) =~= Seq::<IndexEntry>::empty());
        while i < count
            invariant
                i <= count,
                base + 32 * count <= data@.len() <= usize::MAX,
                blocks@ == before + overlapping_blocks(
                    leaf_entries(data@, endianness, base as int, i as nat),
                    chrom,
                    start,
                    end,
                ),
            decreases count - i,
        {
            let entry_at: usize = base + LEAF_ENTRY_SIZE * i;
            let entry = IndexEntry {
                start_chrom_ix: get_u32(data, entry_at, endianness).unwrap(),
                start_base: get_u32(data, entry_at + 4, endianness).unwrap(),
                end_chrom_ix: get_u32(data, entry_at + 8, endianness).unwrap(),
                end_base: get_u32(data, entry_at + 12, endianness).unwrap(),
                offset: get_u64(data, entry_at + 16, endianness).unwrap(),
                size: get_u64(data, entry_at + 24, endianness).unwrap(),
            };
            proof {
                let done = leaf_entries(data@, endianness, base as int, i as nat);
                assert(leaf_entries(data@, endianness, base as int, (i + 1) as nat) =~= done.push(
                    entry,
                ));
                lemma_overlapping_blocks_push(done, entry, chrom, start, end);
            }
            if overlaps(&entry, chrom, start, end) {
                blocks.push(Block { offset: entry.offset, size: entry.size });
            }
            i = i + 1;
        }
        proof {
            let found = overlapping_blocks(
                leaf_entries(data@, endianness, base as int, count as nat),
                chrom,
                start,
                end,
            );
            assert(blocks@.skip(before.len() as int) =~= found);
            assert(blocks@.take(before.len() as int) =~= before);
        }
        Ok(())
    } else {
        if (data.len() - base) / CHILD_ENTRY_SIZE < count {
            return Err(BBIReadError::UnexpectedEof);
        }
        let mut i: usize = 0;
        let ghost mut found: Seq<Block> = Seq::empty();
        assert(node_blocks(data@, endianness, offset as int, depth as nat, chrom, start, end)
            == children_blocks(
            data@,
            endianness,
            base as int,
            count as nat,
            (depth - 1) as nat,
            chrom,
            start,
            end,
        ));
        while i < count
            invariant
                i <= count,
                depth > 0,
                node_blocks(data@, endianness, offset as int, depth as nat, chrom, start, end)
                    == children_blocks(
                    data@,
                    endianness,
                    base as int,
                    count as nat,
                    (depth - 1) as nat,
                    chrom,
                    start,
                    end,
                ),
                base + 24 * count <= data@.len() <= usize::MAX,
                blocks@ == before + found,
                children_blocks(
                    data@,
                    endianness,
                    base as int,
                    i as nat,
                    (depth - 1) as nat,
                    chrom,
                    start,
                    end,
                ) == Ok::<Seq<Block>, BBIReadError>(found),
            decreases count - i,
        {
            let entry_at: usize = base + CHILD_ENTRY_SIZE * i;
            let child = IndexEntry {
                start_chrom_ix: get_u32(data, entry_at, endianness).unwrap(),
                start_base: get_u32(data, entry_at + 4, endianness).unwrap(),
                end_chrom_ix: get_u32(data, entry_at + 8, endianness).unwrap(),
                end_base: get_u32(data, entry_at + 12, endianness).unwrap(),
                offset: get_u64(data, entry_at + 16, endianness).unwrap(),
                size: 0,
            };
            assert(child == child_entry_at(data@, endianness, base + 24 * i));
            if overlaps(&child, chrom, start, end) {
                let ghost above = blocks@;
                match search_node(
                    data,
                    endianness,
                    child.offset,
                    depth - 1,
                    chrom,
                    start,
                    end,
                    blocks,
                ) {
                    Err(e) => {
                        proof {
                            lemma_children_error(
                                data@,
                                endianness,
                                base as int,
                                i as nat,
                                count as nat,
                                (depth - 1) as nat,
                                chrom,
                                start,
                                end,
                            );
                            assert(children_blocks(
                                data@,
                                endianness,
                                base as int,
                                count as nat,
                                (depth - 1) as nat,
                                chrom,
                                start,
                                end,
                            ) == Err::<Seq<Block>, BBIReadError>(e));
                        }
                        return Err(e);
                    },
                    Ok(()) => {
                        proof {
                            let below = blocks@.skip(above.len() as int);
                            assert(blocks@ =~= blocks@.take(above.len() as int) + below);
                            assert(blocks@ =~= before + (found + below));
                            found = found + below;
                        }
                    },
                }
            }
            i = i + 1;
        }
        proof {
            assert(blocks@.skip(before.len() as int) =~= found);
            assert(blocks@.take(before.len() as int) =~= before);
        }
        Ok(())
    }
}

/// Once the search under one child fails, it fails under every longer run of
/// children, with the same error.
proof fn lemma_children_error(
    data: Seq<u8>,
    endianness: Endianness,
    base: int,
    i: nat,
    n: nat,
    depth: nat,
    chrom: u32,
    start: u32,
    end: u32,
)
    requires
        i < n,
        children_blocks(data, endianness, base, i, depth, chrom, start, end) is Ok,
        entry_overlaps(child_entry_at(data, endianness, base + 24 * i), chrom, start, end),
        node_blocks(
            data,
            endianness,
            child_entry_at(data, endianness, base + 24 * i).offset as int,
            depth,
            chrom,
            start,
            end,
        ) is Err,
    ensures
        children_blocks(data, endianness, base, n, depth, chrom, start, end) == Err::<
            Seq<Block>,
            BBIReadError,
        >(
            node_blocks(
                data,
                endianness,
                child_entry_at(data, endianness, base + 24 * i).offset as int,
                depth,
                chrom,
                start,
                end,
            )->Err_0,
        ),
    decreases n,
{
    if n > i + 1 {
        lemma_children_error(data, endianness, base, i, (n - 1) as nat, depth, chrom, start, end);
    }
}

/// Searches the index that starts at `index_offset` for the blocks whose
/// interval overlaps `[start, end)` on chromosome `chrom`.
pub fn search_cir_tree(
    data: &[u8],
    endianness: Endianness,
    index_offset: u64,
    chrom: u32,
    start: u32,
    end: u32,
) -> (r: Result<Vec<Block>, BBIReadError>)
    ensures
        match r {
            Ok(blocks) => spec_search_cir_tree(data@, endianness, index_offset, chrom, start, end)
                == Ok::<Seq<Block>, BBIReadError>(blocks@),
            Err(e) => spec_search_cir_tree(data@, endianness, index_offset, chrom, start, end)
                == Err::<Seq<Block>, BBIReadError>(e),
        },
{
    let len: u64 = data.len() as u64;
    if len < CIR_TREE_HEADER_SIZE || index_offset > len - CIR_TREE_HEADER_SIZE {
        return Err(BBIReadError::UnexpectedEof);
    }
    let magic = get_u32(data, index_offset as usize, endianness).unwrap();
    if magic != CIR_TREE_MAGIC {
        return Err(BBIReadError::BadIndexMagic);
    }
    let mut blocks: Vec<Block> = Vec::new();
    match search_node(
        data,
        endianness,
        index_offset + CIR_TREE_HEADER_SIZE,
        MAX_INDEX_DEPTH,
        chrom,
        start,
        end,
        &mut blocks,
    ) {
        Err(e) => Err(e),
        Ok(()) => {
            assert(blocks@.skip(0) == blocks@);
            Ok(blocks)
        },
    }
}

/// All leaf entries below the node at `offset`, in the order of the tree,
/// whether they overlap anything or not.
pub open spec fn node_leaves(data: Seq<u8>, endianness: Endianness, offset: int, depth: nat) -> Seq<
    IndexEntry,
>
    decreases depth, 0nat,
{
    if depth == 0 || offset < 0 || offset + 4 > data.len() {
        Seq::empty()
    } else if u8_at(data, offset) == 1 {
        leaf_entries(data, endianness, offset + 4, u16_at(data, offset + 2, endianness) as nat)
    } else {
        children_leaves(
            data,
            endianness,
            offset + 4,
            u16_at(data, offset + 2, endianness) as nat,
            (depth - 1) as nat,
        )
    }
}

/// All leaf entries below the first `n` entries of the inner node whose
/// entries start at `base`.
pub open spec fn children_leaves(
    data: Seq<u8>,
    endianness: Endianness,
    base: int,
    n: nat,
    depth: nat,
) -> Seq<IndexEntry>
    decreases depth, n,
{
    if n == 0 {
        Seq::empty()
    } else {
        children_leaves(data, endianness, base, (n - 1) as nat, depth) + node_leaves(
            data,
            endianness,
            child_entry_at(data, endianness, base + 24 * (n - 1)).offset as int,
            depth,
        )
    }
}

/// Whether every entry of `entries` lies within the interval of `bound`.
pub open spec fn all_within(entries: Seq<IndexEntry>, bound: IndexEntry) -> bool {
    forall|j: int| 0 <= j < entries.len() ==> entry_within(#[trigger] entries[j], bound)
}

/// Whether the tree below the node at `offset` is whole and bounded: each
/// node is inside the data, no path is longer than `depth`, and the interval
/// of each entry of an inner node holds every leaf entry below it.
pub open spec fn node_wf(data: Seq<u8>, endianness: Endianness, offset: int, depth: nat) -> bool
    decreases depth, 0nat,
{
    &&& depth > 0
    &&& 0 <= offset
    &&& offset + 4 <= data.len()
    &&& if u8_at(data, offset) == 1 {
        offset + 4 + 32 * u16_at(data, offset + 2, endianness) <= data.len()
    } else {
        &&& offset + 4 + 24 * u16_at(data, offset + 2, endianness) <= data.len()
        &&& children_wf(
            data,
            endianness,
            offset + 4,
            u16_at(data, offset + 2, endianness) as nat,
            (depth - 1) as nat,
        )
    }
}

/// Whether the trees below the first `n` entries of an inner node are whole
/// and bounded, each by its entry.
pub open spec fn children_wf(
    data: Seq<u8>,
    endianness: Endianness,
    base: int,
    n: nat,
    depth: nat,
) -> bool
    decreases depth, n,
{
    n == 0 || {
        let child = child_entry_at(data, endianness, base + 24 * (n - 1));
        &&& children_wf(data, endianness, base, (n - 1) as nat, depth)
        &&& node_wf(data, endianness, child.offset as int, depth)
        &&& all_within(node_leaves(data, endianness, child.offset as int, depth), child)
    }
}

/// The overlapping blocks of two lists, one after the other, are those of
/// their concatenation.
proof fn lemma_overlapping_blocks_concat(
    a: Seq<IndexEntry>,
    b: Seq<IndexEntry>,
    chrom: u32,
    start: u32,
    end: u32,
)
    ensures
        overlapping_blocks(a + b, chrom, start, end) == overlapping_blocks(a, chrom, start, end)
            + overlapping_blocks(b, chrom, start, end),
    decreases b.len(),
{
    if b.len() == 0 {
        assert(a + b == a);
        assert(overlapping_blocks(b, chrom, start, end) =~= Seq::<Block>::empty());
    } else {
        let head = b.drop_last();
        lemma_overlapping_blocks_concat(a, head, chrom, start, end);
        assert(a + b == (a + head).push(b.last()));
        assert(b == head.push(b.last()));
        lemma_overlapping_blocks_push(a + head, b.last(), chrom, start, end);
        lemma_overlapping_blocks_push(head, b.last(), chrom, start, end);
    }
}

/// An interval that does not overlap the query holds no interval that does.
proof fn lemma_none_overlap_within(
    entries: Seq<IndexEntry>,
    bound: IndexEntry,
    chrom: u32,
    start: u32,
    end: u32,
)
    requires
        all_within(entries, bound),
        !entry_overlaps(bound, chrom, start, end),
    ensures
        overlapping_blocks(entries, chrom, start, end) == Seq::<Block>::empty(),
    decreases entries.len(),
{
    if entries.len() == 0 {
        assert(overlapping_blocks(entries, chrom, start, end) =~= Seq::<Block>::empty());
    } else {
        let head = entries.drop_last();
        assert(all_within(head, bound)) by {
            assert forall|j: int| 0 <= j < head.len() implies entry_within(
                #[trigger] head[j],
                bound,
            ) by {
                assert(head[j] == entries[j]);
            }
        }
        lemma_none_overlap_within(head, bound, chrom, start, end);
        assert(entries == head.push(entries.last()));
        assert(entry_within(entries[entries.len() - 1], bound));
        lemma_overlapping_blocks_push(head, entries.last(), chrom, start, end);
    }
}

/// On a tree that is whole and bounded, the search finds the blocks of
/// exactly those leaf entries whose interval overlaps the query, in the order
/// of the tree: no child that it passes by holds one.
pub proof fn lemma_search_finds_overlapping(
    data: Seq<u8>,
    endianness: Endianness,
    offset: int,
    depth: nat,
    chrom: u32,
    start: u32,
    end: u32,
)
    requires
        node_wf(data, endianness, offset, depth),
    ensures
        node_blocks(data, endianness, offset, depth, chrom, start, end) == Ok::<
            Seq<Block>,
            BBIReadError,
        >(overlapping_blocks(node_leaves(data, endianness, offset, depth), chrom, start, end)),
    decreases depth, 0nat,
{
    if u8_at(data, offset) != 1 {
        lemma_children_search(
            data,
            endianness,
            offset + 4,
            u16_at(data, offset + 2, endianness) as nat,
            (depth - 1) as nat,
            chrom,
            start,
            end,
        );
    }
}

/// The same for the children of an inner node.
proof fn lemma_children_search(
    data: Seq<u8>,
    endianness: Endianness,
    base: int,
    n: nat,
    depth: nat,
    chrom: u32,
    start: u32,
    end: u32,
)
    requires
        children_wf(data, endianness, base, n, depth),
    ensures
        children_blocks(data, endianness, base, n, depth, chrom, start, end) == Ok::<
            Seq<Block>,
            BBIReadError,
        >(
            overlapping_blocks(
                children_leaves(data, endianness, base, n, depth),
                chrom,
                start,
                end,
            ),
        ),
    decreases depth, n,
{
    if n == 0 {
        assert(overlapping_blocks(Seq::<IndexEntry>::empty(), chrom, start, end) =~= Seq::<
            Block,
        >::empty());
    } else {
        let child = child_entry_at(data, endianness, base + 24 * (n - 1));
        let before = children_leaves(data, endianness, base, (n - 1) as nat, depth);
        let below = node_leaves(data, endianness, child.offset as int, depth);
        lemma_children_search(data, endianness, base, (n - 1) as nat, depth, chrom, start, end);
        lemma_overlapping_blocks_concat(before, below, chrom, start, end);
        if entry_overlaps(child, chrom, start, end) {
            lemma_search_finds_overlapping(
                data,
                endianness,
                child.offset as int,
                depth,
                chrom,
                start,
                end,
            );
        } else {
            lemma_none_overlap_within(below, child, chrom, start, end);
            assert(overlapping_blocks(before, chrom, start, end) + Seq::<Block>::empty()
                =~= overlapping_blocks(before, chrom, start, end));
        }
    }
}

} // verus!
