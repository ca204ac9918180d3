//! Building the block index: the entries of the data blocks are packed
//! bottom-up into nodes of a fixed branching factor, level by level, until
//! one node is left, which is the root.

use crate::bbiread::{BBIReadError, Block, CIR_TREE_MAGIC};
use crate::cirtree::{
    lemma_search_finds_overlapping, overlapping_blocks, spec_search_cir_tree, MAX_INDEX_DEPTH,
    all_within, child_entry_at, children_leaves, children_wf, entry_within, leaf_entries,
    leaf_entry_at, node_leaves, node_wf, IndexEntry,
};
use crate::codec::{
    lemma_u16_at_bytes, lemma_u16_bytes_round_trip, lemma_u32_at_bytes,
    lemma_u32_bytes_round_trip, lemma_u64_at_bytes, lemma_u64_bytes_round_trip, u16_at, u16_bytes,
    u32_at, u32_bytes, u64_bytes, u8_at, write_u16, write_u32, write_u64, Endianness,
};
use vstd::prelude::*;

verus! {

/// The bytes of one entry of a node: the interval and the offset, and in a
/// leaf also the size of the block.
pub open spec fn entry_bytes(entry: IndexEntry, leaf: bool, endianness: Endianness) -> Seq<u8> {
    let bounds = u32_bytes(entry.start_chrom_ix, endianness) + u32_bytes(
        entry.start_base,
        endianness,
    ) + u32_bytes(entry.end_chrom_ix, endianness) + u32_bytes(entry.end_base, endianness)
        + u64_bytes(entry.offset, endianness);
    if leaf {
        bounds + u64_bytes(entry.size, endianness)
    } else {
        bounds
    }
}

/// The bytes that one entry takes.
pub open spec fn entry_size(leaf: bool) -> int {
    if leaf {
        32
    } else {
        24
    }
}

/// The bytes of the entries of a node, one after the other.
pub open spec fn entries_bytes(entries: Seq<IndexEntry>, leaf: bool, endianness: Endianness) -> Seq<
    u8,
>
    decreases entries.len(),
{
    if entries.len() == 0 {
        Seq::empty()
    } else {
        entries_bytes(entries.drop_last(), leaf, endianness) + entry_bytes(
            entries.last(),
            leaf,
            endianness,
        )
    }
}

/// The bytes of a node: whether it is a leaf, a reserved byte, the number of
/// its entries, and the entries.
#[verifier::opaque]
pub open spec fn node_bytes(entries: Seq<IndexEntry>, leaf: bool, endianness: Endianness) -> Seq<
    u8,
> {
    seq![if leaf { 1u8 } else { 0u8 }, 0u8] + u16_bytes(entries.len() as u16, endianness)
        + entries_bytes(entries, leaf, endianness)
}

/// A node takes four bytes and those of its entries.
proof fn lemma_node_bytes_len(entries: Seq<IndexEntry>, leaf: bool, endianness: Endianness)
    ensures
        node_bytes(entries, leaf, endianness).len() == 4 + entry_size(leaf) * entries.len(),
{
    reveal(node_bytes);
    lemma_entries_bytes_len(entries, leaf, endianness);
    lemma_u16_bytes_round_trip(entries.len() as u16, endianness);
}

/// An entry takes 32 bytes in a leaf and 24 in an inner node.
proof fn lemma_entry_bytes_len(entry: IndexEntry, leaf: bool, endianness: Endianness)
    ensures
        entry_bytes(entry, leaf, endianness).len() == entry_size(leaf),
{
    lemma_u32_bytes_round_trip(entry.start_chrom_ix, endianness);
    lemma_u32_bytes_round_trip(entry.start_base, endianness);
    lemma_u32_bytes_round_trip(entry.end_chrom_ix, endianness);
    lemma_u32_bytes_round_trip(entry.end_base, endianness);
    lemma_u64_bytes_round_trip(entry.offset, endianness);
    lemma_u64_bytes_round_trip(entry.size, endianness);
}

/// The entries of a node take the same number of bytes each, and each stands
/// where its index says.
proof fn lemma_entries_bytes(entries: Seq<IndexEntry>, leaf: bool, endianness: Endianness, i: int)
    requires
        0 <= i < entries.len(),
    ensures
        entries_bytes(entries, leaf, endianness).len() == entry_size(leaf) * entries.len(),
        entries_bytes(entries, leaf, endianness).subrange(
            entry_size(leaf) * i,
            entry_size(leaf) * i + entry_size(leaf),
        ) == entry_bytes(entries[i], leaf, endianness),
    decreases entries.len(),
{
    let head = entries.drop_last();
    let size = entry_size(leaf);
    lemma_entries_bytes_len(head, leaf, endianness);
    lemma_entry_bytes_len(entries.last(), leaf, endianness);
    if i < entries.len() - 1 {
        lemma_entries_bytes(head, leaf, endianness, i);
        assert(entries_bytes(entries, leaf, endianness).subrange(size * i, size * i + size)
            =~= entries_bytes(head, leaf, endianness).subrange(size * i, size * i + size));
        assert(head[i] == entries[i]);
    } else {
        assert(entries_bytes(entries, leaf, endianness).subrange(size * i, size * i + size)
            =~= entry_bytes(entries.last(), leaf, endianness));
    }
}

/// The entries of a node take the same number of bytes each.
proof fn lemma_entries_bytes_len(entries: Seq<IndexEntry>, leaf: bool, endianness: Endianness)
    ensures
        entries_bytes(entries, leaf, endianness).len() == entry_size(leaf) * entries.len(),
    decreases entries.len(),
{
    if entries.len() > 0 {
        lemma_entries_bytes_len(entries.drop_last(), leaf, endianness);
        lemma_entry_bytes_len(entries.last(), leaf, endianness);
        if leaf {
            assert(32 * (entries.len() - 1) + 32 == 32 * entries.len());
        } else {
            assert(24 * (entries.len() - 1) + 24 == 24 * entries.len());
        }
    }
}

/// Where the bytes of an entry stand, the entry is read.
proof fn lemma_entry_at(data: Seq<u8>, at: int, entry: IndexEntry, leaf: bool, endianness: Endianness)
    requires
        0 <= at,
        at + entry_size(leaf) <= data.len(),
        data.subrange(at, at + entry_size(leaf)) == entry_bytes(entry, leaf, endianness),
    ensures
        leaf ==> leaf_entry_at(data, endianness, at) == entry,
        !leaf ==> child_entry_at(data, endianness, at) == (IndexEntry { size: 0, ..entry }),
{
    let a = u32_bytes(entry.start_chrom_ix, endianness);
    let b = u32_bytes(entry.start_base, endianness);
    let c = u32_bytes(entry.end_chrom_ix, endianness);
    let d = u32_bytes(entry.end_base, endianness);
    let o = u64_bytes(entry.offset, endianness);
    let s = u64_bytes(entry.size, endianness);
    lemma_entry_bytes_len(entry, leaf, endianness);
    lemma_u32_bytes_round_trip(entry.start_chrom_ix, endianness);
    lemma_u32_bytes_round_trip(entry.start_base, endianness);
    lemma_u32_bytes_round_trip(entry.end_chrom_ix, endianness);
    lemma_u32_bytes_round_trip(entry.end_base, endianness);
    lemma_u64_bytes_round_trip(entry.offset, endianness);
    lemma_u64_bytes_round_trip(entry.size, endianness);
    let bytes = entry_bytes(entry, leaf, endianness);
    let part = data.subrange(at, at + entry_size(leaf));
    assert(data.subrange(at, at + 4) =~= part.subrange(0, 4));
    assert(data.subrange(at + 4, at + 8) =~= part.subrange(4, 8));
    assert(data.subrange(at + 8, at + 12) =~= part.subrange(8, 12));
    assert(data.subrange(at + 12, at + 16) =~= part.subrange(12, 16));
    assert(data.subrange(at + 16, at + 24) =~= part.subrange(16, 24));
    assert(bytes.subrange(0, 4) =~= a);
    assert(bytes.subrange(4, 8) =~= b);
    assert(bytes.subrange(8, 12) =~= c);
    assert(bytes.subrange(12, 16) =~= d);
    assert(bytes.subrange(16, 24) =~= o);
    lemma_u32_at_bytes(data, at, entry.start_chrom_ix, endianness);
    lemma_u32_at_bytes(data, at + 4, entry.start_base, endianness);
    lemma_u32_at_bytes(data, at + 8, entry.end_chrom_ix, endianness);
    lemma_u32_at_bytes(data, at + 12, entry.end_base, endianness);
    lemma_u64_at_bytes(data, at + 16, entry.offset, endianness);
    if leaf {
        assert(data.subrange(at + 24, at + 32) =~= part.subrange(24, 32));
        assert(bytes.subrange(24, 32) =~= s);
        lemma_u64_at_bytes(data, at + 24, entry.size, endianness);
    }
}

/// Where the bytes of a node stand, the node is read: its kind, the number
/// of its entries, and each entry.
proof fn lemma_node_at(
    data: Seq<u8>,
    at: int,
    entries: Seq<IndexEntry>,
    leaf: bool,
    endianness: Endianness,
)
    requires
        0 <= at,
        entries.len() <= 0xffff,
        at + 4 + entry_size(leaf) * entries.len() <= data.len(),
        data.subrange(at, at + 4 + entry_size(leaf) * entries.len()) == node_bytes(
            entries,
            leaf,
            endianness,
        ),
    ensures
        u8_at(data, at) == (if leaf {
            1u8
        } else {
            0u8
        }),
        u16_at(data, at + 2, endianness) == entries.len(),
        leaf ==> leaf_entries(data, endianness, at + 4, entries.len()) == entries,
        !leaf ==> forall|i: int|
            0 <= i < entries.len() ==> #[trigger] child_entry_at(data, endianness, at + 4 + 24 * i)
                == (IndexEntry { size: 0, ..entries[i] }),
{
    reveal(node_bytes);
    let size = entry_size(leaf);
    let n = entries.len();
    let node = node_bytes(entries, leaf, endianness);
    let part = data.subrange(at, at + 4 + size * n);
    lemma_entries_bytes_len(entries, leaf, endianness);
    lemma_u16_bytes_round_trip(n as u16, endianness);
    assert(part[0] == data[at]);
    assert(node[0] == (if leaf {
        1u8
    } else {
        0u8
    }));
    assert(data.subrange(at + 2, at + 4) =~= part.subrange(2, 4));
    assert(node.subrange(2, 4) =~= u16_bytes(n as u16, endianness));
    lemma_u16_at_bytes(data, at + 2, n as u16, endianness);
    if leaf {
        assert forall|i: int| 0 <= i < n implies #[trigger] leaf_entry_at(
            data,
            endianness,
            at + 4 + 32 * i,
        ) == entries[i] by {
            lemma_entries_bytes(entries, leaf, endianness, i);
            let from = at + 4 + 32 * i;
            assert(data.subrange(from, from + 32) =~= part.subrange(4 + 32 * i, 4 + 32 * i + 32));
            assert(node.subrange(4 + 32 * i, 4 + 32 * i + 32) =~= entries_bytes(
                entries,
                leaf,
                endianness,
            ).subrange(32 * i, 32 * i + 32));
            lemma_entry_at(data, from, entries[i], leaf, endianness);
        }
        assert(leaf_entries(data, endianness, at + 4, n) =~= entries);
    } else {
        assert forall|i: int| 0 <= i < n implies #[trigger] child_entry_at(
            data,
            endianness,
            at + 4 + 24 * i,
        ) == (IndexEntry { size: 0, ..entries[i] }) by {
            lemma_entries_bytes(entries, leaf, endianness, i);
            let from = at + 4 + 24 * i;
            assert(data.subrange(from, from + 24) =~= part.subrange(4 + 24 * i, 4 + 24 * i + 24));
            assert(node.subrange(4 + 24 * i, 4 + 24 * i + 24) =~= entries_bytes(
                entries,
                leaf,
                endianness,
            ).subrange(24 * i, 24 * i + 24));
            lemma_entry_at(data, from, entries[i], leaf, endianness);
        }
    }
}

/// Appends the bytes of one entry.
fn emit_entry(out: &mut Vec<u8>, entry: &IndexEntry, leaf: bool, endianness: Endianness)
    ensures
        final(out)@ == old(out)@ + entry_bytes(*entry, leaf, endianness),
{
    write_u32(out, entry.start_chrom_ix, endianness);
    write_u32(out, entry.start_base, endianness);
    write_u32(out, entry.end_chrom_ix, endianness);
    write_u32(out, entry.end_base, endianness);
    write_u64(out, entry.offset, endianness);
    if leaf {
        write_u64(out, entry.size, endianness);
    }
    assert(out@ =~= old(out)@ + entry_bytes(*entry, leaf, endianness));
}

/// Appends the node that holds the entries from `lo` up to `hi`.
fn emit_node(
    out: &mut Vec<u8>,
    entries: &Vec<IndexEntry>,
    lo: usize,
    hi: usize,
    leaf: bool,
    endianness: Endianness,
)
    requires
        lo <= hi <= entries@.len(),
        hi - lo <= 0xffff,
    ensures
        final(out)@ == old(out)@ + node_bytes(
            entries@.subrange(lo as int, hi as int),
            leaf,
            endianness,
        ),
{
    reveal(node_bytes);
    let ghost group = entries@.subrange(lo as int, hi as int);
    out.push(if leaf { 1 } else { 0 });
    out.push(0);
    write_u16(out, (hi - lo) as u16, endianness);
    let ghost head = out@;
    assert(head =~= old(out)@ + (seq![if leaf { 1u8 } else { 0u8 }, 0u8] + u16_bytes(
        group.len() as u16,
        endianness,
    )));
    let mut i: usize = lo;
    assert(group.take(0) =~= Seq::<IndexEntry>::empty());
    while i < hi
        invariant
            lo <= i <= hi <= entries@.len(),
            group == entries@.subrange(lo as int, hi as int),
            out@ == head + entries_bytes(group.take(i - lo), leaf, endianness),
        decreases hi - i,
    {
        let ghost longer = group.take(i - lo + 1);
        assert(longer.drop_last() =~= group.take(i - lo));
        assert(longer.last() == entries@[i as int]);
        emit_entry(out, &entries[i], leaf, endianness);
        assert(out@ =~= head + entries_bytes(longer, leaf, endianness));
        i = i + 1;
    }
    assert(group.take(group.len() as int) =~= group);
    assert(out@ =~= old(out)@ + node_bytes(group, leaf, endianness));
}

/// Whether `longer` starts with `data`.
pub open spec fn extends(longer: Seq<u8>, data: Seq<u8>) -> bool {
    data.len() <= longer.len() && longer.subrange(0, data.len() as int) == data
}

/// What starts with a sequence of bytes has the same bytes at the same
/// places.
pub proof fn lemma_extends_subrange(data: Seq<u8>, longer: Seq<u8>, at: int, len: int)
    requires
        extends(longer, data),
        0 <= at,
        0 <= len,
        at + len <= data.len(),
    ensures
        longer.subrange(at, at + len) == data.subrange(at, at + len),
{
    assert(longer.subrange(at, at + len) =~= longer.subrange(0, data.len() as int).subrange(
        at,
        at + len,
    ));
}

/// An entry that lies inside `data` is read the same from what starts with
/// `data`.
proof fn lemma_extends_entry(data: Seq<u8>, longer: Seq<u8>, endianness: Endianness, at: int)
    requires
        extends(longer, data),
        0 <= at,
    ensures
        at + 32 <= data.len() ==> leaf_entry_at(longer, endianness, at) == leaf_entry_at(
            data,
            endianness,
            at,
        ),
        at + 24 <= data.len() ==> child_entry_at(longer, endianness, at) == child_entry_at(
            data,
            endianness,
            at,
        ),
{
    if at + 24 <= data.len() {
        lemma_extends_subrange(data, longer, at, 4);
        lemma_extends_subrange(data, longer, at + 4, 4);
        lemma_extends_subrange(data, longer, at + 8, 4);
        lemma_extends_subrange(data, longer, at + 12, 4);
        lemma_extends_subrange(data, longer, at + 16, 8);
    }
    if at + 32 <= data.len() {
        lemma_extends_subrange(data, longer, at + 24, 8);
    }
}

/// The head of a node that lies inside `data` is read the same from what
/// starts with `data`.
proof fn lemma_extends_head(data: Seq<u8>, longer: Seq<u8>, endianness: Endianness, at: int)
    requires
        extends(longer, data),
        0 <= at,
        at + 4 <= data.len(),
    ensures
        u8_at(longer, at) == u8_at(data, at),
        u16_at(longer, at + 2, endianness) == u16_at(data, at + 2, endianness),
{
    lemma_extends_subrange(data, longer, at, 1);
    assert(longer.subrange(at, at + 1)[0] == data.subrange(at, at + 1)[0]);
    lemma_extends_subrange(data, longer, at + 2, 2);
}

/// A tree that is whole and bounded stays so, with the same leaves, when
/// bytes are appended to the data that holds it.
pub proof fn lemma_node_extends(
    data: Seq<u8>,
    longer: Seq<u8>,
    endianness: Endianness,
    offset: int,
    depth: nat,
)
    requires
        node_wf(data, endianness, offset, depth),
        extends(longer, data),
    ensures
        node_wf(longer, endianness, offset, depth),
        node_leaves(longer, endianness, offset, depth) == node_leaves(
            data,
            endianness,
            offset,
            depth,
        ),
    decreases depth, 0nat,
{
    lemma_extends_head(data, longer, endianness, offset);
    let count = u16_at(data, offset + 2, endianness) as nat;
    if u8_at(data, offset) == 1 {
        assert forall|i: int| 0 <= i < count implies #[trigger] leaf_entry_at(
            longer,
            endianness,
            offset + 4 + 32 * i,
        ) == leaf_entry_at(data, endianness, offset + 4 + 32 * i) by {
            lemma_extends_entry(data, longer, endianness, offset + 4 + 32 * i);
        }
        assert(leaf_entries(longer, endianness, offset + 4, count) =~= leaf_entries(
            data,
            endianness,
            offset + 4,
            count,
        ));
    } else {
        lemma_children_extends(
            data,
            longer,
            endianness,
            offset + 4,
            count,
            count,
            (depth - 1) as nat,
        );
    }
}

/// The same for the first `n` of the `count` children of an inner node.
proof fn lemma_children_extends(
    data: Seq<u8>,
    longer: Seq<u8>,
    endianness: Endianness,
    base: int,
    n: nat,
    count: nat,
    depth: nat,
)
    requires
        children_wf(data, endianness, base, n, depth),
        extends(longer, data),
        0 <= base,
        n <= count,
        base + 24 * count <= data.len(),
    ensures
        children_wf(longer, endianness, base, n, depth),
        children_leaves(longer, endianness, base, n, depth) == children_leaves(
            data,
            endianness,
            base,
            n,
            depth,
        ),
    decreases depth, n,
{
    if n > 0 {
        lemma_children_extends(data, longer, endianness, base, (n - 1) as nat, count, depth);
        lemma_extends_entry(data, longer, endianness, base + 24 * (n - 1));
        let child = child_entry_at(data, endianness, base + 24 * (n - 1));
        lemma_node_extends(data, longer, endianness, child.offset as int, depth);
    }
}

/// A tree that is whole and bounded within some depth is so within any
/// greater depth, with the same leaves.
pub proof fn lemma_node_deeper(
    data: Seq<u8>,
    endianness: Endianness,
    offset: int,
    depth: nat,
    deeper: nat,
)
    requires
        node_wf(data, endianness, offset, depth),
        depth <= deeper,
    ensures
        node_wf(data, endianness, offset, deeper),
        node_leaves(data, endianness, offset, deeper) == node_leaves(
            data,
            endianness,
            offset,
            depth,
        ),
    decreases depth, 0nat,
{
    if u8_at(data, offset) != 1 {
        lemma_children_deeper(
            data,
            endianness,
            offset + 4,
            u16_at(data, offset + 2, endianness) as nat,
            (depth - 1) as nat,
            (deeper - 1) as nat,
        );
    }
}

/// The same for the children of an inner node.
proof fn lemma_children_deeper(
    data: Seq<u8>,
    endianness: Endianness,
    base: int,
    n: nat,
    depth: nat,
    deeper: nat,
)
    requires
        children_wf(data, endianness, base, n, depth),
        depth <= deeper,
    ensures
        children_wf(data, endianness, base, n, deeper),
        children_leaves(data, endianness, base, n, deeper) == children_leaves(
            data,
            endianness,
            base,
            n,
            depth,
        ),
    decreases depth, n,
{
    if n > 0 {
        lemma_children_deeper(data, endianness, base, (n - 1) as nat, depth, deeper);
        let child = child_entry_at(data, endianness, base + 24 * (n - 1));
        lemma_node_deeper(data, endianness, child.offset as int, depth, deeper);
    }
}

/// The leaf entries below the nodes that `entries` point to, in the order of
/// the entries.
pub open spec fn entries_leaves(
    data: Seq<u8>,
    endianness: Endianness,
    entries: Seq<IndexEntry>,
    depth: nat,
) -> Seq<IndexEntry>
    decreases entries.len(),
{
    if entries.len() == 0 {
        Seq::empty()
    } else {
        entries_leaves(data, endianness, entries.drop_last(), depth) + node_leaves(
            data,
            endianness,
            entries.last().offset as int,
            depth,
        )
    }
}

/// Whether each of `entries` points to a tree that is whole and bounded, and
/// bounds every leaf entry below it.
#[verifier::opaque]
pub open spec fn entries_wf(
    data: Seq<u8>,
    endianness: Endianness,
    entries: Seq<IndexEntry>,
    depth: nat,
) -> bool {
    forall|i: int|
        0 <= i < entries.len() ==> {
            &&& (#[trigger] entries[i]).size == 0
            &&& node_wf(data, endianness, entries[i].offset as int, depth)
            &&& all_within(
                node_leaves(data, endianness, entries[i].offset as int, depth),
                entries[i],
            )
        }
}

/// Entries that point to whole trees still do, with the same leaves, when
/// bytes are appended.
proof fn lemma_entries_extend(
    data: Seq<u8>,
    longer: Seq<u8>,
    endianness: Endianness,
    entries: Seq<IndexEntry>,
    depth: nat,
)
    requires
        entries_wf(data, endianness, entries, depth),
        extends(longer, data),
    ensures
        entries_wf(longer, endianness, entries, depth),
        entries_leaves(longer, endianness, entries, depth) == entries_leaves(
            data,
            endianness,
            entries,
            depth,
        ),
    decreases entries.len(),
{
    reveal(entries_wf);
    assert forall|i: int| 0 <= i < entries.len() implies {
        &&& (#[trigger] entries[i]).size == 0
        &&& node_wf(longer, endianness, entries[i].offset as int, depth)
        &&& all_within(node_leaves(longer, endianness, entries[i].offset as int, depth), entries[i])
    } by {
        lemma_node_extends(data, longer, endianness, entries[i].offset as int, depth);
    }
    if entries.len() > 0 {
        let head = entries.drop_last();
        assert(entries_wf(data, endianness, head, depth)) by {
            assert forall|i: int| 0 <= i < head.len() implies {
                &&& (#[trigger] head[i]).size == 0
                &&& node_wf(data, endianness, head[i].offset as int, depth)
                &&& all_within(
                    node_leaves(data, endianness, head[i].offset as int, depth),
                    head[i],
                )
            } by {
                assert(head[i] == entries[i]);
            }
        }
        lemma_entries_extend(data, longer, endianness, head, depth);
        assert(entries[entries.len() - 1].size == 0);
        lemma_node_extends(data, longer, endianness, entries.last().offset as int, depth);
    }
}

/// The leaves below a run of entries and those below the next are the leaves
/// below both.
proof fn lemma_entries_leaves_concat(
    data: Seq<u8>,
    endianness: Endianness,
    a: Seq<IndexEntry>,
    b: Seq<IndexEntry>,
    depth: nat,
)
    ensures
        entries_leaves(data, endianness, a + b, depth) == entries_leaves(
            data,
            endianness,
            a,
            depth,
        ) + entries_leaves(data, endianness, b, depth),
    decreases b.len(),
{
    if b.len() == 0 {
        assert(a + b =~= a);
        assert(entries_leaves(data, endianness, a, depth) + Seq::<IndexEntry>::empty()
            =~= entries_leaves(data, endianness, a, depth));
    } else {
        lemma_entries_leaves_concat(data, endianness, a, b.drop_last(), depth);
        assert((a + b).drop_last() =~= a + b.drop_last());
        assert((a + b).last() == b.last());
        let x = entries_leaves(data, endianness, a, depth);
        let y = entries_leaves(data, endianness, b.drop_last(), depth);
        let z = node_leaves(data, endianness, b.last().offset as int, depth);
        assert((x + y) + z =~= x + (y + z));
    }
}

/// An inner node whose entries point to whole and bounded trees is the root
/// of such a tree, and its leaves are theirs.
proof fn lemma_inner_node(
    data: Seq<u8>,
    endianness: Endianness,
    at: int,
    entries: Seq<IndexEntry>,
    n: nat,
    depth: nat,
)
    requires
        0 <= at,
        n <= entries.len(),
        at + 4 + 24 * entries.len() <= data.len(),
        entries_wf(data, endianness, entries, depth),
        forall|i: int|
            0 <= i < entries.len() ==> #[trigger] child_entry_at(data, endianness, at + 4 + 24 * i)
                == entries[i],
    ensures
        children_wf(data, endianness, at + 4, n, depth),
        children_leaves(data, endianness, at + 4, n, depth) == entries_leaves(
            data,
            endianness,
            entries.take(n as int),
            depth,
        ),
    decreases n,
{
    reveal(entries_wf);
    if n == 0 {
        assert(entries.take(0) =~= Seq::<IndexEntry>::empty());
    } else {
        lemma_inner_node(data, endianness, at, entries, (n - 1) as nat, depth);
        let child = child_entry_at(data, endianness, at + 4 + 24 * (n - 1));
        assert(child == entries[n - 1]);
        assert(entries.take(n as int).drop_last() =~= entries.take(n - 1));
        assert(entries.take(n as int).last() == entries[n - 1]);
    }
}

/// What lies within an interval lies within every interval that holds it.
proof fn lemma_within_transitive(entries: Seq<IndexEntry>, inner: IndexEntry, outer: IndexEntry)
    requires
        all_within(entries, inner),
        entry_within(inner, outer),
    ensures
        all_within(entries, outer),
{
    assert forall|j: int| 0 <= j < entries.len() implies entry_within(
        #[trigger] entries[j],
        outer,
    ) by {
        assert(entry_within(entries[j], inner));
    }
}

/// Lists that each lie within an interval do so together.
proof fn lemma_within_concat(a: Seq<IndexEntry>, b: Seq<IndexEntry>, bound: IndexEntry)
    requires
        all_within(a, bound),
        all_within(b, bound),
    ensures
        all_within(a + b, bound),
{
    assert forall|j: int| 0 <= j < (a + b).len() implies entry_within(
        #[trigger] (a + b)[j],
        bound,
    ) by {
        if j < a.len() {
            assert((a + b)[j] == a[j]);
        } else {
            assert((a + b)[j] == b[j - a.len()]);
        }
    }
}

/// The leaves below entries that all lie within an interval lie within it.
proof fn lemma_entries_leaves_within(
    data: Seq<u8>,
    endianness: Endianness,
    entries: Seq<IndexEntry>,
    depth: nat,
    bound: IndexEntry,
)
    requires
        entries_wf(data, endianness, entries, depth),
        all_within(entries, bound),
    ensures
        all_within(entries_leaves(data, endianness, entries, depth), bound),
    decreases entries.len(),
{
    reveal(entries_wf);
    if entries.len() > 0 {
        let head = entries.drop_last();
        let last = entries.last();
        assert(entries_wf(data, endianness, head, depth)) by {
            assert forall|i: int| 0 <= i < head.len() implies {
                &&& (#[trigger] head[i]).size == 0
                &&& node_wf(data, endianness, head[i].offset as int, depth)
                &&& all_within(
                    node_leaves(data, endianness, head[i].offset as int, depth),
                    head[i],
                )
            } by {
                assert(head[i] == entries[i]);
            }
        }
        assert(all_within(head, bound)) by {
            assert forall|j: int| 0 <= j < head.len() implies entry_within(
                #[trigger] head[j],
                bound,
            ) by {
                assert(head[j] == entries[j]);
            }
        }
        lemma_entries_leaves_within(data, endianness, head, depth, bound);
        assert(entries[entries.len() - 1].size == 0);
        assert(entry_within(entries[entries.len() - 1], bound));
        lemma_within_transitive(
            node_leaves(data, endianness, last.offset as int, depth),
            last,
            bound,
        );
        lemma_within_concat(
            entries_leaves(data, endianness, head, depth),
            node_leaves(data, endianness, last.offset as int, depth),
            bound,
        );
    }
}

/// Whether `bound` is the least interval that holds all of `entries`: it
/// holds them, it starts where one of them starts and ends where one of them
/// ends.
#[verifier::opaque]
pub open spec fn bounds_tightly(bound: IndexEntry, entries: Seq<IndexEntry>) -> bool {
    &&& all_within(entries, bound)
    &&& exists|i: int|
        0 <= i < entries.len() && bound.start_chrom_ix == (#[trigger] entries[i]).start_chrom_ix
            && bound.start_base == entries[i].start_base
    &&& exists|j: int|
        0 <= j < entries.len() && bound.end_chrom_ix == (#[trigger] entries[j]).end_chrom_ix
            && bound.end_base == entries[j].end_base
}

/// The entry that stands in the parent for a node at `offset` that holds
/// `group`: it bounds the group tightly. There is one such entry and no
/// other, wherever the group is not empty.
pub open spec fn tight_bound(group: Seq<IndexEntry>, offset: u64) -> IndexEntry {
    choose|bound: IndexEntry| bounds_tightly(bound, group) && bound.offset == offset && bound.size == 0
}

/// An entry that bounds a group tightly is the one that does.
pub proof fn lemma_tight_bound_unique(bound: IndexEntry, group: Seq<IndexEntry>, offset: u64)
    requires
        bounds_tightly(bound, group),
        bound.offset == offset,
        bound.size == 0,
    ensures
        bound == tight_bound(group, offset),
{
    reveal(bounds_tightly);
    let other = tight_bound(group, offset);
    assert(bounds_tightly(other, group) && other.offset == offset && other.size == 0);
    let i = choose|i: int|
        0 <= i < group.len() && bound.start_chrom_ix == (#[trigger] group[i]).start_chrom_ix
            && bound.start_base == group[i].start_base;
    let j = choose|j: int|
        0 <= j < group.len() && bound.end_chrom_ix == (#[trigger] group[j]).end_chrom_ix
            && bound.end_base == group[j].end_base;
    let k = choose|k: int|
        0 <= k < group.len() && other.start_chrom_ix == (#[trigger] group[k]).start_chrom_ix
            && other.start_base == group[k].start_base;
    let l = choose|l: int|
        0 <= l < group.len() && other.end_chrom_ix == (#[trigger] group[l]).end_chrom_ix
            && other.end_base == group[l].end_base;
    assert(entry_within(group[i], other));
    assert(entry_within(group[j], other));
    assert(entry_within(group[k], bound));
    assert(entry_within(group[l], bound));
}

/// The entry that stands in the parent for the node at `offset` that holds
/// the entries from `lo` up to `hi`: the least interval that holds theirs.
pub fn group_bound(entries: &Vec<IndexEntry>, lo: usize, hi: usize, offset: u64) -> (bound:
    IndexEntry)
    requires
        lo < hi <= entries@.len(),
    ensures
        bound.offset == offset,
        bound.size == 0,
        all_within(entries@.subrange(lo as int, hi as int), bound),
        bounds_tightly(bound, entries@.subrange(lo as int, hi as int)),
        bound == tight_bound(entries@.subrange(lo as int, hi as int), offset),
{
    reveal(bounds_tightly);
    let ghost group = entries@.subrange(lo as int, hi as int);
    let first = entries[lo];
    let mut bound = IndexEntry {
        start_chrom_ix: first.start_chrom_ix,
        start_base: first.start_base,
        end_chrom_ix: first.end_chrom_ix,
        end_base: first.end_base,
        offset,
        size: 0,
    };
    let ghost mut from: int = 0;
    let ghost mut to: int = 0;
    let mut i: usize = lo + 1;
    assert(group[0] == first);
    while i < hi
        invariant
            lo < i <= hi <= entries@.len(),
            group == entries@.subrange(lo as int, hi as int),
            bound.offset == offset,
            bound.size == 0,
            0 <= from < i - lo,
            0 <= to < i - lo,
            bound.start_chrom_ix == group[from].start_chrom_ix,
            bound.start_base == group[from].start_base,
            bound.end_chrom_ix == group[to].end_chrom_ix,
            bound.end_base == group[to].end_base,
            forall|k: int| 0 <= k < i - lo ==> entry_within(#[trigger] group[k], bound),
        decreases hi - i,
    {
        let entry = entries[i];
        assert(group[i - lo] == entry);
        let ghost before = bound;
        if entry.start_chrom_ix < bound.start_chrom_ix || (entry.start_chrom_ix
            == bound.start_chrom_ix && entry.start_base < bound.start_base) {
            bound.start_chrom_ix = entry.start_chrom_ix;
            bound.start_base = entry.start_base;
            proof {
                from = i - lo;
            }
        }
        if entry.end_chrom_ix > bound.end_chrom_ix || (entry.end_chrom_ix == bound.end_chrom_ix
            && entry.end_base > bound.end_base) {
            bound.end_chrom_ix = entry.end_chrom_ix;
            bound.end_base = entry.end_base;
            proof {
                to = i - lo;
            }
        }
        assert forall|k: int| 0 <= k < i - lo + 1 implies entry_within(
            #[trigger] group[k],
            bound,
        ) by {
            if k < i - lo {
                assert(entry_within(group[k], before));
            }
        }
        i = i + 1;
    }
    assert(group[from].start_base == bound.start_base);
    assert(group[to].end_base == bound.end_base);
    proof {
        lemma_tight_bound_unique(bound, group, offset);
    }
    bound
}

/// A part of a list of entries that point to whole trees points to whole
/// trees.
proof fn lemma_entries_wf_part(
    data: Seq<u8>,
    endianness: Endianness,
    entries: Seq<IndexEntry>,
    lo: int,
    hi: int,
    depth: nat,
)
    requires
        entries_wf(data, endianness, entries, depth),
        0 <= lo <= hi <= entries.len(),
    ensures
        entries_wf(data, endianness, entries.subrange(lo, hi), depth),
{
    reveal(entries_wf);
    let part = entries.subrange(lo, hi);
    assert forall|i: int| 0 <= i < part.len() implies {
        &&& (#[trigger] part[i]).size == 0
        &&& node_wf(data, endianness, part[i].offset as int, depth)
        &&& all_within(node_leaves(data, endianness, part[i].offset as int, depth), part[i])
    } by {
        assert(part[i] == entries[lo + i]);
    }
}

/// A node that was appended to the data is the root of a whole and bounded
/// tree: its leaves are its own entries, if it is a leaf, and else the
/// leaves below the trees that its entries point to.
proof fn lemma_emitted_node(
    data: Seq<u8>,
    longer: Seq<u8>,
    endianness: Endianness,
    entries: Seq<IndexEntry>,
    leaf: bool,
    depth: nat,
)
    requires
        longer == data + node_bytes(entries, leaf, endianness),
        entries.len() <= 0xffff,
        depth >= 1,
        !leaf ==> entries_wf(data, endianness, entries, (depth - 1) as nat),
    ensures
        longer.len() == data.len() + 4 + entry_size(leaf) * entries.len(),
        node_wf(longer, endianness, data.len() as int, depth),
        node_leaves(longer, endianness, data.len() as int, depth) == (if leaf {
            entries
        } else {
            entries_leaves(data, endianness, entries, (depth - 1) as nat)
        }),
{
    reveal(node_bytes);
    reveal(entries_wf);
    let at = data.len() as int;
    let n = entries.len();
    lemma_entries_bytes_len(entries, leaf, endianness);
    lemma_u16_bytes_round_trip(n as u16, endianness);
    assert(node_bytes(entries, leaf, endianness).len() == 4 + entry_size(leaf) * n);
    assert(longer.subrange(at, at + 4 + entry_size(leaf) * n) =~= node_bytes(
        entries,
        leaf,
        endianness,
    ));
    lemma_node_at(longer, at, entries, leaf, endianness);
    assert(extends(longer, data)) by {
        assert(longer.subrange(0, data.len() as int) =~= data);
    }
    if !leaf {
        let below = (depth - 1) as nat;
        lemma_entries_extend(data, longer, endianness, entries, below);
        assert forall|i: int| 0 <= i < n implies #[trigger] child_entry_at(
            longer,
            endianness,
            at + 4 + 24 * i,
        ) == entries[i] by {
            assert(entries[i].size == 0);
        }
        lemma_inner_node(longer, endianness, at, entries, n, below);
        assert(entries.take(n as int) =~= entries);
    }
}

/// What appending the node of one group does to a level: the entries of
/// the level above, with the entry of the new node, point to whole and
/// bounded trees, and the leaves below them are those below the groups so
/// far.
#[verifier::rlimit(60)]
proof fn lemma_level_step(
    data: Seq<u8>,
    longer: Seq<u8>,
    endianness: Endianness,
    entries: Seq<IndexEntry>,
    lo: int,
    hi: int,
    leaf: bool,
    depth: nat,
    seen: Seq<IndexEntry>,
    bound: IndexEntry,
)
    requires
        0 <= lo < hi <= entries.len(),
        hi - lo <= 0xffff,
        depth >= 1,
        longer == data + node_bytes(entries.subrange(lo, hi), leaf, endianness),
        !leaf ==> entries_wf(data, endianness, entries, (depth - 1) as nat),
        entries_wf(data, endianness, seen, depth),
        entries_leaves(data, endianness, seen, depth) == (if leaf {
            entries.take(lo)
        } else {
            entries_leaves(data, endianness, entries.take(lo), (depth - 1) as nat)
        }),
        bound.offset == data.len(),
        bound.size == 0,
        all_within(entries.subrange(lo, hi), bound),
    ensures
        extends(longer, data),
        !leaf ==> entries_wf(longer, endianness, entries, (depth - 1) as nat),
        !leaf ==> entries_leaves(longer, endianness, entries, (depth - 1) as nat)
            == entries_leaves(data, endianness, entries, (depth - 1) as nat),
        entries_wf(longer, endianness, seen.push(bound), depth),
        entries_leaves(longer, endianness, seen.push(bound), depth) == (if leaf {
            entries.take(hi)
        } else {
            entries_leaves(longer, endianness, entries.take(hi), (depth - 1) as nat)
        }),
{
    let below = (depth - 1) as nat;
    let group = entries.subrange(lo, hi);
    let at = data.len() as int;
    if !leaf {
        lemma_entries_wf_part(data, endianness, entries, lo, hi, below);
        lemma_entries_wf_part(data, endianness, entries, 0, lo, below);
    }
    lemma_emitted_node(data, longer, endianness, group, leaf, depth);
    assert(extends(longer, data)) by {
        assert(longer.subrange(0, data.len() as int) =~= data);
    }
    lemma_entries_extend(data, longer, endianness, seen, depth);
    let leaves_below = node_leaves(longer, endianness, at, depth);
    let grown = seen.push(bound);
    assert(grown.drop_last() =~= seen);
    assert(grown.last() == bound);
    if leaf {
        assert(entries.take(hi) =~= entries.take(lo) + group);
    } else {
        lemma_entries_extend(data, longer, endianness, entries, below);
        lemma_entries_extend(data, longer, endianness, group, below);
        assert(entries.subrange(0, lo) =~= entries.take(lo));
        lemma_entries_extend(data, longer, endianness, entries.take(lo), below);
        assert(entries.take(hi) =~= entries.take(lo) + group);
        lemma_entries_leaves_concat(longer, endianness, entries.take(lo), group, below);
        lemma_entries_wf_part(longer, endianness, entries, lo, hi, below);
        lemma_entries_leaves_within(longer, endianness, group, below, bound);
    }
    assert(all_within(leaves_below, bound));
    lemma_entries_wf_push(longer, endianness, seen, bound, depth);
}

/// Entries that point to whole trees, and one more that does, point to
/// whole trees.
proof fn lemma_entries_wf_push(
    data: Seq<u8>,
    endianness: Endianness,
    seen: Seq<IndexEntry>,
    entry: IndexEntry,
    depth: nat,
)
    requires
        entries_wf(data, endianness, seen, depth),
        entry.size == 0,
        node_wf(data, endianness, entry.offset as int, depth),
        all_within(node_leaves(data, endianness, entry.offset as int, depth), entry),
    ensures
        entries_wf(data, endianness, seen.push(entry), depth),
{
    reveal(entries_wf);
    let grown = seen.push(entry);
    assert forall|i: int| 0 <= i < grown.len() implies {
        &&& (#[trigger] grown[i]).size == 0
        &&& node_wf(data, endianness, grown[i].offset as int, depth)
        &&& all_within(node_leaves(data, endianness, grown[i].offset as int, depth), grown[i])
    } by {
        if i < seen.len() {
            assert(grown[i] == seen[i]);
        }
    }
}

/// No entries point to whole trees.
proof fn lemma_entries_wf_empty(data: Seq<u8>, endianness: Endianness, depth: nat)
    ensures
        entries_wf(data, endianness, Seq::empty(), depth),
{
    reveal(entries_wf);
}

/// The number of nodes that hold `n` entries in groups of `size`.
pub open spec fn group_count(n: nat, size: nat) -> nat
    decreases n,
{
    if n == 0 || size == 0 {
        0
    } else if n <= size {
        1
    } else {
        1 + group_count((n - size) as nat, size)
    }
}

/// Whether packing `n` entries in groups of `size`, level by level, gets to
/// a single node within `levels` levels.
pub open spec fn packs_within(n: nat, size: nat, levels: nat) -> bool
    decreases levels,
{
    levels > 0 && (n <= size || packs_within(group_count(n, size), size, (levels - 1) as nat))
}

/// The bytes that the nodes of one level take: each node its head of four
/// bytes, and each entry its own.
pub open spec fn level_size(n: nat, size: nat, leaf: bool) -> int {
    4 * group_count(n, size) + entry_size(leaf) * n
}

/// The bytes that the nodes below the root take where `n` entries are
/// packed in groups of `size`, and the level of the entries is a leaf level
/// or not.
pub open spec fn below_root_size(n: nat, size: nat, leaf: bool, levels: nat) -> int
    decreases levels,
{
    if n <= size || levels == 0 {
        0
    } else {
        level_size(n, size, leaf) + below_root_size(
            group_count(n, size),
            size,
            false,
            (levels - 1) as nat,
        )
    }
}

/// Counts the nodes that hold `n` entries in groups of `size`.
fn count_groups(n: usize, size: usize) -> (count: usize)
    requires
        size > 0,
    ensures
        count == group_count(n as nat, size as nat),
        count <= n,
{
    let mut left: usize = n;
    let mut count: usize = 0;
    while left > 0
        invariant
            size > 0,
            left <= n,
            count <= n - left,
            count + group_count(left as nat, size as nat) == group_count(n as nat, size as nat),
        decreases left,
    {
        if left <= size {
            left = 0;
        } else {
            left = left - size;
        }
        count = count + 1;
    }
    count
}

/// Tells whether `n` entries pack into a tree that the search goes to the
/// bottom of.
fn fits_depth(n: usize, size: usize) -> (r: bool)
    requires
        size > 0,
    ensures
        r == packs_within(n as nat, size as nat, 64),
{
    let mut left: usize = n;
    let mut levels: u32 = 64;
    while left > size
        invariant
            size > 0,
            levels >= 1,
            packs_within(n as nat, size as nat, 64) == packs_within(
                left as nat,
                size as nat,
                levels as nat,
            ),
        decreases levels,
    {
        if levels == 1 {
            assert(!packs_within(group_count(left as nat, size as nat), size as nat, 0));
            return false;
        }
        left = count_groups(left, size);
        levels = levels - 1;
    }
    true
}

/// The bytes of the nodes that hold `entries` in groups of `size`.
pub open spec fn level_bytes(
    entries: Seq<IndexEntry>,
    size: nat,
    leaf: bool,
    endianness: Endianness,
) -> Seq<u8>
    decreases entries.len(),
{
    if entries.len() == 0 || size == 0 {
        Seq::empty()
    } else if entries.len() <= size {
        node_bytes(entries, leaf, endianness)
    } else {
        node_bytes(entries.take(size as int), leaf, endianness) + level_bytes(
            entries.skip(size as int),
            size,
            leaf,
            endianness,
        )
    }
}

/// The entries that stand in the level above for the nodes that hold
/// `entries` in groups of `size`, where the first of the nodes stands at
/// `base` and the others follow.
pub open spec fn level_next(entries: Seq<IndexEntry>, size: nat, leaf: bool, base: int) -> Seq<
    IndexEntry,
>
    decreases entries.len(),
{
    if entries.len() == 0 || size == 0 {
        Seq::empty()
    } else if entries.len() <= size {
        seq![tight_bound(entries, base as u64)]
    } else {
        seq![tight_bound(entries.take(size as int), base as u64)] + level_next(
            entries.skip(size as int),
            size,
            leaf,
            base + 4 + entry_size(leaf) * size,
        )
    }
}

/// What the node of the next group adds to a level.
proof fn lemma_level_unfold(
    entries: Seq<IndexEntry>,
    lo: int,
    hi: int,
    size: nat,
    leaf: bool,
    endianness: Endianness,
    base: int,
)
    requires
        0 <= lo < hi <= entries.len(),
        size > 0,
        hi == (if entries.len() - lo <= size {
            entries.len() as int
        } else {
            lo + size
        }),
    ensures
        level_bytes(entries.skip(lo), size, leaf, endianness) == node_bytes(
            entries.subrange(lo, hi),
            leaf,
            endianness,
        ) + level_bytes(entries.skip(hi), size, leaf, endianness),
        level_next(entries.skip(lo), size, leaf, base) == seq![
            tight_bound(entries.subrange(lo, hi), base as u64),
        ] + level_next(entries.skip(hi), size, leaf, base + 4 + entry_size(leaf) * (hi - lo)),
{
    let rest = entries.skip(lo);
    let group = entries.subrange(lo, hi);
    if entries.len() - lo <= size {
        assert(rest =~= group);
        assert(entries.skip(hi) =~= Seq::<IndexEntry>::empty());
        assert(node_bytes(group, leaf, endianness) + Seq::<u8>::empty() =~= node_bytes(
            group,
            leaf,
            endianness,
        ));
        assert(seq![tight_bound(group, base as u64)] + Seq::<IndexEntry>::empty() =~= seq![
            tight_bound(group, base as u64),
        ]);
    } else {
        assert(rest.take(size as int) =~= group);
        assert(rest.skip(size as int) =~= entries.skip(hi));
        assert(entry_size(leaf) * size == entry_size(leaf) * (hi - lo));
    }
}

/// Whether `out` and `next` are what writing the nodes of the entries before
/// `lo` makes of `start` and of no entries: what is left to write and to
/// return is what the entries from `lo` on give.
#[verifier::opaque]
pub open spec fn level_progress(
    start: Seq<u8>,
    entries: Seq<IndexEntry>,
    size: nat,
    leaf: bool,
    endianness: Endianness,
    out: Seq<u8>,
    next: Seq<IndexEntry>,
    lo: int,
) -> bool {
    &&& start + level_bytes(entries, size, leaf, endianness) == out + level_bytes(
        entries.skip(lo),
        size,
        leaf,
        endianness,
    )
    &&& level_next(entries, size, leaf, start.len() as int) == next + level_next(
        entries.skip(lo),
        size,
        leaf,
        out.len() as int,
    )
}

/// Before any node is written, everything is left to write.
proof fn lemma_level_progress_start(
    start: Seq<u8>,
    entries: Seq<IndexEntry>,
    size: nat,
    leaf: bool,
    endianness: Endianness,
)
    ensures
        level_progress(start, entries, size, leaf, endianness, start, Seq::empty(), 0),
{
    reveal(level_progress);
    assert(entries.skip(0) =~= entries);
    assert(Seq::<IndexEntry>::empty() + level_next(entries, size, leaf, start.len() as int)
        =~= level_next(entries, size, leaf, start.len() as int));
}

/// Once every node is written, what was written and returned is what the
/// entries give.
proof fn lemma_level_progress_end(
    start: Seq<u8>,
    entries: Seq<IndexEntry>,
    size: nat,
    leaf: bool,
    endianness: Endianness,
    out: Seq<u8>,
    next: Seq<IndexEntry>,
)
    requires
        level_progress(start, entries, size, leaf, endianness, out, next, entries.len() as int),
    ensures
        out == start + level_bytes(entries, size, leaf, endianness),
        next == level_next(entries, size, leaf, start.len() as int),
{
    reveal(level_progress);
    assert(entries.skip(entries.len() as int) =~= Seq::<IndexEntry>::empty());
    assert(out + Seq::<u8>::empty() =~= out);
    assert(next + Seq::<IndexEntry>::empty() =~= next);
}

/// Writing the node of the next group keeps what is written and returned in
/// step with what the entries give.
proof fn lemma_level_progress_step(
    start: Seq<u8>,
    entries: Seq<IndexEntry>,
    size: nat,
    leaf: bool,
    endianness: Endianness,
    data: Seq<u8>,
    longer: Seq<u8>,
    seen: Seq<IndexEntry>,
    bound: IndexEntry,
    lo: int,
    hi: int,
)
    requires
        0 <= lo < hi <= entries.len(),
        size > 0,
        hi == (if entries.len() - lo <= size {
            entries.len() as int
        } else {
            lo + size
        }),
        level_progress(start, entries, size, leaf, endianness, data, seen, lo),
        longer == data + node_bytes(entries.subrange(lo, hi), leaf, endianness),
        longer.len() == data.len() + 4 + entry_size(leaf) * (hi - lo),
        data.len() <= u64::MAX,
        bound == tight_bound(entries.subrange(lo, hi), data.len() as u64),
    ensures
        level_progress(start, entries, size, leaf, endianness, longer, seen.push(bound), hi),
{
    reveal(level_progress);
    let group = entries.subrange(lo, hi);
    lemma_level_unfold(entries, lo, hi, size, leaf, endianness, data.len() as int);
    let rest_bytes = level_bytes(entries.skip(hi), size, leaf, endianness);
    let rest_next = level_next(entries.skip(hi), size, leaf, longer.len() as int);
    assert(data + (node_bytes(group, leaf, endianness) + rest_bytes) =~= longer + rest_bytes);
    assert(seen + (seq![bound] + rest_next) =~= seen.push(bound) + rest_next);
}

/// Appends the nodes that hold `entries` in groups of `block_size`, and
/// returns the entry of each node for the level above.
fn emit_level(
    out: &mut Vec<u8>,
    entries: &Vec<IndexEntry>,
    leaf: bool,
    block_size: usize,
    endianness: Endianness,
    Ghost(depth): Ghost<nat>,
) -> (next: Vec<IndexEntry>)
    requires
        0 < block_size <= 0xffff,
        depth >= 1,
        !leaf ==> entries_wf(old(out)@, endianness, entries@, (depth - 1) as nat),
    ensures
        extends(final(out)@, old(out)@),
        final(out)@.len() == old(out)@.len() + level_size(
            entries@.len(),
            block_size as nat,
            leaf,
        ),
        final(out)@ == old(out)@ + level_bytes(entries@, block_size as nat, leaf, endianness),
        next@ == level_next(entries@, block_size as nat, leaf, old(out)@.len() as int),
        next@.len() == group_count(entries@.len(), block_size as nat),
        entries_wf(final(out)@, endianness, next@, depth),
        entries_leaves(final(out)@, endianness, next@, depth) == (if leaf {
            entries@
        } else {
            entries_leaves(old(out)@, endianness, entries@, (depth - 1) as nat)
        }),
{
    let ghost below = (depth - 1) as nat;
    let ghost start = out@;
    let mut next: Vec<IndexEntry> = Vec::new();
    let mut lo: usize = 0;
    assert(extends(out@, start)) by {
        assert(out@.subrange(0, start.len() as int) =~= start);
    }
    assert(entries@.take(0) =~= Seq::<IndexEntry>::empty());
    proof {
        lemma_level_progress_start(start, entries@, block_size as nat, leaf, endianness);
        lemma_entries_wf_empty(out@, endianness, depth);
    }
    while lo < entries.len()
        invariant
            lo <= entries@.len(),
            0 < block_size <= 0xffff,
            depth >= 1,
            below == depth - 1,
            extends(out@, start),
            !leaf ==> entries_wf(out@, endianness, entries@, below),
            !leaf ==> entries_leaves(out@, endianness, entries@, below) == entries_leaves(
                start,
                endianness,
                entries@,
                below,
            ),
            next@.len() + group_count((entries@.len() - lo) as nat, block_size as nat)
                == group_count(entries@.len(), block_size as nat),
            out@.len() == start.len() + 4 * next@.len() + entry_size(leaf) * lo,
            level_progress(
                start,
                entries@,
                block_size as nat,
                leaf,
                endianness,
                out@,
                next@,
                lo as int,
            ),
            entries_wf(out@, endianness, next@, depth),
            entries_leaves(out@, endianness, next@, depth) == (if leaf {
                entries@.take(lo as int)
            } else {
                entries_leaves(out@, endianness, entries@.take(lo as int), below)
            }),
        decreases entries@.len() - lo,
    {
        let hi: usize = if entries.len() - lo <= block_size {
            entries.len()
        } else {
            lo + block_size
        };
        let ghost data = out@;
        let ghost group = entries@.subrange(lo as int, hi as int);
        let ghost seen = next@;
        let at: u64 = out.len() as u64;
        emit_node(out, entries, lo, hi, leaf, endianness);
        let bound = group_bound(entries, lo, hi, at);
        proof {
            lemma_node_bytes_len(group, leaf, endianness);
            assert(out@.len() == data.len() + 4 + entry_size(leaf) * (hi - lo));
            if leaf {
                assert(32 * hi == 32 * lo + 32 * (hi - lo));
            } else {
                assert(24 * hi == 24 * lo + 24 * (hi - lo));
            }
            assert(out@.len() == start.len() + 4 * (seen.len() + 1) + entry_size(leaf) * hi);
            lemma_level_progress_step(
                start,
                entries@,
                block_size as nat,
                leaf,
                endianness,
                data,
                out@,
                seen,
                bound,
                lo as int,
                hi as int,
            );
            lemma_level_step(
                data,
                out@,
                endianness,
                entries@,
                lo as int,
                hi as int,
                leaf,
                depth,
                seen,
                bound,
            );
            assert(extends(out@, start)) by {
                assert(out@.subrange(0, start.len() as int) =~= data.subrange(
                    0,
                    start.len() as int,
                ));
            }
        }
        next.push(bound);
        lo = hi;
    }
    proof {
        assert(entries@.take(entries@.len() as int) =~= entries@);
        lemma_level_progress_end(
            start,
            entries@,
            block_size as nat,
            leaf,
            endianness,
            out@,
            next@,
        );
    }
    next
}

/// The 48 bytes of the header that stands before the root of an index: the
/// magic number, the branching factor, the number of blocks, the interval
/// that holds them all, the offset of the end of the data, the number of
/// items per block and a reserved field.
#[verifier::opaque]
pub open spec fn cir_header_bytes(
    block_size: u32,
    item_count: u64,
    bound: IndexEntry,
    end_file_offset: u64,
    items_per_slot: u32,
    endianness: Endianness,
) -> Seq<u8> {
    u32_bytes(CIR_TREE_MAGIC, endianness) + u32_bytes(block_size, endianness) + u64_bytes(
        item_count,
        endianness,
    ) + u32_bytes(bound.start_chrom_ix, endianness) + u32_bytes(bound.start_base, endianness)
        + u32_bytes(bound.end_chrom_ix, endianness) + u32_bytes(bound.end_base, endianness)
        + u64_bytes(end_file_offset, endianness) + u32_bytes(items_per_slot, endianness)
        + u32_bytes(0, endianness)
}

/// The header takes 48 bytes and starts with the magic number.
proof fn lemma_cir_header_bytes(
    block_size: u32,
    item_count: u64,
    bound: IndexEntry,
    end_file_offset: u64,
    items_per_slot: u32,
    endianness: Endianness,
)
    ensures
        cir_header_bytes(
            block_size,
            item_count,
            bound,
            end_file_offset,
            items_per_slot,
            endianness,
        ).len() == 48,
        cir_header_bytes(
            block_size,
            item_count,
            bound,
            end_file_offset,
            items_per_slot,
            endianness,
        ).subrange(0, 4) == u32_bytes(CIR_TREE_MAGIC, endianness),
{
    reveal(cir_header_bytes);
    lemma_u32_bytes_round_trip(CIR_TREE_MAGIC, endianness);
    lemma_u32_bytes_round_trip(block_size, endianness);
    lemma_u64_bytes_round_trip(item_count, endianness);
    lemma_u32_bytes_round_trip(bound.start_chrom_ix, endianness);
    lemma_u32_bytes_round_trip(bound.start_base, endianness);
    lemma_u32_bytes_round_trip(bound.end_chrom_ix, endianness);
    lemma_u32_bytes_round_trip(bound.end_base, endianness);
    lemma_u64_bytes_round_trip(end_file_offset, endianness);
    lemma_u32_bytes_round_trip(items_per_slot, endianness);
    lemma_u32_bytes_round_trip(0, endianness);
    assert(cir_header_bytes(
        block_size,
        item_count,
        bound,
        end_file_offset,
        items_per_slot,
        endianness,
    ).subrange(0, 4) =~= u32_bytes(CIR_TREE_MAGIC, endianness));
}

/// The interval that the header of an index notes: the one that bounds the
/// entries of the root tightly, or all zero where there is no entry.
pub open spec fn root_bound(entries: Seq<IndexEntry>) -> IndexEntry {
    if entries.len() > 0 {
        tight_bound(entries, 0)
    } else {
        IndexEntry {
            start_chrom_ix: 0,
            start_base: 0,
            end_chrom_ix: 0,
            end_base: 0,
            offset: 0,
            size: 0,
        }
    }
}

/// The bytes of an index that is written from `base` on over `entries`:
/// level after level of nodes of up to `size` entries, from the given
/// entries up, until a level fits in one node; then the header and that
/// node, which is the root.
pub open spec fn index_bytes(
    entries: Seq<IndexEntry>,
    size: u32,
    leaf: bool,
    endianness: Endianness,
    base: int,
    levels: nat,
    item_count: u64,
    end_file_offset: u64,
    items_per_slot: u32,
) -> Seq<u8>
    decreases levels,
{
    if entries.len() <= size || levels == 0 {
        cir_header_bytes(
            size,
            item_count,
            root_bound(entries),
            end_file_offset,
            items_per_slot,
            endianness,
        ) + node_bytes(entries, leaf, endianness)
    } else {
        level_bytes(entries, size as nat, leaf, endianness) + index_bytes(
            level_next(entries, size as nat, leaf, base),
            size,
            false,
            endianness,
            base + level_size(entries.len(), size as nat, leaf),
            (levels - 1) as nat,
            item_count,
            end_file_offset,
            items_per_slot,
        )
    }
}

/// Whether `data` holds, from `index_offset` on, an index over exactly the
/// blocks of `leaves`: the header, the root behind it, and below the root a
/// tree that is whole and bounded and has `leaves` as its leaf entries, in
/// their order.
pub open spec fn holds_index(
    data: Seq<u8>,
    endianness: Endianness,
    index_offset: u64,
    leaves: Seq<IndexEntry>,
) -> bool {
    &&& index_offset + 48 <= data.len()
    &&& u32_at(data, index_offset as int, endianness) == CIR_TREE_MAGIC
    &&& node_wf(data, endianness, index_offset + 48, MAX_INDEX_DEPTH as nat)
    &&& node_leaves(data, endianness, index_offset + 48, MAX_INDEX_DEPTH as nat) == leaves
}

/// A search of an index that was built over `leaves` finds the blocks of
/// exactly those of `leaves` whose interval overlaps the query, in their
/// order.
pub proof fn lemma_built_index_is_searched(
    data: Seq<u8>,
    endianness: Endianness,
    index_offset: u64,
    leaves: Seq<IndexEntry>,
    chrom: u32,
    start: u32,
    end: u32,
)
    requires
        holds_index(data, endianness, index_offset, leaves),
    ensures
        spec_search_cir_tree(data, endianness, index_offset, chrom, start, end) == Ok::<
            Seq<Block>,
            BBIReadError,
        >(overlapping_blocks(leaves, chrom, start, end)),
{
    lemma_search_finds_overlapping(
        data,
        endianness,
        index_offset + 48,
        MAX_INDEX_DEPTH as nat,
        chrom,
        start,
        end,
    );
}

/// The header and the root of an index that were appended to data that
/// holds the trees below the root make an index over the leaves of those
/// trees.
proof fn lemma_root_emitted(
    data: Seq<u8>,
    header: Seq<u8>,
    longer: Seq<u8>,
    endianness: Endianness,
    entries: Seq<IndexEntry>,
    leaf: bool,
    depth: nat,
    leaves: Seq<IndexEntry>,
)
    requires
        header.len() == 48,
        header.subrange(0, 4) == u32_bytes(CIR_TREE_MAGIC, endianness),
        longer == data + header + node_bytes(entries, leaf, endianness),
        data.len() <= u64::MAX,
        entries.len() <= 0xffff,
        1 <= depth <= 64,
        leaf ==> entries == leaves,
        !leaf ==> entries_wf(data, endianness, entries, (depth - 1) as nat),
        !leaf ==> entries_leaves(data, endianness, entries, (depth - 1) as nat) == leaves,
    ensures
        extends(longer, data),
        holds_index(longer, endianness, data.len() as u64, leaves),
{
    let middle = data + header;
    let at = middle.len() as int;
    assert(extends(middle, data)) by {
        assert(middle.subrange(0, data.len() as int) =~= data);
    }
    if !leaf {
        lemma_entries_extend(data, middle, endianness, entries, (depth - 1) as nat);
    }
    lemma_emitted_node(middle, longer, endianness, entries, leaf, depth);
    assert(extends(longer, data)) by {
        assert(longer.subrange(0, data.len() as int) =~= data);
    }
    lemma_node_deeper(longer, endianness, at, depth, MAX_INDEX_DEPTH as nat);
    assert(longer.subrange(data.len() as int, data.len() as int + 4) =~= header.subrange(0, 4));
    lemma_u32_at_bytes(longer, data.len() as int, CIR_TREE_MAGIC, endianness);
}

/// Appends the header of an index.
fn emit_cir_header(
    out: &mut Vec<u8>,
    block_size: u32,
    item_count: u64,
    bound: &IndexEntry,
    end_file_offset: u64,
    items_per_slot: u32,
    endianness: Endianness,
)
    ensures
        final(out)@ == old(out)@ + cir_header_bytes(
            block_size,
            item_count,
            *bound,
            end_file_offset,
            items_per_slot,
            endianness,
        ),
{
    write_u32(out, CIR_TREE_MAGIC, endianness);
    write_u32(out, block_size, endianness);
    write_u64(out, item_count, endianness);
    write_u32(out, bound.start_chrom_ix, endianness);
    write_u32(out, bound.start_base, endianness);
    write_u32(out, bound.end_chrom_ix, endianness);
    write_u32(out, bound.end_base, endianness);
    write_u64(out, end_file_offset, endianness);
    write_u32(out, items_per_slot, endianness);
    write_u32(out, 0, endianness);
    reveal(cir_header_bytes);
    assert(out@ =~= old(out)@ + cir_header_bytes(
        block_size,
        item_count,
        *bound,
        end_file_offset,
        items_per_slot,
        endianness,
    ));
}

/// What starts with what starts with a sequence of bytes starts with that
/// sequence.
pub proof fn lemma_extends_transitive(a: Seq<u8>, b: Seq<u8>, c: Seq<u8>)
    requires
        extends(b, a),
        extends(c, b),
    ensures
        extends(c, a),
{
    assert(c.subrange(0, a.len() as int) =~= b.subrange(0, a.len() as int));
}

/// Appends the header of an index and its root, which holds `entries`.
fn emit_root(
    out: &mut Vec<u8>,
    entries: &Vec<IndexEntry>,
    leaf: bool,
    block_size: u32,
    item_count: u64,
    end_file_offset: u64,
    items_per_slot: u32,
    endianness: Endianness,
    Ghost(depth): Ghost<nat>,
    Ghost(leaves): Ghost<Seq<IndexEntry>>,
) -> (index_offset: u64)
    requires
        entries@.len() <= block_size <= 0xffff,
        1 <= depth <= 64,
        leaf ==> entries@ == leaves,
        !leaf ==> entries_wf(old(out)@, endianness, entries@, (depth - 1) as nat),
        !leaf ==> entries_leaves(old(out)@, endianness, entries@, (depth - 1) as nat) == leaves,
    ensures
        index_offset == old(out)@.len(),
        extends(final(out)@, old(out)@),
        holds_index(final(out)@, endianness, index_offset, leaves),
        final(out)@ == old(out)@ + (cir_header_bytes(
            block_size,
            item_count,
            root_bound(entries@),
            end_file_offset,
            items_per_slot,
            endianness,
        ) + node_bytes(entries@, leaf, endianness)),
{
    let bound = if entries.len() > 0 {
        group_bound(entries, 0, entries.len(), 0)
    } else {
        IndexEntry {
            start_chrom_ix: 0,
            start_base: 0,
            end_chrom_ix: 0,
            end_base: 0,
            offset: 0,
            size: 0,
        }
    };
    assert(entries@.subrange(0, entries@.len() as int) =~= entries@);
    assert(bound == root_bound(entries@));
    let ghost data = out@;
    let index_offset: u64 = out.len() as u64;
    emit_cir_header(
        out,
        block_size,
        item_count,
        &bound,
        end_file_offset,
        items_per_slot,
        endianness,
    );
    let ghost header = cir_header_bytes(
        block_size,
        item_count,
        bound,
        end_file_offset,
        items_per_slot,
        endianness,
    );
    emit_node(out, entries, 0, entries.len(), leaf, endianness);
    proof {
        lemma_cir_header_bytes(
            block_size,
            item_count,
            bound,
            end_file_offset,
            items_per_slot,
            endianness,
        );
        lemma_root_emitted(data, header, out@, endianness, entries@, leaf, depth, leaves);
        assert(data + (header + node_bytes(entries@, leaf, endianness)) =~= out@);
    }
    index_offset
}

/// Builds the index over the blocks of `leaves` and appends it to `out`:
/// the nodes below the root, level by level from the leaves up, then the
/// header, then the root. Returns the offset of the header.
///
/// Nodes hold up to `block_size` entries. Nothing is written, and `None`
/// comes back, where that would give a tree of more than 64 levels.
pub fn write_cir_tree(
    out: &mut Vec<u8>,
    leaves: &Vec<IndexEntry>,
    block_size: u32,
    items_per_slot: u32,
    end_file_offset: u64,
    endianness: Endianness,
) -> (r: Option<u64>)
    requires
        2 <= block_size <= 0xffff,
    ensures
        extends(final(out)@, old(out)@),
        match r {
            None => !packs_within(leaves@.len(), block_size as nat, 64) && final(out)@ == old(
                out,
            )@,
            Some(index_offset) => packs_within(leaves@.len(), block_size as nat, 64)
                && index_offset == old(out)@.len() + below_root_size(
                leaves@.len(),
                block_size as nat,
                true,
                64,
            ) && holds_index(final(out)@, endianness, index_offset, leaves@) && final(out)@
                == old(out)@ + index_bytes(
                leaves@,
                block_size,
                true,
                endianness,
                old(out)@.len() as int,
                64,
                leaves@.len() as u64,
                end_file_offset,
                items_per_slot,
            ),
        },
{
    let size: usize = block_size as usize;
    assert(extends(out@, old(out)@)) by {
        assert(out@.subrange(0, out@.len() as int) =~= out@);
    }
    if !fits_depth(leaves.len(), size) {
        return None;
    }
    let mut entries: Vec<IndexEntry> = Vec::new();
    let mut i: usize = 0;
    while i < leaves.len()
        invariant
            i <= leaves@.len(),
            entries@ == leaves@.take(i as int),
        decreases leaves@.len() - i,
    {
        entries.push(leaves[i]);
        assert(leaves@.take(i + 1) =~= leaves@.take(i as int).push(leaves@[i as int]));
        i = i + 1;
    }
    assert(leaves@.take(leaves@.len() as int) =~= leaves@);
    let mut leaf = true;
    let mut depth: u32 = 1;
    assert(out@ == old(out)@);
    while entries.len() > size
        invariant
            size == block_size,
            2 <= block_size <= 0xffff,
            1 <= depth <= 64,
            extends(out@, old(out)@),
            packs_within(entries@.len(), size as nat, (65 - depth) as nat),
            out@.len() + below_root_size(
                entries@.len(),
                size as nat,
                leaf,
                (65 - depth) as nat,
            ) == old(out)@.len() + below_root_size(leaves@.len(), size as nat, true, 64),
            leaf ==> entries@ == leaves@ && depth == 1,
            !leaf ==> entries_wf(out@, endianness, entries@, (depth - 1) as nat),
            !leaf ==> entries_leaves(out@, endianness, entries@, (depth - 1) as nat) == leaves@,
            old(out)@ + index_bytes(
                leaves@,
                block_size,
                true,
                endianness,
                old(out)@.len() as int,
                64,
                leaves@.len() as u64,
                end_file_offset,
                items_per_slot,
            ) == out@ + index_bytes(
                entries@,
                block_size,
                leaf,
                endianness,
                out@.len() as int,
                (65 - depth) as nat,
                leaves@.len() as u64,
                end_file_offset,
                items_per_slot,
            ),
        decreases 65 - depth,
    {
        let ghost before = out@;
        let next = emit_level(out, &entries, leaf, size, endianness, Ghost(depth as nat));
        proof {
            assert(extends(out@, old(out)@)) by {
                assert(out@.subrange(0, old(out)@.len() as int) =~= before.subrange(
                    0,
                    old(out)@.len() as int,
                ));
            }
            assert(packs_within(next@.len(), size as nat, (64 - depth) as nat));
            let level = level_bytes(entries@, size as nat, leaf, endianness);
            let above = index_bytes(
                next@,
                block_size,
                false,
                endianness,
                out@.len() as int,
                (64 - depth) as nat,
                leaves@.len() as u64,
                end_file_offset,
                items_per_slot,
            );
            assert(before + (level + above) =~= out@ + above);
        }
        entries = next;
        leaf = false;
        depth = depth + 1;
    }
    let ghost data = out@;
    let index_offset = emit_root(
        out,
        &entries,
        leaf,
        block_size,
        leaves.len() as u64,
        end_file_offset,
        items_per_slot,
        endianness,
        Ghost(depth as nat),
        Ghost(leaves@),
    );
    proof {
        lemma_extends_transitive(old(out)@, data, out@);
    }
    Some(index_offset)
}

/// Computes where the header of an index over `n` blocks will stand if the
/// index is written from `start` on. `None` where that offset does not fit
/// in 64 bits.
pub fn index_header_offset(start: u64, n: usize, block_size: u32) -> (r: Option<u64>)
    requires
        2 <= block_size <= 0xffff,
    ensures
        match r {
            Some(offset) => offset == start + below_root_size(
                n as nat,
                block_size as nat,
                true,
                64,
            ),
            None => start + below_root_size(n as nat, block_size as nat, true, 64) > u64::MAX,
        },
{
    let size: usize = block_size as usize;
    let mut left: usize = n;
    let mut leaf = true;
    let mut levels: u32 = 64;
    let mut total: u64 = start;
    proof {
        lemma_below_root_size_nonnegative(n as nat, size as nat, true, 64);
    }
    while left > size && levels > 0
        invariant
            size == block_size,
            size >= 2,
            levels <= 64,
            total + below_root_size(left as nat, size as nat, leaf, levels as nat) == start
                + below_root_size(n as nat, size as nat, true, 64),
            below_root_size(left as nat, size as nat, leaf, levels as nat) >= 0,
        decreases levels,
    {
        let groups = count_groups(left, size);
        let per_entry: u64 = if leaf { 32 } else { 24 };
        proof {
            lemma_below_root_size_nonnegative(
                groups as nat,
                size as nat,
                false,
                (levels - 1) as nat,
            );
        }
        let entries_size = match per_entry.checked_mul(left as u64) {
            Some(v) => v,
            None => {
                return None;
            },
        };
        let heads_size = match (groups as u64).checked_mul(4) {
            Some(v) => v,
            None => {
                return None;
            },
        };
        let level = match heads_size.checked_add(entries_size) {
            Some(v) => v,
            None => {
                return None;
            },
        };
        total = match total.checked_add(level) {
            Some(v) => v,
            None => {
                return None;
            },
        };
        left = groups;
        leaf = false;
        levels = levels - 1;
    }
    Some(total)
}

/// The nodes below the root take no negative number of bytes.
pub proof fn lemma_below_root_size_nonnegative(n: nat, size: nat, leaf: bool, levels: nat)
    ensures
        below_root_size(n, size, leaf, levels) >= 0,
    decreases levels,
{
    if n > size && levels > 0 {
        lemma_below_root_size_nonnegative(group_count(n, size), size, false, (levels - 1) as nat);
    }
}

} // verus!
