//! What a query yields, stated over the records that a file holds: the
//! records of the chromosome that overlap the window, each clipped to it, in
//! the order of the file.

use crate::bbiread::{BBIHeader, BBIReadError, Block, CIR_TREE_MAGIC};
use crate::bigwig::Value;
use crate::bigwigread::{
    blocks_values, clip_values, covering_value, iter_step, lemma_clip_values_push,
    lemma_overlay_clip, overlaps, section_records, spec_block_payload, spec_find_chrom,
    spec_get_block_values, BigWigRead,
};
use crate::cirtree::{
    entry_block, entry_overlaps, lemma_overlapping_blocks_push, lemma_search_finds_overlapping,
    node_leaves, node_wf, overlapping_blocks, IndexEntry, MAX_INDEX_DEPTH,
};
use crate::codec::u32_at;
use vstd::prelude::*;

verus! {

/// The records that the block of the leaf entry `leaf` holds.
pub open spec fn leaf_records(data: Seq<u8>, header: BBIHeader, leaf: IndexEntry) -> Result<
    Seq<Value>,
    BBIReadError,
> {
    match spec_block_payload(data, header, entry_block(leaf)) {
        Err(e) => Err(e),
        Ok(payload) => section_records(payload, header.endianness),
    }
}

/// Whether the leaf entry `leaf` describes its block: the block can be read,
/// it belongs to one chromosome, and each of its records lies between the
/// entry's start and end.
pub open spec fn leaf_describes_block(data: Seq<u8>, header: BBIHeader, leaf: IndexEntry) -> bool {
    &&& leaf.start_chrom_ix == leaf.end_chrom_ix
    &&& leaf_records(data, header, leaf) is Ok
    &&& forall|j: int|
        0 <= j < leaf_records(data, header, leaf)->Ok_0.len() ==> {
            let r = #[trigger] leaf_records(data, header, leaf)->Ok_0[j];
            leaf.start_base <= r.start && r.end <= leaf.end_base
        }
}

/// Whether every leaf entry of `leaves` describes its block.
pub open spec fn leaves_describe_blocks(
    data: Seq<u8>,
    header: BBIHeader,
    leaves: Seq<IndexEntry>,
) -> bool {
    forall|j: int| 0 <= j < leaves.len() ==> leaf_describes_block(data, header, #[trigger] leaves[j])
}

/// The records of the chromosome with id `chrom` that the blocks of `leaves`
/// hold, in the order of the leaves.
pub open spec fn chrom_records(
    data: Seq<u8>,
    header: BBIHeader,
    leaves: Seq<IndexEntry>,
    chrom: u32,
) -> Seq<Value>
    decreases leaves.len(),
{
    if leaves.len() == 0 {
        Seq::empty()
    } else if leaves.last().start_chrom_ix == chrom {
        chrom_records(data, header, leaves.drop_last(), chrom) + leaf_records(
            data,
            header,
            leaves.last(),
        )->Ok_0
    } else {
        chrom_records(data, header, leaves.drop_last(), chrom)
    }
}

/// Clipping two lists, one after the other, is clipping their concatenation.
pub proof fn lemma_clip_values_concat(a: Seq<Value>, b: Seq<Value>, start: u32, end: u32)
    ensures
        clip_values(a + b, start, end) == clip_values(a, start, end) + clip_values(b, start, end),
    decreases b.len(),
{
    if b.len() == 0 {
        assert(a + b == a);
        assert(clip_values(b, start, end) =~= Seq::<Value>::empty());
    } else {
        let head = b.drop_last();
        lemma_clip_values_concat(a, head, start, end);
        assert(a + b == (a + head).push(b.last()));
        assert(b == head.push(b.last()));
        lemma_clip_values_push(a + head, b.last(), start, end);
        lemma_clip_values_push(head, b.last(), start, end);
    }
}

/// Records that lie between bounds that miss the window do not reach into
/// it.
proof fn lemma_clip_values_outside(
    records: Seq<Value>,
    low: u32,
    high: u32,
    start: u32,
    end: u32,
)
    requires
        forall|j: int|
            0 <= j < records.len() ==> low <= (#[trigger] records[j]).start && records[j].end
                <= high,
        high <= start || end <= low,
    ensures
        clip_values(records, start, end) == Seq::<Value>::empty(),
    decreases records.len(),
{
    if records.len() == 0 {
        assert(clip_values(records, start, end) =~= Seq::<Value>::empty());
    } else {
        let head = records.drop_last();
        assert forall|j: int| 0 <= j < head.len() implies low <= (#[trigger] head[j]).start
            && head[j].end <= high by {
            assert(head[j] == records[j]);
        }
        lemma_clip_values_outside(head, low, high, start, end);
        assert(records == head.push(records.last()));
        assert(low <= records[records.len() - 1].start);
        lemma_clip_values_push(head, records.last(), start, end);
    }
}

/// Records that lie inside the window and are not empty come through
/// clipping as they are.
pub proof fn lemma_clip_values_inside(records: Seq<Value>, start: u32, end: u32)
    requires
        forall|j: int|
            0 <= j < records.len() ==> start <= (#[trigger] records[j]).start < records[j].end
                <= end,
    ensures
        clip_values(records, start, end) == records,
    decreases records.len(),
{
    if records.len() == 0 {
        assert(clip_values(records, start, end) =~= Seq::<Value>::empty());
    } else {
        let head = records.drop_last();
        assert forall|j: int| 0 <= j < head.len() implies start <= (#[trigger] head[j]).start
            < head[j].end <= end by {
            assert(head[j] == records[j]);
        }
        lemma_clip_values_inside(head, start, end);
        assert(records == head.push(records.last()));
        assert(start <= records[records.len() - 1].start);
        lemma_clip_values_push(head, records.last(), start, end);
    }
}

/// A run of blocks with one readable block more yields what it yielded, and
/// then the records of that block.
proof fn lemma_blocks_values_push(
    data: Seq<u8>,
    header: BBIHeader,
    blocks: Seq<Block>,
    block: Block,
    start: u32,
    end: u32,
)
    ensures
        blocks_values(data, header, blocks.push(block), start, end) == match blocks_values(
            data,
            header,
            blocks,
            start,
            end,
        ) {
            Err(e) => Err::<Seq<Value>, BBIReadError>(e),
            Ok(values) => match spec_get_block_values(data, header, block, start, end) {
                Err(e) => Err::<Seq<Value>, BBIReadError>(e),
                Ok(more) => Ok::<Seq<Value>, BBIReadError>(values + more),
            },
        },
{
    assert(blocks.push(block).drop_last() == blocks);
    assert(blocks.push(block).last() == block);
}

/// Where every leaf entry describes its block, the blocks of the entries
/// that overlap a query hold, between them, every record of the chromosome
/// that overlaps the window: reading them yields exactly those records,
/// clipped, in the order of the leaves.
pub proof fn lemma_blocks_hold_overlapping_records(
    data: Seq<u8>,
    header: BBIHeader,
    leaves: Seq<IndexEntry>,
    chrom: u32,
    start: u32,
    end: u32,
)
    requires
        leaves_describe_blocks(data, header, leaves),
    ensures
        blocks_values(
            data,
            header,
            overlapping_blocks(leaves, chrom, start, end),
            start,
            end,
        ) == Ok::<Seq<Value>, BBIReadError>(
            clip_values(chrom_records(data, header, leaves, chrom), start, end),
        ),
    decreases leaves.len(),
{
    if leaves.len() == 0 {
        assert(overlapping_blocks(leaves, chrom, start, end) =~= Seq::<Block>::empty());
        assert(clip_values(Seq::<Value>::empty(), start, end) =~= Seq::<Value>::empty());
    } else {
        let head = leaves.drop_last();
        let leaf = leaves.last();
        assert(leaves_describe_blocks(data, header, head)) by {
            assert forall|j: int| 0 <= j < head.len() implies leaf_describes_block(
                data,
                header,
                #[trigger] head[j],
            ) by {
                assert(head[j] == leaves[j]);
            }
        }
        lemma_blocks_hold_overlapping_records(data, header, head, chrom, start, end);
        assert(leaves == head.push(leaf));
        assert(leaf_describes_block(data, header, leaves[leaves.len() - 1]));
        lemma_overlapping_blocks_push(head, leaf, chrom, start, end);
        let records = leaf_records(data, header, leaf)->Ok_0;
        let before = chrom_records(data, header, head, chrom);
        let found = overlapping_blocks(head, chrom, start, end);
        if entry_overlaps(leaf, chrom, start, end) {
            lemma_blocks_values_push(data, header, found, entry_block(leaf), start, end);
            lemma_clip_values_concat(before, records, start, end);
        } else if leaf.start_chrom_ix == chrom {
            lemma_clip_values_outside(records, leaf.start_base, leaf.end_base, start, end);
            lemma_clip_values_concat(before, records, start, end);
            assert(clip_values(before, start, end) + Seq::<Value>::empty() =~= clip_values(
                before,
                start,
                end,
            ));
        }
    }
}

impl BigWigRead {
    /// All leaf entries of the file's index, in the order of the tree.
    pub open spec fn index_leaves(&self) -> Seq<IndexEntry> {
        node_leaves(
            self.data(),
            self.info.header.endianness,
            self.info.header.full_index_offset + 48,
            MAX_INDEX_DEPTH as nat,
        )
    }

    /// Whether the file's index is in order: it starts with its magic
    /// number, its tree is whole and bounded, and each leaf entry describes
    /// its block.
    pub open spec fn index_wf(&self) -> bool {
        &&& self.info.header.full_index_offset + 48 <= self.data().len()
        &&& u32_at(
            self.data(),
            self.info.header.full_index_offset as int,
            self.info.header.endianness,
        ) == CIR_TREE_MAGIC
        &&& node_wf(
            self.data(),
            self.info.header.endianness,
            self.info.header.full_index_offset + 48,
            MAX_INDEX_DEPTH as nat,
        )
        &&& leaves_describe_blocks(self.data(), self.info.header, self.index_leaves())
    }

    /// The records that the file holds for the chromosome with id `chrom`,
    /// in the order of the file.
    pub open spec fn records_of(&self, chrom: u32) -> Seq<Value> {
        chrom_records(self.data(), self.info.header, self.index_leaves(), chrom)
    }

    /// On a file whose index is in order, a query yields the records of the
    /// chromosome that overlap its window, and no others: each clipped to
    /// the window, in the order of the file. What the search of the index
    /// passes by holds none of them.
    pub proof fn lemma_interval_is_the_overlapping_records(
        &self,
        chrom_name: Seq<char>,
        start: u32,
        end: u32,
    )
        requires
            self.index_wf(),
            spec_find_chrom(self.info@.chrom_info, chrom_name) is Some,
        ensures
            self.spec_interval_values(chrom_name, start, end) == Ok::<Seq<Value>, BBIReadError>(
                clip_values(
                    self.records_of(spec_find_chrom(self.info@.chrom_info, chrom_name)->Some_0.id),
                    start,
                    end,
                ),
            ),
    {
        let chrom = spec_find_chrom(self.info@.chrom_info, chrom_name)->Some_0.id;
        lemma_search_finds_overlapping(
            self.data(),
            self.info.header.endianness,
            self.info.header.full_index_offset + 48,
            MAX_INDEX_DEPTH as nat,
            chrom,
            start,
            end,
        );
        lemma_blocks_hold_overlapping_records(
            self.data(),
            self.info.header,
            self.index_leaves(),
            chrom,
            start,
            end,
        );
    }

    /// On a file whose index is in order and whose records lie within their
    /// chromosome, a query for the whole chromosome yields every record of
    /// it, as the file holds it and in the order of the file: ascending
    /// where the file is sorted.
    pub proof fn lemma_whole_chromosome_yields_all_records(
        &self,
        chrom_name: Seq<char>,
        chrom_length: u32,
    )
        requires
            self.index_wf(),
            spec_find_chrom(self.info@.chrom_info, chrom_name) is Some,
            forall|j: int|
                0 <= j < self.records_of(
                    spec_find_chrom(self.info@.chrom_info, chrom_name)->Some_0.id,
                ).len() ==> {
                    let r = #[trigger] self.records_of(
                        spec_find_chrom(self.info@.chrom_info, chrom_name)->Some_0.id,
                    )[j];
                    r.start < r.end <= chrom_length
                },
        ensures
            self.spec_interval_values(chrom_name, 0, chrom_length) == Ok::<
                Seq<Value>,
                BBIReadError,
            >(self.records_of(spec_find_chrom(self.info@.chrom_info, chrom_name)->Some_0.id)),
    {
        let chrom = spec_find_chrom(self.info@.chrom_info, chrom_name)->Some_0.id;
        self.lemma_interval_is_the_overlapping_records(chrom_name, 0, chrom_length);
        lemma_clip_values_inside(self.records_of(chrom), 0, chrom_length);
    }

    /// On a file whose index is in order, the value that a query gives for a
    /// base of its window is the value of the record of the chromosome that
    /// holds the base, or NaN where none does.
    pub proof fn lemma_value_is_that_of_the_covering_record(
        &self,
        chrom_name: Seq<char>,
        start: u32,
        end: u32,
        i: int,
    )
        requires
            self.index_wf(),
            spec_find_chrom(self.info@.chrom_info, chrom_name) is Some,
            0 <= i < end - start,
        ensures
            self.spec_interval_values(chrom_name, start, end) is Ok,
            covering_value(self.spec_interval_values(chrom_name, start, end)->Ok_0, start + i)
                == covering_value(
                self.records_of(spec_find_chrom(self.info@.chrom_info, chrom_name)->Some_0.id),
                start + i,
            ),
    {
        let chrom = spec_find_chrom(self.info@.chrom_info, chrom_name)->Some_0.id;
        self.lemma_interval_is_the_overlapping_records(chrom_name, start, end);
        lemma_overlay_clip(crate::bigwig::NAN_BITS, self.records_of(chrom), start, end, start + i);
    }
}

/// What is still to come of a walk: the records of `queue`, then those of
/// the blocks of `pending`, or the error of the first block that cannot be
/// read.
pub open spec fn still_to_come(
    data: Seq<u8>,
    header: BBIHeader,
    queue: Seq<Value>,
    pending: Seq<Block>,
    start: u32,
    end: u32,
) -> Result<Seq<Value>, BBIReadError>
    decreases pending.len(),
{
    if pending.len() == 0 {
        Ok(queue)
    } else {
        match spec_get_block_values(data, header, pending[0], start, end) {
            Err(e) => Err(e),
            Ok(values) => match still_to_come(
                data,
                header,
                values,
                pending.skip(1),
                start,
                end,
            ) {
                Err(e) => Err(e),
                Ok(rest) => Ok(queue + rest),
            },
        }
    }
}

/// A walk yields what is still to come, record by record: where that is a
/// list of records, a step yields its first and leaves the others, and
/// yields `None` once the list is empty.
pub proof fn lemma_walk_yields_in_order(
    data: Seq<u8>,
    header: BBIHeader,
    queue: Seq<Value>,
    pending: Seq<Block>,
    start: u32,
    end: u32,
)
    requires
        still_to_come(data, header, queue, pending, start, end) is Ok,
    ensures
        ({
            let all = still_to_come(data, header, queue, pending, start, end)->Ok_0;
            let (yielded, queue_after, pending_after) = iter_step(
                data,
                header,
                queue,
                pending,
                start,
                end,
            );
            if all.len() == 0 {
                yielded is None
            } else {
                yielded == Some(Ok::<Value, BBIReadError>(all[0])) && still_to_come(
                    data,
                    header,
                    queue_after,
                    pending_after,
                    start,
                    end,
                ) == Ok::<Seq<Value>, BBIReadError>(all.skip(1))
            }
        }),
    decreases pending.len(),
{
    let all = still_to_come(data, header, queue, pending, start, end)->Ok_0;
    if queue.len() > 0 {
        if pending.len() == 0 {
        } else {
            let values = spec_get_block_values(data, header, pending[0], start, end)->Ok_0;
            let rest = still_to_come(data, header, values, pending.skip(1), start, end)->Ok_0;
            assert((queue + rest).skip(1) =~= queue.skip(1) + rest);
        }
    } else if pending.len() > 0 {
        let values = spec_get_block_values(data, header, pending[0], start, end)->Ok_0;
        let rest = still_to_come(data, header, values, pending.skip(1), start, end)->Ok_0;
        assert(queue + rest =~= rest);
        lemma_still_to_come_queue(data, header, values, pending.skip(1), start, end);
        lemma_walk_yields_in_order(data, header, values, pending.skip(1), start, end);
    }
}

/// What is still to come starts with the queue.
proof fn lemma_still_to_come_queue(
    data: Seq<u8>,
    header: BBIHeader,
    queue: Seq<Value>,
    pending: Seq<Block>,
    start: u32,
    end: u32,
)
    requires
        still_to_come(data, header, queue, pending, start, end) is Ok,
    ensures
        still_to_come(data, header, Seq::empty(), pending, start, end) is Ok,
        still_to_come(data, header, queue, pending, start, end)->Ok_0 == queue + still_to_come(
            data,
            header,
            Seq::empty(),
            pending,
            start,
            end,
        )->Ok_0,
{
    if pending.len() == 0 {
        assert(queue + Seq::<Value>::empty() =~= queue);
    } else {
        let values = spec_get_block_values(data, header, pending[0], start, end)->Ok_0;
        let rest = still_to_come(data, header, values, pending.skip(1), start, end)->Ok_0;
        assert(Seq::<Value>::empty() + rest =~= rest);
    }
}

/// At its start a walk has the records of its blocks still to come, block
/// after block.
pub proof fn lemma_still_to_come_at_start(
    data: Seq<u8>,
    header: BBIHeader,
    blocks: Seq<Block>,
    start: u32,
    end: u32,
)
    ensures
        still_to_come(data, header, Seq::empty(), blocks, start, end) == blocks_values(
            data,
            header,
            blocks,
            start,
            end,
        ),
    decreases blocks.len(),
{
    if blocks.len() > 0 {
        lemma_blocks_values_prepend(data, header, blocks[0], blocks.skip(1), start, end);
        assert(seq![blocks[0]] + blocks.skip(1) =~= blocks);
        lemma_still_to_come_at_start(data, header, blocks.skip(1), start, end);
        match spec_get_block_values(data, header, blocks[0], start, end) {
            Err(_) => {},
            Ok(values) => {
                if still_to_come(data, header, values, blocks.skip(1), start, end) is Ok {
                    lemma_still_to_come_queue(data, header, values, blocks.skip(1), start, end);
                } else {
                    lemma_still_to_come_error(data, header, values, blocks.skip(1), start, end);
                }
            },
        }
    }
}

/// Whether a walk fails does not depend on its queue.
proof fn lemma_still_to_come_error(
    data: Seq<u8>,
    header: BBIHeader,
    queue: Seq<Value>,
    pending: Seq<Block>,
    start: u32,
    end: u32,
)
    requires
        still_to_come(data, header, queue, pending, start, end) is Err,
    ensures
        still_to_come(data, header, Seq::empty(), pending, start, end) == Err::<
            Seq<Value>,
            BBIReadError,
        >(still_to_come(data, header, queue, pending, start, end)->Err_0),
{
}

/// The records of a block and then those of a run of blocks are the records
/// of the run that starts with the block.
proof fn lemma_blocks_values_prepend(
    data: Seq<u8>,
    header: BBIHeader,
    first: Block,
    blocks: Seq<Block>,
    start: u32,
    end: u32,
)
    ensures
        blocks_values(data, header, seq![first] + blocks, start, end) == match spec_get_block_values(
            data,
            header,
            first,
            start,
            end,
        ) {
            Err(e) => Err::<Seq<Value>, BBIReadError>(e),
            Ok(values) => match blocks_values(data, header, blocks, start, end) {
                Err(e) => Err::<Seq<Value>, BBIReadError>(e),
                Ok(rest) => Ok::<Seq<Value>, BBIReadError>(values + rest),
            },
        },
    decreases blocks.len(),
{
    if blocks.len() == 0 {
        let all = seq![first] + blocks;
        assert(all.drop_last() =~= Seq::<Block>::empty());
        assert(all.last() == first);
        assert(blocks_values(data, header, all.drop_last(), start, end) == Ok::<
            Seq<Value>,
            BBIReadError,
        >(Seq::empty()));
        assert(blocks_values(data, header, blocks, start, end) == Ok::<Seq<Value>, BBIReadError>(
            Seq::empty(),
        ));
        match spec_get_block_values(data, header, first, start, end) {
            Err(_) => {},
            Ok(values) => {
                assert(Seq::<Value>::empty() + values =~= values);
                assert(values + Seq::<Value>::empty() =~= values);
            },
        }
    } else {
        let all = seq![first] + blocks;
        assert(all.drop_last() =~= seq![first] + blocks.drop_last());
        assert(all.last() == blocks.last());
        lemma_blocks_values_prepend(data, header, first, blocks.drop_last(), start, end);
        match spec_get_block_values(data, header, first, start, end) {
            Err(_) => {},
            Ok(values) => match blocks_values(data, header, blocks.drop_last(), start, end) {
                Err(_) => {},
                Ok(middle) => match spec_get_block_values(
                    data,
                    header,
                    blocks.last(),
                    start,
                    end,
                ) {
                    Err(_) => {},
                    Ok(last) => {
                        assert((values + middle) + last =~= values + (middle + last));
                    },
                },
            },
        }
    }
}

} // verus!
