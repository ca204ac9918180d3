//! Reading BigWig data: decoding of sections, clipping to a query window and
//! per-base values.

use crate::bbiread::{
    chrom_views, find_zoom_header, read_info, read_summary, slice_at,
    spec_find_zoom, spec_read_info, spec_slice_at, spec_summary, BBIFileInfo, BBIFileInfoView,
    BBIFileReadInfoError, BBIHeader, BBIReadError, Block, ChromAndSize, ChromInfo, ChromInfoView,
    InfoProblem, Summary, };
use crate::bigwig::{BBIFile, Value, ZoomRecord, NAN_BITS};
use crate::cirtree::{search_cir_tree, spec_search_cir_tree};
use crate::codec::{
    get_block_data, get_u16, get_u32, get_u8, spec_block_data, u16_at, u32_at, u8_at, Endianness,
};
use vstd::prelude::*;
use vstd::string::StringExecFns;

verus! {

/// Bytes of the header that starts every BigWig section.
pub const SECTION_HEADER_SIZE: usize = 24;

/// Section type of bedGraph sections: each item holds start, end and value.
pub const SECTION_BEDGRAPH: u8 = 1;

/// Section type of variable-step sections: each item holds start and value.
pub const SECTION_VARSTEP: u8 = 2;

/// Section type of fixed-step sections: each item holds its value alone.
pub const SECTION_FIXEDSTEP: u8 = 3;

/// The record that item `i` of a section payload holds, before clipping.
///
/// The payload must hold its 24-byte header. A bedGraph item is stored whole;
/// a variable-step item ends `item_span` bases after its start; fixed-step
/// item `i` starts `i` steps after the section's start and has the same span.
pub open spec fn section_item(data: Seq<u8>, endianness: Endianness, i: int) -> Result<
    Value,
    BBIReadError,
> {
    let chrom_start = u32_at(data, 4, endianness);
    let item_step = u32_at(data, 12, endianness);
    let item_span = u32_at(data, 16, endianness);
    let section_type = u8_at(data, 20);
    if section_type == SECTION_BEDGRAPH {
        let at = 24 + 12 * i;
        if at + 12 > data.len() {
            Err(BBIReadError::UnexpectedEof)
        } else {
            Ok(
                Value {
                    start: u32_at(data, at, endianness),
                    end: u32_at(data, at + 4, endianness),
                    value: u32_at(data, at + 8, endianness),
                },
            )
        }
    } else if section_type == SECTION_VARSTEP {
        let at = 24 + 8 * i;
        if at + 8 > data.len() {
            Err(BBIReadError::UnexpectedEof)
        } else if u32_at(data, at, endianness) + item_span > u32::MAX {
            Err(BBIReadError::PositionOverflow)
        } else {
            Ok(
                Value {
                    start: u32_at(data, at, endianness),
                    end: (u32_at(data, at, endianness) + item_span) as u32,
                    value: u32_at(data, at + 4, endianness),
                },
            )
        }
    } else if section_type == SECTION_FIXEDSTEP {
        let at = 24 + 4 * i;
        if at + 4 > data.len() {
            Err(BBIReadError::UnexpectedEof)
        } else if chrom_start + i * item_step + item_span > u32::MAX {
            Err(BBIReadError::PositionOverflow)
        } else {
            Ok(
                Value {
                    start: (chrom_start + i * item_step) as u32,
                    end: (chrom_start + i * item_step + item_span) as u32,
                    value: u32_at(data, at, endianness),
                },
            )
        }
    } else {
        Err(BBIReadError::UnknownSectionType(section_type))
    }
}

/// The records of the first `n` items of a section payload, or the error of
/// the first item that cannot be decoded.
pub open spec fn section_items(data: Seq<u8>, endianness: Endianness, n: nat) -> Result<
    Seq<Value>,
    BBIReadError,
>
    decreases n,
{
    if n == 0 {
        Ok(Seq::empty())
    } else {
        match section_items(data, endianness, (n - 1) as nat) {
            Err(e) => Err(e),
            Ok(items) => match section_item(data, endianness, n - 1) {
                Err(e) => Err(e),
                Ok(item) => Ok(items.push(item)),
            },
        }
    }
}

/// All records of a section payload, in the order in which it stores them.
pub open spec fn section_records(data: Seq<u8>, endianness: Endianness) -> Result<
    Seq<Value>,
    BBIReadError,
> {
    if data.len() < 24 {
        Err(BBIReadError::UnexpectedEof)
    } else {
        section_items(data, endianness, u16_at(data, 22, endianness) as nat)
    }
}

/// Whether some base of `v` lies in the window `[start, end)`.
pub open spec fn overlaps(v: Value, start: u32, end: u32) -> bool {
    v.start < end && start < v.end && v.start < v.end && start < end
}

/// The part of `v` inside the window `[start, end)`.
pub open spec fn clip(v: Value, start: u32, end: u32) -> Value {
    Value {
        start: if v.start < start { start } else { v.start },
        end: if v.end > end { end } else { v.end },
        value: v.value,
    }
}

/// The records of `records` that overlap the window, each clipped to it, in
/// their order.
pub open spec fn clip_values(records: Seq<Value>, start: u32, end: u32) -> Seq<Value> {
    records.filter(|v: Value| overlaps(v, start, end)).map_values(|v: Value| clip(v, start, end))
}

/// What a query for `[start, end)` yields from one section payload.
pub open spec fn spec_block_values(
    data: Seq<u8>,
    endianness: Endianness,
    start: u32,
    end: u32,
) -> Result<Seq<Value>, BBIReadError> {
    match section_records(data, endianness) {
        Err(e) => Err(e),
        Ok(records) => Ok(clip_values(records, start, end)),
    }
}

/// Clipping a list that grew by one record keeps what the shorter list gave
/// and adds the new record's part, if it has one.
pub proof fn lemma_clip_values_push(records: Seq<Value>, v: Value, start: u32, end: u32)
    ensures
        clip_values(records.push(v), start, end) == if overlaps(v, start, end) {
            clip_values(records, start, end).push(clip(v, start, end))
        } else {
            clip_values(records, start, end)
        },
{
    let pred = |v: Value| overlaps(v, start, end);
    records.lemma_filter_push(v, pred);
    if overlaps(v, start, end) {
        assert(records.push(v).filter(pred) == records.filter(pred).push(v));
        assert(clip_values(records.push(v), start, end) =~= clip_values(
            records,
            start,
            end,
        ).push(clip(v, start, end)));
    } else {
        assert(records.push(v).filter(pred) == records.filter(pred));
    }
}

/// Decodes item `i` of a section payload whose header has been read.
fn decode_item(
    data: &[u8],
    endianness: Endianness,
    chrom_start: u32,
    item_step: u32,
    item_span: u32,
    section_type: u8,
    i: u16,
) -> (r: Result<Value, BBIReadError>)
    requires
        data@.len() >= 24,
        chrom_start == u32_at(data@, 4, endianness),
        item_step == u32_at(data@, 12, endianness),
        item_span == u32_at(data@, 16, endianness),
        section_type == u8_at(data@, 20),
    ensures
        r == section_item(data@, endianness, i as int),
{
    let index: usize = i as usize;
    if section_type == SECTION_BEDGRAPH {
        let at: usize = 24 + 12 * index;
        let start = get_u32(data, at, endianness);
        let end = get_u32(data, at + 4, endianness);
        let value = get_u32(data, at + 8, endianness);
        match (start, end, value) {
            (Some(start), Some(end), Some(value)) => Ok(Value { start, end, value }),
            _ => Err(BBIReadError::UnexpectedEof),
        }
    } else if section_type == SECTION_VARSTEP {
        let at: usize = 24 + 8 * index;
        let start = get_u32(data, at, endianness);
        let value = get_u32(data, at + 4, endianness);
        match (start, value) {
            (Some(start), Some(value)) => match start.checked_add(item_span) {
                Some(end) => Ok(Value { start, end, value }),
                None => Err(BBIReadError::PositionOverflow),
            },
            _ => Err(BBIReadError::UnexpectedEof),
        }
    } else if section_type == SECTION_FIXEDSTEP {
        let at: usize = 24 + 4 * index;
        match get_u32(data, at, endianness) {
            Some(value) => {
                assert((i as u64) * (item_step as u64) <= 0xffff * 0xffff_ffff) by (nonlinear_arith)
                    requires
                        i <= 0xffff,
                        item_step <= 0xffff_ffff,
                ;
                let offset: u64 = (i as u64) * (item_step as u64);
                let start: u64 = chrom_start as u64 + offset;
                let end: u64 = start + item_span as u64;
                if end > u32::MAX as u64 {
                    Err(BBIReadError::PositionOverflow)
                } else {
                    Ok(Value { start: start as u32, end: end as u32, value })
                }
            },
            None => Err(BBIReadError::UnexpectedEof),
        }
    } else {
        Err(BBIReadError::UnknownSectionType(section_type))
    }
}

/// Decodes one section payload and returns the records that overlap
/// `[start, end)`, each clipped to that window.
pub fn decode_block_values(data: &[u8], endianness: Endianness, start: u32, end: u32) -> (r:
    Result<Vec<Value>, BBIReadError>)
    ensures
        match r {
            Ok(values) => spec_block_values(data@, endianness, start, end) == Ok::<
                Seq<Value>,
                BBIReadError,
            >(values@),
            Err(e) => spec_block_values(data@, endianness, start, end) == Err::<
                Seq<Value>,
                BBIReadError,
            >(e),
        },
{
    if data.len() < SECTION_HEADER_SIZE {
        return Err(BBIReadError::UnexpectedEof);
    }
    let chrom_start = get_u32(data, 4, endianness).unwrap();
    let item_step = get_u32(data, 12, endianness).unwrap();
    let item_span = get_u32(data, 16, endianness).unwrap();
    let section_type = get_u8(data, 20, endianness).unwrap();
    let item_count = get_u16(data, 22, endianness).unwrap();

    let mut values: Vec<Value> = Vec::new();
    let ghost mut records: Seq<Value> = Seq::empty();
    let mut i: u16 = 0;
    while i < item_count
        invariant
            i <= item_count,
            data@.len() >= 24,
            chrom_start == u32_at(data@, 4, endianness),
            item_step == u32_at(data@, 12, endianness),
            item_span == u32_at(data@, 16, endianness),
            section_type == u8_at(data@, 20),
            item_count == u16_at(data@, 22, endianness),
            section_items(data@, endianness, i as nat) == Ok::<Seq<Value>, BBIReadError>(records),
            values@ == clip_values(records, start, end),
        decreases item_count - i,
    {
        match decode_item(data, endianness, chrom_start, item_step, item_span, section_type, i) {
            Err(e) => {
                proof {
                    lemma_items_error(data@, endianness, i as nat, item_count as nat);
                }
                return Err(e);
            },
            Ok(v) => {
                proof {
                    lemma_clip_values_push(records, v, start, end);
                    records = records.push(v);
                }
                if v.start < end && start < v.end && v.start < v.end && start < end {
                    let clipped = Value {
                        start: if v.start < start { start } else { v.start },
                        end: if v.end > end { end } else { v.end },
                        value: v.value,
                    };
                    values.push(clipped);
                }
            },
        }
        i = i + 1;
    }
    Ok(values)
}

/// Once an item fails to decode, every longer prefix fails with its error.
proof fn lemma_items_error(data: Seq<u8>, endianness: Endianness, i: nat, n: nat)
    requires
        i < n,
        section_items(data, endianness, i) is Ok,
        section_item(data, endianness, i as int) is Err,
    ensures
        section_items(data, endianness, n) == Err::<Seq<Value>, BBIReadError>(
            section_item(data, endianness, i as int)->Err_0,
        ),
    decreases n,
{
    if n > i + 1 {
        lemma_items_error(data, endianness, i, (n - 1) as nat);
    }
}

/// Whether the record `v` holds the base at position `base`.
pub open spec fn covers(v: Value, base: int) -> bool {
    v.start <= base < v.end
}

/// The value at `base` once `records` have been written, in their order, over
/// a base that held `prev`: that of the last record that holds the base.
pub open spec fn overlay(prev: u32, records: Seq<Value>, base: int) -> u32
    decreases records.len(),
{
    if records.len() == 0 {
        prev
    } else if covers(records.last(), base) {
        records.last().value
    } else {
        overlay(prev, records.drop_last(), base)
    }
}

/// The value of the record of `records` that holds `base`, or NaN where none
/// does. Where several hold it, the last one counts.
pub open spec fn covering_value(records: Seq<Value>, base: int) -> u32 {
    overlay(NAN_BITS, records, base)
}

/// Writing `a`, then `b`, gives what writing their concatenation gives.
pub proof fn lemma_overlay_concat(prev: u32, a: Seq<Value>, b: Seq<Value>, base: int)
    ensures
        overlay(overlay(prev, a, base), b, base) == overlay(prev, a + b, base),
    decreases b.len(),
{
    if b.len() == 0 {
        assert(a + b == a);
    } else {
        assert((a + b).drop_last() == a + b.drop_last());
        assert((a + b).last() == b.last());
        lemma_overlay_concat(prev, a, b.drop_last(), base);
    }
}

/// Every record that a clipped list holds lies inside the window and is not
/// empty.
pub proof fn lemma_clip_values_within(records: Seq<Value>, start: u32, end: u32)
    ensures
        forall|k: int|
            0 <= k < clip_values(records, start, end).len() ==> {
                let c = #[trigger] clip_values(records, start, end)[k];
                start <= c.start < c.end <= end
            },
    decreases records.len(),
{
    if records.len() > 0 {
        let head = records.drop_last();
        lemma_clip_values_within(head, start, end);
        lemma_clip_values_push(head, records.last(), start, end);
        assert(head.push(records.last()) == records);
    }
}

/// For a base inside the window, clipping does not change which record holds
/// it.
pub proof fn lemma_overlay_clip(prev: u32, records: Seq<Value>, start: u32, end: u32, base: int)
    requires
        start <= base < end,
    ensures
        overlay(prev, clip_values(records, start, end), base) == overlay(prev, records, base),
    decreases records.len(),
{
    if records.len() > 0 {
        let head = records.drop_last();
        let v = records.last();
        lemma_overlay_clip(prev, head, start, end, base);
        lemma_clip_values_push(head, v, start, end);
        assert(head.push(v) == records);
        if overlaps(v, start, end) {
            let c = clip_values(head, start, end).push(clip(v, start, end));
            assert(c.drop_last() == clip_values(head, start, end));
            assert(c.last() == clip(v, start, end));
        }
    }
}

/// Writes each record's value over the bases that it holds. `values[i]`
/// stands for the base `start + i`.
fn fill_values(values: &mut Vec<u32>, records: &Vec<Value>, start: u32)
    requires
        forall|k: int|
            0 <= k < records@.len() ==> start <= (#[trigger] records@[k]).start
                <= records@[k].end <= start + old(values)@.len(),
    ensures
        final(values)@.len() == old(values)@.len(),
        forall|i: int|
            0 <= i < old(values)@.len() ==> #[trigger] final(values)@[i] == overlay(
                old(values)@[i],
                records@,
                start + i,
            ),
{
    let ghost before = values@;
    let mut k: usize = 0;
    while k < records.len()
        invariant
            k <= records@.len(),
            values@.len() == before.len(),
            forall|j: int|
                0 <= j < records@.len() ==> start <= (#[trigger] records@[j]).start
                    <= records@[j].end <= start + before.len(),
            forall|i: int|
                0 <= i < before.len() ==> #[trigger] values@[i] == overlay(
                    before[i],
                    records@.take(k as int),
                    start + i,
                ),
        decreases records@.len() - k,
    {
        let record = records[k];
        let first: usize = (record.start - start) as usize;
        let last: usize = (record.end - start) as usize;
        let ghost done = values@;
        let ghost head = records@.take(k as int);
        let ghost next = records@.take(k + 1);
        assert(next.drop_last() == head);
        assert(next.last() == record);
        let mut i: usize = first;
        while i < last
            invariant
                first <= i <= last <= before.len(),
                values@.len() == before.len(),
                done.len() == before.len(),
                first == record.start - start,
                last == record.end - start,
                forall|j: int|
                    (0 <= j < first || i <= j < before.len()) ==> values@[j] == done[j],
                forall|j: int| first <= j < i ==> values@[j] == record.value,
            decreases last - i,
        {
            values.set(i, record.value);
            i = i + 1;
        }
        assert forall|j: int| 0 <= j < before.len() implies #[trigger] values@[j] == overlay(
            before[j],
            next,
            start + j,
        ) by {
            assert(done[j] == overlay(before[j], head, start + j));
            assert(covers(record, start + j) <==> first <= j < last);
        }
        k = k + 1;
    }
    assert(records@.take(records@.len() as int) == records@);
}

} // verus!

verus! {

/// Why a file could not be attached as BigWig.
#[derive(Debug)]
pub enum BigWigReadAttachError {
    /// The file is no BBI file, or it is one of another type.
    NotABigWig,
    /// The chromosome tree cannot be read.
    InvalidChroms,
    /// The file ends before what its header announces.
    IoError(std::io::Error),
}

impl From<std::io::Error> for BigWigReadAttachError {
    fn from(error: std::io::Error) -> (r: BigWigReadAttachError) {
        BigWigReadAttachError::IoError(error)
    }
}

impl vstd::std_specs::convert::FromSpecImpl<std::io::Error> for BigWigReadAttachError {
    open spec fn obeys_from_spec() -> bool {
        true
    }

    open spec fn from_spec(error: std::io::Error) -> BigWigReadAttachError {
        BigWigReadAttachError::IoError(error)
    }
}

impl From<BBIFileReadInfoError> for BigWigReadAttachError {
    fn from(error: BBIFileReadInfoError) -> (r: BigWigReadAttachError) {
        match error {
            BBIFileReadInfoError::UnknownMagic => BigWigReadAttachError::NotABigWig,
            BBIFileReadInfoError::InvalidChroms => BigWigReadAttachError::InvalidChroms,
            BBIFileReadInfoError::IoError(e) => BigWigReadAttachError::IoError(e),
        }
    }
}

impl vstd::std_specs::convert::FromSpecImpl<BBIFileReadInfoError> for BigWigReadAttachError {
    open spec fn obeys_from_spec() -> bool {
        true
    }

    open spec fn from_spec(error: BBIFileReadInfoError) -> BigWigReadAttachError {
        match error {
            BBIFileReadInfoError::UnknownMagic => BigWigReadAttachError::NotABigWig,
            BBIFileReadInfoError::InvalidChroms => BigWigReadAttachError::InvalidChroms,
            BBIFileReadInfoError::IoError(e) => BigWigReadAttachError::IoError(e),
        }
    }
}

/// What keeps a file from being attached as BigWig.
pub enum AttachProblem {
    NotABigWig,
    InvalidChroms,
    Truncated,
}

/// What a `BigWigReadAttachError` reports.
pub open spec fn attach_problem(error: BigWigReadAttachError) -> AttachProblem {
    match error {
        BigWigReadAttachError::NotABigWig => AttachProblem::NotABigWig,
        BigWigReadAttachError::InvalidChroms => AttachProblem::InvalidChroms,
        BigWigReadAttachError::IoError(_) => AttachProblem::Truncated,
    }
}

/// What attaching the bytes `data` as BigWig gives: what the file's start
/// says of it, if it is a BBI file of that type.
pub open spec fn spec_attach(data: Seq<u8>) -> Result<BBIFileInfoView, AttachProblem> {
    match spec_read_info(data) {
        Err(InfoProblem::UnknownMagic) => Err(AttachProblem::NotABigWig),
        Err(InfoProblem::InvalidChroms) => Err(AttachProblem::InvalidChroms),
        Err(InfoProblem::Truncated) => Err(AttachProblem::Truncated),
        Ok(info) => if info.filetype == BBIFile::BigWig {
            Ok(info)
        } else {
            Err(AttachProblem::NotABigWig)
        },
    }
}

/// The first chromosome of `chroms` with the given name.
pub open spec fn spec_find_chrom(chroms: Seq<ChromInfoView>, name: Seq<char>) -> Option<
    ChromInfoView,
>
    decreases chroms.len(),
{
    if chroms.len() == 0 {
        None
    } else if chroms[0].name == name {
        Some(chroms[0])
    } else {
        spec_find_chrom(chroms.skip(1), name)
    }
}

/// The stored bytes of `block`, turned into its payload.
pub open spec fn spec_block_payload(data: Seq<u8>, header: BBIHeader, block: Block) -> Result<
    Seq<u8>,
    BBIReadError,
> {
    match spec_slice_at(data, block.offset, block.size) {
        None => Err(BBIReadError::UnexpectedEof),
        Some(raw) => match spec_block_data(raw, header.uncompress_buf_size as nat) {
            None => Err(BBIReadError::Decompress),
            Some(payload) => Ok(payload),
        },
    }
}

/// What a query for `[start, end)` yields from the data block `block` of the
/// file `data`.
pub open spec fn spec_get_block_values(
    data: Seq<u8>,
    header: BBIHeader,
    block: Block,
    start: u32,
    end: u32,
) -> Result<Seq<Value>, BBIReadError> {
    match spec_block_payload(data, header, block) {
        Err(e) => Err(e),
        Ok(payload) => spec_block_values(payload, header.endianness, start, end),
    }
}

/// Reads the payload of the data block `block` out of the file `data`.
pub fn get_block_payload(data: &[u8], header: &BBIHeader, block: &Block) -> (r: Result<
    Vec<u8>,
    BBIReadError,
>)
    ensures
        match r {
            Ok(payload) => spec_block_payload(data@, *header, *block) == Ok::<
                Seq<u8>,
                BBIReadError,
            >(payload@),
            Err(e) => spec_block_payload(data@, *header, *block) == Err::<Seq<u8>, BBIReadError>(
                e,
            ),
        },
{
    let raw = match slice_at(data, block.offset, block.size) {
        Some(raw) => raw,
        None => {
            return Err(BBIReadError::UnexpectedEof);
        },
    };
    match get_block_data(raw, header.uncompress_buf_size as usize) {
        Some(payload) => Ok(payload),
        None => Err(BBIReadError::Decompress),
    }
}

/// Reads the data block `block` out of the file `data` and returns its
/// records that overlap `[start, end)`, each clipped to that window.
pub fn get_block_values(
    data: &[u8],
    header: &BBIHeader,
    block: &Block,
    start: u32,
    end: u32,
) -> (r: Result<Vec<Value>, BBIReadError>)
    ensures
        match r {
            Ok(values) => spec_get_block_values(data@, *header, *block, start, end) == Ok::<
                Seq<Value>,
                BBIReadError,
            >(values@),
            Err(e) => spec_get_block_values(data@, *header, *block, start, end) == Err::<
                Seq<Value>,
                BBIReadError,
            >(e),
        },
{
    let payload = match get_block_payload(data, header, block) {
        Ok(payload) => payload,
        Err(e) => {
            return Err(e);
        },
    };
    decode_block_values(payload.as_slice(), header.endianness, start, end)
}

/// What a walk over blocks yields next, and what is left of it afterwards:
/// the first record of `queue`, or, once that is empty, the first record of
/// the next block of `pending` that has one. A block that cannot be read
/// ends the walk with its error.
pub open spec fn iter_step(
    data: Seq<u8>,
    header: BBIHeader,
    queue: Seq<Value>,
    pending: Seq<Block>,
    start: u32,
    end: u32,
) -> (Option<Result<Value, BBIReadError>>, Seq<Value>, Seq<Block>)
    decreases pending.len(),
{
    if queue.len() > 0 {
        (Some(Ok(queue[0])), queue.skip(1), pending)
    } else if pending.len() == 0 {
        (None, queue, pending)
    } else {
        match spec_get_block_values(data, header, pending[0], start, end) {
            Err(e) => (Some(Err(e)), Seq::empty(), Seq::empty()),
            Ok(values) => iter_step(data, header, values, pending.skip(1), start, end),
        }
    }
}

/// The records that the blocks `blocks` hold for the query, one block after
/// the other, or the error of the first block that cannot be read.
pub open spec fn blocks_values(
    data: Seq<u8>,
    header: BBIHeader,
    blocks: Seq<Block>,
    start: u32,
    end: u32,
) -> Result<Seq<Value>, BBIReadError>
    decreases blocks.len(),
{
    if blocks.len() == 0 {
        Ok(Seq::empty())
    } else {
        match blocks_values(data, header, blocks.drop_last(), start, end) {
            Err(e) => Err(e),
            Ok(values) => match spec_get_block_values(data, header, blocks.last(), start, end) {
                Err(e) => Err(e),
                Ok(more) => Ok(values + more),
            },
        }
    }
}

/// The state of a walk over the blocks of a query.
struct IntervalCursor {
    blocks: Vec<Block>,
    next_block: usize,
    vals: Vec<Value>,
    next_val: usize,
    start: u32,
    end: u32,
}

impl IntervalCursor {
    spec fn wf(&self) -> bool {
        self.next_block <= self.blocks@.len() && self.next_val <= self.vals@.len()
    }

    spec fn queue(&self) -> Seq<Value> {
        self.vals@.skip(self.next_val as int)
    }

    spec fn pending(&self) -> Seq<Block> {
        self.blocks@.skip(self.next_block as int)
    }

    fn new(blocks: Vec<Block>, start: u32, end: u32) -> (r: IntervalCursor)
        ensures
            r.wf(),
            r.queue() == Seq::<Value>::empty(),
            r.pending() == blocks@,
            r.start == start,
            r.end == end,
    {
        let r = IntervalCursor { blocks, next_block: 0, vals: Vec::new(), next_val: 0, start, end };
        assert(r.blocks@.skip(0) == r.blocks@);
        r
    }

    fn next(&mut self, data: &[u8], header: &BBIHeader) -> (r: Option<
        Result<Value, BBIReadError>,
    >)
        requires
            old(self).wf(),
        ensures
            final(self).wf(),
            final(self).start == old(self).start,
            final(self).end == old(self).end,
            (r, final(self).queue(), final(self).pending()) == iter_step(
                data@,
                *header,
                old(self).queue(),
                old(self).pending(),
                old(self).start,
                old(self).end,
            ),
    {
        loop
            invariant
                self.wf(),
                self.start == old(self).start,
                self.end == old(self).end,
                iter_step(
                    data@,
                    *header,
                    self.queue(),
                    self.pending(),
                    self.start,
                    self.end,
                ) == iter_step(
                    data@,
                    *header,
                    old(self).queue(),
                    old(self).pending(),
                    old(self).start,
                    old(self).end,
                ),
            decreases self.blocks@.len() - self.next_block,
        {
            if self.next_val < self.vals.len() {
                let v = self.vals[self.next_val];
                proof {
                    assert(self.queue()[0] == v);
                    assert(self.queue().skip(1) == self.vals@.skip(self.next_val + 1));
                }
                self.next_val = self.next_val + 1;
                return Some(Ok(v));
            }
            if self.next_block >= self.blocks.len() {
                return None;
            }
            let block = self.blocks[self.next_block];
            proof {
                assert(self.pending()[0] == block);
                assert(self.pending().skip(1) == self.blocks@.skip(self.next_block + 1));
            }
            self.next_block = self.next_block + 1;
            match get_block_values(data, header, &block, self.start, self.end) {
                Ok(values) => {
                    self.vals = values;
                    self.next_val = 0;
                    assert(self.vals@.skip(0) == self.vals@);
                },
                Err(e) => {
                    self.vals = Vec::new();
                    self.next_val = 0;
                    self.next_block = self.blocks.len();
                    assert(self.queue() =~= Seq::<Value>::empty());
                    assert(self.pending() =~= Seq::<Block>::empty());
                    return Some(Err(e));
                },
            }
        }
    }
}

/// An attached BigWig file: the bytes of the file and what its start says of
/// it.
#[derive(Clone, Debug)]
pub struct BigWigRead {
    pub info: BBIFileInfo,
    pub data: Vec<u8>,
}

/// The records of a query, one per call, read from a reader that is lent.
pub struct IntervalIter<'a> {
    bigwig: &'a BigWigRead,
    cursor: IntervalCursor,
}

/// The records of a query, one per call, read from a reader that the walk
/// owns.
pub struct OwnedIntervalIter {
    bigwig: BigWigRead,
    cursor: IntervalCursor,
}

impl BigWigRead {
    /// The bytes of the file.
    pub open spec fn data(&self) -> Seq<u8> {
        self.data@
    }

    /// `info` is what the file's bytes say, and they say that it is BigWig.
    pub open spec fn wf(&self) -> bool {
        spec_attach(self.data()) == Ok::<BBIFileInfoView, AttachProblem>(self.info@)
    }

    /// Attaches the bytes of a file.
    ///
    /// Fails with `NotABigWig` where the first four bytes are no magic number
    /// of the BBI family or the file is BigBed, with `IoError` where the file
    /// ends before its headers do, and with `InvalidChroms` where its
    /// chromosome tree cannot be read.
    pub fn from(data: Vec<u8>) -> (r: Result<BigWigRead, BigWigReadAttachError>)
        ensures
            match r {
                Ok(bigwig) => bigwig.data() == data@ && bigwig.wf(),
                Err(e) => spec_attach(data@) == Err::<BBIFileInfoView, AttachProblem>(
                    attach_problem(e),
                ),
            },
    {
        let info = match read_info(data.as_slice()) {
            Err(e) => {
                return Err(BigWigReadAttachError::from(e));
            },
            Ok(info) => info,
        };
        match info.filetype {
            BBIFile::BigWig => {},
            _ => {
                return Err(BigWigReadAttachError::NotABigWig);
            },
        }
        Ok(BigWigRead { info, data })
    }

    /// What the file's start says of it.
    pub fn get_info(&self) -> (r: &BBIFileInfo)
        ensures
            *r == self.info,
    {
        &self.info
    }

    /// BigWig files carry no description of fields.
    pub fn autosql(&self) -> (r: String)
        ensures
            r@ == Seq::<char>::empty(),
    {
        String::new()
    }

    /// The name and length of each chromosome of the file, in the order of
    /// its chromosome tree.
    pub fn get_chroms(&self) -> (r: Vec<ChromAndSize>)
        ensures
            r@.len() == self.info.chrom_info@.len(),
            forall|i: int|
                0 <= i < r@.len() ==> (#[trigger] r@[i])@ == (
                    self.info.chrom_info@[i].name@,
                    self.info.chrom_info@[i].length,
                ),
    {
        let mut chroms: Vec<ChromAndSize> = Vec::new();
        let mut i: usize = 0;
        while i < self.info.chrom_info.len()
            invariant
                i <= self.info.chrom_info@.len(),
                chroms@.len() == i,
                forall|k: int|
                    0 <= k < i ==> (#[trigger] chroms@[k])@ == (
                        self.info.chrom_info@[k].name@,
                        self.info.chrom_info@[k].length,
                    ),
            decreases self.info.chrom_info@.len() - i,
        {
            let c = &self.info.chrom_info[i];
            chroms.push(ChromAndSize { name: c.name.clone(), length: c.length });
            i = i + 1;
        }
        chroms
    }

    /// The aggregate over all records of the file.
    pub fn get_summary(&self) -> (r: Result<Summary, BBIReadError>)
        ensures
            r == match spec_summary(self.data(), self.info.header) {
                Some(summary) => Ok::<Summary, BBIReadError>(summary),
                None => Err::<Summary, BBIReadError>(BBIReadError::UnexpectedEof),
            },
    {
        match read_summary(self.data.as_slice(), &self.info.header) {
            Some(summary) => Ok(summary),
            None => Err(BBIReadError::UnexpectedEof),
        }
    }

    /// The chromosome with the given name, if the file has it.
    pub fn find_chrom(&self, chrom_name: &str) -> (r: Option<&ChromInfo>)
        ensures
            match r {
                Some(chrom) => spec_find_chrom(self.info@.chrom_info, chrom_name@) == Some(chrom@),
                None => spec_find_chrom(self.info@.chrom_info, chrom_name@) is None,
            },
    {
        let ghost all = self.info@.chrom_info;
        let wanted = String::from_str(chrom_name);
        let mut i: usize = 0;
        assert(all.skip(0) == all);
        while i < self.info.chrom_info.len()
            invariant
                i <= self.info.chrom_info@.len(),
                wanted@ == chrom_name@,
                all == chrom_views(self.info.chrom_info@),
                spec_find_chrom(all, chrom_name@) == spec_find_chrom(all.skip(i as int), chrom_name@),
            decreases self.info.chrom_info@.len() - i,
        {
            let c = &self.info.chrom_info[i];
            assert(all.skip(i as int)[0] == c@);
            if c.name == wanted {
                return Some(c);
            }
            assert(all.skip(i as int).skip(1) == all.skip(i + 1));
            i = i + 1;
        }
        None
    }

    /// The blocks that the index at `index_offset` names for `[start, end)`
    /// on the chromosome `chrom_name`.
    pub open spec fn spec_blocks_at(
        &self,
        index_offset: u64,
        chrom_name: Seq<char>,
        start: u32,
        end: u32,
    ) -> Result<Seq<Block>, BBIReadError> {
        match spec_find_chrom(self.info@.chrom_info, chrom_name) {
            None => Err(BBIReadError::UnknownChrom),
            Some(chrom) => spec_search_cir_tree(
                self.data(),
                self.info.header.endianness,
                index_offset,
                chrom.id,
                start,
                end,
            ),
        }
    }

    /// The data blocks that the file's index names for `[start, end)` on the
    /// chromosome `chrom_name`.
    pub open spec fn spec_overlapping_blocks(
        &self,
        chrom_name: Seq<char>,
        start: u32,
        end: u32,
    ) -> Result<Seq<Block>, BBIReadError> {
        self.spec_blocks_at(self.info.header.full_index_offset, chrom_name, start, end)
    }

    fn blocks_at(&self, index_offset: u64, chrom_name: &str, start: u32, end: u32) -> (r: Result<
        Vec<Block>,
        BBIReadError,
    >)
        ensures
            match r {
                Ok(blocks) => self.spec_blocks_at(index_offset, chrom_name@, start, end) == Ok::<
                    Seq<Block>,
                    BBIReadError,
                >(blocks@),
                Err(e) => self.spec_blocks_at(index_offset, chrom_name@, start, end) == Err::<
                    Seq<Block>,
                    BBIReadError,
                >(e),
            },
    {
        let chrom_id = match self.find_chrom(chrom_name) {
            Some(chrom) => chrom.id,
            None => {
                return Err(BBIReadError::UnknownChrom);
            },
        };
        search_cir_tree(
            self.data.as_slice(),
            self.info.header.endianness,
            index_offset,
            chrom_id,
            start,
            end,
        )
    }

    /// Looks up in the file's index the data blocks that may hold records of
    /// `[start, end)` on the chromosome `chrom_name`.
    pub fn get_overlapping_blocks(&self, chrom_name: &str, start: u32, end: u32) -> (r: Result<
        Vec<Block>,
        BBIReadError,
    >)
        ensures
            match r {
                Ok(blocks) => self.spec_overlapping_blocks(chrom_name@, start, end) == Ok::<
                    Seq<Block>,
                    BBIReadError,
                >(blocks@),
                Err(e) => self.spec_overlapping_blocks(chrom_name@, start, end) == Err::<
                    Seq<Block>,
                    BBIReadError,
                >(e),
            },
    {
        self.blocks_at(self.info.header.full_index_offset, chrom_name, start, end)
    }

    /// Starts a walk over the records of `[start, end)` on the chromosome
    /// `chrom_name`. The index is searched now; the blocks are read as the
    /// walk reaches them.
    pub fn get_interval<'a>(&'a self, chrom_name: &str, start: u32, end: u32) -> (r: Result<
        IntervalIter<'a>,
        BBIReadError,
    >)
        ensures
            match r {
                Ok(iter) => self.spec_overlapping_blocks(chrom_name@, start, end) == Ok::<
                    Seq<Block>,
                    BBIReadError,
                >(iter.pending()) && iter.wf() && iter.queue() == Seq::<Value>::empty()
                    && iter.bigwig() == *self && iter.window() == (start, end),
                Err(e) => self.spec_overlapping_blocks(chrom_name@, start, end) == Err::<
                    Seq<Block>,
                    BBIReadError,
                >(e),
            },
    {
        let blocks = match self.get_overlapping_blocks(chrom_name, start, end) {
            Ok(blocks) => blocks,
            Err(e) => {
                return Err(e);
            },
        };
        Ok(IntervalIter { bigwig: self, cursor: IntervalCursor::new(blocks, start, end) })
    }

    /// Starts the same walk as `get_interval`, and hands the reader over to
    /// it.
    pub fn get_interval_move(self, chrom_name: &str, start: u32, end: u32) -> (r: Result<
        OwnedIntervalIter,
        BBIReadError,
    >)
        ensures
            match r {
                Ok(iter) => self.spec_overlapping_blocks(chrom_name@, start, end) == Ok::<
                    Seq<Block>,
                    BBIReadError,
                >(iter.pending()) && iter.wf() && iter.queue() == Seq::<Value>::empty()
                    && iter.bigwig() == self && iter.window() == (start, end),
                Err(e) => self.spec_overlapping_blocks(chrom_name@, start, end) == Err::<
                    Seq<Block>,
                    BBIReadError,
                >(e),
            },
    {
        let blocks = match self.get_overlapping_blocks(chrom_name, start, end) {
            Ok(blocks) => blocks,
            Err(e) => {
                return Err(e);
            },
        };
        Ok(OwnedIntervalIter { bigwig: self, cursor: IntervalCursor::new(blocks, start, end) })
    }
}

impl<'a> IntervalIter<'a> {
    /// The reader that the walk reads from.
    pub closed spec fn bigwig(&self) -> BigWigRead {
        *self.bigwig
    }

    /// The window of the query.
    pub closed spec fn window(&self) -> (u32, u32) {
        (self.cursor.start, self.cursor.end)
    }

    /// The records that were read and are still to be yielded.
    pub closed spec fn queue(&self) -> Seq<Value> {
        self.cursor.queue()
    }

    /// The blocks that are still to be read.
    pub closed spec fn pending(&self) -> Seq<Block> {
        self.cursor.pending()
    }

    /// The walk's counters are within its lists.
    pub closed spec fn wf(&self) -> bool {
        self.cursor.wf()
    }

    /// The next record of the query, `None` at its end, or the error of a
    /// block that cannot be read, which ends the walk.
    pub fn next(&mut self) -> (r: Option<Result<Value, BBIReadError>>)
        requires
            old(self).wf(),
        ensures
            final(self).wf(),
            final(self).bigwig() == old(self).bigwig(),
            final(self).window() == old(self).window(),
            (r, final(self).queue(), final(self).pending()) == iter_step(
                old(self).bigwig().data(),
                old(self).bigwig().info.header,
                old(self).queue(),
                old(self).pending(),
                old(self).window().0,
                old(self).window().1,
            ),
    {
        self.cursor.next(self.bigwig.data.as_slice(), &self.bigwig.info.header)
    }
}

impl OwnedIntervalIter {
    /// The reader that the walk reads from.
    pub closed spec fn bigwig(&self) -> BigWigRead {
        self.bigwig
    }

    /// The window of the query.
    pub closed spec fn window(&self) -> (u32, u32) {
        (self.cursor.start, self.cursor.end)
    }

    /// The records that were read and are still to be yielded.
    pub closed spec fn queue(&self) -> Seq<Value> {
        self.cursor.queue()
    }

    /// The blocks that are still to be read.
    pub closed spec fn pending(&self) -> Seq<Block> {
        self.cursor.pending()
    }

    /// The walk's counters are within its lists.
    pub closed spec fn wf(&self) -> bool {
        self.cursor.wf()
    }

    /// The next record of the query, `None` at its end, or the error of a
    /// block that cannot be read, which ends the walk.
    pub fn next(&mut self) -> (r: Option<Result<Value, BBIReadError>>)
        requires
            old(self).wf(),
        ensures
            final(self).wf(),
            final(self).bigwig() == old(self).bigwig(),
            final(self).window() == old(self).window(),
            (r, final(self).queue(), final(self).pending()) == iter_step(
                old(self).bigwig().data(),
                old(self).bigwig().info.header,
                old(self).queue(),
                old(self).pending(),
                old(self).window().0,
                old(self).window().1,
            ),
    {
        self.cursor.next(self.bigwig.data.as_slice(), &self.bigwig.info.header)
    }
}

} // verus!

verus! {

/// Once a block cannot be read, no longer run of blocks can, and the error
/// is that block's.
proof fn lemma_blocks_values_error(
    data: Seq<u8>,
    header: BBIHeader,
    blocks: Seq<Block>,
    k: int,
    start: u32,
    end: u32,
)
    requires
        0 <= k < blocks.len(),
        blocks_values(data, header, blocks.take(k), start, end) is Ok,
        spec_get_block_values(data, header, blocks[k], start, end) is Err,
    ensures
        blocks_values(data, header, blocks, start, end) == Err::<Seq<Value>, BBIReadError>(
            spec_get_block_values(data, header, blocks[k], start, end)->Err_0,
        ),
    decreases blocks.len(),
{
    if blocks.len() == k + 1 {
        assert(blocks.drop_last() == blocks.take(k));
    } else {
        assert(blocks.drop_last().take(k) == blocks.take(k));
        lemma_blocks_values_error(data, header, blocks.drop_last(), k, start, end);
    }
}

/// Every record that a query yields from a block lies inside the window and
/// is not empty.
pub proof fn lemma_block_values_within(
    data: Seq<u8>,
    header: BBIHeader,
    block: Block,
    start: u32,
    end: u32,
)
    requires
        spec_get_block_values(data, header, block, start, end) is Ok,
    ensures
        forall|k: int|
            0 <= k < spec_get_block_values(data, header, block, start, end)->Ok_0.len() ==> {
                let c = #[trigger] spec_get_block_values(data, header, block, start, end)->Ok_0[k];
                start <= c.start < c.end <= end
            },
{
    let payload = spec_block_payload(data, header, block)->Ok_0;
    let records = section_records(payload, header.endianness)->Ok_0;
    lemma_clip_values_within(records, start, end);
}

/// Reads one block and writes the values of its records over the bases of
/// the window that they hold.
fn fill_block(
    data: &[u8],
    header: &BBIHeader,
    block: &Block,
    start: u32,
    end: u32,
    values: &mut Vec<u32>,
) -> (r: Result<(), BBIReadError>)
    requires
        start <= end,
        old(values)@.len() == end - start,
    ensures
        final(values)@.len() == old(values)@.len(),
        match spec_get_block_values(data@, *header, *block, start, end) {
            Err(e) => r == Err::<(), BBIReadError>(e),
            Ok(more) => r is Ok && written_over(old(values)@, final(values)@, more, start),
        },
{
    match get_block_values(data, header, block, start, end) {
        Err(e) => Err(e),
        Ok(block_values) => {
            proof {
                lemma_block_values_within(data@, *header, *block, start, end);
            }
            fill_values(values, &block_values, start);
            Ok(())
        },
    }
}

/// Whether each entry of `after` is what writing `records` over the entry
/// of `before` gives, entry `i` standing for the base `start + i`.
pub open spec fn written_over(
    before: Seq<u32>,
    after: Seq<u32>,
    records: Seq<Value>,
    start: u32,
) -> bool {
    &&& before.len() == after.len()
    &&& forall|i: int|
        0 <= i < before.len() ==> #[trigger] after[i] == overlay(before[i], records, start + i)
}

/// Writing `done` and then `more` is writing the two together.
proof fn lemma_fill_step(
    first: Seq<u32>,
    before: Seq<u32>,
    after: Seq<u32>,
    done: Seq<Value>,
    more: Seq<Value>,
    start: u32,
)
    requires
        written_over(first, before, done, start),
        written_over(before, after, more, start),
    ensures
        written_over(first, after, done + more, start),
{
    assert forall|i: int| 0 <= i < first.len() implies #[trigger] after[i] == overlay(
        first[i],
        done + more,
        start + i,
    ) by {
        assert(before[i] == overlay(first[i], done, start + i));
        lemma_overlay_concat(first[i], done, more, start + i);
    }
}

/// A run of blocks that grows by a readable block yields what it yielded,
/// and then the records of that block.
proof fn lemma_blocks_values_step(
    data: Seq<u8>,
    header: BBIHeader,
    blocks: Seq<Block>,
    k: int,
    start: u32,
    end: u32,
)
    requires
        0 <= k < blocks.len(),
        blocks_values(data, header, blocks.take(k), start, end) is Ok,
        spec_get_block_values(data, header, blocks[k], start, end) is Ok,
    ensures
        blocks_values(data, header, blocks.take(k + 1), start, end) == Ok::<
            Seq<Value>,
            BBIReadError,
        >(
            blocks_values(data, header, blocks.take(k), start, end)->Ok_0 + spec_get_block_values(
                data,
                header,
                blocks[k],
                start,
                end,
            )->Ok_0,
        ),
{
    assert(blocks.take(k + 1).drop_last() == blocks.take(k));
    assert(blocks.take(k + 1).last() == blocks[k]);
}

/// Reads the blocks one after the other and writes the values of their
/// records over the bases of the window.
fn fill_blocks(
    data: &[u8],
    header: &BBIHeader,
    blocks: &Vec<Block>,
    start: u32,
    end: u32,
    values: &mut Vec<u32>,
) -> (r: Result<(), BBIReadError>)
    requires
        start <= end,
        old(values)@.len() == end - start,
    ensures
        match blocks_values(data@, *header, blocks@, start, end) {
            Err(e) => r == Err::<(), BBIReadError>(e),
            Ok(records) => r is Ok && written_over(old(values)@, final(values)@, records, start),
        },
{
    let ghost first = values@;
    let ghost mut done: Seq<Value> = Seq::empty();
    let mut k: usize = 0;
    assert(blocks@.take(0) =~= Seq::<Block>::empty());
    while k < blocks.len()
        invariant
            k <= blocks@.len(),
            start <= end,
            first.len() == end - start,
            blocks_values(data@, *header, blocks@.take(k as int), start, end) == Ok::<
                Seq<Value>,
                BBIReadError,
            >(done),
            written_over(first, values@, done, start),
        decreases blocks@.len() - k,
    {
        let ghost before = values@;
        match fill_block(data, header, &blocks[k], start, end, values) {
            Err(e) => {
                proof {
                    lemma_blocks_values_error(data@, *header, blocks@, k as int, start, end);
                }
                return Err(e);
            },
            Ok(()) => {
                proof {
                    let more = spec_get_block_values(
                        data@,
                        *header,
                        blocks@[k as int],
                        start,
                        end,
                    )->Ok_0;
                    lemma_blocks_values_step(data@, *header, blocks@, k as int, start, end);
                    lemma_fill_step(first, before, values@, done, more, start);
                    done = done + more;
                }
            },
        }
        k = k + 1;
    }
    assert(blocks@.take(blocks@.len() as int) == blocks@);
    Ok(())
}

impl BigWigRead {
    /// The records that a query for `[start, end)` on the chromosome
    /// `chrom_name` yields: those of the blocks that the index names, block
    /// after block, each record clipped to the window.
    pub open spec fn spec_interval_values(
        &self,
        chrom_name: Seq<char>,
        start: u32,
        end: u32,
    ) -> Result<Seq<Value>, BBIReadError> {
        match self.spec_overlapping_blocks(chrom_name, start, end) {
            Err(e) => Err(e),
            Ok(blocks) => blocks_values(self.data(), self.info.header, blocks, start, end),
        }
    }

    /// The value at each base of `[start, end)` on the chromosome
    /// `chrom_name`: entry `i` is the value of the record that holds the base
    /// `start + i`, or NaN where none does. Where records overlap, the one
    /// that the file stores last counts.
    pub fn values(&self, chrom_name: &str, start: u32, end: u32) -> (r: Result<
        Vec<u32>,
        BBIReadError,
    >)
        requires
            start <= end,
        ensures
            match self.spec_interval_values(chrom_name@, start, end) {
                Err(e) => r == Err::<Vec<u32>, BBIReadError>(e),
                Ok(records) => r matches Ok(values) && values@.len() == end - start && forall|
                    i: int,
                |
                    0 <= i < end - start ==> #[trigger] values@[i] == covering_value(
                        records,
                        start + i,
                    ),
            },
    {
        let blocks = match self.get_overlapping_blocks(chrom_name, start, end) {
            Ok(blocks) => blocks,
            Err(e) => {
                return Err(e);
            },
        };
        let len: usize = (end - start) as usize;
        let mut values: Vec<u32> = Vec::new();
        let mut n: usize = 0;
        while n < len
            invariant
                n <= len,
                values@.len() == n,
                forall|i: int| 0 <= i < n ==> #[trigger] values@[i] == NAN_BITS,
            decreases len - n,
        {
            values.push(NAN_BITS);
            n = n + 1;
        }
        match fill_blocks(
            self.data.as_slice(),
            &self.info.header,
            &blocks,
            start,
            end,
            &mut values,
        ) {
            Err(e) => Err(e),
            Ok(()) => Ok(values),
        }
    }
}

/// Bytes of one record of a zoom level.
pub const ZOOM_RECORD_SIZE: usize = 32;

/// The record of a zoom level that starts at `at`.
pub open spec fn zoom_record_at(data: Seq<u8>, endianness: Endianness, at: int) -> ZoomRecord {
    ZoomRecord {
        chrom: u32_at(data, at, endianness),
        start: u32_at(data, at + 4, endianness),
        end: u32_at(data, at + 8, endianness),
        bases_covered: u32_at(data, at + 12, endianness),
        min_val: u32_at(data, at + 16, endianness),
        max_val: u32_at(data, at + 20, endianness),
        sum: u32_at(data, at + 24, endianness),
        sum_squares: u32_at(data, at + 28, endianness),
    }
}

/// The first `n` records of the payload of a zoom block.
pub open spec fn zoom_records(data: Seq<u8>, endianness: Endianness, n: nat) -> Seq<ZoomRecord> {
    Seq::new(n, |i: int| zoom_record_at(data, endianness, 32 * i))
}

/// Whether a bin of a zoom level lies on `chrom` and overlaps `[start, end)`.
pub open spec fn zoom_overlaps(record: ZoomRecord, chrom: u32, start: u32, end: u32) -> bool {
    record.chrom == chrom && record.start < end && start < record.end
}

/// What a query yields from the payload of one zoom block: the whole records
/// that it holds, as many as fit in it, that lie on the chromosome and
/// overlap the window, in their order. Bins are not clipped.
pub open spec fn spec_zoom_block_values(
    data: Seq<u8>,
    endianness: Endianness,
    chrom: u32,
    start: u32,
    end: u32,
) -> Seq<ZoomRecord> {
    zoom_records(data, endianness, (data.len() / 32) as nat).filter(
        |record: ZoomRecord| zoom_overlaps(record, chrom, start, end),
    )
}

/// Decodes the payload of one zoom block and returns its records that lie on
/// `chrom` and overlap `[start, end)`.
pub fn decode_zoom_block_values(
    data: &[u8],
    endianness: Endianness,
    chrom: u32,
    start: u32,
    end: u32,
) -> (r: Vec<ZoomRecord>)
    ensures
        r@ == spec_zoom_block_values(data@, endianness, chrom, start, end),
{
    let count: usize = data.len() / ZOOM_RECORD_SIZE;
    let mut records: Vec<ZoomRecord> = Vec::new();
    let mut i: usize = 0;
    let ghost pred = |record: ZoomRecord| zoom_overlaps(record, chrom, start, end);
    assert(zoom_records(data@, endianness, 0) =~= Seq::<ZoomRecord>::empty());
    while i < count
        invariant
            i <= count,
            count == data@.len() / 32,
            32 * count <= data@.len() <= usize::MAX,
            pred == (|record: ZoomRecord| zoom_overlaps(record, chrom, start, end)),
            records@ == zoom_records(data@, endianness, i as nat).filter(pred),
        decreases count - i,
    {
        let at: usize = ZOOM_RECORD_SIZE * i;
        let record = ZoomRecord {
            chrom: get_u32(data, at, endianness).unwrap(),
            start: get_u32(data, at + 4, endianness).unwrap(),
            end: get_u32(data, at + 8, endianness).unwrap(),
            bases_covered: get_u32(data, at + 12, endianness).unwrap(),
            min_val: get_u32(data, at + 16, endianness).unwrap(),
            max_val: get_u32(data, at + 20, endianness).unwrap(),
            sum: get_u32(data, at + 24, endianness).unwrap(),
            sum_squares: get_u32(data, at + 28, endianness).unwrap(),
        };
        proof {
            let seen = zoom_records(data@, endianness, i as nat);
            assert(zoom_records(data@, endianness, (i + 1) as nat) =~= seen.push(record));
            seen.lemma_filter_push(record, pred);
        }
        if record.chrom == chrom && record.start < end && start < record.end {
            records.push(record);
        }
        i = i + 1;
    }
    records
}

/// What a query yields from the zoom block `block` of the file `data`.
pub open spec fn spec_get_zoom_block_values(
    data: Seq<u8>,
    header: BBIHeader,
    block: Block,
    chrom: u32,
    start: u32,
    end: u32,
) -> Result<Seq<ZoomRecord>, BBIReadError> {
    match spec_block_payload(data, header, block) {
        Err(e) => Err(e),
        Ok(payload) => Ok(spec_zoom_block_values(payload, header.endianness, chrom, start, end)),
    }
}

/// What a walk over zoom blocks yields next, and what is left of it
/// afterwards.
pub open spec fn zoom_iter_step(
    data: Seq<u8>,
    header: BBIHeader,
    queue: Seq<ZoomRecord>,
    pending: Seq<Block>,
    chrom: u32,
    start: u32,
    end: u32,
) -> (Option<Result<ZoomRecord, BBIReadError>>, Seq<ZoomRecord>, Seq<Block>)
    decreases pending.len(),
{
    if queue.len() > 0 {
        (Some(Ok(queue[0])), queue.skip(1), pending)
    } else if pending.len() == 0 {
        (None, queue, pending)
    } else {
        match spec_get_zoom_block_values(data, header, pending[0], chrom, start, end) {
            Err(e) => (Some(Err(e)), Seq::empty(), Seq::empty()),
            Ok(values) => zoom_iter_step(
                data,
                header,
                values,
                pending.skip(1),
                chrom,
                start,
                end,
            ),
        }
    }
}

/// The records of a query on a zoom level, one per call.
pub struct ZoomIntervalIter<'a> {
    bigwig: &'a BigWigRead,
    blocks: Vec<Block>,
    next_block: usize,
    vals: Vec<ZoomRecord>,
    next_val: usize,
    chrom: u32,
    start: u32,
    end: u32,
}

impl<'a> ZoomIntervalIter<'a> {
    /// The reader that the walk reads from.
    pub closed spec fn bigwig(&self) -> BigWigRead {
        *self.bigwig
    }

    /// The chromosome's id and the window of the query.
    pub closed spec fn query(&self) -> (u32, u32, u32) {
        (self.chrom, self.start, self.end)
    }

    /// The records that were read and are still to be yielded.
    pub closed spec fn queue(&self) -> Seq<ZoomRecord> {
        self.vals@.skip(self.next_val as int)
    }

    /// The blocks that are still to be read.
    pub closed spec fn pending(&self) -> Seq<Block> {
        self.blocks@.skip(self.next_block as int)
    }

    /// The walk's counters are within its lists.
    pub closed spec fn wf(&self) -> bool {
        self.next_block <= self.blocks@.len() && self.next_val <= self.vals@.len()
    }

    /// The next record of the query, `None` at its end, or the error of a
    /// block that cannot be read, which ends the walk.
    pub fn next(&mut self) -> (r: Option<Result<ZoomRecord, BBIReadError>>)
        requires
            old(self).wf(),
        ensures
            final(self).wf(),
            final(self).bigwig() == old(self).bigwig(),
            final(self).query() == old(self).query(),
            (r, final(self).queue(), final(self).pending()) == zoom_iter_step(
                old(self).bigwig().data(),
                old(self).bigwig().info.header,
                old(self).queue(),
                old(self).pending(),
                old(self).query().0,
                old(self).query().1,
                old(self).query().2,
            ),
    {
        loop
            invariant
                self.wf(),
                self.bigwig() == old(self).bigwig(),
                self.query() == old(self).query(),
                zoom_iter_step(
                    self.bigwig().data(),
                    self.bigwig().info.header,
                    self.queue(),
                    self.pending(),
                    self.chrom,
                    self.start,
                    self.end,
                ) == zoom_iter_step(
                    old(self).bigwig().data(),
                    old(self).bigwig().info.header,
                    old(self).queue(),
                    old(self).pending(),
                    old(self).query().0,
                    old(self).query().1,
                    old(self).query().2,
                ),
            decreases self.blocks@.len() - self.next_block,
        {
            if self.next_val < self.vals.len() {
                let v = self.vals[self.next_val];
                proof {
                    assert(self.queue()[0] == v);
                    assert(self.queue().skip(1) == self.vals@.skip(self.next_val + 1));
                }
                self.next_val = self.next_val + 1;
                return Some(Ok(v));
            }
            if self.next_block >= self.blocks.len() {
                return None;
            }
            let block = self.blocks[self.next_block];
            proof {
                assert(self.pending()[0] == block);
                assert(self.pending().skip(1) == self.blocks@.skip(self.next_block + 1));
            }
            self.next_block = self.next_block + 1;
            match get_block_payload(self.bigwig.data.as_slice(), &self.bigwig.info.header, &block) {
                Ok(payload) => {
                    self.vals = decode_zoom_block_values(
                        payload.as_slice(),
                        self.bigwig.info.header.endianness,
                        self.chrom,
                        self.start,
                        self.end,
                    );
                    self.next_val = 0;
                    assert(self.vals@.skip(0) == self.vals@);
                },
                Err(e) => {
                    self.vals = Vec::new();
                    self.next_val = 0;
                    self.next_block = self.blocks.len();
                    assert(self.queue() =~= Seq::<ZoomRecord>::empty());
                    assert(self.pending() =~= Seq::<Block>::empty());
                    return Some(Err(e));
                },
            }
        }
    }
}

impl BigWigRead {
    /// The blocks of the zoom level with the given reduction level that its
    /// index names for the query, and the id of the chromosome.
    pub open spec fn spec_zoom_blocks(
        &self,
        chrom_name: Seq<char>,
        start: u32,
        end: u32,
        reduction_level: u32,
    ) -> Result<(u32, Seq<Block>), BBIReadError> {
        match spec_find_zoom(self.info.zoom_headers@, reduction_level) {
            None => Err(BBIReadError::UnknownZoomLevel),
            Some(zoom) => match self.spec_blocks_at(zoom.index_offset, chrom_name, start, end) {
                Err(e) => Err(e),
                Ok(blocks) => Ok(
                    (spec_find_chrom(self.info@.chrom_info, chrom_name)->Some_0.id, blocks),
                ),
            },
        }
    }

    /// Starts a walk over the records of `[start, end)` on the chromosome
    /// `chrom_name` at the zoom level whose reduction level is exactly
    /// `reduction_level`. Fails with `UnknownZoomLevel` where the file has no
    /// such level.
    pub fn get_zoom_interval<'a>(
        &'a self,
        chrom_name: &str,
        start: u32,
        end: u32,
        reduction_level: u32,
    ) -> (r: Result<ZoomIntervalIter<'a>, BBIReadError>)
        ensures
            match r {
                Ok(iter) => self.spec_zoom_blocks(chrom_name@, start, end, reduction_level)
                    == Ok::<(u32, Seq<Block>), BBIReadError>((iter.query().0, iter.pending()))
                    && iter.wf() && iter.queue() == Seq::<ZoomRecord>::empty() && iter.bigwig()
                    == *self && iter.query().1 == start && iter.query().2 == end,
                Err(e) => self.spec_zoom_blocks(chrom_name@, start, end, reduction_level) == Err::<
                    (u32, Seq<Block>),
                    BBIReadError,
                >(e),
            },
    {
        let zoom = match find_zoom_header(&self.info.zoom_headers, reduction_level) {
            Some(zoom) => zoom,
            None => {
                return Err(BBIReadError::UnknownZoomLevel);
            },
        };
        let blocks = match self.blocks_at(zoom.index_offset, chrom_name, start, end) {
            Ok(blocks) => blocks,
            Err(e) => {
                return Err(e);
            },
        };
        let chrom = match self.find_chrom(chrom_name) {
            Some(chrom) => chrom.id,
            None => {
                return Err(BBIReadError::UnknownChrom);
            },
        };
        let iter = ZoomIntervalIter {
            bigwig: self,
            blocks,
            next_block: 0,
            vals: Vec::new(),
            next_val: 0,
            chrom,
            start,
            end,
        };
        assert(iter.blocks@.skip(0) == iter.blocks@);
        Ok(iter)
    }
}

} // verus!
