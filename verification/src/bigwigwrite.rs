//! Building the sections of a BigWig file: records are taken in one at a
//! time and leave as section payloads that the reader decodes to the same
//! records.

use crate::bbiread::BBIReadError;
use crate::bigwig::Value;
use crate::bigwigread::{
    clip_values, section_item, section_items, section_records, spec_block_values,
};
use crate::codec::{
    lemma_u16_bytes_round_trip, lemma_u32_at_bytes, lemma_u32_bytes_round_trip, u16_at, u16_bytes,
    u32_at, u32_bytes, u8_at, write_u16, write_u32, Endianness,
};
use vstd::prelude::*;

verus! {

/// The twelve bytes of a bedGraph item: start, end and value.
pub open spec fn record_bytes(v: Value, endianness: Endianness) -> Seq<u8> {
    u32_bytes(v.start, endianness) + u32_bytes(v.end, endianness) + u32_bytes(v.value, endianness)
}

/// The bytes of the items of a bedGraph section.
pub open spec fn records_bytes(records: Seq<Value>, endianness: Endianness) -> Seq<u8>
    decreases records.len(),
{
    if records.len() == 0 {
        Seq::empty()
    } else {
        records_bytes(records.drop_last(), endianness) + record_bytes(records.last(), endianness)
    }
}

/// The least start of the records, or zero where there is none.
pub open spec fn min_start(records: Seq<Value>) -> u32
    decreases records.len(),
{
    if records.len() == 0 {
        0
    } else if records.len() == 1 {
        records[0].start
    } else if records.last().start < min_start(records.drop_last()) {
        records.last().start
    } else {
        min_start(records.drop_last())
    }
}

/// The greatest end of the records, or zero where there is none.
pub open spec fn max_end(records: Seq<Value>) -> u32
    decreases records.len(),
{
    if records.len() == 0 {
        0
    } else if records.last().end > max_end(records.drop_last()) {
        records.last().end
    } else {
        max_end(records.drop_last())
    }
}

/// The 24 bytes of the header of a bedGraph section: chromosome, the span
/// of its records, no step, no item span, the section type, a reserved byte
/// and the number of items.
pub open spec fn section_header_bytes(
    chrom_id: u32,
    records: Seq<Value>,
    endianness: Endianness,
) -> Seq<u8> {
    u32_bytes(chrom_id, endianness) + u32_bytes(min_start(records), endianness) + u32_bytes(
        max_end(records),
        endianness,
    ) + u32_bytes(0, endianness) + u32_bytes(0, endianness) + seq![1u8, 0u8] + u16_bytes(
        records.len() as u16,
        endianness,
    )
}

/// The payload of the bedGraph section that holds `records`.
pub open spec fn spec_encode_section(
    chrom_id: u32,
    records: Seq<Value>,
    endianness: Endianness,
) -> Seq<u8> {
    section_header_bytes(chrom_id, records, endianness) + records_bytes(records, endianness)
}

/// Writes the payload of the bedGraph section that holds `records`.
pub fn encode_section(chrom_id: u32, records: &Vec<Value>, endianness: Endianness) -> (out: Vec<
    u8,
>)
    requires
        records@.len() <= 0xffff,
    ensures
        out@ == spec_encode_section(chrom_id, records@, endianness),
{
    let mut low: u32 = 0;
    let mut high: u32 = 0;
    let mut i: usize = 0;
    while i < records.len()
        invariant
            i <= records@.len(),
            low == min_start(records@.take(i as int)),
            high == max_end(records@.take(i as int)),
        decreases records@.len() - i,
    {
        let ghost longer = records@.take(i + 1);
        assert(longer.drop_last() == records@.take(i as int));
        assert(longer.last() == records@[i as int]);
        if i == 0 || records[i].start < low {
            low = records[i].start;
        }
        if records[i].end > high {
            high = records[i].end;
        }
        i = i + 1;
    }
    assert(records@.take(records@.len() as int) == records@);
    let mut out: Vec<u8> = Vec::new();
    write_u32(&mut out, chrom_id, endianness);
    write_u32(&mut out, low, endianness);
    write_u32(&mut out, high, endianness);
    write_u32(&mut out, 0, endianness);
    write_u32(&mut out, 0, endianness);
    out.push(1);
    out.push(0);
    write_u16(&mut out, records.len() as u16, endianness);
    assert(out@ =~= section_header_bytes(chrom_id, records@, endianness));
    let ghost header = out@;
    let mut k: usize = 0;
    while k < records.len()
        invariant
            k <= records@.len(),
            out@ == header + records_bytes(records@.take(k as int), endianness),
        decreases records@.len() - k,
    {
        let ghost longer = records@.take(k + 1);
        assert(longer.drop_last() == records@.take(k as int));
        assert(longer.last() == records@[k as int]);
        let ghost before = out@;
        let record = records[k];
        write_u32(&mut out, record.start, endianness);
        write_u32(&mut out, record.end, endianness);
        write_u32(&mut out, record.value, endianness);
        assert(out@ =~= before + record_bytes(record, endianness));
        assert(header + records_bytes(longer, endianness) =~= before + record_bytes(
            record,
            endianness,
        ));
        k = k + 1;
    }
    assert(records@.take(records@.len() as int) == records@);
    out
}

/// The items of a section take twelve bytes each, and each stands where its
/// index says.
proof fn lemma_records_bytes(records: Seq<Value>, endianness: Endianness, i: int)
    requires
        0 <= i < records.len(),
    ensures
        records_bytes(records, endianness).len() == 12 * records.len(),
        records_bytes(records, endianness).subrange(12 * i, 12 * i + 12) == record_bytes(
            records[i],
            endianness,
        ),
    decreases records.len(),
{
    let head = records.drop_last();
    lemma_records_bytes_len(head, endianness);
    lemma_record_bytes_len(records.last(), endianness);
    if i < records.len() - 1 {
        lemma_records_bytes(head, endianness, i);
        assert(records_bytes(records, endianness).subrange(12 * i, 12 * i + 12)
            =~= records_bytes(head, endianness).subrange(12 * i, 12 * i + 12));
        assert(head[i] == records[i]);
    } else {
        assert(records_bytes(records, endianness).subrange(12 * i, 12 * i + 12)
            =~= record_bytes(records.last(), endianness));
    }
}

/// The items of a section take twelve bytes each.
proof fn lemma_records_bytes_len(records: Seq<Value>, endianness: Endianness)
    ensures
        records_bytes(records, endianness).len() == 12 * records.len(),
    decreases records.len(),
{
    if records.len() > 0 {
        lemma_records_bytes_len(records.drop_last(), endianness);
        lemma_record_bytes_len(records.last(), endianness);
    }
}

/// An item takes twelve bytes.
proof fn lemma_record_bytes_len(record: Value, endianness: Endianness)
    ensures
        record_bytes(record, endianness).len() == 12,
{
    lemma_u32_bytes_round_trip(record.start, endianness);
    lemma_u32_bytes_round_trip(record.end, endianness);
    lemma_u32_bytes_round_trip(record.value, endianness);
}

/// The header of a section takes 24 bytes.
proof fn lemma_section_header_len(chrom_id: u32, records: Seq<Value>, endianness: Endianness)
    ensures
        section_header_bytes(chrom_id, records, endianness).len() == 24,
{
    lemma_u32_bytes_round_trip(chrom_id, endianness);
    lemma_u32_bytes_round_trip(min_start(records), endianness);
    lemma_u32_bytes_round_trip(max_end(records), endianness);
    lemma_u32_bytes_round_trip(0, endianness);
    lemma_u16_bytes_round_trip(records.len() as u16, endianness);
}

/// What the header of an encoded section says.
proof fn lemma_encoded_header(chrom_id: u32, records: Seq<Value>, endianness: Endianness)
    requires
        records.len() <= 0xffff,
    ensures
        spec_encode_section(chrom_id, records, endianness).len() == 24 + 12 * records.len(),
        u8_at(spec_encode_section(chrom_id, records, endianness), 20) == 1,
        u16_at(spec_encode_section(chrom_id, records, endianness), 22, endianness)
            == records.len(),
        u32_at(spec_encode_section(chrom_id, records, endianness), 0, endianness) == chrom_id,
        u32_at(spec_encode_section(chrom_id, records, endianness), 4, endianness) == min_start(
            records,
        ),
        u32_at(spec_encode_section(chrom_id, records, endianness), 8, endianness) == max_end(
            records,
        ),
{
    let data = spec_encode_section(chrom_id, records, endianness);
    lemma_records_bytes_len(records, endianness);
    lemma_section_header_len(chrom_id, records, endianness);
    lemma_u32_bytes_round_trip(chrom_id, endianness);
    lemma_u32_bytes_round_trip(min_start(records), endianness);
    lemma_u32_bytes_round_trip(max_end(records), endianness);
    lemma_u32_bytes_round_trip(0, endianness);
    assert(data.subrange(22, 24) =~= u16_bytes(records.len() as u16, endianness));
    lemma_u16_bytes_round_trip(records.len() as u16, endianness);
    assert(data.subrange(0, 4) =~= u32_bytes(chrom_id, endianness));
    lemma_u32_at_bytes(data, 0, chrom_id, endianness);
    assert(data.subrange(4, 8) =~= u32_bytes(min_start(records), endianness));
    lemma_u32_at_bytes(data, 4, min_start(records), endianness);
    assert(data.subrange(8, 12) =~= u32_bytes(max_end(records), endianness));
    lemma_u32_at_bytes(data, 8, max_end(records), endianness);
    assert(data[20] == 1u8);
}

/// The three numbers of item `i` of an encoded section are those of record
/// `i`.
proof fn lemma_encoded_item_fields(
    chrom_id: u32,
    records: Seq<Value>,
    endianness: Endianness,
    i: int,
)
    requires
        0 <= i < records.len(),
    ensures
        spec_encode_section(chrom_id, records, endianness).len() == 24 + 12 * records.len(),
        u32_at(spec_encode_section(chrom_id, records, endianness), 24 + 12 * i, endianness)
            == records[i].start,
        u32_at(spec_encode_section(chrom_id, records, endianness), 24 + 12 * i + 4, endianness)
            == records[i].end,
        u32_at(spec_encode_section(chrom_id, records, endianness), 24 + 12 * i + 8, endianness)
            == records[i].value,
{
    let data = spec_encode_section(chrom_id, records, endianness);
    let items = records_bytes(records, endianness);
    lemma_section_header_len(chrom_id, records, endianness);
    lemma_records_bytes(records, endianness, i);
    let at = 24 + 12 * i;
    assert(data.subrange(at, at + 12) =~= items.subrange(12 * i, 12 * i + 12));
    lemma_item_parts(data, at, records[i], endianness);
}

/// Where the twelve bytes of a record stand, its three numbers are read.
proof fn lemma_item_parts(data: Seq<u8>, at: int, record: Value, endianness: Endianness)
    requires
        0 <= at,
        at + 12 <= data.len(),
        data.subrange(at, at + 12) == record_bytes(record, endianness),
    ensures
        u32_at(data, at, endianness) == record.start,
        u32_at(data, at + 4, endianness) == record.end,
        u32_at(data, at + 8, endianness) == record.value,
{
    let item = record_bytes(record, endianness);
    let a = u32_bytes(record.start, endianness);
    let b = u32_bytes(record.end, endianness);
    let c = u32_bytes(record.value, endianness);
    lemma_u32_bytes_round_trip(record.start, endianness);
    lemma_u32_bytes_round_trip(record.end, endianness);
    lemma_u32_bytes_round_trip(record.value, endianness);
    assert(item == a + b + c);
    assert(data.subrange(at, at + 4) =~= data.subrange(at, at + 12).subrange(0, 4));
    assert(data.subrange(at + 4, at + 8) =~= data.subrange(at, at + 12).subrange(4, 8));
    assert(data.subrange(at + 8, at + 12) =~= data.subrange(at, at + 12).subrange(8, 12));
    assert((a + b + c).subrange(0, 4) =~= a);
    assert((a + b + c).subrange(4, 8) =~= b);
    assert((a + b + c).subrange(8, 12) =~= c);
    lemma_u32_at_bytes(data, at, record.start, endianness);
    lemma_u32_at_bytes(data, at + 4, record.end, endianness);
    lemma_u32_at_bytes(data, at + 8, record.value, endianness);
}

/// Item `i` of an encoded section decodes to record `i`.
proof fn lemma_encoded_item(chrom_id: u32, records: Seq<Value>, endianness: Endianness, i: int)
    requires
        records.len() <= 0xffff,
        0 <= i < records.len(),
    ensures
        section_item(spec_encode_section(chrom_id, records, endianness), endianness, i) == Ok::<
            Value,
            BBIReadError,
        >(records[i]),
{
    lemma_encoded_header(chrom_id, records, endianness);
    lemma_encoded_item_fields(chrom_id, records, endianness, i);
}

/// The first `n` items of an encoded section decode to the first `n`
/// records.
proof fn lemma_encoded_items(chrom_id: u32, records: Seq<Value>, endianness: Endianness, n: nat)
    requires
        records.len() <= 0xffff,
        n <= records.len(),
    ensures
        section_items(spec_encode_section(chrom_id, records, endianness), endianness, n) == Ok::<
            Seq<Value>,
            BBIReadError,
        >(records.take(n as int)),
    decreases n,
{
    if n == 0 {
        assert(records.take(0) =~= Seq::<Value>::empty());
    } else {
        lemma_encoded_items(chrom_id, records, endianness, (n - 1) as nat);
        lemma_encoded_item(chrom_id, records, endianness, n - 1);
        assert(records.take(n - 1).push(records[n - 1]) =~= records.take(n as int));
    }
}

/// Reading a section that was written gives the records that were written,
/// in their order: nothing is lost, added or changed.
pub proof fn lemma_section_round_trip(
    chrom_id: u32,
    records: Seq<Value>,
    endianness: Endianness,
)
    requires
        records.len() <= 0xffff,
    ensures
        section_records(spec_encode_section(chrom_id, records, endianness), endianness) == Ok::<
            Seq<Value>,
            BBIReadError,
        >(records),
{
    lemma_encoded_header(chrom_id, records, endianness);
    lemma_encoded_items(chrom_id, records, endianness, records.len());
    assert(records.take(records.len() as int) == records);
}

/// A query on a section that was written yields the written records that
/// overlap the window, clipped to it.
pub proof fn lemma_section_query_round_trip(
    chrom_id: u32,
    records: Seq<Value>,
    endianness: Endianness,
    start: u32,
    end: u32,
)
    requires
        records.len() <= 0xffff,
    ensures
        spec_block_values(
            spec_encode_section(chrom_id, records, endianness),
            endianness,
            start,
            end,
        ) == Ok::<Seq<Value>, BBIReadError>(clip_values(records, start, end)),
{
    lemma_section_round_trip(chrom_id, records, endianness);
}

/// Writing what was read from a written section gives the same bytes again.
pub proof fn lemma_section_rewrite_is_identical(
    chrom_id: u32,
    records: Seq<Value>,
    endianness: Endianness,
)
    requires
        records.len() <= 0xffff,
    ensures
        spec_encode_section(
            chrom_id,
            section_records(
                spec_encode_section(chrom_id, records, endianness),
                endianness,
            )->Ok_0,
            endianness,
        ) == spec_encode_section(chrom_id, records, endianness),
{
    lemma_section_round_trip(chrom_id, records, endianness);
}

/// Every record lies between the least start and the greatest end.
pub proof fn lemma_records_within_span(records: Seq<Value>, j: int)
    requires
        0 <= j < records.len(),
    ensures
        min_start(records) <= records[j].start,
        records[j].end <= max_end(records),
    decreases records.len(),
{
    if j < records.len() - 1 {
        lemma_records_within_span(records.drop_last(), j);
        assert(records.drop_last()[j] == records[j]);
    }
}

/// One section as it leaves the builder: the payload, not yet compressed,
/// and the interval that the index notes for it.
#[derive(Clone, Debug, PartialEq, Eq)]
pub struct RawSection {
    pub chrom_id: u32,
    pub start: u32,
    pub end: u32,
    pub payload: Vec<u8>,
}

/// A `RawSection` as contracts see it.
pub ghost struct RawSectionView {
    pub chrom_id: u32,
    pub start: u32,
    pub end: u32,
    pub payload: Seq<u8>,
}

impl View for RawSection {
    type V = RawSectionView;

    open spec fn view(&self) -> RawSectionView {
        RawSectionView {
            chrom_id: self.chrom_id,
            start: self.start,
            end: self.end,
            payload: self.payload@,
        }
    }
}

/// The section that holds `records`: its payload, and as its interval the
/// least start and the greatest end of the records.
pub open spec fn section_of(chrom_id: u32, records: Seq<Value>, endianness: Endianness) -> RawSectionView {
    RawSectionView {
        chrom_id,
        start: min_start(records),
        end: max_end(records),
        payload: spec_encode_section(chrom_id, records, endianness),
    }
}

/// Collects the records of one chromosome into sections of a fixed number of
/// items.
pub struct SectionBuilder {
    chrom_id: u32,
    items_per_section: u32,
    endianness: Endianness,
    items: Vec<Value>,
}

impl SectionBuilder {
    /// The chromosome whose records are collected.
    pub closed spec fn chrom_id(&self) -> u32 {
        self.chrom_id
    }

    /// The number of records at which a section is full.
    pub closed spec fn items_per_section(&self) -> u32 {
        self.items_per_section
    }

    /// The byte order of the sections.
    pub closed spec fn endianness(&self) -> Endianness {
        self.endianness
    }

    /// The records that were taken in and not yet written.
    pub closed spec fn items(&self) -> Seq<Value> {
        self.items@
    }

    /// The builder never holds a full section.
    pub closed spec fn wf(&self) -> bool {
        0 < self.items_per_section <= 0xffff && self.items@.len() < self.items_per_section
    }

    /// A builder that holds no record.
    pub fn new(chrom_id: u32, items_per_section: u32, endianness: Endianness) -> (r:
        SectionBuilder)
        requires
            0 < items_per_section <= 0xffff,
        ensures
            r.wf(),
            r.chrom_id() == chrom_id,
            r.items_per_section() == items_per_section,
            r.endianness() == endianness,
            r.items() == Seq::<Value>::empty(),
    {
        SectionBuilder { chrom_id, items_per_section, endianness, items: Vec::new() }
    }

    /// Takes in one record. Where that fills a section, the section leaves
    /// and the builder is empty again.
    pub fn push(&mut self, record: Value) -> (r: Option<RawSection>)
        requires
            old(self).wf(),
        ensures
            final(self).wf(),
            final(self).chrom_id() == old(self).chrom_id(),
            final(self).items_per_section() == old(self).items_per_section(),
            final(self).endianness() == old(self).endianness(),
            if old(self).items().len() + 1 == old(self).items_per_section() {
                &&& final(self).items() == Seq::<Value>::empty()
                &&& r matches Some(section) && section@ == section_of(
                    old(self).chrom_id(),
                    old(self).items().push(record),
                    old(self).endianness(),
                )
            } else {
                &&& final(self).items() == old(self).items().push(record)
                &&& r is None
            },
    {
        self.items.push(record);
        if self.items.len() == self.items_per_section as usize {
            let section = make_section(self.chrom_id, &self.items, self.endianness);
            self.items = Vec::new();
            Some(section)
        } else {
            None
        }
    }

    /// Ends the chromosome: the records that are held leave as the last
    /// section, if there are any.
    pub fn finish(self) -> (r: Option<RawSection>)
        requires
            self.wf(),
        ensures
            if self.items().len() == 0 {
                r is None
            } else {
                r matches Some(section) && section@ == section_of(
                    self.chrom_id(),
                    self.items(),
                    self.endianness(),
                )
            },
    {
        if self.items.len() == 0 {
            None
        } else {
            Some(make_section(self.chrom_id, &self.items, self.endianness))
        }
    }
}

/// Writes the section that holds `records`.
fn make_section(chrom_id: u32, records: &Vec<Value>, endianness: Endianness) -> (r: RawSection)
    requires
        records@.len() <= 0xffff,
    ensures
        r@ == section_of(chrom_id, records@, endianness),
{
    let payload = encode_section(chrom_id, records, endianness);
    proof {
        lemma_encoded_header(chrom_id, records@, endianness);
    }
    let start = crate::codec::get_u32(payload.as_slice(), 4, endianness).unwrap();
    let end = crate::codec::get_u32(payload.as_slice(), 8, endianness).unwrap();
    RawSection { chrom_id, start, end, payload }
}

/// The runs of at most `size` records into which `records` are cut, each but
/// the last of them full.
pub open spec fn chunks(records: Seq<Value>, size: nat) -> Seq<Seq<Value>>
    decreases records.len(),
{
    if records.len() == 0 || size == 0 {
        Seq::empty()
    } else if records.len() <= size {
        seq![records]
    } else {
        seq![records.take(size as int)] + chunks(records.skip(size as int), size)
    }
}

/// The sections of the runs `runs`.
pub open spec fn sections_of(
    chrom_id: u32,
    runs: Seq<Seq<Value>>,
    endianness: Endianness,
) -> Seq<RawSectionView> {
    runs.map_values(|run: Seq<Value>| section_of(chrom_id, run, endianness))
}

/// The views of a list of sections.
pub open spec fn section_views(sections: Seq<RawSection>) -> Seq<RawSectionView> {
    sections.map_values(|section: RawSection| section@)
}

/// Writes the records of one chromosome as sections of `items_per_section`
/// records, the last of them with what is left.
pub fn build_sections(
    chrom_id: u32,
    records: &Vec<Value>,
    items_per_section: u32,
    endianness: Endianness,
) -> (r: Vec<RawSection>)
    requires
        0 < items_per_section <= 0xffff,
    ensures
        section_views(r@) == sections_of(
            chrom_id,
            chunks(records@, items_per_section as nat),
            endianness,
        ),
{
    let mut builder = SectionBuilder::new(chrom_id, items_per_section, endianness);
    let mut out: Vec<RawSection> = Vec::new();
    let ghost size = items_per_section as nat;
    let ghost mut base: int = 0;
    let mut i: usize = 0;
    assert(records@.skip(0) == records@);
    assert(sections_of(chrom_id, Seq::<Seq<Value>>::empty(), endianness) =~= Seq::<
        RawSectionView,
    >::empty());
    assert(section_views(out@) =~= Seq::<RawSectionView>::empty());
    while i < records.len()
        invariant
            0 <= base <= i <= records@.len(),
            size == items_per_section,
            builder.wf(),
            builder.chrom_id() == chrom_id,
            builder.items_per_section() == items_per_section,
            builder.endianness() == endianness,
            builder.items() == records@.subrange(base, i as int),
            sections_of(chrom_id, chunks(records@, size), endianness) == section_views(out@)
                + sections_of(chrom_id, chunks(records@.skip(base), size), endianness),
        decreases records@.len() - i,
    {
        let ghost held = builder.items();
        assert(held.push(records@[i as int]) =~= records@.subrange(base, i + 1));
        match builder.push(records[i]) {
            None => {},
            Some(section) => {
                proof {
                    let rest = records@.skip(base);
                    let run = records@.subrange(base, i + 1);
                    assert(rest.take(size as int) =~= run);
                    assert(rest.skip(size as int) =~= records@.skip(i + 1));
                    let after = sections_of(
                        chrom_id,
                        chunks(records@.skip(i + 1), size),
                        endianness,
                    );
                    if rest.len() <= size {
                        assert(rest =~= run);
                        assert(chunks(records@.skip(i + 1), size) =~= Seq::<Seq<Value>>::empty());
                        assert(chunks(rest, size) =~= seq![run] + chunks(
                            records@.skip(i + 1),
                            size,
                        ));
                    }
                    assert(sections_of(chrom_id, chunks(rest, size), endianness) =~= seq![
                        section@,
                    ] + after);
                    assert(section_views(out@.push(section)) =~= section_views(out@).push(
                        section@,
                    ));
                    assert(section_views(out@).push(section@) + after =~= section_views(out@) + (
                    seq![section@] + after));
                    base = i + 1;
                    assert(records@.subrange(base, i + 1) =~= Seq::<Value>::empty());
                }
                out.push(section);
            },
        }
        i = i + 1;
    }
    let ghost rest = records@.skip(base);
    assert(rest =~= builder.items());
    match builder.finish() {
        None => {
            assert(sections_of(chrom_id, chunks(rest, size), endianness) =~= Seq::<
                RawSectionView,
            >::empty());
            assert(section_views(out@) + Seq::<RawSectionView>::empty() =~= section_views(out@));
        },
        Some(section) => {
            proof {
                assert(chunks(rest, size) =~= seq![rest]);
                assert(sections_of(chrom_id, chunks(rest, size), endianness) =~= seq![section@]);
                assert(section_views(out@.push(section)) =~= section_views(out@).push(section@));
                assert(section_views(out@).push(section@) =~= section_views(out@) + seq![
                    section@,
                ]);
            }
            out.push(section);
        },
    }
    out
}

/// The runs into which records are cut, put together again, are the
/// records: cutting loses nothing and keeps the order.
pub proof fn lemma_chunks_flatten(records: Seq<Value>, size: nat)
    requires
        size > 0,
    ensures
        chunks(records, size).flatten() == records,
        forall|k: int|
            0 <= k < chunks(records, size).len() ==> 0 < (#[trigger] chunks(records, size)[k]).len()
                <= size,
    decreases records.len(),
{
    if records.len() == 0 {
        assert(Seq::<Seq<Value>>::empty().flatten() =~= Seq::<Value>::empty());
    } else if records.len() <= size {
        seq![records].lemma_flatten_singleton();
    } else {
        let first = records.take(size as int);
        let rest = records.skip(size as int);
        lemma_chunks_flatten(rest, size);
        seq![first].lemma_flatten_singleton();
        vstd::seq_lib::lemma_flatten_concat(seq![first], chunks(rest, size));
        assert(first + rest =~= records);
    }
}

} // verus!
