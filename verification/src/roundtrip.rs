//! What is written is read back: a file that was laid out from chromosomes
//! and records attaches, and its queries yield the records that were
//! written.

use crate::bbiread::{
    spec_slice_at, spec_summary, spec_zoom_headers,
    BBIFileInfoView, BBIHeader, BBIReadError, ChromInfoView, Summary, ZoomHeader,
};
use crate::bbiwrite::{
    bigwig_bytes, block_entries, block_entry, blocks_size, blocks_stored, image_data_start, image_header, is_bigwig_image, lemma_chrom_tree_reads_back,
    lemma_header_reads_back, lemma_longest_name_fits, longest_name, names_survive, summary_bytes,
};
use crate::bigwig::{BBIFile, Value};
use crate::bigwigread::{
    clip_values, spec_attach, spec_find_chrom, AttachProblem,
    BigWigRead,
};
use crate::bigwigwrite::{
    chunks, lemma_chunks_flatten, lemma_records_within_span, lemma_section_round_trip, section_of,
    RawSectionView,
};
use crate::cirtree::IndexEntry;
use crate::codec::{
    lemma_u64_at_bytes, lemma_u64_bytes_round_trip, spec_block_data, u64_bytes, Endianness,
};
use crate::intervals::{
    chrom_records, leaf_describes_block, leaf_records, lemma_clip_values_inside,
};
use vstd::prelude::*;

verus! {

/// What the start of a written file says of it.
pub open spec fn image_info(
    chroms: Seq<ChromInfoView>,
    sections: Seq<RawSectionView>,
    uncompress_buf_size: u32,
    block_size: u32,
    endianness: Endianness,
) -> BBIFileInfoView {
    BBIFileInfoView {
        filetype: BBIFile::BigWig,
        header: image_header(chroms, sections, uncompress_buf_size, block_size, endianness),
        zoom_headers: Seq::empty(),
        chrom_info: chroms,
    }
}

/// A file that was written attaches as BigWig, with the header and the
/// chromosomes that were written, if the names of the chromosomes survive.
pub proof fn lemma_image_attaches(
    file: Seq<u8>,
    chroms: Seq<ChromInfoView>,
    sections: Seq<RawSectionView>,
    summary: Summary,
    uncompress_buf_size: u32,
    block_size: u32,
    endianness: Endianness,
)
    requires
        is_bigwig_image(
            file,
            chroms,
            sections,
            summary,
            uncompress_buf_size,
            block_size,
            endianness,
        ),
        chroms.len() <= 0xffff,
        longest_name(chroms) <= u32::MAX,
        names_survive(chroms),
    ensures
        spec_attach(file) == Ok::<BBIFileInfoView, AttachProblem>(
            image_info(chroms, sections, uncompress_buf_size, block_size, endianness),
        ),
{
    let header = image_header(chroms, sections, uncompress_buf_size, block_size, endianness);
    lemma_header_reads_back(file, BBIFile::BigWig, header);
    assert(spec_zoom_headers(file, endianness, 0) == Some(Seq::<ZoomHeader>::empty())) by {
        assert(Seq::new(0, |i: int| crate::bbiread::spec_zoom_header(file, endianness, i))
            =~= Seq::<ZoomHeader>::empty());
    }
    lemma_longest_name_fits(chroms, longest_name(chroms));
    lemma_chrom_tree_reads_back(file, header, chroms, longest_name(chroms) as u32);
}

/// The summary of a file that was written is the summary that was written.
pub proof fn lemma_image_summary(
    file: Seq<u8>,
    chroms: Seq<ChromInfoView>,
    sections: Seq<RawSectionView>,
    summary: Summary,
    uncompress_buf_size: u32,
    block_size: u32,
    endianness: Endianness,
)
    requires
        is_bigwig_image(
            file,
            chroms,
            sections,
            summary,
            uncompress_buf_size,
            block_size,
            endianness,
        ),
    ensures
        spec_summary(
            file,
            image_header(chroms, sections, uncompress_buf_size, block_size, endianness),
        ) == Some(summary),
{
    let e = endianness;
    let part = file.subrange(64, 104);
    let bytes = summary_bytes(summary, e);
    lemma_u64_bytes_round_trip(summary.bases_covered, e);
    lemma_u64_bytes_round_trip(summary.min_val, e);
    lemma_u64_bytes_round_trip(summary.max_val, e);
    lemma_u64_bytes_round_trip(summary.sum, e);
    lemma_u64_bytes_round_trip(summary.sum_squares, e);
    assert(file.subrange(64, 72) =~= part.subrange(0, 8));
    assert(bytes.subrange(0, 8) =~= u64_bytes(summary.bases_covered, e));
    assert(file.subrange(72, 80) =~= part.subrange(8, 16));
    assert(bytes.subrange(8, 16) =~= u64_bytes(summary.min_val, e));
    assert(file.subrange(80, 88) =~= part.subrange(16, 24));
    assert(bytes.subrange(16, 24) =~= u64_bytes(summary.max_val, e));
    assert(file.subrange(88, 96) =~= part.subrange(24, 32));
    assert(bytes.subrange(24, 32) =~= u64_bytes(summary.sum, e));
    assert(file.subrange(96, 104) =~= part.subrange(32, 40));
    assert(bytes.subrange(32, 40) =~= u64_bytes(summary.sum_squares, e));
    lemma_u64_at_bytes(file, 64, summary.bases_covered, e);
    lemma_u64_at_bytes(file, 72, summary.min_val, e);
    lemma_u64_at_bytes(file, 80, summary.max_val, e);
    lemma_u64_at_bytes(file, 88, summary.sum, e);
    lemma_u64_at_bytes(file, 96, summary.sum_squares, e);
    lemma_u64_at_bytes(file, image_data_start(chroms) - 8, summary.total_items, e);
}

/// The sections that hold the given runs of records, each run with the id
/// of its chromosome.
pub open spec fn sections_of_runs(runs: Seq<(u32, Seq<Value>)>, endianness: Endianness) -> Seq<
    RawSectionView,
> {
    runs.map_values(|run: (u32, Seq<Value>)| section_of(run.0, run.1, endianness))
}

/// The records of the runs that belong to the chromosome with id `chrom`,
/// in the order of the runs.
pub open spec fn run_records(runs: Seq<(u32, Seq<Value>)>, chrom: u32) -> Seq<Value>
    decreases runs.len(),
{
    if runs.len() == 0 {
        Seq::empty()
    } else if runs.last().0 == chrom {
        run_records(runs.drop_last(), chrom) + runs.last().1
    } else {
        run_records(runs.drop_last(), chrom)
    }
}

/// Whether no run has more records than a section holds.
pub open spec fn runs_fit(runs: Seq<(u32, Seq<Value>)>) -> bool {
    forall|i: int| 0 <= i < runs.len() ==> (#[trigger] runs[i]).1.len() <= 0xffff
}

/// In a file that was written without compression, the entry of each
/// section describes the block of the section: the block holds the records
/// of the run, and the entry bounds them.
proof fn lemma_entry_describes_run(
    file: Seq<u8>,
    header: BBIHeader,
    runs: Seq<(u32, Seq<Value>)>,
    data_start: int,
    i: int,
)
    requires
        header.uncompress_buf_size == 0,
        runs_fit(runs),
        0 <= i < runs.len(),
        blocks_stored(
            file,
            sections_of_runs(runs, header.endianness),
            data_start,
            runs.len(),
        ),
    ensures
        leaf_records(
            file,
            header,
            block_entry(sections_of_runs(runs, header.endianness), i, data_start),
        ) == Ok::<Seq<Value>, BBIReadError>(runs[i].1),
        leaf_describes_block(
            file,
            header,
            block_entry(sections_of_runs(runs, header.endianness), i, data_start),
        ),
        block_entry(sections_of_runs(runs, header.endianness), i, data_start).start_chrom_ix
            == runs[i].0,
{
    let e = header.endianness;
    let sections = sections_of_runs(runs, e);
    let entry = block_entry(sections, i, data_start);
    assert(sections[i] == section_of(runs[i].0, runs[i].1, e));
    assert(runs[i].1.len() <= 0xffff);
    assert(spec_slice_at(file, entry.offset, entry.size) == Some(sections[i].payload));
    assert(spec_block_data(sections[i].payload, 0) == Some(sections[i].payload));
    lemma_section_round_trip(runs[i].0, runs[i].1, e);
    assert forall|j: int| 0 <= j < runs[i].1.len() implies entry.start_base <= (
    #[trigger] runs[i].1[j]).start && runs[i].1[j].end <= entry.end_base by {
        lemma_records_within_span(runs[i].1, j);
    }
}

/// The records that the blocks of the first `n` entries hold for a
/// chromosome are the records of the first `n` runs for it.
proof fn lemma_chrom_records_of_runs(
    file: Seq<u8>,
    header: BBIHeader,
    runs: Seq<(u32, Seq<Value>)>,
    data_start: int,
    chrom: u32,
    n: nat,
)
    requires
        header.uncompress_buf_size == 0,
        runs_fit(runs),
        n <= runs.len(),
        blocks_stored(
            file,
            sections_of_runs(runs, header.endianness),
            data_start,
            runs.len(),
        ),
    ensures
        chrom_records(
            file,
            header,
            block_entries(sections_of_runs(runs, header.endianness), data_start).take(n as int),
            chrom,
        ) == run_records(runs.take(n as int), chrom),
    decreases n,
{
    let sections = sections_of_runs(runs, header.endianness);
    let entries = block_entries(sections, data_start);
    if n == 0 {
        assert(entries.take(0) =~= Seq::<IndexEntry>::empty());
        assert(runs.take(0) =~= Seq::<(u32, Seq<Value>)>::empty());
    } else {
        lemma_chrom_records_of_runs(file, header, runs, data_start, chrom, (n - 1) as nat);
        lemma_entry_describes_run(file, header, runs, data_start, n - 1);
        assert(entries.take(n as int).drop_last() =~= entries.take(n - 1));
        assert(entries.take(n as int).last() == block_entry(sections, n - 1, data_start));
        assert(runs.take(n as int).drop_last() =~= runs.take(n - 1));
        assert(runs.take(n as int).last() == runs[n - 1]);
    }
}

impl BigWigRead {
    /// Whether this reader holds the image of a file that was written
    /// without compression from the given chromosomes and runs of records.
    pub open spec fn holds_written(
        &self,
        chroms: Seq<ChromInfoView>,
        runs: Seq<(u32, Seq<Value>)>,
        summary: Summary,
        block_size: u32,
    ) -> bool {
        let e = self.info.header.endianness;
        &&& is_bigwig_image(
            self.data(),
            chroms,
            sections_of_runs(runs, e),
            summary,
            0,
            block_size,
            e,
        )
        &&& self.info@ == image_info(chroms, sections_of_runs(runs, e), 0, block_size, e)
        &&& runs_fit(runs)
    }

    /// The index of a file that was written is in order, and the records
    /// that the file holds for a chromosome are those that were written for
    /// it, in their order.
    pub proof fn lemma_written_records(
        &self,
        chroms: Seq<ChromInfoView>,
        runs: Seq<(u32, Seq<Value>)>,
        summary: Summary,
        block_size: u32,
        chrom: u32,
    )
        requires
            self.holds_written(chroms, runs, summary, block_size),
        ensures
            self.index_wf(),
            self.records_of(chrom) == run_records(runs, chrom),
    {
        let e = self.info.header.endianness;
        let sections = sections_of_runs(runs, e);
        let data_start = image_data_start(chroms);
        let entries = block_entries(sections, data_start);
        let header = self.info.header;
        assert(self.index_leaves() == entries);
        assert forall|j: int| 0 <= j < entries.len() implies leaf_describes_block(
            self.data(),
            header,
            #[trigger] entries[j],
        ) by {
            lemma_entry_describes_run(self.data(), header, runs, data_start, j);
        }
        lemma_chrom_records_of_runs(self.data(), header, runs, data_start, chrom, runs.len());
        assert(entries.take(runs.len() as int) =~= entries);
        assert(runs.take(runs.len() as int) =~= runs);
    }

    /// Reading back what was written: a query on a file that was written
    /// yields the written records of the chromosome that overlap the window,
    /// each clipped to it, in the order in which they were written. No record
    /// is lost, none is added, and none is changed but by clipping.
    pub proof fn lemma_written_file_reads_back(
        &self,
        chroms: Seq<ChromInfoView>,
        runs: Seq<(u32, Seq<Value>)>,
        summary: Summary,
        block_size: u32,
        chrom_name: Seq<char>,
        start: u32,
        end: u32,
    )
        requires
            self.holds_written(chroms, runs, summary, block_size),
            spec_find_chrom(chroms, chrom_name) is Some,
        ensures
            self.spec_interval_values(chrom_name, start, end) == Ok::<Seq<Value>, BBIReadError>(
                clip_values(
                    run_records(runs, spec_find_chrom(chroms, chrom_name)->Some_0.id),
                    start,
                    end,
                ),
            ),
    {
        let chrom = spec_find_chrom(chroms, chrom_name)->Some_0.id;
        self.lemma_written_records(chroms, runs, summary, block_size, chrom);
        self.lemma_interval_is_the_overlapping_records(chrom_name, start, end);
    }
}

/// The runs `runs`, each with the id `id`.
pub open spec fn tagged(id: u32, runs: Seq<Seq<Value>>) -> Seq<(u32, Seq<Value>)> {
    runs.map_values(|run: Seq<Value>| (id, run))
}

/// The runs in which the records of the chromosomes are written: chromosome
/// after chromosome, the records of each cut into runs of at most `size`.
pub open spec fn runs_of(
    chroms: Seq<ChromInfoView>,
    records: Seq<Seq<Value>>,
    size: nat,
) -> Seq<(u32, Seq<Value>)>
    decreases chroms.len(),
{
    if chroms.len() == 0 || records.len() != chroms.len() {
        Seq::empty()
    } else {
        runs_of(chroms.drop_last(), records.drop_last(), size) + tagged(
            chroms.last().id,
            chunks(records.last(), size),
        )
    }
}

/// The records of two lists of runs for a chromosome are those of the
/// first list and then those of the second.
proof fn lemma_run_records_concat(
    a: Seq<(u32, Seq<Value>)>,
    b: Seq<(u32, Seq<Value>)>,
    chrom: u32,
)
    ensures
        run_records(a + b, chrom) == run_records(a, chrom) + run_records(b, chrom),
    decreases b.len(),
{
    if b.len() == 0 {
        assert(a + b =~= a);
        assert(run_records(a, chrom) + Seq::<Value>::empty() =~= run_records(a, chrom));
    } else {
        lemma_run_records_concat(a, b.drop_last(), chrom);
        assert((a + b).drop_last() =~= a + b.drop_last());
        assert((a + b).last() == b.last());
        let x = run_records(a, chrom);
        let y = run_records(b.drop_last(), chrom);
        assert((x + y) + b.last().1 =~= x + (y + b.last().1));
    }
}

/// The records of the runs of one chromosome are the runs put together, for
/// that chromosome, and none for any other.
proof fn lemma_run_records_tagged(id: u32, runs: Seq<Seq<Value>>, chrom: u32)
    ensures
        run_records(tagged(id, runs), chrom) == (if id == chrom {
            runs.flatten()
        } else {
            Seq::<Value>::empty()
        }),
    decreases runs.len(),
{
    if runs.len() == 0 {
        assert(runs.flatten() =~= Seq::<Value>::empty());
    } else {
        lemma_run_records_tagged(id, runs.drop_last(), chrom);
        assert(tagged(id, runs).drop_last() =~= tagged(id, runs.drop_last()));
        assert(tagged(id, runs).last() == (id, runs.last()));
        if id == chrom {
            runs.drop_last().lemma_flatten_push(runs.last());
            assert(runs.drop_last().push(runs.last()) =~= runs);
        }
    }
}

/// Whether no two chromosomes have the same id.
pub open spec fn ids_distinct(chroms: Seq<ChromInfoView>) -> bool {
    forall|i: int, j: int|
        0 <= i < chroms.len() && 0 <= j < chroms.len() && i != j ==> (#[trigger] chroms[i]).id != (
        #[trigger] chroms[j]).id
}

/// Whether no two chromosomes have the same name.
pub open spec fn names_distinct(chroms: Seq<ChromInfoView>) -> bool {
    forall|i: int, j: int|
        0 <= i < chroms.len() && 0 <= j < chroms.len() && i != j ==> (#[trigger] chroms[i]).name
            != (#[trigger] chroms[j]).name
}

/// The records of the runs for one of the chromosomes are the records of
/// that chromosome.
proof fn lemma_run_records_of_runs(
    chroms: Seq<ChromInfoView>,
    records: Seq<Seq<Value>>,
    size: nat,
    k: int,
)
    requires
        size > 0,
        chroms.len() == records.len(),
        ids_distinct(chroms),
        0 <= k < chroms.len(),
    ensures
        run_records(runs_of(chroms, records, size), chroms[k].id) == records[k],
    decreases chroms.len(),
{
    let n = chroms.len();
    let head = runs_of(chroms.drop_last(), records.drop_last(), size);
    let last = tagged(chroms.last().id, chunks(records.last(), size));
    let chrom = chroms[k].id;
    lemma_run_records_concat(head, last, chrom);
    lemma_run_records_tagged(chroms.last().id, chunks(records.last(), size), chrom);
    lemma_chunks_flatten(records.last(), size);
    if k == n - 1 {
        lemma_run_records_absent(chroms.drop_last(), records.drop_last(), size, chrom);
        assert forall|i: int| 0 <= i < n - 1 implies (#[trigger] chroms.drop_last()[i]).id
            != chrom by {
            assert(chroms.drop_last()[i] == chroms[i]);
        }
        assert(Seq::<Value>::empty() + records[k] =~= records[k]);
    } else {
        assert(ids_distinct(chroms.drop_last())) by {
            assert forall|i: int, j: int|
                0 <= i < n - 1 && 0 <= j < n - 1 && i != j implies (
            #[trigger] chroms.drop_last()[i]).id != (#[trigger] chroms.drop_last()[j]).id by {
                assert(chroms.drop_last()[i] == chroms[i]);
                assert(chroms.drop_last()[j] == chroms[j]);
            }
        }
        lemma_run_records_of_runs(chroms.drop_last(), records.drop_last(), size, k);
        assert(chroms.drop_last()[k] == chroms[k]);
        assert(records.drop_last()[k] == records[k]);
        assert(chroms[n - 1].id != chroms[k].id);
        assert(records[k] + Seq::<Value>::empty() =~= records[k]);
    }
}

/// The runs hold no record for an id that no chromosome has.
proof fn lemma_run_records_absent(
    chroms: Seq<ChromInfoView>,
    records: Seq<Seq<Value>>,
    size: nat,
    chrom: u32,
)
    requires
        chroms.len() == records.len(),
        forall|i: int| 0 <= i < chroms.len() ==> (#[trigger] chroms[i]).id != chrom,
    ensures
        run_records(runs_of(chroms, records, size), chrom) == Seq::<Value>::empty(),
    decreases chroms.len(),
{
    if chroms.len() > 0 {
        let head = runs_of(chroms.drop_last(), records.drop_last(), size);
        let last = tagged(chroms.last().id, chunks(records.last(), size));
        assert forall|i: int| 0 <= i < chroms.len() - 1 implies (
        #[trigger] chroms.drop_last()[i]).id != chrom by {
            assert(chroms.drop_last()[i] == chroms[i]);
        }
        lemma_run_records_absent(chroms.drop_last(), records.drop_last(), size, chrom);
        lemma_run_records_concat(head, last, chrom);
        lemma_run_records_tagged(chroms.last().id, chunks(records.last(), size), chrom);
        assert(chroms[chroms.len() - 1].id != chrom);
        assert(Seq::<Value>::empty() + Seq::<Value>::empty() =~= Seq::<Value>::empty());
    }
}

/// No run of the runs in which records are written is longer than `size`.
proof fn lemma_runs_of_fit(chroms: Seq<ChromInfoView>, records: Seq<Seq<Value>>, size: nat)
    requires
        0 < size <= 0xffff,
    ensures
        runs_fit(runs_of(chroms, records, size)),
    decreases chroms.len(),
{
    if chroms.len() > 0 && records.len() == chroms.len() {
        let head = runs_of(chroms.drop_last(), records.drop_last(), size);
        let last = tagged(chroms.last().id, chunks(records.last(), size));
        lemma_runs_of_fit(chroms.drop_last(), records.drop_last(), size);
        lemma_chunks_flatten(records.last(), size);
        assert forall|i: int| 0 <= i < (head + last).len() implies (#[trigger] (head
            + last)[i]).1.len() <= 0xffff by {
            if i < head.len() {
                assert((head + last)[i] == head[i]);
            } else {
                assert((head + last)[i] == last[i - head.len()]);
                assert(last[i - head.len()].1 == chunks(records.last(), size)[i - head.len()]);
            }
        }
    }
}

/// Among chromosomes with distinct names, each is found by its name.
proof fn lemma_find_chrom_by_name(chroms: Seq<ChromInfoView>, k: int)
    requires
        names_distinct(chroms),
        0 <= k < chroms.len(),
    ensures
        spec_find_chrom(chroms, chroms[k].name) == Some(chroms[k]),
    decreases chroms.len(),
{
    if k > 0 {
        let rest = chroms.skip(1);
        assert(names_distinct(rest)) by {
            assert forall|i: int, j: int|
                0 <= i < rest.len() && 0 <= j < rest.len() && i != j implies (
            #[trigger] rest[i]).name != (#[trigger] rest[j]).name by {
                assert(rest[i] == chroms[i + 1]);
                assert(rest[j] == chroms[j + 1]);
            }
        }
        lemma_find_chrom_by_name(rest, k - 1);
        assert(rest[k - 1] == chroms[k]);
        assert(chroms[0].name != chroms[k].name);
    }
}

impl BigWigRead {
    /// A reader that was attached to a file that was written without
    /// compression holds that file: what it knows of the file is what was
    /// written.
    pub proof fn lemma_attached_holds_written(
        &self,
        chroms: Seq<ChromInfoView>,
        records: Seq<Seq<Value>>,
        summary: Summary,
        block_size: u32,
        items_per_slot: u32,
        endianness: Endianness,
    )
        requires
            self.wf(),
            0 < items_per_slot <= 0xffff,
            chroms.len() <= 0xffff,
            longest_name(chroms) <= u32::MAX,
            names_survive(chroms),
            is_bigwig_image(
                self.data(),
                chroms,
                sections_of_runs(runs_of(chroms, records, items_per_slot as nat), endianness),
                summary,
                0,
                block_size,
                endianness,
            ),
        ensures
            self.info.header.endianness == endianness,
            self.holds_written(
                chroms,
                runs_of(chroms, records, items_per_slot as nat),
                summary,
                block_size,
            ),
    {
        let runs = runs_of(chroms, records, items_per_slot as nat);
        lemma_image_attaches(
            self.data(),
            chroms,
            sections_of_runs(runs, endianness),
            summary,
            0,
            block_size,
            endianness,
        );
        lemma_runs_of_fit(chroms, records, items_per_slot as nat);
    }

    /// What the queries for the whole of each chromosome yield, chromosome
    /// after chromosome.
    pub open spec fn read_back(&self, chroms: Seq<ChromInfoView>) -> Seq<Seq<Value>> {
        Seq::new(
            chroms.len(),
            |k: int| self.spec_interval_values(chroms[k].name, 0, chroms[k].length)->Ok_0,
        )
    }

    /// Reading a written file chromosome by chromosome gives back the
    /// records that were written, and writing those again, with the same
    /// number of items per section and the same branching of the index,
    /// gives the same file byte for byte.
    pub proof fn lemma_rewrite_is_identical(
        &self,
        chroms: Seq<ChromInfoView>,
        records: Seq<Seq<Value>>,
        summary: Summary,
        block_size: u32,
        items_per_slot: u32,
    )
        requires
            chroms.len() == records.len(),
            0 < items_per_slot <= 0xffff,
            names_distinct(chroms),
            ids_distinct(chroms),
            forall|k: int, j: int|
                0 <= k < records.len() && 0 <= j < records[k].len() ==> (
                #[trigger] records[k][j]).start < records[k][j].end <= chroms[k].length,
            self.holds_written(
                chroms,
                runs_of(chroms, records, items_per_slot as nat),
                summary,
                block_size,
            ),
            self.data() == bigwig_bytes(
                chroms,
                sections_of_runs(
                    runs_of(chroms, records, items_per_slot as nat),
                    self.info.header.endianness,
                ),
                summary,
                0,
                block_size,
                items_per_slot,
                self.info.header.endianness,
            ),
        ensures
            forall|k: int|
                0 <= k < chroms.len() ==> #[trigger] self.spec_interval_values(
                    chroms[k].name,
                    0,
                    chroms[k].length,
                ) == Ok::<Seq<Value>, BBIReadError>(records[k]),
            self.read_back(chroms) == records,
            bigwig_bytes(
                chroms,
                sections_of_runs(
                    runs_of(chroms, self.read_back(chroms), items_per_slot as nat),
                    self.info.header.endianness,
                ),
                summary,
                0,
                block_size,
                items_per_slot,
                self.info.header.endianness,
            ) == self.data(),
    {
        let size = items_per_slot as nat;
        let runs = runs_of(chroms, records, size);
        assert forall|k: int| 0 <= k < chroms.len() implies #[trigger] self.spec_interval_values(
            chroms[k].name,
            0,
            chroms[k].length,
        ) == Ok::<Seq<Value>, BBIReadError>(records[k]) by {
            lemma_find_chrom_by_name(chroms, k);
            self.lemma_written_file_reads_back(
                chroms,
                runs,
                summary,
                block_size,
                chroms[k].name,
                0,
                chroms[k].length,
            );
            lemma_run_records_of_runs(chroms, records, size, k);
            assert forall|j: int| 0 <= j < records[k].len() implies 0 <= (
            #[trigger] records[k][j]).start < records[k][j].end <= chroms[k].length by {}
            lemma_clip_values_inside(records[k], 0, chroms[k].length);
        }
        assert(self.read_back(chroms) =~= records);
    }
}

} // verus!
