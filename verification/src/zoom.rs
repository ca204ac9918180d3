//! The bins of a zoom level: which bin each part of a record falls into, and
//! how many bases of each bin have data. The statistics over the values of a
//! bin are numbers with a fraction and are kept by whoever holds the values.

use crate::bigwig::WriteGroupsError;
use vstd::prelude::*;
use vstd::string::StringExecFns;

verus! {

/// One bin of a zoom level: the bases `[start, end)`, of which
/// `bases_covered` have data.
#[derive(Clone, Copy, Debug, PartialEq, Eq, Structural)]
pub struct ZoomBin {
    pub start: u32,
    pub end: u32,
    pub bases_covered: u32,
}

/// What a record does to a zoom level, step by step.
#[derive(Clone, Copy, Debug, PartialEq, Eq, Structural)]
pub enum ZoomStep {
    /// The part `[start, end)` of the record falls into the open bin.
    Cover { start: u32, end: u32 },
    /// The open bin is complete and leaves.
    Close(ZoomBin),
}

/// The bin of width `level` that holds the base `pos`: it starts at a
/// multiple of `level`, and ends one width later or at the greatest position
/// there is.
pub open spec fn bin_of(pos: u32, level: u32) -> ZoomBin {
    let start = pos - pos % level;
    ZoomBin {
        start: start as u32,
        end: if start + level > u32::MAX {
            u32::MAX
        } else {
            (start + level) as u32
        },
        bases_covered: 0,
    }
}

/// The steps that the record `[start, end)` takes on a level whose open
/// bin is `open`, and the bin that is open afterwards. Where the record
/// starts behind the open bin, that bin leaves and the bin of the start
/// opens; the part of the record inside the open bin is taken in; and what
/// is left of the record goes on from the end of the bin.
pub open spec fn zoom_steps(open: Option<ZoomBin>, start: u32, end: u32, level: u32) -> (
    Seq<ZoomStep>,
    Option<ZoomBin>,
)
    decreases end - start,
{
    if start >= end || level == 0 {
        (Seq::empty(), open)
    } else {
        let leaves = open is Some && open->Some_0.end <= start;
        let bin = if open is Some && !leaves {
            open->Some_0
        } else {
            bin_of(start, level)
        };
        let stop = if end < bin.end {
            end
        } else {
            bin.end
        };
        if stop <= start {
            (Seq::empty(), open)
        } else {
            let grown = ZoomBin {
                bases_covered: (bin.bases_covered + (stop - start)) as u32,
                ..bin
            };
            let rest = zoom_steps(Some(grown), stop, end, level);
            let here = seq![ZoomStep::Cover { start, end: stop }] + rest.0;
            if leaves {
                (seq![ZoomStep::Close(open->Some_0)] + here, rest.1)
            } else {
                (here, rest.1)
            }
        }
    }
}

/// The bases that the bins hold which leave in `steps`.
pub open spec fn closed_bases(steps: Seq<ZoomStep>) -> int
    decreases steps.len(),
{
    if steps.len() == 0 {
        0
    } else {
        closed_bases(steps.drop_last()) + match steps.last() {
            ZoomStep::Close(bin) => bin.bases_covered as int,
            ZoomStep::Cover { .. } => 0,
        }
    }
}

/// The bases that an open bin holds, and none where no bin is open.
pub open spec fn open_bases(open: Option<ZoomBin>) -> int {
    match open {
        Some(bin) => bin.bases_covered as int,
        None => 0,
    }
}

/// Whether an open bin is in order for a level that has taken in records up
/// to `covered_to`: the bin reaches that far, and all of its covered bases
/// lie before it.
pub open spec fn bin_wf(open: Option<ZoomBin>, covered_to: u32) -> bool {
    open matches Some(bin) ==> bin.start <= covered_to <= bin.end && bin.start
        + bin.bases_covered <= covered_to
}

/// One level of a zoom pyramid for the records of one chromosome.
pub struct ZoomLevel {
    reduction_level: u32,
    open: Option<ZoomBin>,
    covered_to: u32,
}

impl ZoomLevel {
    /// The width of the bins.
    pub closed spec fn reduction_level(&self) -> u32 {
        self.reduction_level
    }

    /// The bin that takes in records now.
    pub closed spec fn open(&self) -> Option<ZoomBin> {
        self.open
    }

    /// The end of the last record that was taken in.
    pub closed spec fn covered_to(&self) -> u32 {
        self.covered_to
    }

    /// The level's bin is in order.
    pub closed spec fn wf(&self) -> bool {
        self.reduction_level > 0 && bin_wf(self.open, self.covered_to)
    }

    /// A level of bins of `reduction_level` bases that has taken in nothing.
    pub fn new(reduction_level: u32) -> (r: ZoomLevel)
        requires
            reduction_level > 0,
        ensures
            r.wf(),
            r.reduction_level() == reduction_level,
            r.open() is None,
            r.covered_to() == 0,
    {
        ZoomLevel { reduction_level, open: None, covered_to: 0 }
    }

    /// Takes in the record `[start, end)` and returns what it does to the
    /// level, step by step. A record that is empty or starts before the end
    /// of the record before it is refused, and the level stays as it is.
    pub fn add(&mut self, start: u32, end: u32) -> (r: Result<Vec<ZoomStep>, WriteGroupsError>)
        requires
            old(self).wf(),
        ensures
            final(self).wf(),
            final(self).reduction_level() == old(self).reduction_level(),
            if start < end && old(self).covered_to() <= start {
                &&& r matches Ok(steps) && (steps@, final(self).open()) == zoom_steps(
                    old(self).open(),
                    start,
                    end,
                    old(self).reduction_level(),
                ) && closed_bases(steps@) + open_bases(final(self).open()) == open_bases(
                    old(self).open(),
                ) + (end - start)
                &&& final(self).covered_to() == end
            } else {
                &&& r matches Err(WriteGroupsError::InvalidInput(message)) && message@
                    == "Invalid record for a zoom level: it is empty or overlaps the record before it."@
                &&& final(self).open() == old(self).open()
                &&& final(self).covered_to() == old(self).covered_to()
            },
    {
        if start >= end || self.covered_to > start {
            return Err(
                WriteGroupsError::InvalidInput(
                    String::from_str(
                        "Invalid record for a zoom level: it is empty or overlaps the record before it.",
                    ),
                ),
            );
        }
        let level = self.reduction_level;
        let mut steps: Vec<ZoomStep> = Vec::new();
        let mut at: u32 = start;
        let ghost first = self.open;
        while at < end
            invariant
                start <= at <= end,
                level == self.reduction_level,
                level > 0,
                self.reduction_level == old(self).reduction_level,
                self.open matches Some(bin) ==> bin.start <= at && bin.start + bin.bases_covered
                    <= at,
                at == start ==> self.open == first && steps@ == Seq::<ZoomStep>::empty(),
                at > start ==> self.open is Some && at <= self.open->Some_0.end,
                first == old(self).open,
                zoom_steps(first, start, end, level) == ({
                    let rest = zoom_steps(self.open, at, end, level);
                    (steps@ + rest.0, rest.1)
                }),
                closed_bases(steps@) + open_bases(self.open) == open_bases(first) + (at - start),
            decreases end - at,
        {
            let ghost before = steps@;
            let ghost open_before = self.open;
            let leaves = match self.open {
                Some(bin) => bin.end <= at,
                None => false,
            };
            let bin = match self.open {
                Some(bin) if !leaves => bin,
                _ => {
                    proof {
                        lemma_bin_holds(at, level);
                    }
                    let bin_start = at - at % level;
                    ZoomBin {
                        start: bin_start,
                        end: match bin_start.checked_add(level) {
                            Some(bin_end) => bin_end,
                            None => u32::MAX,
                        },
                        bases_covered: 0,
                    }
                },
            };
            if leaves {
                steps.push(ZoomStep::Close(self.open.unwrap()));
            }
            let stop = if end < bin.end { end } else { bin.end };
            steps.push(ZoomStep::Cover { start: at, end: stop });
            let grown = ZoomBin {
                start: bin.start,
                end: bin.end,
                bases_covered: bin.bases_covered + (stop - at),
            };
            self.open = Some(grown);
            proof {
                let rest = zoom_steps(Some(grown), stop, end, level);
                let cover = ZoomStep::Cover { start: at, end: stop };
                if leaves {
                    let close = ZoomStep::Close(open_before->Some_0);
                    let middle = before.push(close);
                    assert(steps@ == middle.push(cover));
                    assert(before + (seq![close] + (seq![cover] + rest.0)) =~= steps@ + rest.0);
                    assert(middle.drop_last() == before);
                    assert(middle.last() == close);
                    assert(closed_bases(middle) == closed_bases(before)
                        + open_before->Some_0.bases_covered);
                    assert(steps@.drop_last() == middle);
                    assert(steps@.last() == cover);
                    assert(closed_bases(steps@) == closed_bases(middle));
                } else {
                    assert(steps@ == before.push(cover));
                    assert(before + (seq![cover] + rest.0) =~= steps@ + rest.0);
                    assert(steps@.drop_last() == before);
                    assert(steps@.last() == cover);
                    assert(closed_bases(steps@) == closed_bases(before));
                }
            }
            at = stop;
        }
        self.covered_to = end;
        proof {
            let rest = zoom_steps(self.open, end, end, level);
            assert(steps@ + rest.0 =~= steps@);
        }
        Ok(steps)
    }

    /// Ends the chromosome: the open bin leaves, if there is one.
    pub fn finish(&mut self) -> (r: Option<ZoomBin>)
        requires
            old(self).wf(),
        ensures
            final(self).wf(),
            r == old(self).open(),
            final(self).open() is None,
            final(self).covered_to() == 0,
            final(self).reduction_level() == old(self).reduction_level(),
    {
        self.covered_to = 0;
        self.open.take()
    }
}

/// The bin of a base starts at or before the base and ends behind it.
proof fn lemma_bin_holds(pos: u32, level: u32)
    requires
        level > 0,
        pos < u32::MAX,
    ensures
        0 <= pos % level <= pos,
        pos % level < level,
        bin_of(pos, level).start <= pos < bin_of(pos, level).end,
{
    vstd::arithmetic::div_mod::lemma_mod_bound(pos as int, level as int);
    vstd::arithmetic::div_mod::lemma_mod_decreases(pos as nat, level as nat);
}

/// The bins that leave in two runs of steps hold the bases of the first and
/// those of the second.
proof fn lemma_closed_bases_concat(a: Seq<ZoomStep>, b: Seq<ZoomStep>)
    ensures
        closed_bases(a + b) == closed_bases(a) + closed_bases(b),
    decreases b.len(),
{
    if b.len() == 0 {
        assert(a + b =~= a);
    } else {
        lemma_closed_bases_concat(a, b.drop_last());
        assert((a + b).drop_last() =~= a + b.drop_last());
        assert((a + b).last() == b.last());
    }
}

/// Whether the bin that is open may take in a record that starts at `start`:
/// the bin starts at or before `start`, and all of its covered bases lie
/// before `start`.
pub open spec fn takes_from(open: Option<ZoomBin>, start: u32) -> bool {
    open matches Some(bin) ==> bin.start <= start && bin.start + bin.bases_covered <= start
}

/// No base is counted twice and none is lost: after a record, the bins that
/// left and the bin that is open hold the bases that the open bin held
/// before, and those of the record.
pub proof fn lemma_zoom_steps_keep_bases(open: Option<ZoomBin>, start: u32, end: u32, level: u32)
    requires
        level > 0,
        start < end,
        takes_from(open, start),
    ensures
        closed_bases(zoom_steps(open, start, end, level).0) + open_bases(
            zoom_steps(open, start, end, level).1,
        ) == open_bases(open) + (end - start),
        bin_wf(zoom_steps(open, start, end, level).1, end),
        zoom_steps(open, start, end, level).1 is Some,
    decreases end - start,
{
    let leaves = open is Some && open->Some_0.end <= start;
    let bin = if open is Some && !leaves {
        open->Some_0
    } else {
        bin_of(start, level)
    };
    lemma_bin_holds(start, level);
    let stop = if end < bin.end {
        end
    } else {
        bin.end
    };
    let grown = ZoomBin { bases_covered: (bin.bases_covered + (stop - start)) as u32, ..bin };
    let rest = zoom_steps(Some(grown), stop, end, level);
    let cover = seq![ZoomStep::Cover { start, end: stop }];
    if stop < end {
        lemma_zoom_steps_keep_bases(Some(grown), stop, end, level);
    } else {
        assert(rest.0 =~= Seq::<ZoomStep>::empty());
        assert(closed_bases(rest.0) == 0);
    }
    lemma_closed_bases_concat(cover, rest.0);
    assert(closed_bases(cover) == 0) by {
        assert(cover.drop_last() =~= Seq::<ZoomStep>::empty());
        assert(closed_bases(cover.drop_last()) == 0);
    }
    if leaves {
        let close = seq![ZoomStep::Close(open->Some_0)];
        lemma_closed_bases_concat(close, cover + rest.0);
        assert(closed_bases(close) == open->Some_0.bases_covered) by {
            assert(close.drop_last() =~= Seq::<ZoomStep>::empty());
            assert(closed_bases(close.drop_last()) == 0);
        }
    }
}

/// What a level makes of the records of a chromosome, taken in one after the
/// other: the steps of all of them, and the bin that is open at the end.
pub open spec fn zoom_run(records: Seq<(u32, u32)>, level: u32) -> (Seq<ZoomStep>, Option<ZoomBin>)
    decreases records.len(),
{
    if records.len() == 0 {
        (Seq::empty(), None)
    } else {
        let before = zoom_run(records.drop_last(), level);
        let here = zoom_steps(before.1, records.last().0, records.last().1, level);
        (before.0 + here.0, here.1)
    }
}

/// The bases of the records, each counted for every record that holds it.
pub open spec fn total_bases(records: Seq<(u32, u32)>) -> int
    decreases records.len(),
{
    if records.len() == 0 {
        0
    } else {
        total_bases(records.drop_last()) + (records.last().1 - records.last().0)
    }
}

/// Whether the records are not empty and none starts before the end of the
/// one before it.
pub open spec fn records_disjoint(records: Seq<(u32, u32)>) -> bool {
    &&& forall|i: int| 0 <= i < records.len() ==> (#[trigger] records[i]).0 < records[i].1
    &&& forall|i: int|
        0 < i < records.len() ==> records[i - 1].1 <= (#[trigger] records[i]).0
}

/// The bins of a level hold, between them, exactly the bases of the records
/// of the chromosome: the covered bases of all bins add up to the bases of
/// the records, which is no more than the length of the chromosome for each
/// record.
pub proof fn lemma_zoom_bins_hold_the_bases(
    records: Seq<(u32, u32)>,
    level: u32,
    chrom_length: u32,
)
    requires
        level > 0,
        records_disjoint(records),
        forall|i: int| 0 <= i < records.len() ==> (#[trigger] records[i]).1 <= chrom_length,
    ensures
        closed_bases(zoom_run(records, level).0) + open_bases(zoom_run(records, level).1)
            == total_bases(records),
        total_bases(records) <= records.len() * chrom_length,
        records.len() > 0 ==> bin_wf(
            zoom_run(records, level).1,
            records.last().1,
        ),
    decreases records.len(),
{
    if records.len() > 0 {
        let head = records.drop_last();
        let last = records.last();
        assert(records_disjoint(head)) by {
            assert forall|i: int| 0 <= i < head.len() implies (#[trigger] head[i]).0
                < head[i].1 by {
                assert(head[i] == records[i]);
            }
            assert forall|i: int| 0 < i < head.len() implies head[i - 1].1 <= (
            #[trigger] head[i]).0 by {
                assert(head[i] == records[i]);
                assert(head[i - 1] == records[i - 1]);
            }
        }
        assert forall|i: int| 0 <= i < head.len() implies (#[trigger] head[i]).1
            <= chrom_length by {
            assert(head[i] == records[i]);
        }
        lemma_zoom_bins_hold_the_bases(head, level, chrom_length);
        let before = zoom_run(head, level);
        assert(records[records.len() - 1].0 < records[records.len() - 1].1);
        assert(records[records.len() - 1].1 <= chrom_length);
        if head.len() > 0 {
            assert(head.last() == records[records.len() - 2]);
            assert(records[records.len() - 2].1 <= records[records.len() - 1].0);
        }
        lemma_zoom_steps_keep_bases(before.1, last.0, last.1, level);
        lemma_closed_bases_concat(before.0, zoom_steps(before.1, last.0, last.1, level).0);
        assert(total_bases(records) <= records.len() * chrom_length) by (nonlinear_arith)
            requires
                total_bases(records) == total_bases(head) + (last.1 - last.0),
                total_bases(head) <= (records.len() - 1) * chrom_length,
                last.1 - last.0 <= chrom_length,
        ;
    } else {
        assert(records.len() * chrom_length == 0) by (nonlinear_arith)
            requires
                records.len() == 0,
        ;
    }
}

} // verus!
