//! From a flat stream of records to one sub-stream per chromosome.
//!
//! The parser holds one record of lookahead and nothing more: a group lends
//! the parser's state for as long as it lives, so that no second group and no
//! call of the parser can come between.

use crate::bedline::{parse_bed_line, LineProblem, LineRecord};
use crate::bigwig::{
    BBIWriteOptions, BedEntry, BedEntryView, WriteGroupsError, WriteGroupsErrorView,
};
use crate::idmap::{spec_id, ChromSizes, IdMap};
use vstd::prelude::*;
use vstd::std_specs::iter::IteratorSpec;
use vstd::string::StringExecFns;
use vstd::utf8::encode_utf8;

verus! {

/// What a call of a stream gives, as contracts see it: a record, `None`
/// where no record is there, or an error.
pub open spec fn given_view(r: Result<Option<(&str, u32, u32, String)>, WriteGroupsError>) -> Result<
    Option<LineRecord>,
    WriteGroupsErrorView,
> {
    match r {
        Ok(None) => Ok(None),
        Ok(Some(record)) => Ok(
            Some(LineRecord { chrom: record.0@, start: record.1, end: record.2, rest: record.3@ }),
        ),
        Err(e) => Err(e@),
    }
}

/// A source of records, one per call.
///
/// `Ok(None)` says that no record is there now. The chromosome's name is lent
/// until the next call.
///
/// A stream that holds what it will give says so: it foretells, and
/// `upcoming(k)` is what the call after `k` more calls gives. A stream that
/// cannot know, such as one that reads a file, does not foretell, and nothing
/// is said of what it gives.
pub trait StreamingChromValues {
    /// Whether the stream says beforehand what its calls give. A stream
    /// that does not say otherwise does not.
    open spec fn foretells(&self) -> bool {
        false
    }

    /// What the call after `k` more calls gives, where the stream foretells.
    open spec fn upcoming(&self, k: nat) -> Result<Option<LineRecord>, WriteGroupsErrorView> {
        Ok(None)
    }

    fn next<'a>(&'a mut self) -> (r: Result<Option<(&'a str, u32, u32, String)>, WriteGroupsError>)
        ensures
            old(self).foretells() ==> given_view(r) == old(self).upcoming(0),
            old(self).foretells() ==> final(self).foretells(),
            old(self).foretells() ==> forall|k: nat| #[trigger]
                final(self).upcoming(k) == old(self).upcoming(k + 1),
    ;
}

/// What a line of text gives as a record of a stream.
pub open spec fn line_outcome(line: Seq<char>) -> Result<Option<LineRecord>, WriteGroupsErrorView> {
    match crate::bedline::spec_parse_bed_line(line) {
        Ok(record) => Ok(record),
        Err(problem) => Err(
            WriteGroupsErrorView::InvalidInput(crate::bedline::problem_message(problem)),
        ),
    }
}

/// The records of lines of text that are held in memory.
pub struct BedStream {
    lines: Vec<String>,
    pos: usize,
    chrom: String,
}

impl BedStream {
    /// A stream over the given lines, first line first.
    pub fn new(lines: Vec<String>) -> (r: BedStream)
        ensures
            r.lines() == lines@.map_values(|line: String| line@),
            r.pos() == 0,
    {
        BedStream { lines, pos: 0, chrom: String::new() }
    }

    /// The lines, read or not.
    pub closed spec fn lines(&self) -> Seq<Seq<char>> {
        self.lines@.map_values(|line: String| line@)
    }

    /// How many lines have been read.
    pub closed spec fn pos(&self) -> nat {
        self.pos as nat
    }
}

impl StreamingChromValues for BedStream {
    /// The lines are held, so the stream knows what it will give.
    open spec fn foretells(&self) -> bool {
        true
    }

    /// What the line after `k` more lines means, and `Ok(None)` behind the
    /// last line.
    open spec fn upcoming(&self, k: nat) -> Result<Option<LineRecord>, WriteGroupsErrorView> {
        if self.pos() + k < self.lines().len() {
            line_outcome(self.lines()[(self.pos() + k) as int])
        } else {
            Ok(None)
        }
    }

    /// Reads the next line, if one is left, and gives what it means.
    fn next<'a>(&'a mut self) -> (r: Result<Option<(&'a str, u32, u32, String)>, WriteGroupsError>)
        ensures
            final(self).lines() == old(self).lines(),
            old(self).pos() >= old(self).lines().len() ==> (r matches Ok(None))
                && final(self).pos() == old(self).pos(),
            old(self).pos() < old(self).lines().len() ==> final(self).pos() == old(self).pos() + 1
                && match r {
                Ok(None) => crate::bedline::spec_parse_bed_line(
                    old(self).lines()[old(self).pos() as int],
                ) == Ok::<Option<LineRecord>, LineProblem>(None),
                Ok(Some(record)) => crate::bedline::spec_parse_bed_line(
                    old(self).lines()[old(self).pos() as int],
                ) == Ok::<Option<LineRecord>, LineProblem>(
                    Some(
                        LineRecord {
                            chrom: record.0@,
                            start: record.1,
                            end: record.2,
                            rest: record.3@,
                        },
                    ),
                ),
                Err(WriteGroupsError::InvalidInput(message)) => crate::bedline::spec_parse_bed_line(
                    old(self).lines()[old(self).pos() as int],
                ) is Err && message@ == crate::bedline::problem_message(
                    crate::bedline::spec_parse_bed_line(
                        old(self).lines()[old(self).pos() as int],
                    )->Err_0,
                ),
                Err(WriteGroupsError::IoError(_)) => false,
            },
    {
        if self.pos >= self.lines.len() {
            return Ok(None);
        }
        let i = self.pos;
        self.pos = i + 1;
        assert(self.lines()[i as int] == self.lines@[i as int]@);
        match parse_bed_line(self.lines[i].as_str()) {
            Err(e) => Err(e),
            Ok(None) => Ok(None),
            Ok(Some((chrom, start, end, rest))) => {
                self.chrom = chrom;
                Ok(Some((self.chrom.as_str(), start, end, rest)))
            },
        }
    }
}

/// The records that an iterator gives, each as chromosome, start, end and
/// rest. What an iterator will give is not known before it gives it, so the
/// stream does not foretell.
pub struct BedIteratorStream<I: Iterator<Item = Result<(String, u32, u32, String), WriteGroupsError>>> {
    pub iter: I,
    pub curr: Option<(String, u32, u32, String)>,
}

impl<I: Iterator<Item = Result<(String, u32, u32, String), WriteGroupsError>>> StreamingChromValues for BedIteratorStream<I> {
    /// Hands on what the iterator gives next: its record, its error, or
    /// `Ok(None)` at its end.
    fn next<'a>(&'a mut self) -> (r: Result<Option<(&'a str, u32, u32, String)>, WriteGroupsError>)
        ensures
            old(self).iter.obeys_prophetic_iter_laws() ==> (if old(self).iter.remaining().len()
                > 0 {
                &&& final(self).iter.remaining() == old(self).iter.remaining().drop_first()
                &&& match old(self).iter.remaining()[0] {
                    Ok(record) => r matches Ok(Some(given)) && given.0@ == record.0@ && given.1
                        == record.1 && given.2 == record.2 && given.3@ == record.3@,
                    Err(e) => r == Err::<Option<(&'a str, u32, u32, String)>, WriteGroupsError>(
                        e,
                    ),
                }
            } else {
                r matches Ok(None)
            }),
    {
        match self.iter.next() {
            None => Ok(None),
            Some(Err(e)) => Err(e),
            Some(Ok(v)) => {
                self.curr = Some(v);
                match &self.curr {
                    Some(v) => Ok(Some((v.0.as_str(), v.1, v.2, v.3.clone()))),
                    None => Ok(None),
                }
            },
        }
    }
}

/// How the chromosome of the lookahead record relates to the current one.
#[derive(Debug)]
pub enum ChromOpt {
    Absent,
    Same,
    Diff(String),
}

/// `ChromOpt` as contracts see it.
pub ghost enum ChromOptView {
    Absent,
    Same,
    Diff(Seq<char>),
}

/// The state of a parser as contracts see it.
pub ghost struct BedParserStateView {
    /// The chromosome of the current group.
    pub curr_chrom: Option<Seq<char>>,
    /// The record that the current group yields next.
    pub curr_val: Option<BedEntryView>,
    /// Where the lookahead record belongs.
    pub next_chrom: ChromOptView,
    /// The lookahead record.
    pub next_val: Option<BedEntryView>,
}

/// The current record, the record after it and the chromosomes of both.
pub struct BedParserState<S: StreamingChromValues> {
    stream: S,
    curr_chrom: Option<String>,
    curr_val: Option<BedEntry>,
    next_chrom: ChromOpt,
    next_val: Option<BedEntry>,
}

/// The views of an optional string and of an optional record.
pub open spec fn string_view(s: Option<String>) -> Option<Seq<char>> {
    match s {
        Some(s) => Some(s@),
        None => None,
    }
}

pub open spec fn entry_view(e: Option<BedEntry>) -> Option<BedEntryView> {
    match e {
        Some(e) => Some(e@),
        None => None,
    }
}

pub open spec fn chrom_opt_view(c: ChromOpt) -> ChromOptView {
    match c {
        ChromOpt::Absent => ChromOptView::Absent,
        ChromOpt::Same => ChromOptView::Same,
        ChromOpt::Diff(name) => ChromOptView::Diff(name@),
    }
}

impl<S: StreamingChromValues> View for BedParserState<S> {
    type V = BedParserStateView;

    closed spec fn view(&self) -> BedParserStateView {
        BedParserStateView {
            curr_chrom: string_view(self.curr_chrom),
            curr_val: entry_view(self.curr_val),
            next_chrom: chrom_opt_view(self.next_chrom),
            next_val: entry_view(self.next_val),
        }
    }
}

/// The state before any record was read.
pub open spec fn initial_state() -> BedParserStateView {
    BedParserStateView {
        curr_chrom: None,
        curr_val: None,
        next_chrom: ChromOptView::Absent,
        next_val: None,
    }
}

/// What is wrong with a record that the parser refuses.
pub enum RecordProblem {
    /// The record's end is not after its start.
    EmptyInterval,
    /// The record starts before the record before it, on one chromosome.
    Unsorted,
}

/// The text that reports a refused record.
pub open spec fn record_problem_message(problem: RecordProblem) -> Seq<char> {
    match problem {
        RecordProblem::EmptyInterval => "Invalid record: its end is not greater than its start."@,
        RecordProblem::Unsorted =>
            "Input not sorted by start within a chromosome. Sort with `sort -k1,1 -k2,2n`."@,
    }
}

/// The chromosome that the lookahead record of `pre` belongs to.
pub open spec fn lookahead_chrom(pre: BedParserStateView) -> Option<Seq<char>> {
    match pre.next_chrom {
        ChromOptView::Diff(name) => Some(name),
        ChromOptView::Same => pre.curr_chrom,
        ChromOptView::Absent => None,
    }
}

/// Why the record `record` may not follow the lookahead record of `pre`, if
/// it may not: its interval is empty, or it lies on the same chromosome and
/// starts earlier.
pub open spec fn check_record(pre: BedParserStateView, record: Option<LineRecord>) -> Option<
    RecordProblem,
> {
    match record {
        None => None,
        Some(record) => if record.end <= record.start {
            Some(RecordProblem::EmptyInterval)
        } else if lookahead_chrom(pre) == Some(record.chrom) && pre.next_val is Some
            && record.start < pre.next_val->Some_0.start {
            Some(RecordProblem::Unsorted)
        } else {
            None
        },
    }
}

/// The state after the lookahead record has become the current one and
/// `record` the lookahead.
pub open spec fn shifted(pre: BedParserStateView, record: Option<LineRecord>) -> BedParserStateView {
    let chrom = lookahead_chrom(pre);
    BedParserStateView {
        curr_chrom: chrom,
        curr_val: pre.next_val,
        next_chrom: match record {
            None => ChromOptView::Absent,
            Some(record) => if chrom == Some(record.chrom) {
                ChromOptView::Same
            } else {
                ChromOptView::Diff(record.chrom)
            },
        },
        next_val: match record {
            None => None,
            Some(record) => Some(
                BedEntryView { start: record.start, end: record.end, rest: record.rest },
            ),
        },
    }
}

/// Whether a state has a lookahead record and no current one: the parser
/// then shifts once more.
pub open spec fn shifts_again(state: BedParserStateView) -> bool {
    state.curr_val is None && state.next_val is Some
}

/// The record as contracts see it.
pub open spec fn record_view(record: Option<(String, u32, u32, String)>) -> Option<LineRecord> {
    match record {
        None => None,
        Some(record) => Some(
            LineRecord { chrom: record.0@, start: record.1, end: record.2, rest: record.3@ },
        ),
    }
}

/// What taking in what a call of the stream gave makes of the state `pre`:
/// the error of the stream, the error of a record that may not follow, or
/// the state after the record was taken in.
pub open spec fn taken_in(
    pre: BedParserStateView,
    given: Result<Option<LineRecord>, WriteGroupsErrorView>,
) -> Result<BedParserStateView, WriteGroupsErrorView> {
    match given {
        Err(e) => Err(e),
        Ok(record) => match check_record(pre, record) {
            Some(problem) => Err(
                WriteGroupsErrorView::InvalidInput(record_problem_message(problem)),
            ),
            None => Ok(shifted(pre, record)),
        },
    }
}

/// What `advance` makes of the state `pre` where the stream gives `first`
/// and then, if it is asked again, `second`: the error, if one comes of it,
/// the state that is left, and how often the stream was asked. An error
/// leaves the state as it was before the call of the stream that led to it.
pub open spec fn advance_outcome(
    pre: BedParserStateView,
    first: Result<Option<LineRecord>, WriteGroupsErrorView>,
    second: Result<Option<LineRecord>, WriteGroupsErrorView>,
) -> (Option<WriteGroupsErrorView>, BedParserStateView, nat) {
    match taken_in(pre, first) {
        Err(e) => (Some(e), pre, 1),
        Ok(middle) => if shifts_again(middle) {
            match taken_in(middle, second) {
                Err(e) => (Some(e), middle, 2),
                Ok(post) => (None, post, 2),
            }
        } else {
            (None, middle, 1)
        },
    }
}

/// Whether `after` is the foretelling stream `before` after `calls` calls:
/// it still foretells, and what it will give is what `before` would have
/// given after that many calls.
pub open spec fn stream_moved<S: StreamingChromValues>(before: S, after: S, calls: nat) -> bool {
    after.foretells() && forall|k: nat| #[trigger] after.upcoming(k) == before.upcoming(k + calls)
}

impl<S: StreamingChromValues> BedParserState<S> {
    /// The stream that the records come from.
    pub closed spec fn stream(&self) -> S {
        self.stream
    }

    /// What `advance` makes of this state, where the stream foretells: the
    /// error, if one comes of it, the state that is left, and how often the
    /// stream is asked.
    pub open spec fn foretold(&self) -> (Option<WriteGroupsErrorView>, BedParserStateView, nat) {
        advance_outcome(self@, self.stream().upcoming(0), self.stream().upcoming(1))
    }

    /// The state before any record was read.
    pub fn new(stream: S) -> (r: BedParserState<S>)
        ensures
            r@ == initial_state(),
            r.stream() == stream,
    {
        BedParserState {
            stream,
            curr_chrom: None,
            curr_val: None,
            next_chrom: ChromOpt::Absent,
            next_val: None,
        }
    }

    /// Takes in what the stream gave: the lookahead record becomes the
    /// current one and `record` the lookahead. A record that may not follow
    /// is refused and the state stays as it is.
    pub fn accept(&mut self, record: Option<(String, u32, u32, String)>) -> (r: Result<
        (),
        WriteGroupsError,
    >)
        ensures
            final(self).stream() == old(self).stream(),
            match check_record(old(self)@, record_view(record)) {
                Some(problem) => (r matches Err(WriteGroupsError::InvalidInput(message))
                    && message@ == record_problem_message(problem)) && final(self)@ == old(self)@,
                None => r is Ok && final(self)@ == shifted(old(self)@, record_view(record)),
            },
    {
        let same = match &record {
            None => false,
            Some(record) => {
                if record.2 <= record.1 {
                    return Err(
                        WriteGroupsError::InvalidInput(
                            String::from_str(
                                "Invalid record: its end is not greater than its start.",
                            ),
                        ),
                    );
                }
                let same = match &self.next_chrom {
                    ChromOpt::Diff(name) => *name == record.0,
                    ChromOpt::Same => match &self.curr_chrom {
                        Some(name) => *name == record.0,
                        None => false,
                    },
                    ChromOpt::Absent => false,
                };
                if same {
                    match &self.next_val {
                        Some(previous) => {
                            if record.1 < previous.start {
                                return Err(
                                    WriteGroupsError::InvalidInput(
                                        String::from_str(
                                            "Input not sorted by start within a chromosome. Sort with `sort -k1,1 -k2,2n`.",
                                        ),
                                    ),
                                );
                            }
                        },
                        None => {},
                    }
                }
                same
            },
        };
        self.curr_val = self.next_val.take();
        let mut lookahead = ChromOpt::Absent;
        std::mem::swap(&mut self.next_chrom, &mut lookahead);
        match lookahead {
            ChromOpt::Diff(name) => {
                self.curr_chrom = Some(name);
            },
            ChromOpt::Same => {},
            ChromOpt::Absent => {
                self.curr_chrom = None;
            },
        }
        match record {
            None => {},
            Some((chrom, start, end, rest)) => {
                self.next_val = Some(BedEntry { start, end, rest });
                if same {
                    self.next_chrom = ChromOpt::Same;
                } else {
                    self.next_chrom = ChromOpt::Diff(chrom);
                }
            },
        }
        Ok(())
    }

    /// Reads one record from the stream and takes it in. An error of the
    /// stream, or a record that may not follow, leaves the state as it is.
    ///
    /// Of a stream that foretells, the call takes what the stream said it
    /// would give next, and succeeds where that is a record that may follow
    /// or the end of the records.
    fn advance_once(&mut self) -> (r: Result<(), WriteGroupsError>)
        ensures
            match r {
                Ok(()) => exists|record: Option<LineRecord>|
                    check_record(old(self)@, record) is None && final(self)@ == #[trigger] shifted(
                        old(self)@,
                        record,
                    ),
                Err(_) => final(self)@ == old(self)@,
            },
            old(self).stream().foretells() ==> {
                &&& stream_moved(old(self).stream(), final(self).stream(), 1)
                &&& match taken_in(old(self)@, old(self).stream().upcoming(0)) {
                    Ok(post) => r is Ok && final(self)@ == post,
                    Err(e) => r matches Err(error) && error@ == e && final(self)@ == old(self)@,
                }
            },
    {
        let record = match self.stream.next() {
            Err(e) => {
                return Err(e);
            },
            Ok(None) => None,
            Ok(Some((chrom, start, end, rest))) => Some((String::from_str(chrom), start, end, rest)),
        };
        let ghost seen = record_view(record);
        let r = self.accept(record);
        proof {
            if r is Ok {
                assert(final(self)@ == shifted(old(self)@, seen));
            }
        }
        r
    }

    /// Moves one record on: the lookahead record becomes the current one and
    /// the stream's next record the lookahead. Where that leaves a lookahead
    /// record and no current one, as at the very start, it moves on once
    /// more.
    ///
    /// What a stream gives is in general not known here; `accept` says what
    /// each record does to the state. Of a stream that foretells, the call
    /// does what `advance_outcome` says of the two records that the stream
    /// said it would give next: it succeeds where they may follow, and fails
    /// with the error of the stream or of the first record that may not.
    pub fn advance(&mut self) -> (r: Result<(), WriteGroupsError>)
        ensures
            match r {
                Ok(()) => advance_ok(old(self)@, final(self)@),
                Err(_) => advance_failed(old(self)@, final(self)@),
            },
            old(self).stream().foretells() ==> ({
                let outcome = old(self).foretold();
                &&& stream_moved(old(self).stream(), final(self).stream(), outcome.2)
                &&& final(self)@ == outcome.1
                &&& match outcome.0 {
                    None => r is Ok,
                    Some(e) => r matches Err(error) && error@ == e,
                }
            }),
    {
        match self.advance_once() {
            Err(e) => {
                return Err(e);
            },
            Ok(()) => {},
        }
        let ghost middle = self@;
        let ghost first = choose|record: Option<LineRecord>|
            check_record(old(self)@, record) is None && middle == #[trigger] shifted(
                old(self)@,
                record,
            );
        if self.curr_val.is_none() && self.next_val.is_some() {
            match self.advance_once() {
                Err(e) => {
                    return Err(e);
                },
                Ok(()) => {},
            }
            proof {
                let second = choose|record: Option<LineRecord>|
                    check_record(middle, record) is None && self@ == #[trigger] shifted(
                        middle,
                        record,
                    );
                assert(self@ == advanced(old(self)@, first, second));
                assert(advance_steps(old(self)@, first, second));
            }
        } else {
            assert(self@ == advanced(old(self)@, first, None));
            assert(advance_steps(old(self)@, first, None));
        }
        Ok(())
    }
}

/// The state after `advance` has run on `pre` while the stream gave `first`
/// and then, if it was asked again, `second`.
pub open spec fn advanced(
    pre: BedParserStateView,
    first: Option<LineRecord>,
    second: Option<LineRecord>,
) -> BedParserStateView {
    if shifts_again(shifted(pre, first)) {
        shifted(shifted(pre, first), second)
    } else {
        shifted(pre, first)
    }
}

/// Whether `advance` accepts the records `first` and `second` on `pre`.
pub open spec fn advance_steps(
    pre: BedParserStateView,
    first: Option<LineRecord>,
    second: Option<LineRecord>,
) -> bool {
    check_record(pre, first) is None && (shifts_again(shifted(pre, first)) ==> check_record(
        shifted(pre, first),
        second,
    ) is None)
}

/// Whether `post` is what a successful `advance` can make of `pre`: the
/// state after one or two accepted records, whatever they were.
pub open spec fn advance_ok(pre: BedParserStateView, post: BedParserStateView) -> bool {
    exists|first: Option<LineRecord>, second: Option<LineRecord>|
        post == #[trigger] advanced(pre, first, second) && advance_steps(pre, first, second)
}

/// Whether `post` is what a failed `advance` can leave of `pre`: `pre`
/// itself, or the state after one accepted record.
pub open spec fn advance_failed(pre: BedParserStateView, post: BedParserStateView) -> bool {
    post == pre || exists|first: Option<LineRecord>|
        check_record(pre, first) is None && post == #[trigger] shifted(pre, first)
}

/// Groups the records of a stream by chromosome.
pub struct BedParser<S: StreamingChromValues> {
    pub state: BedParserState<S>,
}

/// The records of one chromosome. While a group lives, it alone can move the
/// parser.
pub struct ChromGroup<'a, S: StreamingChromValues> {
    pub state: &'a mut BedParserState<S>,
}

impl<S: StreamingChromValues> BedParser<S> {
    /// A parser that has read nothing yet.
    pub fn new(stream: S) -> (r: BedParser<S>)
        ensures
            r.state@ == initial_state(),
            r.state.stream() == stream,
    {
        BedParser { state: BedParserState::new(stream) }
    }

    /// Whether the last group was left with records of its chromosome still
    /// to come. No next group may be asked for then.
    pub fn group_pending(&self) -> (b: bool)
        ensures
            b == (self.state@.next_chrom is Same),
    {
        match &self.state.next_chrom {
            ChromOpt::Same => true,
            _ => false,
        }
    }

    /// The next chromosome and its records, or `None` at the end of the
    /// stream. The group before must have been read to its end.
    ///
    /// The parser moves one record on, as `advance` does. Where that leaves
    /// a current chromosome, the group of that chromosome comes back, and it
    /// holds the parser's state; where it leaves none, the stream is at its
    /// end. Of a stream that foretells, what comes back is what
    /// `foretold` says: the group or `None` where the records that the stream
    /// gives next may follow, and else the error.
    pub fn next<'a>(&'a mut self) -> (r: Result<Option<(String, ChromGroup<'a, S>)>, WriteGroupsError>)
        requires
            !(old(self).state@.next_chrom is Same),
        ensures
            match r {
                Ok(Some((chrom, group))) => final(self).state == *final(group.state)
                    && advance_ok(old(self).state@, group@) && group@.curr_chrom == Some(chrom@),
                Ok(None) => advance_ok(old(self).state@, final(self).state@)
                    && final(self).state@.curr_chrom is None,
                Err(_) => advance_failed(old(self).state@, final(self).state@),
            },
            old(self).state.stream().foretells() ==> ({
                let outcome = old(self).state.foretold();
                match r {
                    Ok(Some((chrom, group))) => {
                        &&& outcome.0 is None
                        &&& group@ == outcome.1
                        &&& stream_moved(
                            old(self).state.stream(),
                            group.state.stream(),
                            outcome.2,
                        )
                    },
                    Ok(None) => {
                        &&& outcome.0 is None
                        &&& outcome.1.curr_chrom is None
                        &&& final(self).state@ == outcome.1
                        &&& stream_moved(
                            old(self).state.stream(),
                            final(self).state.stream(),
                            outcome.2,
                        )
                    },
                    Err(error) => {
                        &&& outcome.0 == Some(error@)
                        &&& final(self).state@ == outcome.1
                        &&& stream_moved(
                            old(self).state.stream(),
                            final(self).state.stream(),
                            outcome.2,
                        )
                    },
                }
            }),
    {
        match self.state.advance() {
            Err(e) => {
                return Err(e);
            },
            Ok(()) => {},
        }
        let chrom = match &self.state.curr_chrom {
            None => {
                return Ok(None);
            },
            Some(chrom) => chrom.clone(),
        };
        Ok(Some((chrom, ChromGroup { state: &mut self.state })))
    }
}

impl BedParser<BedStream> {
    /// A parser over lines of text that are held in memory.
    pub fn from_lines(lines: Vec<String>) -> (r: BedParser<BedStream>)
        ensures
            r.state@ == initial_state(),
            r.state.stream().lines() == lines@.map_values(|line: String| line@),
            r.state.stream().pos() == 0,
    {
        BedParser::new(BedStream::new(lines))
    }
}

impl<I: Iterator<Item = Result<(String, u32, u32, String), WriteGroupsError>>> BedParser<
    BedIteratorStream<I>,
> {
    /// A parser over the records that an iterator gives.
    pub fn from_iter(iter: I) -> (r: BedParser<BedIteratorStream<I>>)
        ensures
            r.state@ == initial_state(),
    {
        BedParser::new(BedIteratorStream { iter, curr: None })
    }
}

impl<'a, S: StreamingChromValues> View for ChromGroup<'a, S> {
    type V = BedParserStateView;

    /// The state of the parser that the group holds.
    open spec fn view(&self) -> BedParserStateView {
        (*self.state)@
    }
}

/// What a group's `next` makes of the state `pre` where the stream, if it
/// is asked, gives `first` and then `second`: the record or the error that
/// comes back, the state that is left, and how often the stream was asked.
/// The current record comes back, if there is one; else `None`, if the
/// lookahead record belongs to another chromosome; and else the parser moves
/// on and its new current record comes back.
pub open spec fn group_outcome(
    pre: BedParserStateView,
    first: Result<Option<LineRecord>, WriteGroupsErrorView>,
    second: Result<Option<LineRecord>, WriteGroupsErrorView>,
) -> (Result<Option<BedEntryView>, WriteGroupsErrorView>, BedParserStateView, nat) {
    if pre.curr_val is Some {
        (Ok(pre.curr_val), without_current(pre), 0)
    } else if pre.next_chrom is Diff {
        (Ok(None), pre, 0)
    } else {
        let outcome = advance_outcome(pre, first, second);
        match outcome.0 {
            Some(e) => (Err(e), outcome.1, outcome.2),
            None => (Ok(outcome.1.curr_val), without_current(outcome.1), outcome.2),
        }
    }
}

/// What a group's `next` returned, as contracts see it.
pub open spec fn entry_outcome_view(r: Result<Option<BedEntry>, WriteGroupsError>) -> Result<
    Option<BedEntryView>,
    WriteGroupsErrorView,
> {
    match r {
        Ok(entry) => Ok(entry_view(entry)),
        Err(e) => Err(e@),
    }
}

impl<'a, S: StreamingChromValues> ChromGroup<'a, S> {
    /// What `next` makes of this group, where the stream foretells.
    pub open spec fn foretold(&self) -> (
        Result<Option<BedEntryView>, WriteGroupsErrorView>,
        BedParserStateView,
        nat,
    ) {
        group_outcome(self@, self.state.stream().upcoming(0), self.state.stream().upcoming(1))
    }

    /// The next record of this chromosome, or `None` once the lookahead
    /// record belongs to another one.
    ///
    /// Of a stream that foretells, what comes back and what is left is what
    /// `foretold` says.
    pub fn next(&mut self) -> (r: Result<Option<BedEntry>, WriteGroupsError>)
        ensures
            *final(final(self).state) == *final(old(self).state),
            old(self).state.stream().foretells() ==> {
                &&& entry_outcome_view(r) == old(self).foretold().0
                &&& final(self)@ == old(self).foretold().1
                &&& stream_moved(
                    old(self).state.stream(),
                    final(self).state.stream(),
                    old(self).foretold().2,
                )
            },
            if old(self)@.curr_val is Some {
                entry_result_view(r) == Some(old(self)@.curr_val) && final(self)@
                    == without_current(old(self)@)
            } else if old(self)@.next_chrom is Diff {
                entry_result_view(r) == Some(None::<BedEntryView>) && final(self)@ == old(self)@
            } else {
                match r {
                    Ok(entry) => exists|middle: BedParserStateView| #[trigger]
                        advance_ok(old(self)@, middle) && entry_view(entry) == middle.curr_val
                            && final(self)@ == without_current(middle),
                    Err(_) => advance_failed(old(self)@, final(self)@),
                }
            },
    {
        match self.state.curr_val.take() {
            Some(entry) => {
                return Ok(Some(entry));
            },
            None => {},
        }
        match &self.state.next_chrom {
            ChromOpt::Diff(_) => {
                return Ok(None);
            },
            _ => {},
        }
        match self.state.advance() {
            Err(e) => {
                return Err(e);
            },
            Ok(()) => {},
        }
        let ghost middle = self@;
        let entry = self.state.curr_val.take();
        assert(advance_ok(old(self)@, middle));
        Ok(entry)
    }

    /// The record after the one that `next` yields next, without taking it,
    /// or `None` where it belongs to another chromosome or is not there.
    pub fn peek(&self) -> (r: Option<&BedEntry>)
        ensures
            match r {
                Some(entry) => !(self@.next_chrom is Diff) && self@.next_val == Some(entry@),
                None => self@.next_chrom is Diff || self@.next_val is None,
            },
    {
        match &self.state.next_chrom {
            ChromOpt::Diff(_) => None,
            _ => self.state.next_val.as_ref(),
        }
    }
}

/// The state without its current record.
pub open spec fn without_current(state: BedParserStateView) -> BedParserStateView {
    BedParserStateView { curr_val: None, ..state }
}

/// What a group's `next` returned, as contracts see it; `None` for an error.
pub open spec fn entry_result_view(r: Result<Option<BedEntry>, WriteGroupsError>) -> Option<
    Option<BedEntryView>,
> {
    match r {
        Ok(entry) => Some(entry_view(entry)),
        Err(_) => None,
    }
}

/// Whether `a` comes before `b` when the two are compared byte by byte, a
/// sequence coming after each of its proper prefixes.
pub open spec fn lex_lt(a: Seq<u8>, b: Seq<u8>) -> bool
    decreases a.len(),
{
    if b.len() == 0 {
        false
    } else if a.len() == 0 {
        true
    } else if a[0] != b[0] {
        a[0] < b[0]
    } else {
        lex_lt(a.skip(1), b.skip(1))
    }
}

/// Whether the name `a` sorts strictly before the name `b`, by their bytes.
pub open spec fn name_lt(a: Seq<char>, b: Seq<char>) -> bool {
    lex_lt(encode_utf8(a), encode_utf8(b))
}

/// Tells whether `a` comes before `b` byte by byte.
pub fn bytes_lt(a: &[u8], b: &[u8]) -> (r: bool)
    ensures
        r == lex_lt(a@, b@),
{
    let mut i: usize = 0;
    assert(a@.skip(0) == a@);
    assert(b@.skip(0) == b@);
    while i < a.len() && i < b.len()
        invariant
            i <= a@.len(),
            i <= b@.len(),
            lex_lt(a@, b@) == lex_lt(a@.skip(i as int), b@.skip(i as int)),
        decreases a@.len() - i,
    {
        assert(a@.skip(i as int)[0] == a@[i as int]);
        assert(b@.skip(i as int)[0] == b@[i as int]);
        if a[i] != b[i] {
            return a[i] < b[i];
        }
        assert(a@.skip(i as int).skip(1) == a@.skip(i + 1));
        assert(b@.skip(i as int).skip(1) == b@.skip(i + 1));
        i = i + 1;
    }
    i < b.len()
}

/// Why a chromosome may not be written.
pub enum ChromProblem {
    /// Its name is not greater than that of the chromosome before it.
    Unsorted,
    /// The table of chromosome lengths does not have it.
    Unknown,
    /// Every id that 32 bits can hold is taken.
    TooMany,
}

/// The text that reports why the chromosome `chrom` is refused. It names the
/// chromosome where the input is at fault.
pub open spec fn chrom_problem_message(problem: ChromProblem, chrom: Seq<char>) -> Seq<char> {
    match problem {
        ChromProblem::Unsorted =>
            "Input bedGraph not sorted by chromosome. Sort with `sort -k1,1 -k2,2n`. Out of order: "@
                + chrom,
        ChromProblem::Unknown =>
            "Input bedGraph contains chromosome that isn't in the input chrom sizes: "@ + chrom,
        ChromProblem::TooMany => "Input bedGraph has more chromosomes than there are ids."@,
    }
}

/// Why the chromosome `chrom` may not follow `last`, if it may not: its name
/// must be strictly greater than `last`, byte by byte, and `sizes` must have
/// its length.
pub open spec fn check_chrom(
    last: Option<Seq<char>>,
    ids: Seq<Seq<char>>,
    sizes: Map<Seq<char>, u32>,
    chrom: Seq<char>,
) -> Option<ChromProblem> {
    if last is Some && !name_lt(last->Some_0, chrom) {
        Some(ChromProblem::Unsorted)
    } else if !sizes.contains_key(chrom) {
        Some(ChromProblem::Unknown)
    } else if ids.len() >= u32::MAX {
        Some(ChromProblem::TooMany)
    } else {
        None
    }
}

/// The names with ids after `chrom` has been given one.
pub open spec fn with_chrom(ids: Seq<Seq<char>>, chrom: Seq<char>) -> Seq<Seq<char>> {
    if ids.contains(chrom) {
        ids
    } else {
        ids.push(chrom)
    }
}

/// Decides whether the chromosome `chrom` may be written next, and with
/// which id and length.
///
/// `last_chrom` is `chrom` afterwards, whatever the answer. An unsorted or
/// unknown chromosome is refused with a text that names it, and gets no id.
pub fn begin_chrom(
    last_chrom: &mut Option<String>,
    chrom_ids: &mut IdMap,
    chrom_map: &ChromSizes,
    chrom: &str,
) -> (r: Result<(u32, u32), WriteGroupsError>)
    requires
        old(chrom_ids).wf(),
    ensures
        final(chrom_ids).wf(),
        string_view(*final(last_chrom)) == Some(chrom@),
        match check_chrom(string_view(*old(last_chrom)), old(chrom_ids)@, chrom_map@, chrom@) {
            Some(problem) => {
                &&& r matches Err(WriteGroupsError::InvalidInput(message)) && message@
                    == chrom_problem_message(problem, chrom@)
                &&& final(chrom_ids)@ == old(chrom_ids)@
            },
            None => {
                &&& r matches Ok((id, length)) && length == chrom_map@[chrom@] && id == spec_id(
                    old(chrom_ids)@,
                    chrom@,
                )
                &&& final(chrom_ids)@ == with_chrom(old(chrom_ids)@, chrom@)
            },
        },
{
    let mut last = Some(String::from_str(chrom));
    std::mem::swap(last_chrom, &mut last);
    match last {
        Some(previous) => {
            if !bytes_lt(previous.as_str().as_bytes(), chrom.as_bytes()) {
                let mut message = String::from_str(
                    "Input bedGraph not sorted by chromosome. Sort with `sort -k1,1 -k2,2n`. Out of order: ",
                );
                message.append(chrom);
                return Err(WriteGroupsError::InvalidInput(message));
            }
        },
        None => {},
    }
    let length = match chrom_map.get(chrom) {
        Some(length) => length,
        None => {
            let mut message = String::from_str(
                "Input bedGraph contains chromosome that isn't in the input chrom sizes: ",
            );
            message.append(chrom);
            return Err(WriteGroupsError::InvalidInput(message));
        },
    };
    if chrom_ids.len() >= u32::MAX as usize {
        return Err(
            WriteGroupsError::InvalidInput(
                String::from_str("Input bedGraph has more chromosomes than there are ids."),
            ),
        );
    }
    let id = chrom_ids.get_id(chrom);
    Ok((id, length))
}

/// One of two.
#[derive(Debug)]
pub enum Either<L, R> {
    Left(L),
    Right(R),
}

/// A chromosome that may be written: its name, id and length, and its
/// records.
pub struct ChromGroupRead<'a, S: StreamingChromValues> {
    pub chrom: String,
    pub chrom_id: u32,
    pub length: u32,
    pub options: BBIWriteOptions,
    pub group: ChromGroup<'a, S>,
}

/// The text that reports a record that ends behind the end of its
/// chromosome.
pub open spec fn beyond_end_message() -> Seq<char> {
    "Invalid record: it ends after the end of its chromosome."@
}

impl<'a, S: StreamingChromValues> ChromGroupRead<'a, S> {
    /// The next record of the chromosome, as the group yields it. A record
    /// that ends behind the end of the chromosome is refused.
    ///
    /// Of a stream that foretells, the group does what its `foretold` says,
    /// and what comes back is the group's error, its `None`, or its record,
    /// if that ends within the chromosome.
    pub fn next(&mut self) -> (r: Result<Option<BedEntry>, WriteGroupsError>)
        ensures
            old(self).group.state.stream().foretells() ==> {
                &&& final(self).group@ == old(self).group.foretold().1
                &&& stream_moved(
                    old(self).group.state.stream(),
                    final(self).group.state.stream(),
                    old(self).group.foretold().2,
                )
                &&& match old(self).group.foretold().0 {
                    Err(e) => r matches Err(error) && error@ == e,
                    Ok(None) => r matches Ok(None),
                    Ok(Some(entry)) => if entry.end <= old(self).length {
                        entry_outcome_view(r) == Ok::<
                            Option<BedEntryView>,
                            WriteGroupsErrorView,
                        >(Some(entry))
                    } else {
                        r matches Err(WriteGroupsError::InvalidInput(message)) && message@
                            == beyond_end_message()
                    },
                }
            },
            final(self).chrom == old(self).chrom,
            final(self).chrom_id == old(self).chrom_id,
            final(self).length == old(self).length,
            final(self).options == old(self).options,
            *final(final(self).group.state) == *final(old(self).group.state),
            r matches Ok(Some(entry)) ==> entry.end <= old(self).length,
            old(self).group@.curr_val matches Some(entry) ==> final(self).group@
                == without_current(old(self).group@) && (if entry.end <= old(self).length {
                entry_result_view(r) == Some(Some(entry))
            } else {
                r matches Err(WriteGroupsError::InvalidInput(message)) && message@
                    == beyond_end_message()
            }),
            old(self).group@.curr_val is None && old(self).group@.next_chrom is Diff
                ==> entry_result_view(r) == Some(None::<BedEntryView>) && final(self).group@
                == old(self).group@,
    {
        match self.group.next() {
            Err(e) => Err(e),
            Ok(None) => Ok(None),
            Ok(Some(entry)) => {
                if entry.end > self.length {
                    Err(
                        WriteGroupsError::InvalidInput(
                            String::from_str(
                                "Invalid record: it ends after the end of its chromosome.",
                            ),
                        ),
                    )
                } else {
                    Ok(Some(entry))
                }
            },
        }
    }
}

/// Walks the chromosomes of a parser in the order of the input, checks each
/// against the order and the table of lengths, and gives each an id.
pub struct ChromGroupReadStreamingIterator<S: StreamingChromValues> {
    pub chrom_groups: BedParser<S>,
    pub last_chrom: Option<String>,
    pub chrom_ids: Option<IdMap>,
    pub options: BBIWriteOptions,
    pub chrom_map: ChromSizes,
}

/// The text that reports a chromosome that comes after the ids were handed
/// out.
pub open spec fn late_chrom_message() -> Seq<char> {
    "Input bedGraph goes on after its end."@
}

/// The names that have ids, while the table of ids is held.
pub open spec fn ids_view(ids: Option<IdMap>) -> Option<Seq<Seq<char>>> {
    match ids {
        Some(ids) => Some(ids@),
        None => None,
    }
}

/// Whether `error` is what refuses the chromosome `chrom`: it names the
/// input as invalid, with the text of the rule that `chrom` breaks, or, once
/// the ids were handed out, with the text that says so.
pub open spec fn refused(
    last: Option<Seq<char>>,
    ids: Option<Seq<Seq<char>>>,
    sizes: Map<Seq<char>, u32>,
    chrom: Seq<char>,
    error: WriteGroupsError,
) -> bool {
    error matches WriteGroupsError::InvalidInput(message) && match ids {
        None => message@ == late_chrom_message(),
        Some(ids) => check_chrom(last, ids, sizes, chrom) is Some && message@
            == chrom_problem_message(check_chrom(last, ids, sizes, chrom)->Some_0, chrom),
    }
}

/// Starts the walk over the chromosomes of `vals`.
pub fn get_chromgroupstreamingiterator<S: StreamingChromValues>(
    vals: BedParser<S>,
    options: BBIWriteOptions,
    chrom_map: ChromSizes,
) -> (r: ChromGroupReadStreamingIterator<S>)
    ensures
        r.wf(),
        r.chrom_groups == vals,
        r.last_chrom is None,
        r.chrom_ids is Some && r.chrom_ids->Some_0@ == Seq::<Seq<char>>::empty(),
        r.options == options,
        r.chrom_map == chrom_map,
{
    ChromGroupReadStreamingIterator {
        chrom_groups: vals,
        last_chrom: None,
        chrom_ids: Some(IdMap::new()),
        options,
        chrom_map,
    }
}

impl<S: StreamingChromValues> ChromGroupReadStreamingIterator<S> {
    /// The table of ids, while it is held, is in order.
    pub open spec fn wf(&self) -> bool {
        self.chrom_ids is Some ==> self.chrom_ids->Some_0.wf()
    }

    /// The next chromosome to write, then once the ids of all of them, then
    /// `None`.
    ///
    /// Which chromosome comes next is the parser's matter. Whether it may be
    /// written, and with which id and length, is what `begin_chrom` decides.
    /// Of a stream that foretells, what comes back is settled by what the
    /// stream gives next: the error that the parser meets; or, where the
    /// parser finds a chromosome, that chromosome with its id and length, or
    /// the error that refuses it; or, at the end of the stream, the ids and
    /// then `None`.
    pub fn next<'a>(&'a mut self) -> (r: Result<
        Option<Either<ChromGroupRead<'a, S>, IdMap>>,
        WriteGroupsError,
    >)
        requires
            old(self).wf(),
            !(old(self).chrom_groups.state@.next_chrom is Same),
        ensures
            final(self).wf(),
            final(self).chrom_map == old(self).chrom_map,
            final(self).options == old(self).options,
            match r {
                Ok(Some(Either::Left(read))) => {
                    &&& final(self).chrom_groups.state == *final(read.group.state)
                    &&& advance_ok(old(self).chrom_groups.state@, read.group@)
                    &&& read.group@.curr_chrom == Some(read.chrom@)
                    &&& old(self).chrom_ids is Some
                    &&& final(self).chrom_ids is Some
                    &&& check_chrom(
                        string_view(old(self).last_chrom),
                        old(self).chrom_ids->Some_0@,
                        old(self).chrom_map@,
                        read.chrom@,
                    ) is None
                    &&& read.length == old(self).chrom_map@[read.chrom@]
                    &&& read.options == old(self).options
                    &&& final(self).chrom_ids->Some_0@ == with_chrom(
                        old(self).chrom_ids->Some_0@,
                        read.chrom@,
                    )
                    &&& read.chrom_id == spec_id(old(self).chrom_ids->Some_0@, read.chrom@)
                    &&& string_view(final(self).last_chrom) == Some(read.chrom@)
                },
                Ok(Some(Either::Right(ids))) => {
                    &&& old(self).chrom_ids == Some(ids)
                    &&& ids.wf()
                    &&& final(self).chrom_ids is None
                    &&& final(self).last_chrom == old(self).last_chrom
                    &&& advance_ok(old(self).chrom_groups.state@, final(self).chrom_groups.state@)
                    &&& final(self).chrom_groups.state@.curr_chrom is None
                },
                Ok(None) => {
                    &&& old(self).chrom_ids is None
                    &&& final(self).chrom_ids is None
                    &&& final(self).last_chrom == old(self).last_chrom
                    &&& advance_ok(old(self).chrom_groups.state@, final(self).chrom_groups.state@)
                    &&& final(self).chrom_groups.state@.curr_chrom is None
                },
                Err(e) => {
                    ||| {
                        &&& advance_failed(
                            old(self).chrom_groups.state@,
                            final(self).chrom_groups.state@,
                        )
                        &&& final(self).last_chrom == old(self).last_chrom
                        &&& final(self).chrom_ids == old(self).chrom_ids
                    }
                    ||| exists|chrom: Seq<char>| #[trigger]
                        refused(
                            string_view(old(self).last_chrom),
                            ids_view(old(self).chrom_ids),
                            old(self).chrom_map@,
                            chrom,
                            e,
                        ) && string_view(final(self).last_chrom) == (if old(self).chrom_ids
                            is Some {
                            Some(chrom)
                        } else {
                            string_view(old(self).last_chrom)
                        }) && ids_view(final(self).chrom_ids) == ids_view(old(self).chrom_ids)
                }
            },
            old(self).chrom_groups.state.stream().foretells() ==> ({
                let outcome = old(self).chrom_groups.state.foretold();
                match r {
                    Ok(Some(Either::Left(read))) => {
                        &&& outcome.0 is None
                        &&& read.group@ == outcome.1
                        &&& stream_moved(
                            old(self).chrom_groups.state.stream(),
                            read.group.state.stream(),
                            outcome.2,
                        )
                    },
                    Ok(Some(Either::Right(_))) | Ok(None) => {
                        &&& outcome.0 is None
                        &&& outcome.1.curr_chrom is None
                        &&& final(self).chrom_groups.state@ == outcome.1
                        &&& stream_moved(
                            old(self).chrom_groups.state.stream(),
                            final(self).chrom_groups.state.stream(),
                            outcome.2,
                        )
                    },
                    Err(e) => {
                        &&& final(self).chrom_groups.state@ == outcome.1
                        &&& stream_moved(
                            old(self).chrom_groups.state.stream(),
                            final(self).chrom_groups.state.stream(),
                            outcome.2,
                        )
                        &&& match outcome.0 {
                            Some(error) => {
                                &&& e@ == error
                                &&& final(self).last_chrom == old(self).last_chrom
                                &&& final(self).chrom_ids == old(self).chrom_ids
                            },
                            None => {
                                &&& outcome.1.curr_chrom is Some
                                &&& refused(
                                    string_view(old(self).last_chrom),
                                    ids_view(old(self).chrom_ids),
                                    old(self).chrom_map@,
                                    outcome.1.curr_chrom->Some_0,
                                    e,
                                )
                                &&& old(self).chrom_ids is Some ==> string_view(
                                    final(self).last_chrom,
                                ) == outcome.1.curr_chrom
                                &&& old(self).chrom_ids is None ==> final(self).last_chrom
                                    == old(self).last_chrom
                                &&& ids_view(final(self).chrom_ids) == ids_view(
                                    old(self).chrom_ids,
                                )
                            },
                        }
                    },
                }
            }),
    {
        match self.chrom_groups.next() {
            Err(e) => Err(e),
            Ok(Some((chrom, group))) => {
                match &mut self.chrom_ids {
                    None => {
                        let e = WriteGroupsError::InvalidInput(
                            String::from_str("Input bedGraph goes on after its end."),
                        );
                        assert(refused(
                            string_view(old(self).last_chrom),
                            ids_view(old(self).chrom_ids),
                            old(self).chrom_map@,
                            chrom@,
                            e,
                        ));
                        Err(e)
                    },
                    Some(chrom_ids) => {
                        match begin_chrom(
                            &mut self.last_chrom,
                            chrom_ids,
                            &self.chrom_map,
                            chrom.as_str(),
                        ) {
                            Err(e) => {
                                assert(refused(
                                    string_view(old(self).last_chrom),
                                    ids_view(old(self).chrom_ids),
                                    old(self).chrom_map@,
                                    chrom@,
                                    e,
                                ));
                                Err(e)
                            },
                            Ok((chrom_id, length)) => Ok(
                                Some(
                                    Either::Left(
                                        ChromGroupRead {
                                            chrom,
                                            chrom_id,
                                            length,
                                            options: self.options,
                                            group,
                                        },
                                    ),
                                ),
                            ),
                        }
                    },
                }
            },
            Ok(None) => {
                match self.chrom_ids.take() {
                    Some(chrom_ids) => Ok(Some(Either::Right(chrom_ids))),
                    None => Ok(None),
                }
            },
        }
    }
}

} // verus!
