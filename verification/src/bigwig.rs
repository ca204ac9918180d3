//! The records of the BBI family and the types shared by readers and writers.

use vstd::prelude::*;

verus! {

/// One BigWig record: the half-open interval `[start, end)` and its value.
///
/// `value` holds the bit pattern of the single-precision number, as
/// `f32::to_bits` gives it and `f32::from_bits` takes it.
#[derive(Clone, Copy, Debug, PartialEq, Eq, Structural)]
pub struct Value {
    pub start: u32,
    pub end: u32,
    pub value: u32,
}

/// One record of a zoom level: the bin `[start, end)` of chromosome `chrom`,
/// how many of its bases have data, and the statistics over them. The four
/// statistics hold the bit patterns of single-precision numbers.
#[derive(Clone, Copy, Debug, PartialEq, Eq, Structural)]
pub struct ZoomRecord {
    pub chrom: u32,
    pub start: u32,
    pub end: u32,
    pub bases_covered: u32,
    pub min_val: u32,
    pub max_val: u32,
    pub sum: u32,
    pub sum_squares: u32,
}

/// Bit pattern of the quiet NaN that marks a base without data.
pub const NAN_BITS: u32 = 0x7fc0_0000;

/// One BigBed record: the half-open interval `[start, end)` and the rest of
/// its line, passed through as it was read.
#[derive(Clone, Debug, PartialEq)]
pub struct BedEntry {
    pub start: u32,
    pub end: u32,
    pub rest: String,
}

/// A `BedEntry` as contracts see it.
pub ghost struct BedEntryView {
    pub start: u32,
    pub end: u32,
    pub rest: Seq<char>,
}

impl View for BedEntry {
    type V = BedEntryView;

    open spec fn view(&self) -> BedEntryView {
        BedEntryView { start: self.start, end: self.end, rest: self.rest@ }
    }
}

/// Which of the two BBI file types a file is.
#[derive(Clone, Copy, Debug, PartialEq, Eq, Structural)]
pub enum BBIFile {
    BigWig,
    BigBed,
}

/// Why the input of a write was refused.
#[derive(Debug)]
pub enum WriteGroupsError {
    /// The input breaks a rule of the format; the text says which.
    InvalidInput(String),
    /// The record source failed.
    IoError(std::io::Error),
}

/// A `WriteGroupsError` as contracts see it.
pub ghost enum WriteGroupsErrorView {
    InvalidInput(Seq<char>),
    IoError(std::io::Error),
}

impl View for WriteGroupsError {
    type V = WriteGroupsErrorView;

    open spec fn view(&self) -> WriteGroupsErrorView {
        match *self {
            WriteGroupsError::InvalidInput(message) => WriteGroupsErrorView::InvalidInput(message@),
            WriteGroupsError::IoError(error) => WriteGroupsErrorView::IoError(error),
        }
    }
}

/// How a file is laid out when it is written.
#[derive(Clone, Copy, Debug)]
pub struct BBIWriteOptions {
    /// Whether the data blocks are compressed.
    pub compress: bool,
    /// The most records that one section holds.
    pub items_per_slot: u32,
    /// The branching factor of the block index.
    pub block_size: u32,
}

impl Default for BBIWriteOptions {
    /// Compressed blocks of up to 1024 records under an index that branches
    /// 256 ways.
    fn default() -> (r: BBIWriteOptions)
        ensures
            r.compress,
            r.items_per_slot == 1024,
            r.block_size == 256,
    {
        BBIWriteOptions { compress: true, items_per_slot: 1024, block_size: 256 }
    }
}

} // verus!
