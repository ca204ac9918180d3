//! Reading and writing the BBI family of indexed genomic files.
//!
//! A BigWig file holds a number for each base of a genome, as records of
//! chromosome, start, end and value. The records lie in sections; an index
//! over the sections finds those that may hold records of a query; and a
//! chromosome tree gives each chromosome its id and length.
//!
//! What is here works on bytes that are in memory, and is verified: the
//! reader's queries yield exactly the records of a well-formed file that
//! overlap the window, and what the writer lays out, the reader reads back.
//!
//! - `codec`: numbers in either byte order, and decompression.
//! - `bigwig`: the records.
//! - `bedline`, `bedparser`, `idmap`: from lines of text to the records of
//!   one chromosome after the other, checked for order.
//! - `bbiread`, `cirtree`, `bigwigread`: attaching a file and querying it.
//! - `bigwigwrite`, `cirtreewrite`, `bbiwrite`: sections, index and file.
//! - `zoom`: the bins of a zoom level and the bases that they hold.
//! - `intervals`, `roundtrip`: what queries yield, and that a written file
//!   reads back as it was written.

pub mod bbiread;
pub mod bbiwrite;
pub mod bedline;
pub mod bedparser;
pub mod bigwig;
pub mod bigwigread;
pub mod bigwigwrite;
pub mod cirtree;
pub mod cirtreewrite;
pub mod codec;
pub mod idmap;
pub mod intervals;
pub mod roundtrip;
pub mod zoom;
