//! Byte codec: endian-aware reads of the primitive fields of a BBI file, and
//! the decompression of its data blocks.

use byteordered::ByteOrdered;
use flate2::read::ZlibDecoder;
use std::io::Read;
use vstd::prelude::*;
use vstd::slice::slice_subrange;

verus! {

/// Byte order of the multi-byte fields of a file.
#[derive(Clone, Copy, Debug, PartialEq, Eq, Structural)]
pub enum Endianness {
    Big,
    Little,
}

/// The number held by the first two bytes of `bytes` in the given byte order.
pub open spec fn spec_u16(bytes: Seq<u8>, endianness: Endianness) -> u16 {
    match endianness {
        Endianness::Little => (bytes[0] + 0x100 * bytes[1]) as u16,
        Endianness::Big => (bytes[1] + 0x100 * bytes[0]) as u16,
    }
}

/// The number held by the first four bytes of `bytes` in the given byte order.
pub open spec fn spec_u32(bytes: Seq<u8>, endianness: Endianness) -> u32 {
    match endianness {
        Endianness::Little => (bytes[0] + 0x100 * bytes[1] + 0x1_0000 * bytes[2] + 0x100_0000
            * bytes[3]) as u32,
        Endianness::Big => (bytes[3] + 0x100 * bytes[2] + 0x1_0000 * bytes[1] + 0x100_0000
            * bytes[0]) as u32,
    }
}

/// The number held by the first eight bytes of `bytes` in the given byte order.
pub open spec fn spec_u64(bytes: Seq<u8>, endianness: Endianness) -> u64 {
    match endianness {
        Endianness::Little => (spec_u32(bytes, endianness) + 0x1_0000_0000 * spec_u32(
            bytes.skip(4),
            endianness,
        )) as u64,
        Endianness::Big => (spec_u32(bytes.skip(4), endianness) + 0x1_0000_0000 * spec_u32(
            bytes,
            endianness,
        )) as u64,
    }
}

/// The byte at `pos` of `data`.
pub open spec fn u8_at(data: Seq<u8>, pos: int) -> u8 {
    data[pos]
}

/// The 16-bit number that starts at `pos` of `data`.
pub open spec fn u16_at(data: Seq<u8>, pos: int, endianness: Endianness) -> u16 {
    spec_u16(data.subrange(pos, pos + 2), endianness)
}

/// The 32-bit number that starts at `pos` of `data`.
pub open spec fn u32_at(data: Seq<u8>, pos: int, endianness: Endianness) -> u32 {
    spec_u32(data.subrange(pos, pos + 4), endianness)
}

/// The 64-bit number that starts at `pos` of `data`.
pub open spec fn u64_at(data: Seq<u8>, pos: int, endianness: Endianness) -> u64 {
    spec_u64(data.subrange(pos, pos + 8), endianness)
}

/// Reads one byte with `byteordered::ByteOrdered::read_u8`.
///
/// Trusted: on a non-empty slice the read succeeds and gives the first byte.
#[verifier::external_body]
fn read_u8(bytes: &[u8], endianness: Endianness) -> (v: u8)
    requires
        bytes@.len() >= 1,
    ensures
        v == bytes@[0],
{
    let order = match endianness {
        Endianness::Big => byteordered::Endianness::Big,
        Endianness::Little => byteordered::Endianness::Little,
    };
    ByteOrdered::runtime(bytes, order).read_u8().unwrap()
}

/// Reads a 16-bit number with `byteordered::ByteOrdered::read_u16`.
///
/// Trusted: on two bytes or more the read succeeds and combines the first two
/// in the byte order asked for.
#[verifier::external_body]
fn read_u16(bytes: &[u8], endianness: Endianness) -> (v: u16)
    requires
        bytes@.len() >= 2,
    ensures
        v == spec_u16(bytes@, endianness),
{
    let order = match endianness {
        Endianness::Big => byteordered::Endianness::Big,
        Endianness::Little => byteordered::Endianness::Little,
    };
    ByteOrdered::runtime(bytes, order).read_u16().unwrap()
}

/// Reads a 32-bit number with `byteordered::ByteOrdered::read_u32`.
///
/// Trusted: on four bytes or more the read succeeds and combines the first
/// four in the byte order asked for.
#[verifier::external_body]
fn read_u32(bytes: &[u8], endianness: Endianness) -> (v: u32)
    requires
        bytes@.len() >= 4,
    ensures
        v == spec_u32(bytes@, endianness),
{
    let order = match endianness {
        Endianness::Big => byteordered::Endianness::Big,
        Endianness::Little => byteordered::Endianness::Little,
    };
    ByteOrdered::runtime(bytes, order).read_u32().unwrap()
}

/// Reads a 64-bit number with `byteordered::ByteOrdered::read_u64`.
///
/// Trusted: on eight bytes or more the read succeeds and combines the first
/// eight in the byte order asked for.
#[verifier::external_body]
fn read_u64(bytes: &[u8], endianness: Endianness) -> (v: u64)
    requires
        bytes@.len() >= 8,
    ensures
        v == spec_u64(bytes@, endianness),
{
    let order = match endianness {
        Endianness::Big => byteordered::Endianness::Big,
        Endianness::Little => byteordered::Endianness::Little,
    };
    ByteOrdered::runtime(bytes, order).read_u64().unwrap()
}

/// The byte at `pos`, if `data` reaches that far.
pub fn get_u8(data: &[u8], pos: usize, endianness: Endianness) -> (r: Option<u8>)
    ensures
        r is Some <==> pos + 1 <= data@.len(),
        r matches Some(v) ==> v == u8_at(data@, pos as int),
{
    if data.len() < 1 || pos > data.len() - 1 {
        return None;
    }
    let part = slice_subrange(data, pos, pos + 1);
    Some(read_u8(part, endianness))
}

/// The 16-bit number at `pos`, if `data` reaches that far.
pub fn get_u16(data: &[u8], pos: usize, endianness: Endianness) -> (r: Option<u16>)
    ensures
        r is Some <==> pos + 2 <= data@.len(),
        r matches Some(v) ==> v == u16_at(data@, pos as int, endianness),
{
    if data.len() < 2 || pos > data.len() - 2 {
        return None;
    }
    let part = slice_subrange(data, pos, pos + 2);
    Some(read_u16(part, endianness))
}

/// The 32-bit number at `pos`, if `data` reaches that far.
pub fn get_u32(data: &[u8], pos: usize, endianness: Endianness) -> (r: Option<u32>)
    ensures
        r is Some <==> pos + 4 <= data@.len(),
        r matches Some(v) ==> v == u32_at(data@, pos as int, endianness),
{
    if data.len() < 4 || pos > data.len() - 4 {
        return None;
    }
    let part = slice_subrange(data, pos, pos + 4);
    Some(read_u32(part, endianness))
}

/// The 64-bit number at `pos`, if `data` reaches that far.
pub fn get_u64(data: &[u8], pos: usize, endianness: Endianness) -> (r: Option<u64>)
    ensures
        r is Some <==> pos + 8 <= data@.len(),
        r matches Some(v) ==> v == u64_at(data@, pos as int, endianness),
{
    if data.len() < 8 || pos > data.len() - 8 {
        return None;
    }
    let part = slice_subrange(data, pos, pos + 8);
    Some(read_u64(part, endianness))
}

/// The two bytes that hold `v` in the given byte order.
#[verifier::opaque]
pub open spec fn u16_bytes(v: u16, endianness: Endianness) -> Seq<u8> {
    match endianness {
        Endianness::Little => seq![(v % 0x100) as u8, (v / 0x100) as u8],
        Endianness::Big => seq![(v / 0x100) as u8, (v % 0x100) as u8],
    }
}

/// The four bytes that hold `v` in the given byte order.
#[verifier::opaque]
pub open spec fn u32_bytes(v: u32, endianness: Endianness) -> Seq<u8> {
    match endianness {
        Endianness::Little => seq![
            (v % 0x100) as u8,
            (v / 0x100 % 0x100) as u8,
            (v / 0x100 / 0x100 % 0x100) as u8,
            (v / 0x100 / 0x100 / 0x100) as u8,
        ],
        Endianness::Big => seq![
            (v / 0x100 / 0x100 / 0x100) as u8,
            (v / 0x100 / 0x100 % 0x100) as u8,
            (v / 0x100 % 0x100) as u8,
            (v % 0x100) as u8,
        ],
    }
}

/// Appends a 16-bit number with `byteordered::ByteOrdered::write_u16`.
///
/// Trusted: writing to a vector does not fail and appends the two bytes of
/// the number in the byte order asked for.
#[verifier::external_body]
pub(crate) fn write_u16(out: &mut Vec<u8>, v: u16, endianness: Endianness)
    ensures
        final(out)@ == old(out)@ + u16_bytes(v, endianness),
{
    let order = match endianness {
        Endianness::Big => byteordered::Endianness::Big,
        Endianness::Little => byteordered::Endianness::Little,
    };
    ByteOrdered::runtime(out, order).write_u16(v).unwrap()
}

/// Appends a 32-bit number with `byteordered::ByteOrdered::write_u32`.
///
/// Trusted: writing to a vector does not fail and appends the four bytes of
/// the number in the byte order asked for.
#[verifier::external_body]
pub(crate) fn write_u32(out: &mut Vec<u8>, v: u32, endianness: Endianness)
    ensures
        final(out)@ == old(out)@ + u32_bytes(v, endianness),
{
    let order = match endianness {
        Endianness::Big => byteordered::Endianness::Big,
        Endianness::Little => byteordered::Endianness::Little,
    };
    ByteOrdered::runtime(out, order).write_u32(v).unwrap()
}

/// The bytes of a number hold that number.
pub proof fn lemma_u32_bytes_round_trip(v: u32, endianness: Endianness)
    ensures
        u32_bytes(v, endianness).len() == 4,
        spec_u32(u32_bytes(v, endianness), endianness) == v,
{
    reveal(u32_bytes);
    let q1 = v / 0x100;
    let q2 = q1 / 0x100;
    let q3 = q2 / 0x100;
    assert(v == 0x100 * q1 + v % 0x100);
    assert(q1 == 0x100 * q2 + q1 % 0x100);
    assert(q2 == 0x100 * q3 + q2 % 0x100);
    assert(q3 < 0x100);
    let bytes = u32_bytes(v, endianness);
    match endianness {
        Endianness::Little => {
            assert(bytes[0] == v % 0x100 && bytes[1] == q1 % 0x100 && bytes[2] == q2 % 0x100
                && bytes[3] == q3);
        },
        Endianness::Big => {
            assert(bytes[3] == v % 0x100 && bytes[2] == q1 % 0x100 && bytes[1] == q2 % 0x100
                && bytes[0] == q3);
        },
    }
}

/// The bytes of a number hold that number.
pub proof fn lemma_u16_bytes_round_trip(v: u16, endianness: Endianness)
    ensures
        u16_bytes(v, endianness).len() == 2,
        spec_u16(u16_bytes(v, endianness), endianness) == v,
{
    reveal(u16_bytes);
}

/// A number is read back from where its bytes stand.
pub proof fn lemma_u32_at_bytes(data: Seq<u8>, at: int, v: u32, endianness: Endianness)
    requires
        0 <= at,
        at + 4 <= data.len(),
        data.subrange(at, at + 4) == u32_bytes(v, endianness),
    ensures
        u32_at(data, at, endianness) == v,
{
    lemma_u32_bytes_round_trip(v, endianness);
}

/// The eight bytes that hold `v` in the given byte order.
#[verifier::opaque]
pub open spec fn u64_bytes(v: u64, endianness: Endianness) -> Seq<u8> {
    match endianness {
        Endianness::Little => u32_bytes((v % 0x1_0000_0000) as u32, endianness) + u32_bytes(
            (v / 0x1_0000_0000) as u32,
            endianness,
        ),
        Endianness::Big => u32_bytes((v / 0x1_0000_0000) as u32, endianness) + u32_bytes(
            (v % 0x1_0000_0000) as u32,
            endianness,
        ),
    }
}

/// Appends a 64-bit number with `byteordered::ByteOrdered::write_u64`.
///
/// Trusted: writing to a vector does not fail and appends the eight bytes of
/// the number in the byte order asked for.
#[verifier::external_body]
pub(crate) fn write_u64(out: &mut Vec<u8>, v: u64, endianness: Endianness)
    ensures
        final(out)@ == old(out)@ + u64_bytes(v, endianness),
{
    let order = match endianness {
        Endianness::Big => byteordered::Endianness::Big,
        Endianness::Little => byteordered::Endianness::Little,
    };
    ByteOrdered::runtime(out, order).write_u64(v).unwrap()
}

/// The bytes of a number hold that number.
pub proof fn lemma_u64_bytes_round_trip(v: u64, endianness: Endianness)
    ensures
        u64_bytes(v, endianness).len() == 8,
        spec_u64(u64_bytes(v, endianness), endianness) == v,
{
    reveal(u64_bytes);
    let low = (v % 0x1_0000_0000) as u32;
    let high = (v / 0x1_0000_0000) as u32;
    let bytes = u64_bytes(v, endianness);
    lemma_u32_bytes_round_trip(low, endianness);
    lemma_u32_bytes_round_trip(high, endianness);
    match endianness {
        Endianness::Little => {
            assert(bytes.skip(4) =~= u32_bytes(high, endianness));
            assert(bytes.subrange(0, 4) =~= u32_bytes(low, endianness));
            assert(spec_u32(bytes, endianness) == spec_u32(bytes.subrange(0, 4), endianness));
        },
        Endianness::Big => {
            assert(bytes.skip(4) =~= u32_bytes(low, endianness));
            assert(bytes.subrange(0, 4) =~= u32_bytes(high, endianness));
            assert(spec_u32(bytes, endianness) == spec_u32(bytes.subrange(0, 4), endianness));
        },
    }
}

/// A number is read back from where its bytes stand.
pub proof fn lemma_u64_at_bytes(data: Seq<u8>, at: int, v: u64, endianness: Endianness)
    requires
        0 <= at,
        at + 8 <= data.len(),
        data.subrange(at, at + 8) == u64_bytes(v, endianness),
    ensures
        u64_at(data, at, endianness) == v,
{
    lemma_u64_bytes_round_trip(v, endianness);
}

/// A number is read back from where its bytes stand.
pub proof fn lemma_u16_at_bytes(data: Seq<u8>, at: int, v: u16, endianness: Endianness)
    requires
        0 <= at,
        at + 2 <= data.len(),
        data.subrange(at, at + 2) == u16_bytes(v, endianness),
    ensures
        u16_at(data, at, endianness) == v,
{
    lemma_u16_bytes_round_trip(v, endianness);
}

/// `std::io::Error`, the error of std's readers and writers. It is carried
/// through as it is; nothing is known of what it holds.
#[verifier::external_type_specification]
#[verifier::external_body]
pub struct ExIoError(std::io::Error);

/// Makes the error that std's readers give where data ends too early:
/// `std::io::Error::from` on `ErrorKind::UnexpectedEof`.
///
/// Trusted: nothing is claimed of the value.
#[verifier::external_body]
pub(crate) fn unexpected_eof() -> std::io::Error {
    std::io::Error::from(std::io::ErrorKind::UnexpectedEof)
}

/// Turns bytes into a string with `String::from_utf8`.
///
/// Trusted: the call succeeds on valid UTF-8 and on nothing else, and the
/// string that it gives holds the bytes that it was given.
#[verifier::external_body]
pub(crate) fn string_from_utf8(bytes: Vec<u8>) -> (r: Option<String>)
    ensures
        match r {
            Some(s) => vstd::utf8::valid_utf8(bytes@) && vstd::utf8::encode_utf8(s@) == bytes@,
            None => !vstd::utf8::valid_utf8(bytes@),
        },
{
    String::from_utf8(bytes).ok()
}

/// What one read of a zlib decoder over `raw` leaves in a zeroed buffer of
/// `capacity` bytes, or `None` where the decoder reports an error.
pub uninterp spec fn zlib_read(raw: Seq<u8>, capacity: nat) -> Option<Seq<u8>>;

/// Decompresses `raw` with one `read` of `flate2::read::ZlibDecoder` into a
/// zeroed buffer of `capacity` bytes.
///
/// Trusted: the buffer that comes back has `capacity` bytes, and both the
/// outcome and the bytes depend on `raw` and `capacity` alone. Nothing is
/// claimed about what the bytes are. A buffer of more bytes than a vector
/// can hold is not asked for.
#[verifier::external_body]
fn inflate(raw: &[u8], capacity: usize) -> (r: Result<Vec<u8>, std::io::Error>)
    requires
        capacity <= isize::MAX,
    ensures
        match r {
            Ok(buf) => zlib_read(raw@, capacity as nat) == Some(buf@) && buf@.len() == capacity,
            Err(_) => zlib_read(raw@, capacity as nat) is None,
        },
{
    let mut buf = vec![0u8; capacity];
    let mut decoder = ZlibDecoder::new(raw);
    decoder.read(&mut buf)?;
    Ok(buf)
}

/// The uncompressed payload of a block whose stored bytes are `raw`: with a
/// buffer size of zero the file is not compressed and the payload is `raw`
/// itself; else it is what decompression into a buffer of that size gives.
/// There is no payload where decompression fails or the buffer would be
/// larger than a vector can be.
pub open spec fn spec_block_data(raw: Seq<u8>, uncompress_buf_size: nat) -> Option<Seq<u8>> {
    if uncompress_buf_size == 0 {
        Some(raw)
    } else if uncompress_buf_size > isize::MAX {
        None
    } else {
        zlib_read(raw, uncompress_buf_size)
    }
}

/// Turns the stored bytes of a block into its payload, or gives `None` where
/// there is none.
pub fn get_block_data(raw: &[u8], uncompress_buf_size: usize) -> (r: Option<Vec<u8>>)
    ensures
        match r {
            Some(payload) => spec_block_data(raw@, uncompress_buf_size as nat) == Some(payload@),
            None => spec_block_data(raw@, uncompress_buf_size as nat) is None,
        },
{
    if uncompress_buf_size == 0 {
        Some(vstd::slice::slice_to_vec(raw))
    } else if uncompress_buf_size > isize::MAX as usize {
        None
    } else {
        match inflate(raw, uncompress_buf_size) {
            Ok(payload) => Some(payload),
            Err(_) => None,
        }
    }
}

} // verus!
