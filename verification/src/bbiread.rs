//! What BigWig and BigBed readers share: the file header, the chromosome
//! table, the block index and the errors of the read path.

use crate::bedline::{string_from_chars, to_chars};
use crate::bigwig::BBIFile;
use crate::codec::{string_from_utf8, unexpected_eof};
use crate::codec::{get_u16, get_u32, get_u64, get_u8, u16_at, u32_at, u64_at, u8_at, Endianness};
use vstd::prelude::*;
use vstd::slice::{slice_subrange, slice_to_vec};
use vstd::utf8::{decode_utf8, valid_utf8};

verus! {

/// Why a read of an attached file failed.
#[derive(Clone, Copy, Debug, PartialEq, Eq, Structural)]
pub enum BBIReadError {
    /// The data ends before a field that the format announces.
    UnexpectedEof,
    /// A BigWig section names a type that is none of the three known ones.
    UnknownSectionType(u8),
    /// A position derived from a section header does not fit in 32 bits.
    PositionOverflow,
    /// The chromosome is not in the file's chromosome table.
    UnknownChrom,
    /// No zoom level has the reduction level asked for.
    UnknownZoomLevel,
    /// The block index does not start with its magic number.
    BadIndexMagic,
    /// The block index is nested deeper than any index of a valid file.
    IndexTooDeep,
    /// The stored bytes of a block could not be decompressed.
    Decompress,
}

/// Where the stored bytes of one data block lie in the file.
#[derive(Clone, Copy, Debug, PartialEq, Eq, Structural)]
pub struct Block {
    pub offset: u64,
    pub size: u64,
}

/// Magic number of a BigWig file.
pub const BIGWIG_MAGIC: u32 = 0x888F_FC26;

/// Magic number of a BigBed file.
pub const BIGBED_MAGIC: u32 = 0x8789_F2EB;

/// Magic number of the chromosome tree.
pub const CHROM_TREE_MAGIC: u32 = 0x78CA_8C91;

/// Magic number of the block index.
pub const CIR_TREE_MAGIC: u32 = 0x2468_ACE0;

/// Bytes of the header that starts a file.
pub const HEADER_SIZE: usize = 64;

/// Bytes of the header of one zoom level.
pub const ZOOM_HEADER_SIZE: usize = 24;

/// The fixed header of a file, and the byte order that its magic number
/// showed.
#[derive(Clone, Copy, Debug, PartialEq, Eq, Structural)]
pub struct BBIHeader {
    pub endianness: Endianness,
    pub version: u16,
    pub zoom_levels: u16,
    pub chrom_tree_offset: u64,
    pub full_data_offset: u64,
    pub full_index_offset: u64,
    pub field_count: u16,
    pub defined_field_count: u16,
    pub auto_sql_offset: u64,
    pub total_summary_offset: u64,
    pub uncompress_buf_size: u32,
}

/// The header of one zoom level: its bin width and where its data and its
/// index start.
#[derive(Clone, Copy, Debug, PartialEq, Eq, Structural)]
pub struct ZoomHeader {
    pub reduction_level: u32,
    pub data_offset: u64,
    pub index_offset: u64,
}

/// The aggregate over all records of a file. The four statistics hold the
/// bit patterns of double-precision numbers.
#[derive(Clone, Copy, Debug, PartialEq, Eq, Structural)]
pub struct Summary {
    pub total_items: u64,
    pub bases_covered: u64,
    pub min_val: u64,
    pub max_val: u64,
    pub sum: u64,
    pub sum_squares: u64,
}

/// The file type and byte order that the first four bytes of a file show:
/// a magic number as it stands means little-endian, byte-reversed it means
/// big-endian, and anything else is no BBI file.
pub open spec fn spec_filetype(data: Seq<u8>) -> Option<(BBIFile, Endianness)> {
    if u32_at(data, 0, Endianness::Little) == BIGWIG_MAGIC {
        Some((BBIFile::BigWig, Endianness::Little))
    } else if u32_at(data, 0, Endianness::Big) == BIGWIG_MAGIC {
        Some((BBIFile::BigWig, Endianness::Big))
    } else if u32_at(data, 0, Endianness::Little) == BIGBED_MAGIC {
        Some((BBIFile::BigBed, Endianness::Little))
    } else if u32_at(data, 0, Endianness::Big) == BIGBED_MAGIC {
        Some((BBIFile::BigBed, Endianness::Big))
    } else {
        None
    }
}

/// The fields of the 64-byte header, read in the given byte order.
pub open spec fn spec_header_fields(data: Seq<u8>, endianness: Endianness) -> BBIHeader {
    BBIHeader {
        endianness,
        version: u16_at(data, 4, endianness),
        zoom_levels: u16_at(data, 6, endianness),
        chrom_tree_offset: u64_at(data, 8, endianness),
        full_data_offset: u64_at(data, 16, endianness),
        full_index_offset: u64_at(data, 24, endianness),
        field_count: u16_at(data, 32, endianness),
        defined_field_count: u16_at(data, 34, endianness),
        auto_sql_offset: u64_at(data, 36, endianness),
        total_summary_offset: u64_at(data, 44, endianness),
        uncompress_buf_size: u32_at(data, 52, endianness),
    }
}

/// Why the start of a file cannot be read.
#[derive(Clone, Copy, Debug, PartialEq, Eq, Structural)]
pub enum InfoProblem {
    /// The data ends before what the format announces.
    Truncated,
    /// The first four bytes are neither magic number, in either byte order.
    UnknownMagic,
    /// The chromosome tree cannot be read.
    InvalidChroms,
}

/// The file type and the header that a file starts with.
pub open spec fn spec_read_header(data: Seq<u8>) -> Result<(BBIFile, BBIHeader), InfoProblem> {
    if data.len() < 4 {
        Err(InfoProblem::Truncated)
    } else {
        match spec_filetype(data) {
            None => Err(InfoProblem::UnknownMagic),
            Some((filetype, endianness)) => if data.len() < 64 {
                Err(InfoProblem::Truncated)
            } else {
                Ok((filetype, spec_header_fields(data, endianness)))
            },
        }
    }
}

/// Reads the file type and the header from the start of a file.
pub fn read_header(data: &[u8]) -> (r: Result<(BBIFile, BBIHeader), InfoProblem>)
    ensures
        r == spec_read_header(data@),
{
    let magic_le = match get_u32(data, 0, Endianness::Little) {
        Some(magic) => magic,
        None => {
            return Err(InfoProblem::Truncated);
        },
    };
    let magic_be = get_u32(data, 0, Endianness::Big).unwrap();
    let (filetype, endianness) = if magic_le == BIGWIG_MAGIC {
        (BBIFile::BigWig, Endianness::Little)
    } else if magic_be == BIGWIG_MAGIC {
        (BBIFile::BigWig, Endianness::Big)
    } else if magic_le == BIGBED_MAGIC {
        (BBIFile::BigBed, Endianness::Little)
    } else if magic_be == BIGBED_MAGIC {
        (BBIFile::BigBed, Endianness::Big)
    } else {
        return Err(InfoProblem::UnknownMagic);
    };
    if data.len() < HEADER_SIZE {
        return Err(InfoProblem::Truncated);
    }
    let header = BBIHeader {
        endianness,
        version: get_u16(data, 4, endianness).unwrap(),
        zoom_levels: get_u16(data, 6, endianness).unwrap(),
        chrom_tree_offset: get_u64(data, 8, endianness).unwrap(),
        full_data_offset: get_u64(data, 16, endianness).unwrap(),
        full_index_offset: get_u64(data, 24, endianness).unwrap(),
        field_count: get_u16(data, 32, endianness).unwrap(),
        defined_field_count: get_u16(data, 34, endianness).unwrap(),
        auto_sql_offset: get_u64(data, 36, endianness).unwrap(),
        total_summary_offset: get_u64(data, 44, endianness).unwrap(),
        uncompress_buf_size: get_u32(data, 52, endianness).unwrap(),
    };
    Ok((filetype, header))
}

/// The header of zoom level `i`, which starts `24 * i` bytes after the file's
/// header.
pub open spec fn spec_zoom_header(data: Seq<u8>, endianness: Endianness, i: int) -> ZoomHeader {
    ZoomHeader {
        reduction_level: u32_at(data, 64 + 24 * i, endianness),
        data_offset: u64_at(data, 64 + 24 * i + 8, endianness),
        index_offset: u64_at(data, 64 + 24 * i + 16, endianness),
    }
}

/// The headers of the first `n` zoom levels, or `None` where the data ends
/// before the last of them.
pub open spec fn spec_zoom_headers(data: Seq<u8>, endianness: Endianness, n: nat) -> Option<
    Seq<ZoomHeader>,
> {
    if 64 + 24 * n > data.len() {
        None
    } else {
        Some(Seq::new(n, |i: int| spec_zoom_header(data, endianness, i)))
    }
}

/// Reads the headers of the first `n` zoom levels.
pub fn read_zoom_headers(data: &[u8], endianness: Endianness, n: u16) -> (r: Option<
    Vec<ZoomHeader>,
>)
    ensures
        match r {
            Some(headers) => spec_zoom_headers(data@, endianness, n as nat) == Some(headers@),
            None => spec_zoom_headers(data@, endianness, n as nat) is None,
        },
{
    let count: usize = n as usize;
    if data.len() < HEADER_SIZE + ZOOM_HEADER_SIZE * count {
        return None;
    }
    let mut headers: Vec<ZoomHeader> = Vec::new();
    let mut i: usize = 0;
    while i < count
        invariant
            i <= count,
            count == n,
            64 + 24 * count <= data@.len(),
            headers@.len() == i,
            forall|k: int|
                0 <= k < i ==> #[trigger] headers@[k] == spec_zoom_header(data@, endianness, k),
        decreases count - i,
    {
        let at: usize = HEADER_SIZE + ZOOM_HEADER_SIZE * i;
        let header = ZoomHeader {
            reduction_level: get_u32(data, at, endianness).unwrap(),
            data_offset: get_u64(data, at + 8, endianness).unwrap(),
            index_offset: get_u64(data, at + 16, endianness).unwrap(),
        };
        headers.push(header);
        i = i + 1;
    }
    assert(headers@ =~= Seq::new(n as nat, |i: int| spec_zoom_header(data@, endianness, i)));
    Some(headers)
}

/// The first zoom level with the given reduction level, if there is one.
pub open spec fn spec_find_zoom(headers: Seq<ZoomHeader>, reduction_level: u32) -> Option<
    ZoomHeader,
>
    decreases headers.len(),
{
    if headers.len() == 0 {
        None
    } else if headers[0].reduction_level == reduction_level {
        Some(headers[0])
    } else {
        spec_find_zoom(headers.skip(1), reduction_level)
    }
}

/// Finds the zoom level whose reduction level is exactly the one asked for.
pub fn find_zoom_header(headers: &Vec<ZoomHeader>, reduction_level: u32) -> (r: Option<
    ZoomHeader,
>)
    ensures
        r == spec_find_zoom(headers@, reduction_level),
        r matches Some(header) ==> header.reduction_level == reduction_level && headers@.contains(
            header,
        ),
        r is None ==> forall|i: int|
            0 <= i < headers@.len() ==> (#[trigger] headers@[i]).reduction_level
                != reduction_level,
{
    let mut i: usize = 0;
    assert(headers@.skip(0) == headers@);
    while i < headers.len()
        invariant
            i <= headers@.len(),
            spec_find_zoom(headers@, reduction_level) == spec_find_zoom(
                headers@.skip(i as int),
                reduction_level,
            ),
            forall|k: int|
                0 <= k < i ==> (#[trigger] headers@[k]).reduction_level != reduction_level,
        decreases headers@.len() - i,
    {
        assert(headers@.skip(i as int)[0] == headers@[i as int]);
        if headers[i].reduction_level == reduction_level {
            return Some(headers[i]);
        }
        assert(headers@.skip(i as int).skip(1) == headers@.skip(i + 1));
        i = i + 1;
    }
    None
}

/// The part of `data` that starts at `offset` and has `size` bytes, if
/// `data` reaches that far.
pub open spec fn spec_slice_at(data: Seq<u8>, offset: u64, size: u64) -> Option<Seq<u8>> {
    if offset + size <= data.len() {
        Some(data.subrange(offset as int, offset + size))
    } else {
        None
    }
}

/// Cuts `size` bytes at `offset` out of `data`.
pub fn slice_at(data: &[u8], offset: u64, size: u64) -> (r: Option<&[u8]>)
    ensures
        match r {
            Some(part) => spec_slice_at(data@, offset, size) == Some(part@),
            None => spec_slice_at(data@, offset, size) is None,
        },
{
    let len: u64 = data.len() as u64;
    if offset > len || size > len - offset {
        return None;
    }
    Some(slice_subrange(data, offset as usize, (offset + size) as usize))
}

/// The summary of a file: five 8-byte fields at the summary offset, and the
/// count of all items, which stands at the start of the data.
pub open spec fn spec_summary(data: Seq<u8>, header: BBIHeader) -> Option<Summary> {
    if header.total_summary_offset + 40 > data.len() || header.full_data_offset + 8 > data.len() {
        None
    } else {
        let at = header.total_summary_offset as int;
        Some(
            Summary {
                total_items: u64_at(data, header.full_data_offset as int, header.endianness),
                bases_covered: u64_at(data, at, header.endianness),
                min_val: u64_at(data, at + 8, header.endianness),
                max_val: u64_at(data, at + 16, header.endianness),
                sum: u64_at(data, at + 24, header.endianness),
                sum_squares: u64_at(data, at + 32, header.endianness),
            },
        )
    }
}

/// Reads the summary of a file.
pub fn read_summary(data: &[u8], header: &BBIHeader) -> (r: Option<Summary>)
    ensures
        r == spec_summary(data@, *header),
{
    let len: u64 = data.len() as u64;
    if len < 40 || header.total_summary_offset > len - 40 || len < 8 || header.full_data_offset
        > len - 8 {
        return None;
    }
    let at: usize = header.total_summary_offset as usize;
    let e = header.endianness;
    Some(
        Summary {
            total_items: get_u64(data, header.full_data_offset as usize, e).unwrap(),
            bases_covered: get_u64(data, at, e).unwrap(),
            min_val: get_u64(data, at + 8, e).unwrap(),
            max_val: get_u64(data, at + 16, e).unwrap(),
            sum: get_u64(data, at + 24, e).unwrap(),
            sum_squares: get_u64(data, at + 32, e).unwrap(),
        },
    )
}

/// One chromosome of a file: its name, its id and its length in bases.
#[derive(Clone, Debug, PartialEq)]
pub struct ChromInfo {
    pub name: String,
    pub id: u32,
    pub length: u32,
}

/// A `ChromInfo` as contracts see it.
pub ghost struct ChromInfoView {
    pub name: Seq<char>,
    pub id: u32,
    pub length: u32,
}

impl View for ChromInfo {
    type V = ChromInfoView;

    open spec fn view(&self) -> ChromInfoView {
        ChromInfoView { name: self.name@, id: self.id, length: self.length }
    }
}

/// A chromosome's name and length.
#[derive(Clone, Debug, PartialEq)]
pub struct ChromAndSize {
    pub name: String,
    pub length: u32,
}

impl View for ChromAndSize {
    type V = (Seq<char>, u32);

    open spec fn view(&self) -> (Seq<char>, u32) {
        (self.name@, self.length)
    }
}

/// Bytes of the header that stands before the root of the chromosome tree.
pub const CHROM_TREE_HEADER_SIZE: u64 = 32;

/// The deepest chromosome tree that is read.
pub const MAX_CHROM_TREE_DEPTH: u32 = 64;

/// Where the NUL characters end that `s` has from position `i` on.
pub open spec fn skip_nul(s: Seq<char>, i: int) -> int
    decreases s.len() - i,
{
    if 0 <= i < s.len() && s[i] == '\0' {
        skip_nul(s, i + 1)
    } else {
        i
    }
}

/// Where the NUL characters start that `s` has before position `j`, not
/// going back further than `from`.
pub open spec fn skip_nul_back(s: Seq<char>, from: int, j: int) -> int
    decreases j,
{
    if 0 <= from < j <= s.len() && s[j - 1] == '\0' {
        skip_nul_back(s, from, j - 1)
    } else {
        j
    }
}

/// `s` without the NUL characters at its start and at its end.
pub open spec fn trim_nul(s: Seq<char>) -> Seq<char> {
    s.subrange(skip_nul(s, 0), skip_nul_back(s, skip_nul(s, 0), s.len() as int))
}

/// The name that a key of the chromosome tree holds: the key is UTF-8, and
/// the NUL characters that pad it are no part of the name.
pub open spec fn chrom_name(key: Seq<u8>) -> Option<Seq<char>> {
    if valid_utf8(key) {
        Some(trim_nul(decode_utf8(key)))
    } else {
        None
    }
}

/// Reads the name out of a key of the chromosome tree.
fn read_chrom_name(key: &[u8]) -> (r: Option<String>)
    ensures
        match r {
            Some(name) => chrom_name(key@) == Some(name@),
            None => chrom_name(key@) is None,
        },
{
    let padded = match string_from_utf8(slice_to_vec(key)) {
        Some(padded) => padded,
        None => {
            return None;
        },
    };
    proof {
        vstd::utf8::encode_utf8_decode_utf8(padded@);
    }
    let chars = to_chars(padded.as_str());
    let mut a: usize = 0;
    while a < chars.len() && chars[a] == '\0'
        invariant
            a <= chars@.len(),
            skip_nul(chars@, 0) == skip_nul(chars@, a as int),
        decreases chars@.len() - a,
    {
        a = a + 1;
    }
    let mut b: usize = chars.len();
    while b > a && chars[b - 1] == '\0'
        invariant
            a <= b <= chars@.len(),
            skip_nul_back(chars@, a as int, chars@.len() as int) == skip_nul_back(
                chars@,
                a as int,
                b as int,
            ),
        decreases b,
    {
        b = b - 1;
    }
    let mut name: Vec<char> = Vec::new();
    let mut i: usize = a;
    while i < b
        invariant
            a <= i <= b <= chars@.len(),
            name@ == chars@.subrange(a as int, i as int),
        decreases b - i,
    {
        name.push(chars[i]);
        i = i + 1;
    }
    Some(string_from_chars(&name))
}

/// The chromosome that the leaf item at `at` holds: a key of `key_size`
/// bytes, then the id and the length.
pub open spec fn chrom_leaf_item(
    data: Seq<u8>,
    endianness: Endianness,
    key_size: nat,
    at: int,
) -> Option<ChromInfoView> {
    match chrom_name(data.subrange(at, at + key_size)) {
        None => None,
        Some(name) => Some(
            ChromInfoView {
                name,
                id: u32_at(data, at + key_size, endianness),
                length: u32_at(data, at + key_size + 4, endianness),
            },
        ),
    }
}

/// The chromosomes of the first `n` items of the leaf whose items start at
/// `base`, or `None` where a key holds no name.
pub open spec fn chrom_leaf_items(
    data: Seq<u8>,
    endianness: Endianness,
    key_size: nat,
    base: int,
    n: nat,
) -> Option<Seq<ChromInfoView>>
    decreases n,
{
    if n == 0 {
        Some(Seq::empty())
    } else {
        match chrom_leaf_items(data, endianness, key_size, base, (n - 1) as nat) {
            None => None,
            Some(items) => match chrom_leaf_item(
                data,
                endianness,
                key_size,
                base + (key_size + 8) * (n - 1),
            ) {
                None => None,
                Some(item) => Some(items.push(item)),
            },
        }
    }
}

/// The chromosomes below the node at `offset` of the chromosome tree, in the
/// order of the tree, or `None` where the tree cannot be read that far or is
/// deeper than `depth`.
pub open spec fn chrom_node(
    data: Seq<u8>,
    endianness: Endianness,
    key_size: nat,
    offset: int,
    depth: nat,
) -> Option<Seq<ChromInfoView>>
    decreases depth, 0nat,
{
    if depth == 0 || offset < 0 || offset + 4 > data.len() {
        None
    } else {
        let count = u16_at(data, offset + 2, endianness) as nat;
        if offset + 4 + (key_size + 8) * count > data.len() {
            None
        } else if u8_at(data, offset) == 1 {
            chrom_leaf_items(data, endianness, key_size, offset + 4, count)
        } else {
            chrom_children(data, endianness, key_size, offset + 4, count, (depth - 1) as nat)
        }
    }
}

/// The chromosomes below the first `n` items of the inner node whose items
/// start at `base`: each item is a key and the offset of a child.
pub open spec fn chrom_children(
    data: Seq<u8>,
    endianness: Endianness,
    key_size: nat,
    base: int,
    n: nat,
    depth: nat,
) -> Option<Seq<ChromInfoView>>
    decreases depth, n,
{
    if n == 0 {
        Some(Seq::empty())
    } else {
        match chrom_children(data, endianness, key_size, base, (n - 1) as nat, depth) {
            None => None,
            Some(items) => match chrom_node(
                data,
                endianness,
                key_size,
                u64_at(data, base + (key_size + 8) * (n - 1) + key_size, endianness) as int,
                depth,
            ) {
                None => None,
                Some(below) => Some(items + below),
            },
        }
    }
}

/// The chromosomes of a file: the tree starts with its magic number, its
/// values are 8 bytes wide, and its root follows its header.
pub open spec fn spec_chrom_tree(data: Seq<u8>, header: BBIHeader) -> Option<Seq<ChromInfoView>> {
    let at = header.chrom_tree_offset as int;
    if at + 32 > data.len() {
        None
    } else if u32_at(data, at, header.endianness) != CHROM_TREE_MAGIC {
        None
    } else if u32_at(data, at + 12, header.endianness) != 8 {
        None
    } else {
        chrom_node(
            data,
            header.endianness,
            u32_at(data, at + 8, header.endianness) as nat,
            at + 32,
            MAX_CHROM_TREE_DEPTH as nat,
        )
    }
}

/// The views of a list of chromosomes.
pub open spec fn chrom_views(chroms: Seq<ChromInfo>) -> Seq<ChromInfoView> {
    chroms.map_values(|c: ChromInfo| c@)
}

/// Once a leaf item holds no name, no longer run of items gives a list.
proof fn lemma_chrom_leaf_items_none(
    data: Seq<u8>,
    endianness: Endianness,
    key_size: nat,
    base: int,
    i: nat,
    n: nat,
)
    requires
        i < n,
        chrom_leaf_item(data, endianness, key_size, base + (key_size + 8) * i) is None,
    ensures
        chrom_leaf_items(data, endianness, key_size, base, n) is None,
    decreases n,
{
    if n > i + 1 {
        lemma_chrom_leaf_items_none(data, endianness, key_size, base, i, (n - 1) as nat);
    }
}

/// Once a child cannot be read, no longer run of children gives a list.
proof fn lemma_chrom_children_none(
    data: Seq<u8>,
    endianness: Endianness,
    key_size: nat,
    base: int,
    i: nat,
    n: nat,
    depth: nat,
)
    requires
        i < n,
        chrom_node(
            data,
            endianness,
            key_size,
            u64_at(data, base + (key_size + 8) * i + key_size, endianness) as int,
            depth,
        ) is None,
    ensures
        chrom_children(data, endianness, key_size, base, n, depth) is None,
    decreases n,
{
    if n > i + 1 {
        lemma_chrom_children_none(data, endianness, key_size, base, i, (n - 1) as nat, depth);
    }
}

/// Reads the node at `offset` of the chromosome tree and what lies below it,
/// and appends the chromosomes to `chroms`.
fn read_chrom_tree_block(
    data: &[u8],
    endianness: Endianness,
    key_size: u32,
    offset: u64,
    depth: u32,
    chroms: &mut Vec<ChromInfo>,
) -> (r: bool)
    ensures
        match chrom_node(data@, endianness, key_size as nat, offset as int, depth as nat) {
            Some(found) => r && chrom_views(final(chroms)@) == chrom_views(old(chroms)@) + found,
            None => !r,
        },
    decreases depth,
{
    if depth == 0 {
        return false;
    }
    let len: u64 = data.len() as u64;
    if len < 4 || offset > len - 4 {
        return false;
    }
    let at: usize = offset as usize;
    let is_leaf = get_u8(data, at, endianness).unwrap();
    let count_u16 = get_u16(data, at + 2, endianness).unwrap();
    let count: usize = count_u16 as usize;
    let item_size: u64 = key_size as u64 + 8;
    assert(item_size * (count_u16 as u64) <= 0x1_0000_0007 * 0xffff) by (nonlinear_arith)
        requires
            item_size <= 0x1_0000_0007,
            count_u16 <= 0xffff,
    ;
    if item_size * (count_u16 as u64) > len - 4 - offset {
        return false;
    }
    let ghost ks = key_size as nat;
    let ghost node = chrom_node(data@, endianness, ks, offset as int, depth as nat);
    if count == 0 {
        assert(chrom_views(chroms@) + Seq::<ChromInfoView>::empty() =~= chrom_views(chroms@));
        return true;
    }
    assert(item_size <= item_size * (count_u16 as u64)) by (nonlinear_arith)
        requires
            count_u16 >= 1,
    ;
    let base: usize = at + 4;
    let key_len: usize = key_size as usize;
    let step: usize = key_len + 8;
    let ghost before = chrom_views(chroms@);
    let mut i: usize = 0;
    let mut item_at: usize = base;
    assert(item_at == base + (ks + 8) * i) by (nonlinear_arith)
        requires
            i == 0,
            item_at == base,
    ;
    if is_leaf == 1 {
        let ghost mut found: Seq<ChromInfoView> = Seq::empty();
        while i < count
            invariant
                i <= count,
                step == ks + 8,
                key_len == ks,
                item_at == base + (ks + 8) * i,
                base + (ks + 8) * count <= data@.len() <= usize::MAX,
                ks == key_size,
                node == chrom_node(data@, endianness, ks, offset as int, depth as nat),
                node == chrom_leaf_items(data@, endianness, ks, base as int, count as nat),
                chrom_views(chroms@) == before + found,
                chrom_leaf_items(data@, endianness, ks, base as int, i as nat) == Some(found),
            decreases count - i,
        {
            assert((ks + 8) * (i + 1) == (ks + 8) * i + (ks + 8) && (ks + 8) * (i + 1) <= (ks + 8)
                * count) by (nonlinear_arith)
                requires
                    i < count,
            ;
            let key = slice_subrange(data, item_at, item_at + key_len);
            match read_chrom_name(key) {
                None => {
                    proof {
                        lemma_chrom_leaf_items_none(
                            data@,
                            endianness,
                            ks,
                            base as int,
                            i as nat,
                            count as nat,
                        );
                    }
                    return false;
                },
                Some(name) => {
                    let id = get_u32(data, item_at + key_len, endianness).unwrap();
                    let length = get_u32(data, item_at + key_len + 4, endianness).unwrap();
                    let chrom = ChromInfo { name, id, length };
                    proof {
                        assert(chrom_leaf_item(data@, endianness, ks, base + (ks + 8) * i) == Some(
                            chrom@,
                        ));
                        assert(chrom_views(chroms@.push(chrom)) =~= chrom_views(chroms@).push(
                            chrom@,
                        ));
                        assert(before + found.push(chrom@) =~= (before + found).push(chrom@));
                        found = found.push(chrom@);
                    }
                    chroms.push(chrom);
                },
            }
            i = i + 1;
            item_at = item_at + step;
        }
        true
    } else {
        let ghost mut found: Seq<ChromInfoView> = Seq::empty();
        while i < count
            invariant
                i <= count,
                depth > 0,
                step == ks + 8,
                key_len == ks,
                ks == key_size,
                item_at == base + (ks + 8) * i,
                base + (ks + 8) * count <= data@.len() <= usize::MAX,
                node == chrom_node(data@, endianness, ks, offset as int, depth as nat),
                node == chrom_children(
                    data@,
                    endianness,
                    ks,
                    base as int,
                    count as nat,
                    (depth - 1) as nat,
                ),
                chrom_views(chroms@) == before + found,
                chrom_children(
                    data@,
                    endianness,
                    ks,
                    base as int,
                    i as nat,
                    (depth - 1) as nat,
                ) == Some(found),
            decreases count - i,
        {
            assert((ks + 8) * (i + 1) == (ks + 8) * i + (ks + 8) && (ks + 8) * (i + 1) <= (ks + 8)
                * count) by (nonlinear_arith)
                requires
                    i < count,
            ;
            let child = get_u64(data, item_at + key_len, endianness).unwrap();
            assert(child == u64_at(data@, base + (ks + 8) * i + ks, endianness));
            if !read_chrom_tree_block(data, endianness, key_size, child, depth - 1, chroms) {
                proof {
                    lemma_chrom_children_none(
                        data@,
                        endianness,
                        ks,
                        base as int,
                        i as nat,
                        count as nat,
                        (depth - 1) as nat,
                    );
                }
                return false;
            }
            proof {
                let below = chrom_node(
                    data@,
                    endianness,
                    ks,
                    child as int,
                    (depth - 1) as nat,
                )->Some_0;
                assert(before + (found + below) =~= (before + found) + below);
                found = found + below;
            }
            i = i + 1;
            item_at = item_at + step;
        }
        true
    }
}

/// Reads the chromosomes of a file.
pub fn read_chrom_tree(data: &[u8], header: &BBIHeader) -> (r: Option<Vec<ChromInfo>>)
    ensures
        match r {
            Some(chroms) => spec_chrom_tree(data@, *header) == Some(chrom_views(chroms@)),
            None => spec_chrom_tree(data@, *header) is None,
        },
{
    let len: u64 = data.len() as u64;
    let at = header.chrom_tree_offset;
    if len < CHROM_TREE_HEADER_SIZE || at > len - CHROM_TREE_HEADER_SIZE {
        return None;
    }
    let e = header.endianness;
    let magic = get_u32(data, at as usize, e).unwrap();
    if magic != CHROM_TREE_MAGIC {
        return None;
    }
    let key_size = get_u32(data, at as usize + 8, e).unwrap();
    let val_size = get_u32(data, at as usize + 12, e).unwrap();
    if val_size != 8 {
        return None;
    }
    let mut chroms: Vec<ChromInfo> = Vec::new();
    if read_chrom_tree_block(
        data,
        e,
        key_size,
        at + CHROM_TREE_HEADER_SIZE,
        MAX_CHROM_TREE_DEPTH,
        &mut chroms,
    ) {
        proof {
            let found = chrom_node(
                data@,
                e,
                key_size as nat,
                at + 32,
                MAX_CHROM_TREE_DEPTH as nat,
            )->Some_0;
            assert(chrom_views(Seq::<ChromInfo>::empty()) + found =~= found);
        }
        Some(chroms)
    } else {
        None
    }
}

/// Why a file could not be attached.
#[derive(Debug)]
pub enum BBIFileReadInfoError {
    /// The first four bytes are neither magic number, in either byte order.
    UnknownMagic,
    /// The chromosome tree cannot be read.
    InvalidChroms,
    /// The file ends before what its header announces.
    IoError(std::io::Error),
}

/// What a `BBIFileReadInfoError` reports.
pub open spec fn info_problem(error: BBIFileReadInfoError) -> InfoProblem {
    match error {
        BBIFileReadInfoError::UnknownMagic => InfoProblem::UnknownMagic,
        BBIFileReadInfoError::InvalidChroms => InfoProblem::InvalidChroms,
        BBIFileReadInfoError::IoError(_) => InfoProblem::Truncated,
    }
}

/// What a reader knows of a file once it is attached.
#[derive(Clone, Debug)]
pub struct BBIFileInfo {
    pub filetype: BBIFile,
    pub header: BBIHeader,
    pub zoom_headers: Vec<ZoomHeader>,
    pub chrom_info: Vec<ChromInfo>,
}

/// A `BBIFileInfo` as contracts see it.
pub ghost struct BBIFileInfoView {
    pub filetype: BBIFile,
    pub header: BBIHeader,
    pub zoom_headers: Seq<ZoomHeader>,
    pub chrom_info: Seq<ChromInfoView>,
}

impl View for BBIFileInfo {
    type V = BBIFileInfoView;

    open spec fn view(&self) -> BBIFileInfoView {
        BBIFileInfoView {
            filetype: self.filetype,
            header: self.header,
            zoom_headers: self.zoom_headers@,
            chrom_info: chrom_views(self.chrom_info@),
        }
    }
}

/// What the start of a file says of it: its type and header, the headers of
/// its zoom levels and its chromosomes.
pub open spec fn spec_read_info(data: Seq<u8>) -> Result<BBIFileInfoView, InfoProblem> {
    match spec_read_header(data) {
        Err(problem) => Err(problem),
        Ok((filetype, header)) => match spec_zoom_headers(
            data,
            header.endianness,
            header.zoom_levels as nat,
        ) {
            None => Err(InfoProblem::Truncated),
            Some(zoom_headers) => match spec_chrom_tree(data, header) {
                None => Err(InfoProblem::InvalidChroms),
                Some(chrom_info) => Ok(
                    BBIFileInfoView { filetype, header, zoom_headers, chrom_info },
                ),
            },
        },
    }
}

/// Reads what a reader needs to know of a file from the file's bytes.
pub fn read_info(data: &[u8]) -> (r: Result<BBIFileInfo, BBIFileReadInfoError>)
    ensures
        match r {
            Ok(info) => spec_read_info(data@) == Ok::<BBIFileInfoView, InfoProblem>(info@),
            Err(e) => spec_read_info(data@) == Err::<BBIFileInfoView, InfoProblem>(
                info_problem(e),
            ),
        },
{
    let (filetype, header) = match read_header(data) {
        Ok(found) => found,
        Err(InfoProblem::UnknownMagic) => {
            return Err(BBIFileReadInfoError::UnknownMagic);
        },
        Err(InfoProblem::InvalidChroms) => {
            return Err(BBIFileReadInfoError::InvalidChroms);
        },
        Err(InfoProblem::Truncated) => {
            return Err(BBIFileReadInfoError::IoError(unexpected_eof()));
        },
    };
    let zoom_headers = match read_zoom_headers(data, header.endianness, header.zoom_levels) {
        Some(zoom_headers) => zoom_headers,
        None => {
            return Err(BBIFileReadInfoError::IoError(unexpected_eof()));
        },
    };
    let chrom_info = match read_chrom_tree(data, &header) {
        Some(chrom_info) => chrom_info,
        None => {
            return Err(BBIFileReadInfoError::InvalidChroms);
        },
    };
    Ok(BBIFileInfo { filetype, header, zoom_headers, chrom_info })
}

} // verus!
