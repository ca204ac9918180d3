//! Laying out a BigWig file in memory: the header, the summary, the
//! chromosome tree, the data blocks and the index, so that the reader finds
//! everything where the header says.

use crate::bbiread::{
    chrom_leaf_item, chrom_leaf_items, chrom_name, chrom_node, chrom_views, skip_nul,
    skip_nul_back, spec_chrom_tree, spec_filetype, spec_header_fields, spec_read_header, trim_nul,
    BBIHeader, ChromInfo, ChromInfoView, InfoProblem, BIGBED_MAGIC, BIGWIG_MAGIC,
    CHROM_TREE_MAGIC, MAX_CHROM_TREE_DEPTH,
};
use crate::bigwig::BBIFile;
use crate::bbiread::Summary;
use crate::bigwigwrite::{section_views, RawSection, RawSectionView};
use crate::cirtree::IndexEntry;
use crate::cirtreewrite::{
    below_root_size, extends, holds_index, index_bytes, index_header_offset,
    lemma_below_root_size_nonnegative, lemma_extends_subrange, lemma_extends_transitive,
    packs_within, write_cir_tree,
};
use crate::codec::{
    lemma_u16_at_bytes, lemma_u16_bytes_round_trip, lemma_u32_at_bytes,
    lemma_u32_bytes_round_trip, lemma_u64_at_bytes, lemma_u64_bytes_round_trip, spec_u32, u16_at,
    u16_bytes, u32_bytes, u64_bytes, u8_at, write_u16, write_u32, write_u64,
    Endianness,
};
use vstd::prelude::*;
use vstd::utf8::{encode_utf8};

verus! {

/// The magic number of a file type.
pub open spec fn magic_of(filetype: BBIFile) -> u32 {
    match filetype {
        BBIFile::BigWig => BIGWIG_MAGIC,
        BBIFile::BigBed => BIGBED_MAGIC,
    }
}

/// The 64 bytes of the header of a file, in the byte order that the header
/// names.
pub open spec fn header_bytes(filetype: BBIFile, header: BBIHeader) -> Seq<u8> {
    let e = header.endianness;
    u32_bytes(magic_of(filetype), e) + u16_bytes(header.version, e) + u16_bytes(
        header.zoom_levels,
        e,
    ) + u64_bytes(header.chrom_tree_offset, e) + u64_bytes(header.full_data_offset, e)
        + u64_bytes(header.full_index_offset, e) + u16_bytes(header.field_count, e) + u16_bytes(
        header.defined_field_count,
        e,
    ) + u64_bytes(header.auto_sql_offset, e) + u64_bytes(header.total_summary_offset, e)
        + u32_bytes(header.uncompress_buf_size, e) + u64_bytes(0, e)
}

/// Appends the header of a file.
pub fn write_header(out: &mut Vec<u8>, filetype: BBIFile, header: &BBIHeader)
    ensures
        final(out)@ == old(out)@ + header_bytes(filetype, *header),
{
    let e = header.endianness;
    let magic = match filetype {
        BBIFile::BigWig => BIGWIG_MAGIC,
        BBIFile::BigBed => BIGBED_MAGIC,
    };
    write_u32(out, magic, e);
    write_u16(out, header.version, e);
    write_u16(out, header.zoom_levels, e);
    write_u64(out, header.chrom_tree_offset, e);
    write_u64(out, header.full_data_offset, e);
    write_u64(out, header.full_index_offset, e);
    write_u16(out, header.field_count, e);
    write_u16(out, header.defined_field_count, e);
    write_u64(out, header.auto_sql_offset, e);
    write_u64(out, header.total_summary_offset, e);
    write_u32(out, header.uncompress_buf_size, e);
    write_u64(out, 0, e);
    assert(out@ =~= old(out)@ + header_bytes(filetype, *header));
}

/// A magic number that is written in one byte order is no magic number when
/// it is read in the other.
proof fn lemma_magic_in_other_order(filetype: BBIFile, endianness: Endianness)
    ensures
        spec_u32(u32_bytes(magic_of(filetype), endianness), endianness) == magic_of(filetype),
        endianness == Endianness::Big ==> spec_u32(
            u32_bytes(magic_of(filetype), endianness),
            Endianness::Little,
        ) != BIGWIG_MAGIC && spec_u32(
            u32_bytes(magic_of(filetype), endianness),
            Endianness::Little,
        ) != BIGBED_MAGIC,
        endianness == Endianness::Little ==> spec_u32(
            u32_bytes(magic_of(filetype), endianness),
            Endianness::Big,
        ) != BIGWIG_MAGIC && spec_u32(
            u32_bytes(magic_of(filetype), endianness),
            Endianness::Big,
        ) != BIGBED_MAGIC,
{
    reveal(u32_bytes);
    lemma_u32_bytes_round_trip(magic_of(filetype), endianness);
    let bytes = u32_bytes(magic_of(filetype), endianness);
    match filetype {
        BBIFile::BigWig => {
            match endianness {
                Endianness::Little => {
                    assert(bytes[0] == 0x26 && bytes[1] == 0xFC && bytes[2] == 0x8F && bytes[3]
                        == 0x88);
                },
                Endianness::Big => {
                    assert(bytes[3] == 0x26 && bytes[2] == 0xFC && bytes[1] == 0x8F && bytes[0]
                        == 0x88);
                },
            }
        },
        BBIFile::BigBed => {
            match endianness {
                Endianness::Little => {
                    assert(bytes[0] == 0xEB && bytes[1] == 0xF2 && bytes[2] == 0x89 && bytes[3]
                        == 0x87);
                },
                Endianness::Big => {
                    assert(bytes[3] == 0xEB && bytes[2] == 0xF2 && bytes[1] == 0x89 && bytes[0]
                        == 0x87);
                },
            }
        },
    }
}

/// The header takes 64 bytes.
pub proof fn lemma_header_bytes_len(filetype: BBIFile, header: BBIHeader)
    ensures
        header_bytes(filetype, header).len() == 64,
{
    let e = header.endianness;
    lemma_u32_bytes_round_trip(magic_of(filetype), e);
    lemma_u16_bytes_round_trip(header.version, e);
    lemma_u16_bytes_round_trip(header.zoom_levels, e);
    lemma_u64_bytes_round_trip(header.chrom_tree_offset, e);
    lemma_u64_bytes_round_trip(header.full_data_offset, e);
    lemma_u64_bytes_round_trip(header.full_index_offset, e);
    lemma_u16_bytes_round_trip(header.field_count, e);
    lemma_u16_bytes_round_trip(header.defined_field_count, e);
    lemma_u64_bytes_round_trip(header.auto_sql_offset, e);
    lemma_u64_bytes_round_trip(header.total_summary_offset, e);
    lemma_u32_bytes_round_trip(header.uncompress_buf_size, e);
    lemma_u64_bytes_round_trip(0, e);
}

/// A file that starts with the bytes of a header is read as a file of that
/// type with that header.
pub proof fn lemma_header_reads_back(data: Seq<u8>, filetype: BBIFile, header: BBIHeader)
    requires
        data.len() >= 64,
        data.subrange(0, 64) == header_bytes(filetype, header),
    ensures
        spec_read_header(data) == Ok::<(BBIFile, BBIHeader), InfoProblem>((filetype, header)),
{
    let e = header.endianness;
    let bytes = header_bytes(filetype, header);
    lemma_header_bytes_len(filetype, header);
    lemma_u32_bytes_round_trip(magic_of(filetype), e);
    lemma_u16_bytes_round_trip(header.version, e);
    lemma_u16_bytes_round_trip(header.zoom_levels, e);
    lemma_u64_bytes_round_trip(header.chrom_tree_offset, e);
    lemma_u64_bytes_round_trip(header.full_data_offset, e);
    lemma_u64_bytes_round_trip(header.full_index_offset, e);
    lemma_u16_bytes_round_trip(header.field_count, e);
    lemma_u16_bytes_round_trip(header.defined_field_count, e);
    lemma_u64_bytes_round_trip(header.auto_sql_offset, e);
    lemma_u64_bytes_round_trip(header.total_summary_offset, e);
    lemma_u32_bytes_round_trip(header.uncompress_buf_size, e);
    assert(data.subrange(0, 4) =~= bytes.subrange(0, 4));
    assert(bytes.subrange(0, 4) =~= u32_bytes(magic_of(filetype), e));
    assert(data.subrange(4, 6) =~= bytes.subrange(4, 6));
    assert(bytes.subrange(4, 6) =~= u16_bytes(header.version, e));
    assert(data.subrange(6, 8) =~= bytes.subrange(6, 8));
    assert(bytes.subrange(6, 8) =~= u16_bytes(header.zoom_levels, e));
    assert(data.subrange(8, 16) =~= bytes.subrange(8, 16));
    assert(bytes.subrange(8, 16) =~= u64_bytes(header.chrom_tree_offset, e));
    assert(data.subrange(16, 24) =~= bytes.subrange(16, 24));
    assert(bytes.subrange(16, 24) =~= u64_bytes(header.full_data_offset, e));
    assert(data.subrange(24, 32) =~= bytes.subrange(24, 32));
    assert(bytes.subrange(24, 32) =~= u64_bytes(header.full_index_offset, e));
    assert(data.subrange(32, 34) =~= bytes.subrange(32, 34));
    assert(bytes.subrange(32, 34) =~= u16_bytes(header.field_count, e));
    assert(data.subrange(34, 36) =~= bytes.subrange(34, 36));
    assert(bytes.subrange(34, 36) =~= u16_bytes(header.defined_field_count, e));
    assert(data.subrange(36, 44) =~= bytes.subrange(36, 44));
    assert(bytes.subrange(36, 44) =~= u64_bytes(header.auto_sql_offset, e));
    assert(data.subrange(44, 52) =~= bytes.subrange(44, 52));
    assert(bytes.subrange(44, 52) =~= u64_bytes(header.total_summary_offset, e));
    assert(data.subrange(52, 56) =~= bytes.subrange(52, 56));
    assert(bytes.subrange(52, 56) =~= u32_bytes(header.uncompress_buf_size, e));
    lemma_u16_at_bytes(data, 4, header.version, e);
    lemma_u16_at_bytes(data, 6, header.zoom_levels, e);
    lemma_u64_at_bytes(data, 8, header.chrom_tree_offset, e);
    lemma_u64_at_bytes(data, 16, header.full_data_offset, e);
    lemma_u64_at_bytes(data, 24, header.full_index_offset, e);
    lemma_u16_at_bytes(data, 32, header.field_count, e);
    lemma_u16_at_bytes(data, 34, header.defined_field_count, e);
    lemma_u64_at_bytes(data, 36, header.auto_sql_offset, e);
    lemma_u64_at_bytes(data, 44, header.total_summary_offset, e);
    lemma_u32_at_bytes(data, 52, header.uncompress_buf_size, e);
    lemma_magic_in_other_order(filetype, e);
    assert(spec_header_fields(data, e) == header);
    assert(spec_filetype(data) == Some((filetype, e)));
}

/// `n` NUL characters.
pub open spec fn nuls(n: nat) -> Seq<char> {
    Seq::new(n, |i: int| '\0')
}

/// `n` zero bytes.
pub open spec fn zeros(n: nat) -> Seq<u8> {
    Seq::new(n, |i: int| 0u8)
}

/// The key of a chromosome in the chromosome tree: its name, padded with
/// zero bytes to the size of all keys.
pub open spec fn key_bytes(name: Seq<char>, key_size: nat) -> Seq<u8> {
    encode_utf8(name) + zeros((key_size - encode_utf8(name).len()) as nat)
}

/// Whether a name comes back from its key as it is: it neither starts nor
/// ends with a NUL character.
pub open spec fn name_survives(name: Seq<char>) -> bool {
    name.len() > 0 ==> name[0] != '\0' && name.last() != '\0'
}

/// NUL characters are written as zero bytes.
proof fn lemma_encode_nuls(n: nat)
    ensures
        encode_utf8(nuls(n)) == zeros(n),
    decreases n,
{
    if n == 0 {
        assert(encode_utf8(nuls(0)) =~= zeros(0));
    } else {
        lemma_encode_nuls((n - 1) as nat);
        assert(nuls(n).drop_first() =~= nuls((n - 1) as nat));
        assert(nuls(n)[0] == '\0');
        assert('\0' as u32 == 0);
        assert(0u32 & 0x7F == 0) by (bit_vector);
        assert(encode_utf8(nuls(n)) =~= zeros(n));
    }
}

/// Two runs of characters are written one after the other.
proof fn lemma_encode_concat(a: Seq<char>, b: Seq<char>)
    ensures
        encode_utf8(a + b) == encode_utf8(a) + encode_utf8(b),
    decreases a.len(),
{
    if a.len() == 0 {
        assert(a + b =~= b);
        assert(encode_utf8(a) + encode_utf8(b) =~= encode_utf8(b));
    } else {
        lemma_encode_concat(a.drop_first(), b);
        assert((a + b).drop_first() =~= a.drop_first() + b);
        assert((a + b)[0] == a[0]);
        assert(encode_utf8(a + b) =~= encode_utf8(a) + encode_utf8(b));
    }
}

/// NUL characters behind a name that survives are trimmed away and the name
/// is left.
proof fn lemma_trim_padding(name: Seq<char>, n: nat)
    requires
        name_survives(name),
    ensures
        trim_nul(name + nuls(n)) == name,
{
    let s = name + nuls(n);
    if name.len() == 0 {
        lemma_skip_all_nuls(s, 0);
        assert(s.subrange(s.len() as int, s.len() as int) =~= name);
    } else {
        assert(s[0] == name[0]);
        lemma_skip_back_padding(name, n, n);
        assert(s.subrange(0, name.len() as int) =~= name);
    }
}

/// From any position on, a run of NUL characters is skipped to its end.
proof fn lemma_skip_all_nuls(s: Seq<char>, i: int)
    requires
        0 <= i <= s.len(),
        forall|k: int| 0 <= k < s.len() ==> s[k] == '\0',
    ensures
        skip_nul(s, i) == s.len(),
        skip_nul_back(s, s.len() as int, s.len() as int) == s.len(),
    decreases s.len() - i,
{
    if i < s.len() {
        lemma_skip_all_nuls(s, i + 1);
    }
}

/// Going back from behind `k` of the NUL characters that pad a name stops at
/// the end of the name.
proof fn lemma_skip_back_padding(name: Seq<char>, n: nat, k: nat)
    requires
        name.len() > 0,
        name.last() != '\0',
        k <= n,
    ensures
        skip_nul_back(name + nuls(n), 0, (name.len() + k) as int) == name.len(),
    decreases k,
{
    let s = name + nuls(n);
    if k == 0 {
        assert(s[name.len() - 1] == name.last());
    } else {
        assert(s[name.len() + k - 1] == '\0');
        lemma_skip_back_padding(name, n, (k - 1) as nat);
    }
}

/// A name that survives comes back from its key.
pub proof fn lemma_key_holds_name(name: Seq<char>, key_size: nat)
    requires
        name_survives(name),
        encode_utf8(name).len() <= key_size,
    ensures
        key_bytes(name, key_size).len() == key_size,
        chrom_name(key_bytes(name, key_size)) == Some(name),
{
    let pad = (key_size - encode_utf8(name).len()) as nat;
    lemma_encode_nuls(pad);
    lemma_encode_concat(name, nuls(pad));
    vstd::utf8::encode_utf8_valid_utf8(name + nuls(pad));
    vstd::utf8::encode_utf8_decode_utf8(name + nuls(pad));
    lemma_trim_padding(name, pad);
}

/// The bytes of one item of the chromosome tree: the key, the id and the
/// length.
pub open spec fn chrom_item_bytes(
    chrom: ChromInfoView,
    key_size: nat,
    endianness: Endianness,
) -> Seq<u8> {
    key_bytes(chrom.name, key_size) + u32_bytes(chrom.id, endianness) + u32_bytes(
        chrom.length,
        endianness,
    )
}

/// The bytes of the items of the chromosome tree.
pub open spec fn chrom_items_bytes(
    chroms: Seq<ChromInfoView>,
    key_size: nat,
    endianness: Endianness,
) -> Seq<u8>
    decreases chroms.len(),
{
    if chroms.len() == 0 {
        Seq::empty()
    } else {
        chrom_items_bytes(chroms.drop_last(), key_size, endianness) + chrom_item_bytes(
            chroms.last(),
            key_size,
            endianness,
        )
    }
}

/// The bytes of a chromosome tree of one leaf: the header of 32 bytes, the
/// head of the leaf and its items.
#[verifier::opaque]
pub open spec fn chrom_tree_bytes(
    chroms: Seq<ChromInfoView>,
    key_size: u32,
    endianness: Endianness,
) -> Seq<u8> {
    u32_bytes(CHROM_TREE_MAGIC, endianness) + u32_bytes(chroms.len() as u32, endianness)
        + u32_bytes(key_size, endianness) + u32_bytes(8, endianness) + u64_bytes(
        chroms.len() as u64,
        endianness,
    ) + u64_bytes(0, endianness) + seq![1u8, 0u8] + u16_bytes(chroms.len() as u16, endianness)
        + chrom_items_bytes(chroms, key_size as nat, endianness)
}

/// Whether every name fits in a key of `key_size` bytes.
pub open spec fn names_fit(chroms: Seq<ChromInfoView>, key_size: nat) -> bool {
    forall|i: int| 0 <= i < chroms.len() ==> encode_utf8((#[trigger] chroms[i]).name).len() <= key_size
}

/// Whether every name comes back from its key as it is.
pub open spec fn names_survive(chroms: Seq<ChromInfoView>) -> bool {
    forall|i: int| 0 <= i < chroms.len() ==> name_survives((#[trigger] chroms[i]).name)
}

/// An item takes the bytes of its key and eight more.
proof fn lemma_chrom_item_len(chrom: ChromInfoView, key_size: nat, endianness: Endianness)
    requires
        encode_utf8(chrom.name).len() <= key_size,
    ensures
        chrom_item_bytes(chrom, key_size, endianness).len() == key_size + 8,
        chrom_item_bytes(chrom, key_size, endianness).subrange(0, key_size as int) == key_bytes(
            chrom.name,
            key_size,
        ),
        chrom_item_bytes(chrom, key_size, endianness).subrange(
            key_size as int,
            key_size as int + 4,
        ) == u32_bytes(chrom.id, endianness),
        chrom_item_bytes(chrom, key_size, endianness).subrange(
            key_size as int + 4,
            key_size as int + 8,
        ) == u32_bytes(chrom.length, endianness),
{
    lemma_u32_bytes_round_trip(chrom.id, endianness);
    lemma_u32_bytes_round_trip(chrom.length, endianness);
    let item = chrom_item_bytes(chrom, key_size, endianness);
    assert(key_bytes(chrom.name, key_size).len() == key_size);
    assert(item.subrange(0, key_size as int) =~= key_bytes(chrom.name, key_size));
    assert(item.subrange(key_size as int, key_size as int + 4) =~= u32_bytes(
        chrom.id,
        endianness,
    ));
    assert(item.subrange(key_size as int + 4, key_size as int + 8) =~= u32_bytes(
        chrom.length,
        endianness,
    ));
}

/// The items take the same number of bytes each, and each stands where its
/// index says.
proof fn lemma_chrom_items_bytes(
    chroms: Seq<ChromInfoView>,
    key_size: nat,
    endianness: Endianness,
    i: int,
)
    requires
        names_fit(chroms, key_size),
        0 <= i < chroms.len(),
    ensures
        chrom_items_bytes(chroms, key_size, endianness).len() == (key_size + 8) * chroms.len(),
        (key_size + 8) * i + (key_size + 8) <= (key_size + 8) * chroms.len(),
        0 <= (key_size + 8) * i,
        chrom_items_bytes(chroms, key_size, endianness).subrange(
            (key_size as int + 8) * i,
            (key_size as int + 8) * i + (key_size as int + 8),
        ) == chrom_item_bytes(chroms[i], key_size, endianness),
    decreases chroms.len(),
{
    let head = chroms.drop_last();
    let step = key_size as int + 8;
    assert(names_fit(head, key_size)) by {
        assert forall|k: int| 0 <= k < head.len() implies encode_utf8(
            (#[trigger] head[k]).name,
        ).len() <= key_size by {
            assert(head[k] == chroms[k]);
        }
    }
    lemma_chrom_items_len(head, key_size, endianness);
    assert(encode_utf8(chroms[chroms.len() - 1].name).len() <= key_size);
    lemma_chrom_item_len(chroms.last(), key_size, endianness);
    assert(step * (chroms.len() - 1) + step == step * chroms.len()) by (nonlinear_arith);
    assert(step * i + step <= step * chroms.len() && 0 <= step * i) by (nonlinear_arith)
        requires
            0 <= i < chroms.len(),
            step >= 0,
    ;
    if i < chroms.len() - 1 {
        lemma_chrom_items_bytes(head, key_size, endianness, i);
        assert(chrom_items_bytes(chroms, key_size, endianness).subrange(step * i, step * i + step)
            =~= chrom_items_bytes(head, key_size, endianness).subrange(
            step * i,
            step * i + step,
        ));
        assert(head[i] == chroms[i]);
    } else {
        assert(chrom_items_bytes(chroms, key_size, endianness).subrange(step * i, step * i + step)
            =~= chrom_item_bytes(chroms.last(), key_size, endianness));
    }
}

/// The items take the same number of bytes each.
proof fn lemma_chrom_items_len(chroms: Seq<ChromInfoView>, key_size: nat, endianness: Endianness)
    requires
        names_fit(chroms, key_size),
    ensures
        chrom_items_bytes(chroms, key_size, endianness).len() == (key_size + 8) * chroms.len(),
    decreases chroms.len(),
{
    if chroms.len() > 0 {
        let head = chroms.drop_last();
        let step = key_size as int + 8;
        assert(names_fit(head, key_size)) by {
            assert forall|k: int| 0 <= k < head.len() implies encode_utf8(
                (#[trigger] head[k]).name,
            ).len() <= key_size by {
                assert(head[k] == chroms[k]);
            }
        }
        lemma_chrom_items_len(head, key_size, endianness);
        assert(encode_utf8(chroms[chroms.len() - 1].name).len() <= key_size);
        lemma_chrom_item_len(chroms.last(), key_size, endianness);
        assert(step * (chroms.len() - 1) + step == step * chroms.len()) by (nonlinear_arith);
    } else {
        assert((key_size + 8) * 0 == 0);
    }
}

/// The chromosome tree takes 36 bytes and those of its items.
pub proof fn lemma_chrom_tree_len(
    chroms: Seq<ChromInfoView>,
    key_size: u32,
    endianness: Endianness,
)
    requires
        names_fit(chroms, key_size as nat),
    ensures
        chrom_tree_bytes(chroms, key_size, endianness).len() == 36 + (key_size + 8) * chroms.len(),
{
    reveal(chrom_tree_bytes);
    lemma_chrom_items_len(chroms, key_size as nat, endianness);
    lemma_u32_bytes_round_trip(CHROM_TREE_MAGIC, endianness);
    lemma_u32_bytes_round_trip(chroms.len() as u32, endianness);
    lemma_u32_bytes_round_trip(key_size, endianness);
    lemma_u32_bytes_round_trip(8, endianness);
    lemma_u64_bytes_round_trip(chroms.len() as u64, endianness);
    lemma_u64_bytes_round_trip(0, endianness);
    lemma_u16_bytes_round_trip(chroms.len() as u16, endianness);
}

/// Appends a chromosome tree of one leaf.
pub fn write_chrom_tree(
    out: &mut Vec<u8>,
    chroms: &Vec<ChromInfo>,
    key_size: u32,
    endianness: Endianness,
)
    requires
        chroms@.len() <= 0xffff,
        names_fit(chrom_views(chroms@), key_size as nat),
    ensures
        final(out)@ == old(out)@ + chrom_tree_bytes(chrom_views(chroms@), key_size, endianness),
{
    reveal(chrom_tree_bytes);
    let ghost all = chrom_views(chroms@);
    let ghost ks = key_size as nat;
    write_u32(out, CHROM_TREE_MAGIC, endianness);
    write_u32(out, chroms.len() as u32, endianness);
    write_u32(out, key_size, endianness);
    write_u32(out, 8, endianness);
    write_u64(out, chroms.len() as u64, endianness);
    write_u64(out, 0, endianness);
    out.push(1);
    out.push(0);
    write_u16(out, chroms.len() as u16, endianness);
    let ghost head = out@;
    assert(head =~= old(out)@ + (u32_bytes(CHROM_TREE_MAGIC, endianness) + u32_bytes(
        all.len() as u32,
        endianness,
    ) + u32_bytes(key_size, endianness) + u32_bytes(8, endianness) + u64_bytes(
        all.len() as u64,
        endianness,
    ) + u64_bytes(0, endianness) + seq![1u8, 0u8] + u16_bytes(all.len() as u16, endianness)));
    let mut i: usize = 0;
    assert(all.take(0) =~= Seq::<ChromInfoView>::empty());
    while i < chroms.len()
        invariant
            i <= chroms@.len(),
            all == chrom_views(chroms@),
            ks == key_size,
            names_fit(all, ks),
            out@ == head + chrom_items_bytes(all.take(i as int), ks, endianness),
        decreases chroms@.len() - i,
    {
        let ghost before = out@;
        let ghost longer = all.take(i + 1);
        assert(longer.drop_last() =~= all.take(i as int));
        assert(longer.last() == chroms@[i as int]@);
        assert(all[i as int] == chroms@[i as int]@);
        let chrom = &chroms[i];
        let name = chrom.name.as_str().as_bytes();
        assert(name@ == encode_utf8(chrom.name@));
        let mut k: usize = 0;
        while k < name.len()
            invariant
                k <= name@.len(),
                out@ == before + name@.take(k as int),
            decreases name@.len() - k,
        {
            out.push(name[k]);
            assert(name@.take(k + 1) =~= name@.take(k as int).push(name@[k as int]));
            k = k + 1;
        }
        assert(name@.take(name@.len() as int) =~= name@);
        let pad: usize = key_size as usize - name.len();
        let mut p: usize = 0;
        while p < pad
            invariant
                p <= pad,
                out@ == before + name@ + zeros(p as nat),
            decreases pad - p,
        {
            out.push(0);
            assert(zeros((p + 1) as nat) =~= zeros(p as nat).push(0u8));
            p = p + 1;
        }
        write_u32(out, chrom.id, endianness);
        write_u32(out, chrom.length, endianness);
        assert(out@ =~= before + chrom_item_bytes(chrom@, ks, endianness));
        assert(out@ =~= head + chrom_items_bytes(longer, ks, endianness));
        i = i + 1;
    }
    assert(all.take(all.len() as int) =~= all);
    assert(out@ =~= old(out)@ + chrom_tree_bytes(all, key_size, endianness));
}

/// The first `n` items of a chromosome tree that was written are read as
/// the first `n` chromosomes.
proof fn lemma_chrom_items_read_back(
    data: Seq<u8>,
    endianness: Endianness,
    base: int,
    chroms: Seq<ChromInfoView>,
    key_size: nat,
    n: nat,
)
    requires
        0 <= base,
        n <= chroms.len(),
        names_fit(chroms, key_size),
        names_survive(chroms),
        base + (key_size + 8) * chroms.len() <= data.len(),
        data.subrange(base, base + (key_size + 8) * chroms.len() as int) == chrom_items_bytes(
            chroms,
            key_size,
            endianness,
        ),
    ensures
        chrom_leaf_items(data, endianness, key_size, base, n) == Some(chroms.take(n as int)),
    decreases n,
{
    if n == 0 {
        assert(chroms.take(0) =~= Seq::<ChromInfoView>::empty());
    } else {
        let i = n - 1;
        let step = key_size as int + 8;
        let ks = key_size as int;
        lemma_chrom_items_read_back(data, endianness, base, chroms, key_size, (n - 1) as nat);
        lemma_chrom_items_bytes(chroms, key_size, endianness, i);
        let at = base + step * i;
        assert(encode_utf8(chroms[i].name).len() <= key_size);
        assert(name_survives(chroms[i].name));
        lemma_chrom_item_len(chroms[i], key_size, endianness);
        lemma_key_holds_name(chroms[i].name, key_size);
        assert(data.subrange(at, at + step) =~= data.subrange(
            base,
            base + step * chroms.len(),
        ).subrange(step * i, step * i + step));
        assert(data.subrange(at, at + ks) =~= data.subrange(at, at + step).subrange(0, ks));
        assert(data.subrange(at + ks, at + ks + 4) =~= data.subrange(at, at + step).subrange(
            ks,
            ks + 4,
        ));
        assert(data.subrange(at + ks + 4, at + ks + 8) =~= data.subrange(at, at + step).subrange(
            ks + 4,
            ks + 8,
        ));
        lemma_u32_at_bytes(data, at + key_size, chroms[i].id, endianness);
        lemma_u32_at_bytes(data, at + key_size + 4, chroms[i].length, endianness);
        assert(chrom_leaf_item(data, endianness, key_size, at) == Some(chroms[i]));
        assert(chroms.take(n - 1).push(chroms[i]) =~= chroms.take(n as int));
    }
}

/// Where the fields of a chromosome tree stand in its bytes.
proof fn lemma_chrom_tree_fields(
    chroms: Seq<ChromInfoView>,
    key_size: u32,
    endianness: Endianness,
)
    requires
        names_fit(chroms, key_size as nat),
    ensures
        ({
            let tree = chrom_tree_bytes(chroms, key_size, endianness);
            let items = chrom_items_bytes(chroms, key_size as nat, endianness);
            &&& items.len() == (key_size + 8) * chroms.len()
            &&& tree.len() == 36 + items.len()
            &&& tree.subrange(0, 4) == u32_bytes(CHROM_TREE_MAGIC, endianness)
            &&& tree.subrange(8, 12) == u32_bytes(key_size, endianness)
            &&& tree.subrange(12, 16) == u32_bytes(8, endianness)
            &&& tree[32] == 1u8
            &&& tree.subrange(34, 36) == u16_bytes(chroms.len() as u16, endianness)
            &&& tree.subrange(36, 36 + items.len() as int) == items
        }),
{
    reveal(chrom_tree_bytes);
    let e = endianness;
    let n = chroms.len();
    let tree = chrom_tree_bytes(chroms, key_size, e);
    let items = chrom_items_bytes(chroms, key_size as nat, e);
    lemma_chrom_tree_len(chroms, key_size, e);
    lemma_chrom_items_len(chroms, key_size as nat, e);
    lemma_u32_bytes_round_trip(CHROM_TREE_MAGIC, e);
    lemma_u32_bytes_round_trip(n as u32, e);
    lemma_u32_bytes_round_trip(key_size, e);
    lemma_u32_bytes_round_trip(8, e);
    lemma_u64_bytes_round_trip(n as u64, e);
    lemma_u64_bytes_round_trip(0, e);
    lemma_u16_bytes_round_trip(n as u16, e);
    assert(tree.subrange(0, 4) =~= u32_bytes(CHROM_TREE_MAGIC, e));
    assert(tree.subrange(8, 12) =~= u32_bytes(key_size, e));
    assert(tree.subrange(12, 16) =~= u32_bytes(8, e));
    assert(tree.subrange(34, 36) =~= u16_bytes(n as u16, e));
    assert(tree.subrange(36, 36 + items.len() as int) =~= items);
}

/// A chromosome tree that was written is read as the chromosomes that were
/// written, if their names survive.
pub proof fn lemma_chrom_tree_reads_back(
    data: Seq<u8>,
    header: BBIHeader,
    chroms: Seq<ChromInfoView>,
    key_size: u32,
)
    requires
        chroms.len() <= 0xffff,
        names_fit(chroms, key_size as nat),
        names_survive(chroms),
        header.chrom_tree_offset + 36 + (key_size + 8) * chroms.len() <= data.len(),
        data.subrange(
            header.chrom_tree_offset as int,
            header.chrom_tree_offset + 36 + (key_size + 8) * chroms.len(),
        ) == chrom_tree_bytes(chroms, key_size, header.endianness),
    ensures
        spec_chrom_tree(data, header) == Some(chroms),
{
    let e = header.endianness;
    let at = header.chrom_tree_offset as int;
    let n = chroms.len();
    let ks = key_size as nat;
    let tree = chrom_tree_bytes(chroms, key_size, e);
    let items = chrom_items_bytes(chroms, ks, e);
    lemma_chrom_tree_fields(chroms, key_size, e);
    let items_len = items.len() as int;
    let part = data.subrange(at, at + 36 + items_len);
    assert(part == tree);
    assert(data.subrange(at, at + 4) =~= part.subrange(0, 4));
    lemma_u32_at_bytes(data, at, CHROM_TREE_MAGIC, e);
    assert(data.subrange(at + 8, at + 12) =~= part.subrange(8, 12));
    lemma_u32_at_bytes(data, at + 8, key_size, e);
    assert(data.subrange(at + 12, at + 16) =~= part.subrange(12, 16));
    lemma_u32_at_bytes(data, at + 12, 8, e);
    assert(part[32] == data[at + 32]);
    assert(data.subrange(at + 34, at + 36) =~= part.subrange(34, 36));
    lemma_u16_at_bytes(data, at + 34, n as u16, e);
    assert(data.subrange(at + 36, at + 36 + items_len) =~= part.subrange(36, 36 + items_len));
    lemma_chrom_items_read_back(data, e, at + 36, chroms, ks, n);
    assert(chroms.take(n as int) =~= chroms);
    lemma_chrom_node_is_leaf(data, e, ks, at + 32, chroms);
}

/// A node that is a leaf and holds the given chromosomes is read as them.
proof fn lemma_chrom_node_is_leaf(
    data: Seq<u8>,
    endianness: Endianness,
    key_size: nat,
    offset: int,
    chroms: Seq<ChromInfoView>,
)
    requires
        0 <= offset,
        offset + 4 + (key_size + 8) * chroms.len() <= data.len(),
        u8_at(data, offset) == 1,
        u16_at(data, offset + 2, endianness) == chroms.len(),
        chrom_leaf_items(data, endianness, key_size, offset + 4, chroms.len()) == Some(chroms),
    ensures
        chrom_node(data, endianness, key_size, offset, MAX_CHROM_TREE_DEPTH as nat) == Some(chroms),
{
    assert(0 <= (key_size + 8) * chroms.len()) by (nonlinear_arith);
}

/// The bytes that the payloads of the first `n` sections take.
pub open spec fn blocks_size(sections: Seq<RawSectionView>, n: nat) -> int
    decreases n,
{
    if n == 0 || n > sections.len() {
        0
    } else {
        blocks_size(sections, (n - 1) as nat) + sections[n - 1].payload.len()
    }
}

/// The entry of the index for section `i`, where the first payload stands at
/// `data_start` and the others follow: the section's chromosome and span,
/// and where its payload stands.
pub open spec fn block_entry(sections: Seq<RawSectionView>, i: int, data_start: int) -> IndexEntry {
    IndexEntry {
        start_chrom_ix: sections[i].chrom_id,
        start_base: sections[i].start,
        end_chrom_ix: sections[i].chrom_id,
        end_base: sections[i].end,
        offset: (data_start + blocks_size(sections, i as nat)) as u64,
        size: sections[i].payload.len() as u64,
    }
}

/// The entries of the index for all sections.
pub open spec fn block_entries(sections: Seq<RawSectionView>, data_start: int) -> Seq<IndexEntry> {
    Seq::new(sections.len(), |i: int| block_entry(sections, i, data_start))
}

/// Whether `data` holds the payload of each of the first `n` sections where
/// the section's entry says.
pub open spec fn blocks_stored(
    data: Seq<u8>,
    sections: Seq<RawSectionView>,
    data_start: int,
    n: nat,
) -> bool {
    forall|i: int|
        0 <= i < n ==> {
            let at = data_start + #[trigger] blocks_size(sections, i as nat);
            &&& 0 <= at
            &&& at + sections[i].payload.len() <= data.len()
            &&& at + sections[i].payload.len() <= u64::MAX
            &&& data.subrange(at, at + sections[i].payload.len()) == sections[i].payload
        }
}

/// The payloads of the first `n` sections, one after the other.
pub open spec fn payloads_bytes(sections: Seq<RawSectionView>, n: nat) -> Seq<u8>
    decreases n,
{
    if n == 0 || n > sections.len() {
        Seq::empty()
    } else {
        payloads_bytes(sections, (n - 1) as nat) + sections[n - 1].payload
    }
}

/// Appends the payloads of the sections, one after the other, and returns
/// the entry of the index for each.
pub fn write_blocks(out: &mut Vec<u8>, sections: &Vec<RawSection>) -> (entries: Vec<IndexEntry>)
    ensures
        extends(final(out)@, old(out)@),
        final(out)@.len() == old(out)@.len() + blocks_size(
            crate::bigwigwrite::section_views(sections@),
            sections@.len(),
        ),
        final(out)@ == old(out)@ + payloads_bytes(
            crate::bigwigwrite::section_views(sections@),
            sections@.len(),
        ),
        entries@ == block_entries(
            crate::bigwigwrite::section_views(sections@),
            old(out)@.len() as int,
        ),
        blocks_stored(
            final(out)@,
            crate::bigwigwrite::section_views(sections@),
            old(out)@.len() as int,
            sections@.len(),
        ),
{
    let ghost all = crate::bigwigwrite::section_views(sections@);
    let ghost data_start = old(out)@.len() as int;
    let mut entries: Vec<IndexEntry> = Vec::new();
    let mut i: usize = 0;
    assert(extends(out@, old(out)@)) by {
        assert(out@.subrange(0, old(out)@.len() as int) =~= old(out)@);
    }
    assert(out@ =~= old(out)@ + payloads_bytes(all, 0));
    while i < sections.len()
        invariant
            i <= sections@.len(),
            all == crate::bigwigwrite::section_views(sections@),
            data_start == old(out)@.len(),
            extends(out@, old(out)@),
            out@.len() == data_start + blocks_size(all, i as nat),
            out@ == old(out)@ + payloads_bytes(all, i as nat),
            entries@.len() == i,
            forall|k: int| 0 <= k < i ==> #[trigger] entries@[k] == block_entry(all, k, data_start),
            blocks_stored(out@, all, data_start, i as nat),
        decreases sections@.len() - i,
    {
        let section = &sections[i];
        assert(all[i as int] == section@);
        let ghost before = out@;
        let at: u64 = out.len() as u64;
        let payload = section.payload.as_slice();
        let mut k: usize = 0;
        while k < payload.len()
            invariant
                k <= payload@.len(),
                out@ == before + payload@.take(k as int),
            decreases payload@.len() - k,
        {
            out.push(payload[k]);
            assert(payload@.take(k + 1) =~= payload@.take(k as int).push(payload@[k as int]));
            k = k + 1;
        }
        assert(payload@.take(payload@.len() as int) =~= payload@);
        let end: usize = out.len();
        assert(out@.len() == before.len() + payload@.len());
        entries.push(
            IndexEntry {
                start_chrom_ix: section.chrom_id,
                start_base: section.start,
                end_chrom_ix: section.chrom_id,
                end_base: section.end,
                offset: at,
                size: payload.len() as u64,
            },
        );
        proof {
            assert(extends(out@, before)) by {
                assert(out@.subrange(0, before.len() as int) =~= before);
            }
            assert(out@ =~= old(out)@ + payloads_bytes(all, (i + 1) as nat));
            assert(extends(out@, old(out)@)) by {
                assert(out@.subrange(0, old(out)@.len() as int) =~= before.subrange(
                    0,
                    old(out)@.len() as int,
                ));
            }
            assert forall|j: int| 0 <= j < i + 1 implies {
                let from = data_start + #[trigger] blocks_size(all, j as nat);
                &&& 0 <= from
                &&& from + all[j].payload.len() <= out@.len()
                &&& from + all[j].payload.len() <= u64::MAX
                &&& out@.subrange(from, from + all[j].payload.len()) == all[j].payload
            } by {
                let from = data_start + blocks_size(all, j as nat);
                if j < i {
                    assert(from + all[j].payload.len() <= before.len());
                    lemma_extends_subrange(before, out@, from, all[j].payload.len() as int);
                } else {
                    assert(from == before.len());
                    assert(all[j].payload == payload@);
                    assert(from + all[j].payload.len() == end);
                    assert(out@.subrange(from, from + all[j].payload.len()) =~= payload@);
                }
            }
        }
        i = i + 1;
    }
    assert(entries@ =~= block_entries(all, data_start));
    entries
}

/// The 40 bytes of the summary: the bases that have data, and the least
/// value, the greatest, the sum and the sum of squares.
pub open spec fn summary_bytes(summary: crate::bbiread::Summary, endianness: Endianness) -> Seq<u8> {
    u64_bytes(summary.bases_covered, endianness) + u64_bytes(summary.min_val, endianness)
        + u64_bytes(summary.max_val, endianness) + u64_bytes(summary.sum, endianness) + u64_bytes(
        summary.sum_squares,
        endianness,
    )
}

/// Appends the summary.
pub fn write_summary(out: &mut Vec<u8>, summary: &crate::bbiread::Summary, endianness: Endianness)
    ensures
        final(out)@ == old(out)@ + summary_bytes(*summary, endianness),
        final(out)@.len() == old(out)@.len() + 40,
{
    write_u64(out, summary.bases_covered, endianness);
    write_u64(out, summary.min_val, endianness);
    write_u64(out, summary.max_val, endianness);
    write_u64(out, summary.sum, endianness);
    write_u64(out, summary.sum_squares, endianness);
    proof {
        lemma_u64_bytes_round_trip(summary.bases_covered, endianness);
        lemma_u64_bytes_round_trip(summary.min_val, endianness);
        lemma_u64_bytes_round_trip(summary.max_val, endianness);
        lemma_u64_bytes_round_trip(summary.sum, endianness);
        lemma_u64_bytes_round_trip(summary.sum_squares, endianness);
    }
    assert(out@ =~= old(out)@ + summary_bytes(*summary, endianness));
}

/// The bytes that the longest name takes.
pub open spec fn longest_name(chroms: Seq<ChromInfoView>) -> nat
    decreases chroms.len(),
{
    if chroms.len() == 0 {
        0
    } else if encode_utf8(chroms.last().name).len() > longest_name(chroms.drop_last()) {
        encode_utf8(chroms.last().name).len()
    } else {
        longest_name(chroms.drop_last())
    }
}

/// Every name fits in a key that the longest name fits in.
pub proof fn lemma_longest_name_fits(chroms: Seq<ChromInfoView>, key_size: nat)
    requires
        longest_name(chroms) <= key_size,
    ensures
        names_fit(chroms, key_size),
    decreases chroms.len(),
{
    if chroms.len() > 0 {
        let head = chroms.drop_last();
        lemma_longest_name_fits(head, key_size);
        assert forall|i: int| 0 <= i < chroms.len() implies encode_utf8(
            (#[trigger] chroms[i]).name,
        ).len() <= key_size by {
            if i < chroms.len() - 1 {
                assert(head[i] == chroms[i]);
            }
        }
    }
}

/// Where the first payload of a file stands: behind the header, the
/// summary, the chromosome tree and the count of items.
pub open spec fn image_data_start(chroms: Seq<ChromInfoView>) -> int {
    148 + (longest_name(chroms) + 8) * chroms.len() as int
}

/// Where the header of the index of a file stands: behind the payloads and
/// the nodes below the root.
pub open spec fn image_index_offset(
    chroms: Seq<ChromInfoView>,
    sections: Seq<RawSectionView>,
    block_size: u32,
) -> int {
    image_data_start(chroms) + blocks_size(sections, sections.len()) + below_root_size(
        sections.len(),
        block_size as nat,
        true,
        64,
    )
}

/// The header of a file that holds the given chromosomes and sections.
pub open spec fn image_header(
    chroms: Seq<ChromInfoView>,
    sections: Seq<RawSectionView>,
    uncompress_buf_size: u32,
    block_size: u32,
    endianness: Endianness,
) -> BBIHeader {
    BBIHeader {
        endianness,
        version: 4,
        zoom_levels: 0,
        chrom_tree_offset: 104,
        full_data_offset: (image_data_start(chroms) - 8) as u64,
        full_index_offset: image_index_offset(chroms, sections, block_size) as u64,
        field_count: 0,
        defined_field_count: 0,
        auto_sql_offset: 0,
        total_summary_offset: 64,
        uncompress_buf_size,
    }
}

/// The bytes of the file that holds the given chromosomes and sections.
pub open spec fn bigwig_bytes(
    chroms: Seq<ChromInfoView>,
    sections: Seq<RawSectionView>,
    summary: Summary,
    uncompress_buf_size: u32,
    block_size: u32,
    items_per_slot: u32,
    endianness: Endianness,
) -> Seq<u8> {
    let data_end = image_data_start(chroms) + blocks_size(sections, sections.len());
    header_bytes(
        BBIFile::BigWig,
        image_header(chroms, sections, uncompress_buf_size, block_size, endianness),
    ) + summary_bytes(summary, endianness) + chrom_tree_bytes(
        chroms,
        longest_name(chroms) as u32,
        endianness,
    ) + u64_bytes(summary.total_items, endianness) + payloads_bytes(sections, sections.len())
        + index_bytes(
        block_entries(sections, image_data_start(chroms)),
        block_size,
        true,
        endianness,
        data_end,
        64,
        sections.len() as u64,
        data_end as u64,
        items_per_slot,
    )
}

/// Whether a file of the given chromosomes and sections can be laid out:
/// the chromosomes fit in one node of the chromosome tree, the index
/// branches between 2 and 65535 ways and is no deeper than the search goes,
/// and every offset fits in 64 bits.
pub open spec fn writable(
    chroms: Seq<ChromInfoView>,
    sections: Seq<RawSectionView>,
    block_size: u32,
) -> bool {
    &&& chroms.len() <= 0xffff
    &&& longest_name(chroms) <= u32::MAX
    &&& 2 <= block_size <= 0xffff
    &&& packs_within(sections.len(), block_size as nat, 64)
    &&& image_index_offset(chroms, sections, block_size) <= u64::MAX
}

/// Whether `file` is the image of a BigWig file of the given chromosomes and
/// sections: it starts with the header, then come the summary, the
/// chromosome tree, the count of items and the payloads, and then the index
/// over the payloads.
pub open spec fn is_bigwig_image(
    file: Seq<u8>,
    chroms: Seq<ChromInfoView>,
    sections: Seq<RawSectionView>,
    summary: Summary,
    uncompress_buf_size: u32,
    block_size: u32,
    endianness: Endianness,
) -> bool {
    let header = image_header(chroms, sections, uncompress_buf_size, block_size, endianness);
    let data_start = image_data_start(chroms);
    &&& 148 <= data_start <= file.len()
    &&& data_start <= u64::MAX
    &&& image_index_offset(chroms, sections, block_size) <= u64::MAX
    &&& file.subrange(0, 64) == header_bytes(BBIFile::BigWig, header)
    &&& file.subrange(64, 104) == summary_bytes(summary, endianness)
    &&& file.subrange(104, data_start - 8) == chrom_tree_bytes(
        chroms,
        longest_name(chroms) as u32,
        endianness,
    )
    &&& file.subrange(data_start - 8, data_start) == u64_bytes(summary.total_items, endianness)
    &&& blocks_stored(file, sections, data_start, sections.len())
    &&& holds_index(
        file,
        endianness,
        header.full_index_offset,
        block_entries(sections, data_start),
    )
}

/// What is appended to extends what was there.
proof fn lemma_append_extends(a: Seq<u8>, b: Seq<u8>)
    ensures
        extends(a + b, a),
{
    assert((a + b).subrange(0, a.len() as int) =~= a);
}

/// Payloads that are stored stay stored when bytes are appended.
proof fn lemma_blocks_stored_extends(
    data: Seq<u8>,
    longer: Seq<u8>,
    sections: Seq<RawSectionView>,
    data_start: int,
)
    requires
        blocks_stored(data, sections, data_start, sections.len()),
        extends(longer, data),
    ensures
        blocks_stored(longer, sections, data_start, sections.len()),
{
    assert forall|i: int| 0 <= i < sections.len() implies {
        let at = data_start + #[trigger] blocks_size(sections, i as nat);
        &&& 0 <= at
        &&& at + sections[i].payload.len() <= longer.len()
        &&& at + sections[i].payload.len() <= u64::MAX
        &&& longer.subrange(at, at + sections[i].payload.len()) == sections[i].payload
    } by {
        let at = data_start + blocks_size(sections, i as nat);
        lemma_extends_subrange(data, longer, at, sections[i].payload.len() as int);
    }
}

/// Lays out a BigWig file in memory: the header, the summary, the
/// chromosome tree in one node, the count of items, the payloads of the
/// sections as they are given, and the index over them. The file has no zoom
/// levels.
///
/// `uncompress_buf_size` goes into the header as it is: zero where the
/// payloads are not compressed, and else the size of the largest of them
/// before compression. `None` comes back where the file cannot be laid out.
pub fn write_bigwig(
    chroms: &Vec<ChromInfo>,
    sections: &Vec<RawSection>,
    summary: &Summary,
    uncompress_buf_size: u32,
    block_size: u32,
    items_per_slot: u32,
    endianness: Endianness,
) -> (r: Option<Vec<u8>>)
    ensures
        r is Some <==> writable(chrom_views(chroms@), section_views(sections@), block_size),
        r matches Some(file) ==> is_bigwig_image(
            file@,
            chrom_views(chroms@),
            section_views(sections@),
            *summary,
            uncompress_buf_size,
            block_size,
            endianness,
        ) && file@ == bigwig_bytes(
            chrom_views(chroms@),
            section_views(sections@),
            *summary,
            uncompress_buf_size,
            block_size,
            items_per_slot,
            endianness,
        ),
{
    let ghost all = chrom_views(chroms@);
    let ghost blocks = section_views(sections@);
    proof {
        lemma_below_root_size_nonnegative(blocks.len(), block_size as nat, true, 64);
        lemma_blocks_size_nonnegative(blocks, blocks.len());
    }
    if chroms.len() > 0xffff || block_size < 2 || block_size > 0xffff {
        return None;
    }
    let mut longest: usize = 0;
    let mut i: usize = 0;
    assert(all.take(0) =~= Seq::<ChromInfoView>::empty());
    while i < chroms.len()
        invariant
            i <= chroms@.len(),
            all == chrom_views(chroms@),
            longest == longest_name(all.take(i as int)),
        decreases chroms@.len() - i,
    {
        let ghost longer = all.take(i + 1);
        assert(longer.drop_last() =~= all.take(i as int));
        assert(longer.last() == chroms@[i as int]@);
        let len = chroms[i].name.as_str().as_bytes().len();
        if len > longest {
            longest = len;
        }
        i = i + 1;
    }
    assert(all.take(all.len() as int) =~= all);
    if longest > u32::MAX as usize {
        return None;
    }
    let key_size: u32 = longest as u32;
    proof {
        lemma_longest_name_fits(all, key_size as nat);
        lemma_chrom_tree_len(all, key_size, endianness);
    }
    assert((key_size as u64 + 8) * (chroms.len() as u64) <= 0x1_0000_0007 * 0xffff)
        by (nonlinear_arith)
        requires
            key_size <= 0xffff_ffff,
            chroms.len() <= 0xffff,
    ;
    let data_start: u64 = 148 + (key_size as u64 + 8) * (chroms.len() as u64);
    assert(data_start == image_data_start(all));
    let mut data_end: u64 = data_start;
    let mut k: usize = 0;
    while k < sections.len()
        invariant
            k <= sections@.len(),
            blocks == section_views(sections@),
            all == chrom_views(chroms@),
            data_start == image_data_start(all),
            below_root_size(blocks.len(), block_size as nat, true, 64) >= 0,
            data_end == data_start + blocks_size(blocks, k as nat),
            blocks_size(blocks, blocks.len()) >= blocks_size(blocks, k as nat),
        decreases sections@.len() - k,
    {
        assert(blocks[k as int] == sections@[k as int]@);
        proof {
            lemma_blocks_size_monotone(blocks, (k + 1) as nat, blocks.len());
        }
        let size: u64 = sections[k].payload.len() as u64;
        assert(blocks_size(blocks, (k + 1) as nat) == blocks_size(blocks, k as nat) + size);
        data_end = match data_end.checked_add(size) {
            Some(v) => v,
            None => {
                assert(image_index_offset(all, blocks, block_size) > u64::MAX);
                return None;
            },
        };
        k = k + 1;
    }
    let full_index_offset = match index_header_offset(data_end, sections.len(), block_size) {
        Some(v) => v,
        None => {
            return None;
        },
    };
    let header = BBIHeader {
        endianness,
        version: 4,
        zoom_levels: 0,
        chrom_tree_offset: 104,
        full_data_offset: data_start - 8,
        full_index_offset,
        field_count: 0,
        defined_field_count: 0,
        auto_sql_offset: 0,
        total_summary_offset: 64,
        uncompress_buf_size,
    };
    assert(header == image_header(all, blocks, uncompress_buf_size, block_size, endianness));
    let mut out: Vec<u8> = Vec::new();
    write_header(&mut out, BBIFile::BigWig, &header);
    let ghost s1 = out@;
    proof {
        lemma_header_bytes_len(BBIFile::BigWig, header);
        assert(s1 =~= header_bytes(BBIFile::BigWig, header));
    }
    write_summary(&mut out, summary, endianness);
    let ghost s2 = out@;
    write_chrom_tree(&mut out, chroms, key_size, endianness);
    let ghost s3 = out@;
    write_u64(&mut out, summary.total_items, endianness);
    let ghost s4 = out@;
    proof {
        lemma_u64_bytes_round_trip(summary.total_items, endianness);
        assert(s4.len() == data_start);
    }
    let entries = write_blocks(&mut out, sections);
    let ghost s5 = out@;
    match write_cir_tree(&mut out, &entries, block_size, items_per_slot, data_end, endianness) {
        None => None,
        Some(index_offset) => {
            proof {
                let file = out@;
                lemma_append_extends(s1, summary_bytes(*summary, endianness));
                lemma_append_extends(s2, chrom_tree_bytes(all, key_size, endianness));
                lemma_append_extends(s3, u64_bytes(summary.total_items, endianness));
                lemma_extends_transitive(s4, s5, file);
                lemma_extends_transitive(s3, s4, file);
                lemma_extends_transitive(s2, s3, file);
                lemma_extends_transitive(s1, s2, file);
                lemma_extends_subrange(s1, file, 0, 64);
                assert(s1.subrange(0, 64) =~= s1);
                lemma_extends_subrange(s2, file, 64, 40);
                assert(s2.subrange(64, 104) =~= summary_bytes(*summary, endianness));
                lemma_extends_subrange(s3, file, 104, data_start - 8 - 104);
                assert(s3.subrange(104, data_start - 8) =~= chrom_tree_bytes(
                    all,
                    key_size,
                    endianness,
                ));
                lemma_extends_subrange(s4, file, data_start - 8, 8);
                assert(s4.subrange(data_start - 8, data_start as int) =~= u64_bytes(
                    summary.total_items,
                    endianness,
                ));
                lemma_blocks_stored_extends(s5, file, blocks, data_start as int);
                assert(file =~= bigwig_bytes(
                    all,
                    blocks,
                    *summary,
                    uncompress_buf_size,
                    block_size,
                    items_per_slot,
                    endianness,
                ));
            }
            Some(out)
        },
    }
}

/// Payloads take no negative number of bytes.
proof fn lemma_blocks_size_nonnegative(sections: Seq<RawSectionView>, n: nat)
    ensures
        blocks_size(sections, n) >= 0,
    decreases n,
{
    if n > 0 && n <= sections.len() {
        lemma_blocks_size_nonnegative(sections, (n - 1) as nat);
    }
}

/// More payloads take no fewer bytes.
proof fn lemma_blocks_size_monotone(sections: Seq<RawSectionView>, n: nat, m: nat)
    requires
        n <= m <= sections.len(),
    ensures
        blocks_size(sections, n) <= blocks_size(sections, m),
    decreases m,
{
    if n < m {
        lemma_blocks_size_monotone(sections, n, (m - 1) as nat);
    }
}

} // verus!
