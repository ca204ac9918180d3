use bigtools::bbiread::{BBIReadError, Block};
use bigtools::bigwig::Value;
use bigtools::bigwigread::decode_block_values;
use bigtools::bigwigwrite::{build_sections, encode_section, RawSection, SectionBuilder};
use bigtools::cirtree::{search_cir_tree, IndexEntry};
use bigtools::cirtreewrite::{group_bound, write_cir_tree};
use bigtools::codec::Endianness;

fn value(start: u32, end: u32, v: f32) -> Value {
    Value { start, end, value: v.to_bits() }
}

fn records(n: u32) -> Vec<Value> {
    (0..n).map(|i| value(10 * i, 10 * i + 7, i as f32 + 0.5)).collect()
}

#[test]
fn section_is_laid_out_field_by_field() {
    let payload = encode_section(3, &vec![value(5, 9, 1.0), value(20, 30, 2.0)], Endianness::Little);
    let mut expected: Vec<u8> = Vec::new();
    for field in [3u32, 5, 30, 0, 0] {
        expected.extend_from_slice(&field.to_le_bytes());
    }
    expected.extend_from_slice(&[1, 0, 2, 0]);
    for field in [5u32, 9, 1.0f32.to_bits(), 20, 30, 2.0f32.to_bits()] {
        expected.extend_from_slice(&field.to_le_bytes());
    }
    assert_eq!(payload, expected);

    let payload = encode_section(0x0102_0304, &vec![value(5, 9, 1.0)], Endianness::Big);
    assert_eq!(&payload[..4], &[1, 2, 3, 4]);
    assert_eq!(&payload[20..24], &[1, 0, 0, 1]);
    assert_eq!(&payload[24..28], &[0, 0, 0, 5]);
    assert_eq!(payload.len(), 36);
}

#[test]
fn section_reads_back_as_it_was_written() {
    for endianness in [Endianness::Little, Endianness::Big] {
        for n in [0u32, 1, 2, 100] {
            let written = records(n);
            let payload = encode_section(7, &written, endianness);
            assert_eq!(payload.len(), 24 + 12 * n as usize);
            assert_eq!(decode_block_values(&payload, endianness, 0, u32::MAX), Ok(written.clone()));
            assert_eq!(
                encode_section(7, &decode_block_values(&payload, endianness, 0, u32::MAX).unwrap(), endianness),
                payload
            );
        }
    }
    let payload = encode_section(7, &records(4), Endianness::Little);
    assert_eq!(
        decode_block_values(&payload, Endianness::Little, 15, 32),
        Ok(vec![value(15, 17, 1.5), value(20, 27, 2.5), value(30, 32, 3.5)])
    );
    assert_eq!(decode_block_values(&payload, Endianness::Big, 0, 100).is_ok(), false);
}

#[test]
fn builder_emits_a_section_when_it_is_full() {
    let mut builder = SectionBuilder::new(2, 3, Endianness::Little);
    let all = records(7);
    assert_eq!(builder.push(all[0]), None);
    assert_eq!(builder.push(all[1]), None);
    let first = builder.push(all[2]).unwrap();
    assert_eq!(
        first,
        RawSection { chrom_id: 2, start: 0, end: 27, payload: encode_section(2, &all[0..3].to_vec(), Endianness::Little) }
    );
    assert_eq!(builder.push(all[3]), None);
    assert_eq!(builder.push(all[4]), None);
    let second = builder.push(all[5]).unwrap();
    assert_eq!(second.start, 30);
    assert_eq!(second.end, 57);
    assert_eq!(builder.push(all[6]), None);
    let last = builder.finish().unwrap();
    assert_eq!(
        last,
        RawSection { chrom_id: 2, start: 60, end: 67, payload: encode_section(2, &all[6..7].to_vec(), Endianness::Little) }
    );
    assert_eq!(SectionBuilder::new(2, 3, Endianness::Little).finish(), None);
}

#[test]
fn sections_hold_all_records_in_order() {
    for (n, size) in [(0u32, 4u32), (1, 4), (4, 4), (5, 4), (8, 4), (9, 4), (10, 1), (3, 1024)] {
        let all = records(n);
        let sections = build_sections(1, &all, size, Endianness::Big);
        assert_eq!(sections.len(), ((n + size - 1) / size) as usize);
        let mut read = Vec::new();
        for (k, section) in sections.iter().enumerate() {
            let got = decode_block_values(&section.payload, Endianness::Big, 0, u32::MAX).unwrap();
            assert!(!got.is_empty() && got.len() <= size as usize);
            if k + 1 < sections.len() {
                assert_eq!(got.len(), size as usize);
            }
            assert_eq!(section.chrom_id, 1);
            assert_eq!(section.start, got.iter().map(|v| v.start).min().unwrap());
            assert_eq!(section.end, got.iter().map(|v| v.end).max().unwrap());
            read.extend(got);
        }
        assert_eq!(read, all);
    }
}

#[test]
fn section_span_is_least_start_and_greatest_end() {
    let unsorted = vec![value(50, 60, 1.0), value(10, 90, 2.0), value(20, 30, 3.0)];
    let sections = build_sections(0, &unsorted, 10, Endianness::Little);
    assert_eq!(sections.len(), 1);
    assert_eq!(sections[0].start, 10);
    assert_eq!(sections[0].end, 90);
}

fn leaf(chrom: u32, start: u32, end: u32, offset: u64) -> IndexEntry {
    IndexEntry { start_chrom_ix: chrom, start_base: start, end_chrom_ix: chrom, end_base: end, offset, size: 10 }
}

fn leaves(n: u32) -> Vec<IndexEntry> {
    (0..n).map(|i| leaf(i / 10, 100 * (i % 10), 100 * (i % 10) + 100, 1000 + 10 * i as u64)).collect()
}

fn expected(all: &[IndexEntry], chrom: u32, start: u32, end: u32) -> Vec<Block> {
    all.iter()
        .filter(|e| e.start_chrom_ix == chrom && e.start_base < end && start < e.end_base)
        .map(|e| Block { offset: e.offset, size: e.size })
        .collect()
}

#[test]
fn built_index_finds_the_overlapping_blocks() {
    for endianness in [Endianness::Little, Endianness::Big] {
        for n in [0u32, 1, 2, 3, 4, 5, 16, 17, 100] {
            for block_size in [2u32, 3, 4, 256] {
                let all = leaves(n);
                let mut out = vec![0xabu8; 13];
                let index_offset = write_cir_tree(&mut out, &all, block_size, 1024, 77, endianness).unwrap();
                assert_eq!(&out[..13], &[0xabu8; 13]);
                for (chrom, start, end) in [(0, 0, 1000), (0, 150, 250), (3, 0, 1), (9, 950, 2000), (5, 100, 100), (11, 0, 10)] {
                    assert_eq!(
                        search_cir_tree(&out, endianness, index_offset, chrom, start, end),
                        Ok(expected(&all, chrom, start, end)),
                        "n={} block_size={} query=({}, {}, {})",
                        n,
                        block_size,
                        chrom,
                        start,
                        end
                    );
                }
            }
        }
    }
}

#[test]
fn built_index_starts_with_its_header() {
    let all = leaves(5);
    let mut out = Vec::new();
    let index_offset = write_cir_tree(&mut out, &all, 2, 1024, 77, Endianness::Little).unwrap() as usize;
    let header = &out[index_offset..index_offset + 48];
    assert_eq!(&header[0..4], &0x2468_ACE0u32.to_le_bytes());
    assert_eq!(&header[4..8], &2u32.to_le_bytes());
    assert_eq!(&header[8..16], &5u64.to_le_bytes());
    assert_eq!(&header[16..20], &0u32.to_le_bytes());
    assert_eq!(&header[20..24], &0u32.to_le_bytes());
    assert_eq!(&header[24..28], &0u32.to_le_bytes());
    assert_eq!(&header[28..32], &500u32.to_le_bytes());
    assert_eq!(&header[32..40], &77u64.to_le_bytes());
    assert_eq!(&header[40..44], &1024u32.to_le_bytes());
    assert_eq!(&header[44..48], &0u32.to_le_bytes());
    assert_eq!(out[index_offset + 48], 0);
    assert_eq!(&out[index_offset + 50..index_offset + 52], &2u16.to_le_bytes());
    assert_eq!(out.len(), index_offset + 48 + 4 + 2 * 24);
    assert_eq!(out[0], 1);
    assert_eq!(
        search_cir_tree(&out[..out.len() - 1], Endianness::Little, index_offset as u64, 0, 0, 10),
        Err(BBIReadError::UnexpectedEof)
    );
}

#[test]
fn bound_of_a_group_is_the_least_that_holds_it() {
    let group = vec![leaf(1, 500, 600, 0), leaf(0, 900, 950, 0), leaf(2, 0, 5, 0), leaf(1, 0, 999, 0)];
    let bound = group_bound(&group, 0, 4, 42);
    assert_eq!(
        bound,
        IndexEntry { start_chrom_ix: 0, start_base: 900, end_chrom_ix: 2, end_base: 5, offset: 42, size: 0 }
    );
    let bound = group_bound(&group, 0, 2, 7);
    assert_eq!(
        bound,
        IndexEntry { start_chrom_ix: 0, start_base: 900, end_chrom_ix: 1, end_base: 600, offset: 7, size: 0 }
    );
}
