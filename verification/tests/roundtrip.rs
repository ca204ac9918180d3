use std::io::Write;

use bigtools::bbiread::{read_info, ChromInfo, Summary};
use bigtools::bbiwrite::{write_bigwig, write_blocks, write_chrom_tree, write_header, write_summary};
use bigtools::bigwig::{BBIFile, Value};
use bigtools::bigwigread::BigWigRead;
use bigtools::bigwigwrite::{build_sections, RawSection};
use bigtools::cirtreewrite::index_header_offset;
use bigtools::codec::Endianness;

fn value(start: u32, end: u32, v: f32) -> Value {
    Value { start, end, value: v.to_bits() }
}

fn chrom(name: &str, id: u32, length: u32) -> ChromInfo {
    ChromInfo { name: name.to_string(), id, length }
}

fn summary() -> Summary {
    Summary {
        total_items: 3,
        bases_covered: 250,
        min_val: 1.0f64.to_bits(),
        max_val: 3.0f64.to_bits(),
        sum: 450.0f64.to_bits(),
        sum_squares: 950.0f64.to_bits(),
    }
}

fn collect(bigwig: &BigWigRead, chrom: &str, start: u32, end: u32) -> Vec<Value> {
    let mut iter = bigwig.get_interval(chrom, start, end).unwrap();
    let mut out = Vec::new();
    while let Some(v) = iter.next() {
        out.push(v.unwrap());
    }
    out
}

fn zlib(raw: &[u8]) -> Vec<u8> {
    let mut encoder = flate2::write::ZlibEncoder::new(Vec::new(), flate2::Compression::default());
    encoder.write_all(raw).unwrap();
    encoder.finish().unwrap()
}

fn small_sections(endianness: Endianness, items: u32) -> Vec<RawSection> {
    let mut sections = build_sections(0, &vec![value(0, 100, 1.0), value(100, 200, 2.0)], items, endianness);
    sections.extend(build_sections(1, &vec![value(0, 50, 3.0)], items, endianness));
    sections
}

#[test]
fn written_file_yields_what_was_written() {
    for endianness in [Endianness::Little, Endianness::Big] {
        for items in [1u32, 2, 1024] {
            let chroms = vec![chrom("chr17", 0, 1000), chrom("chr18", 1, 1000)];
            let sections = small_sections(endianness, items);
            let file = write_bigwig(&chroms, &sections, &summary(), 0, 256, items, endianness).unwrap();
            let bigwig = BigWigRead::from(file).unwrap();
            assert_eq!(bigwig.info.filetype, BBIFile::BigWig);
            assert_eq!(bigwig.info.header.endianness, endianness);
            assert_eq!(bigwig.info.chrom_info, chroms);
            assert_eq!(bigwig.get_summary(), Ok(summary()));
            assert_eq!(
                collect(&bigwig, "chr17", 0, 1000),
                vec![value(0, 100, 1.0), value(100, 200, 2.0)]
            );
            assert_eq!(collect(&bigwig, "chr18", 0, 1000), vec![value(0, 50, 3.0)]);
            let values = bigwig.values("chr17", 50, 150).unwrap();
            assert_eq!(values.len(), 100);
            assert!(values[..50].iter().all(|v| f32::from_bits(*v) == 1.0));
            assert!(values[50..].iter().all(|v| f32::from_bits(*v) == 2.0));
        }
    }
}

#[test]
fn written_file_with_compressed_blocks_yields_what_was_written() {
    let chroms = vec![chrom("chr17", 0, 1000), chrom("chr18", 1, 1000)];
    let raw = small_sections(Endianness::Little, 1024);
    let largest = raw.iter().map(|s| s.payload.len()).max().unwrap() as u32;
    let stored: Vec<RawSection> =
        raw.iter().map(|s| RawSection { payload: zlib(&s.payload), ..s.clone() }).collect();
    let file = write_bigwig(&chroms, &stored, &summary(), largest, 256, 1024, Endianness::Little).unwrap();
    let bigwig = BigWigRead::from(file).unwrap();
    assert_eq!(bigwig.info.header.uncompress_buf_size, largest);
    assert_eq!(collect(&bigwig, "chr17", 0, 1000), vec![value(0, 100, 1.0), value(100, 200, 2.0)]);
    assert_eq!(collect(&bigwig, "chr18", 10, 20), vec![value(10, 20, 3.0)]);
}

#[test]
fn many_records_on_many_chromosomes_come_back() {
    let mut chroms = Vec::new();
    let mut sections = Vec::new();
    let mut written: Vec<Vec<Value>> = Vec::new();
    for id in 0..7u32 {
        chroms.push(chrom(&format!("chr{}", id + 1), id, 100_000));
        let records: Vec<Value> =
            (0..(40 * id + 3)).map(|i| value(20 * i, 20 * i + 15, (id * 1000 + i) as f32)).collect();
        sections.extend(build_sections(id, &records, 16, Endianness::Little));
        written.push(records);
    }
    for block_size in [2u32, 3, 256] {
        let file = write_bigwig(&chroms, &sections, &summary(), 0, block_size, 16, Endianness::Little).unwrap();
        let bigwig = BigWigRead::from(file).unwrap();
        for id in 0..7usize {
            let name = format!("chr{}", id + 1);
            assert_eq!(collect(&bigwig, &name, 0, 100_000), written[id]);
            let window: Vec<Value> = written[id]
                .iter()
                .filter(|v| v.start < 1000 && v.end > 505)
                .map(|v| Value { start: v.start.max(505), end: v.end.min(1000), ..*v })
                .collect();
            assert_eq!(collect(&bigwig, &name, 505, 1000), window);
        }
    }
}

#[test]
fn rewriting_what_was_read_gives_the_same_bytes() {
    let chroms = vec![chrom("chr17", 0, 1000), chrom("chr18", 1, 1000)];
    let sections = small_sections(Endianness::Little, 1);
    let first = write_bigwig(&chroms, &sections, &summary(), 0, 2, 1, Endianness::Little).unwrap();
    let bigwig = BigWigRead::from(first.clone()).unwrap();
    let mut again = Vec::new();
    for c in &bigwig.info.chrom_info {
        let records = collect(&bigwig, &c.name, 0, c.length);
        again.extend(build_sections(c.id, &records, 1, Endianness::Little));
    }
    assert_eq!(again, sections);
    let second = write_bigwig(
        &bigwig.info.chrom_info,
        &again,
        &bigwig.get_summary().unwrap(),
        0,
        2,
        1,
        Endianness::Little,
    )
    .unwrap();
    assert_eq!(second, first);
}

#[test]
fn file_is_laid_out_part_by_part() {
    let chroms = vec![chrom("chr17", 0, 1000), chrom("c", 1, 5)];
    let sections = small_sections(Endianness::Little, 1024);
    let file = write_bigwig(&chroms, &sections, &summary(), 0, 256, 1024, Endianness::Little).unwrap();
    let info = read_info(&file).unwrap();
    assert_eq!(info.header.version, 4);
    assert_eq!(info.header.zoom_levels, 0);
    assert_eq!(info.header.total_summary_offset, 64);
    assert_eq!(info.header.chrom_tree_offset, 104);
    assert_eq!(info.header.full_data_offset, 104 + 36 + 2 * (5 + 8));
    let data_end = info.header.full_data_offset + 8 + (24 + 24) as u64 + (24 + 12) as u64;
    assert_eq!(info.header.full_index_offset, data_end);
    assert_eq!(file.len() as u64, data_end + 48 + 4 + 2 * 32);
    assert_eq!(info.chrom_info, chroms);

    let mut by_parts = Vec::new();
    write_header(&mut by_parts, BBIFile::BigWig, &info.header);
    assert_eq!(by_parts.len(), 64);
    write_summary(&mut by_parts, &summary(), Endianness::Little);
    assert_eq!(by_parts.len(), 104);
    write_chrom_tree(&mut by_parts, &chroms, 5, Endianness::Little);
    by_parts.extend_from_slice(&3u64.to_le_bytes());
    let entries = write_blocks(&mut by_parts, &sections);
    assert_eq!(entries.len(), 2);
    assert_eq!(entries[0].offset, info.header.full_data_offset + 8);
    assert_eq!(entries[0].size, 48);
    assert_eq!(entries[1].offset, entries[0].offset + 48);
    assert_eq!((entries[1].start_chrom_ix, entries[1].start_base, entries[1].end_base), (1, 0, 50));
    assert_eq!(&file[..by_parts.len()], &by_parts[..]);
}

#[test]
fn file_that_cannot_be_laid_out_is_refused() {
    let chroms = vec![chrom("chr17", 0, 1000)];
    let sections = small_sections(Endianness::Little, 1024);
    assert_eq!(write_bigwig(&chroms, &sections, &summary(), 0, 1, 1024, Endianness::Little), None);
    assert_eq!(write_bigwig(&chroms, &sections, &summary(), 0, 0x10000, 1024, Endianness::Little), None);
    let many: Vec<ChromInfo> = (0..0x10000u32).map(|i| chrom("c", i, 1)).collect();
    assert_eq!(write_bigwig(&many, &sections, &summary(), 0, 256, 1024, Endianness::Little), None);
    assert!(write_bigwig(&many[..0xffff].to_vec(), &sections, &summary(), 0, 256, 1024, Endianness::Little).is_some());
    assert!(write_bigwig(&Vec::new(), &Vec::new(), &summary(), 0, 256, 1024, Endianness::Little).is_some());
}

#[test]
fn index_header_offset_counts_the_nodes_below_the_root() {
    assert_eq!(index_header_offset(1000, 0, 4), Some(1000));
    assert_eq!(index_header_offset(1000, 4, 4), Some(1000));
    assert_eq!(index_header_offset(1000, 5, 4), Some(1000 + 2 * 4 + 5 * 32));
    assert_eq!(index_header_offset(0, 17, 4), Some((5 * 4 + 17 * 32) + (2 * 4 + 5 * 24)));
    assert_eq!(index_header_offset(u64::MAX, 4, 4), Some(u64::MAX));
    assert_eq!(index_header_offset(u64::MAX, 5, 4), None);
}

#[test]
fn name_with_padding_is_not_kept() {
    let chroms = vec![chrom("chr1\0", 0, 1000)];
    let file = write_bigwig(&chroms, &Vec::new(), &summary(), 0, 256, 1024, Endianness::Little).unwrap();
    let info = read_info(&file).unwrap();
    assert_eq!(info.chrom_info, vec![chrom("chr1", 0, 1000)]);
}
