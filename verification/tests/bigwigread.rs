use std::io::Write;

use bigtools::bbiread::{read_header, read_info, BBIFileReadInfoError, BBIReadError, Block, InfoProblem};
use bigtools::bigwig::{BBIFile, Value, ZoomRecord, NAN_BITS};
use bigtools::bigwigread::{
    decode_block_values, decode_zoom_block_values, get_block_values, BigWigRead,
    BigWigReadAttachError,
};
use bigtools::cirtree::{overlaps, search_cir_tree, IndexEntry};
use bigtools::codec::{get_block_data, get_u16, get_u32, get_u64, get_u8, Endianness};

fn put_u16(out: &mut Vec<u8>, v: u16, big: bool) {
    if big {
        out.extend_from_slice(&v.to_be_bytes());
    } else {
        out.extend_from_slice(&v.to_le_bytes());
    }
}

fn put_u32(out: &mut Vec<u8>, v: u32, big: bool) {
    if big {
        out.extend_from_slice(&v.to_be_bytes());
    } else {
        out.extend_from_slice(&v.to_le_bytes());
    }
}

fn put_u64(out: &mut Vec<u8>, v: u64, big: bool) {
    if big {
        out.extend_from_slice(&v.to_be_bytes());
    } else {
        out.extend_from_slice(&v.to_le_bytes());
    }
}

fn set_u64(out: &mut Vec<u8>, at: usize, v: u64, big: bool) {
    let bytes = if big { v.to_be_bytes() } else { v.to_le_bytes() };
    out[at..at + 8].copy_from_slice(&bytes);
}

fn bedgraph_section(chrom_id: u32, records: &[(u32, u32, f32)], big: bool) -> Vec<u8> {
    let mut out = Vec::new();
    put_u32(&mut out, chrom_id, big);
    put_u32(&mut out, records[0].0, big);
    put_u32(&mut out, records[records.len() - 1].1, big);
    put_u32(&mut out, 0, big);
    put_u32(&mut out, 0, big);
    out.push(1);
    out.push(0);
    put_u16(&mut out, records.len() as u16, big);
    for r in records {
        put_u32(&mut out, r.0, big);
        put_u32(&mut out, r.1, big);
        put_u32(&mut out, r.2.to_bits(), big);
    }
    out
}

fn zlib(raw: &[u8]) -> Vec<u8> {
    let mut encoder = flate2::write::ZlibEncoder::new(Vec::new(), flate2::Compression::default());
    encoder.write_all(raw).unwrap();
    encoder.finish().unwrap()
}

struct Section {
    chrom_id: u32,
    start: u32,
    end: u32,
    payload: Vec<u8>,
}

struct Image {
    big: bool,
    compress: bool,
    magic: u32,
    chroms: Vec<(String, u32, u32)>,
    sections: Vec<Section>,
    zoom: Option<(u32, Vec<Section>)>,
    leaves_per_node: usize,
}

fn write_index(out: &mut Vec<u8>, entries: &[(u32, u32, u32, u64, u64)], per_node: usize, big: bool) -> u64 {
    let index_offset = out.len() as u64;
    put_u32(out, 0x2468_ACE0, big);
    put_u32(out, 256, big);
    put_u64(out, entries.len() as u64, big);
    for _ in 0..4 {
        put_u32(out, 0, big);
    }
    put_u64(out, 0, big);
    put_u32(out, 1024, big);
    put_u32(out, 0, big);
    assert_eq!(out.len() as u64, index_offset + 48);
    if entries.len() <= per_node {
        out.push(1);
        out.push(0);
        put_u16(out, entries.len() as u16, big);
        for e in entries {
            put_u32(out, e.0, big);
            put_u32(out, e.1, big);
            put_u32(out, e.0, big);
            put_u32(out, e.2, big);
            put_u64(out, e.3, big);
            put_u64(out, e.4, big);
        }
    } else {
        let groups: Vec<&[(u32, u32, u32, u64, u64)]> = entries.chunks(per_node).collect();
        let root_at = out.len();
        out.push(0);
        out.push(0);
        put_u16(out, groups.len() as u16, big);
        let mut child_slots = Vec::new();
        for g in &groups {
            put_u32(out, g[0].0, big);
            put_u32(out, g[0].1, big);
            put_u32(out, g[g.len() - 1].0, big);
            put_u32(out, g.iter().map(|e| e.2).max().unwrap(), big);
            child_slots.push(out.len());
            put_u64(out, 0, big);
        }
        assert!(root_at < out.len());
        for (slot, g) in child_slots.iter().zip(groups.iter()) {
            let at = out.len() as u64;
            set_u64(out, *slot, at, big);
            out.push(1);
            out.push(0);
            put_u16(out, g.len() as u16, big);
            for e in g.iter() {
                put_u32(out, e.0, big);
                put_u32(out, e.1, big);
                put_u32(out, e.0, big);
                put_u32(out, e.2, big);
                put_u64(out, e.3, big);
                put_u64(out, e.4, big);
            }
        }
    }
    index_offset
}

fn write_blocks(out: &mut Vec<u8>, sections: &[Section], compress: bool) -> (Vec<(u32, u32, u32, u64, u64)>, usize) {
    let mut entries = Vec::new();
    let mut largest = 0;
    for s in sections {
        largest = largest.max(s.payload.len());
        let stored = if compress { zlib(&s.payload) } else { s.payload.clone() };
        entries.push((s.chrom_id, s.start, s.end, out.len() as u64, stored.len() as u64));
        out.extend_from_slice(&stored);
    }
    (entries, largest)
}

fn build(image: &Image) -> Vec<u8> {
    let big = image.big;
    let mut out = vec![0u8; 64];
    let zoom_levels: u16 = if image.zoom.is_some() { 1 } else { 0 };
    let zoom_header_at = out.len();
    out.extend(std::iter::repeat(0u8).take(24 * zoom_levels as usize));

    let summary_offset = out.len() as u64;
    put_u64(&mut out, 250, big);
    put_u64(&mut out, 1.0f64.to_bits(), big);
    put_u64(&mut out, 3.0f64.to_bits(), big);
    put_u64(&mut out, 450.0f64.to_bits(), big);
    put_u64(&mut out, 950.0f64.to_bits(), big);

    let chrom_tree_offset = out.len() as u64;
    let key_size = 8usize;
    put_u32(&mut out, 0x78CA_8C91, big);
    put_u32(&mut out, 256, big);
    put_u32(&mut out, key_size as u32, big);
    put_u32(&mut out, 8, big);
    put_u64(&mut out, image.chroms.len() as u64, big);
    put_u64(&mut out, 0, big);
    out.push(1);
    out.push(0);
    put_u16(&mut out, image.chroms.len() as u16, big);
    for (name, id, length) in &image.chroms {
        let mut key = name.as_bytes().to_vec();
        key.resize(key_size, 0);
        out.extend_from_slice(&key);
        put_u32(&mut out, *id, big);
        put_u32(&mut out, *length, big);
    }

    let full_data_offset = out.len() as u64;
    put_u64(&mut out, 3, big);
    let (entries, mut largest) = write_blocks(&mut out, &image.sections, image.compress);
    let full_index_offset = write_index(&mut out, &entries, image.leaves_per_node, big);

    if let Some((reduction, sections)) = &image.zoom {
        let data_offset = out.len() as u64;
        let (zoom_entries, zoom_largest) = write_blocks(&mut out, sections, image.compress);
        largest = largest.max(zoom_largest);
        let index_offset = write_index(&mut out, &zoom_entries, image.leaves_per_node, big);
        let mut header = Vec::new();
        put_u32(&mut header, *reduction, big);
        put_u32(&mut header, 0, big);
        put_u64(&mut header, data_offset, big);
        put_u64(&mut header, index_offset, big);
        out[zoom_header_at..zoom_header_at + 24].copy_from_slice(&header);
    }

    let mut header = Vec::new();
    put_u32(&mut header, image.magic, big);
    put_u16(&mut header, 4, big);
    put_u16(&mut header, zoom_levels, big);
    put_u64(&mut header, chrom_tree_offset, big);
    put_u64(&mut header, full_data_offset, big);
    put_u64(&mut header, full_index_offset, big);
    put_u16(&mut header, 0, big);
    put_u16(&mut header, 0, big);
    put_u64(&mut header, 0, big);
    put_u64(&mut header, summary_offset, big);
    put_u32(&mut header, if image.compress { largest as u32 } else { 0 }, big);
    put_u64(&mut header, 0, big);
    assert_eq!(header.len(), 64);
    out[0..64].copy_from_slice(&header);
    out
}

fn small_file(big: bool, compress: bool, leaves_per_node: usize) -> Image {
    Image {
        big,
        compress,
        magic: 0x888F_FC26,
        chroms: vec![("chr17".to_string(), 0, 1000), ("chr18".to_string(), 1, 1000)],
        sections: vec![
            Section {
                chrom_id: 0,
                start: 0,
                end: 200,
                payload: bedgraph_section(0, &[(0, 100, 1.0), (100, 200, 2.0)], big),
            },
            Section {
                chrom_id: 1,
                start: 0,
                end: 50,
                payload: bedgraph_section(1, &[(0, 50, 3.0)], big),
            },
        ],
        zoom: None,
        leaves_per_node,
    }
}

fn collect(bigwig: &BigWigRead, chrom: &str, start: u32, end: u32) -> Vec<Value> {
    let mut iter = bigwig.get_interval(chrom, start, end).unwrap();
    let mut out = Vec::new();
    while let Some(v) = iter.next() {
        out.push(v.unwrap());
    }
    out
}

fn value(start: u32, end: u32, v: f32) -> Value {
    Value { start, end, value: v.to_bits() }
}

#[test]
fn interval_of_each_chromosome() {
    let bigwig = BigWigRead::from(build(&small_file(false, false, 8))).unwrap();
    assert_eq!(collect(&bigwig, "chr17", 0, 1000), vec![value(0, 100, 1.0), value(100, 200, 2.0)]);
    assert_eq!(collect(&bigwig, "chr18", 0, 1000), vec![value(0, 50, 3.0)]);
}

#[test]
fn interval_of_compressed_file() {
    let bigwig = BigWigRead::from(build(&small_file(false, true, 8))).unwrap();
    assert!(bigwig.info.header.uncompress_buf_size > 0);
    assert_eq!(collect(&bigwig, "chr17", 0, 1000), vec![value(0, 100, 1.0), value(100, 200, 2.0)]);
    assert_eq!(collect(&bigwig, "chr18", 0, 1000), vec![value(0, 50, 3.0)]);
}

#[test]
fn interval_of_big_endian_file() {
    let bigwig = BigWigRead::from(build(&small_file(true, true, 8))).unwrap();
    assert_eq!(bigwig.info.header.endianness, Endianness::Big);
    assert_eq!(collect(&bigwig, "chr17", 0, 1000), vec![value(0, 100, 1.0), value(100, 200, 2.0)]);
    assert_eq!(collect(&bigwig, "chr18", 0, 1000), vec![value(0, 50, 3.0)]);
}

#[test]
fn interval_is_clipped_to_the_window() {
    let bigwig = BigWigRead::from(build(&small_file(false, false, 8))).unwrap();
    assert_eq!(collect(&bigwig, "chr17", 50, 150), vec![value(50, 100, 1.0), value(100, 150, 2.0)]);
    assert_eq!(collect(&bigwig, "chr17", 100, 120), vec![value(100, 120, 2.0)]);
    assert_eq!(collect(&bigwig, "chr17", 200, 300), vec![]);
    assert_eq!(collect(&bigwig, "chr17", 100, 100), vec![]);
    assert_eq!(collect(&bigwig, "chr18", 49, 1000), vec![value(49, 50, 3.0)]);
}

#[test]
fn interval_move_yields_the_same() {
    let bigwig = BigWigRead::from(build(&small_file(false, true, 8))).unwrap();
    let mut iter = bigwig.get_interval_move("chr17", 0, 1000).unwrap();
    assert_eq!(iter.next(), Some(Ok(value(0, 100, 1.0))));
    assert_eq!(iter.next(), Some(Ok(value(100, 200, 2.0))));
    assert_eq!(iter.next(), None);
    assert_eq!(iter.next(), None);
}

#[test]
fn values_over_two_records() {
    let bigwig = BigWigRead::from(build(&small_file(false, true, 8))).unwrap();
    let values = bigwig.values("chr17", 50, 150).unwrap();
    assert_eq!(values.len(), 100);
    for i in 0..50 {
        assert_eq!(f32::from_bits(values[i]), 1.0);
    }
    for i in 50..100 {
        assert_eq!(f32::from_bits(values[i]), 2.0);
    }
}

#[test]
fn values_without_data_are_nan() {
    let bigwig = BigWigRead::from(build(&small_file(false, false, 8))).unwrap();
    let values = bigwig.values("chr18", 40, 60).unwrap();
    assert_eq!(values.len(), 20);
    for i in 0..10 {
        assert_eq!(f32::from_bits(values[i]), 3.0);
    }
    for i in 10..20 {
        assert_eq!(values[i], NAN_BITS);
        assert!(f32::from_bits(values[i]).is_nan());
    }
    assert_eq!(bigwig.values("chr18", 7, 7).unwrap(), Vec::<u32>::new());
}

#[test]
fn nan_bits_are_the_bits_of_nan() {
    assert_eq!(NAN_BITS, f32::NAN.to_bits());
}

#[test]
fn unknown_chromosome_is_an_error() {
    let bigwig = BigWigRead::from(build(&small_file(false, false, 8))).unwrap();
    assert_eq!(bigwig.get_interval("chrX", 0, 10).err(), Some(BBIReadError::UnknownChrom));
    assert_eq!(bigwig.values("chrX", 0, 10), Err(BBIReadError::UnknownChrom));
    assert_eq!(bigwig.get_overlapping_blocks("chr1", 0, 10), Err(BBIReadError::UnknownChrom));
}

#[test]
fn wrong_magic_is_not_a_bbi_file() {
    let mut data = build(&small_file(false, false, 8));
    data[0] = 0x12;
    assert!(matches!(BigWigRead::from(data.clone()), Err(BigWigReadAttachError::NotABigWig)));
    assert!(matches!(read_info(&data), Err(BBIFileReadInfoError::UnknownMagic)));
    assert_eq!(read_header(&data), Err(InfoProblem::UnknownMagic));
    assert!(matches!(
        BigWigRead::from(vec![0u8, 1, 2, 3, 4, 5, 6, 7]),
        Err(BigWigReadAttachError::NotABigWig)
    ));
}

#[test]
fn bigbed_is_not_a_bigwig() {
    let mut image = small_file(false, false, 8);
    image.magic = 0x8789_F2EB;
    let data = build(&image);
    assert_eq!(read_info(&data).unwrap().filetype, BBIFile::BigBed);
    assert!(matches!(BigWigRead::from(data), Err(BigWigReadAttachError::NotABigWig)));
}

#[test]
fn truncated_file_is_an_io_error() {
    let data = build(&small_file(false, false, 8));
    match BigWigRead::from(data[..40].to_vec()) {
        Err(BigWigReadAttachError::IoError(e)) => {
            assert_eq!(e.kind(), std::io::ErrorKind::UnexpectedEof)
        }
        _ => panic!("a truncated header must be an I/O error"),
    }
    assert!(matches!(BigWigRead::from(vec![0x26, 0xFC]), Err(BigWigReadAttachError::IoError(_))));
    assert_eq!(read_header(&data[..63]), Err(InfoProblem::Truncated));
}

#[test]
fn broken_chromosome_tree_is_invalid_chroms() {
    let good = build(&small_file(false, false, 8));
    let info = read_info(&good).unwrap();
    let at = info.header.chrom_tree_offset as usize;
    let mut bad_magic = good.clone();
    bad_magic[at] ^= 0xff;
    assert!(matches!(BigWigRead::from(bad_magic), Err(BigWigReadAttachError::InvalidChroms)));
    let mut bad_name = good.clone();
    bad_name[at + 36] = 0xff;
    assert!(matches!(BigWigRead::from(bad_name), Err(BigWigReadAttachError::InvalidChroms)));
    let mut bad_val_size = good.clone();
    bad_val_size[at + 12] = 4;
    assert!(matches!(BigWigRead::from(bad_val_size), Err(BigWigReadAttachError::InvalidChroms)));
}

#[test]
fn header_and_chromosomes_are_read() {
    let data = build(&small_file(false, true, 8));
    let bigwig = BigWigRead::from(data.clone()).unwrap();
    let info = bigwig.get_info();
    assert_eq!(info.filetype, BBIFile::BigWig);
    assert_eq!(info.header.endianness, Endianness::Little);
    assert_eq!(info.header.version, 4);
    assert_eq!(info.header.zoom_levels, 0);
    assert_eq!(info.header.total_summary_offset, 64);
    assert_eq!(info.chrom_info.len(), 2);
    assert_eq!(info.chrom_info[0].name, "chr17");
    assert_eq!(info.chrom_info[0].id, 0);
    assert_eq!(info.chrom_info[1].name, "chr18");
    assert_eq!(info.chrom_info[1].length, 1000);
    let chroms = bigwig.get_chroms();
    assert_eq!(chroms.len(), 2);
    assert_eq!(chroms[0].name, "chr17");
    assert_eq!(chroms[0].length, 1000);
    assert_eq!(chroms[1].name, "chr18");
    assert_eq!(bigwig.find_chrom("chr18").unwrap().id, 1);
    assert!(bigwig.find_chrom("chr1").is_none());
    assert_eq!(bigwig.autosql(), "");
}

#[test]
fn summary_is_read() {
    for big in [false, true] {
        let bigwig = BigWigRead::from(build(&small_file(big, false, 8))).unwrap();
        let summary = bigwig.get_summary().unwrap();
        assert_eq!(summary.total_items, 3);
        assert_eq!(summary.bases_covered, 250);
        assert_eq!(f64::from_bits(summary.min_val), 1.0);
        assert_eq!(f64::from_bits(summary.max_val), 3.0);
        assert_eq!(f64::from_bits(summary.sum), 450.0);
        assert_eq!(f64::from_bits(summary.sum_squares), 950.0);
    }
}

#[test]
fn summary_beyond_the_file_is_an_error() {
    let mut bigwig = BigWigRead::from(build(&small_file(false, false, 8))).unwrap();
    bigwig.info.header.total_summary_offset = bigwig.data.len() as u64 - 39;
    assert_eq!(bigwig.get_summary(), Err(BBIReadError::UnexpectedEof));
}

#[test]
fn index_with_two_levels_is_searched() {
    let mut image = small_file(false, true, 1);
    image.sections.push(Section {
        chrom_id: 1,
        start: 60,
        end: 90,
        payload: bedgraph_section(1, &[(60, 70, 4.0), (70, 90, 5.0)], false),
    });
    let bigwig = BigWigRead::from(build(&image)).unwrap();
    assert_eq!(bigwig.get_overlapping_blocks("chr17", 0, 1000).unwrap().len(), 1);
    assert_eq!(bigwig.get_overlapping_blocks("chr18", 0, 1000).unwrap().len(), 2);
    assert_eq!(bigwig.get_overlapping_blocks("chr18", 0, 60).unwrap().len(), 1);
    assert_eq!(bigwig.get_overlapping_blocks("chr18", 50, 60).unwrap().len(), 0);
    assert_eq!(
        collect(&bigwig, "chr18", 0, 1000),
        vec![value(0, 50, 3.0), value(60, 70, 4.0), value(70, 90, 5.0)]
    );
    assert_eq!(collect(&bigwig, "chr18", 65, 75), vec![value(65, 70, 4.0), value(70, 75, 5.0)]);
    assert_eq!(collect(&bigwig, "chr17", 150, 1000), vec![value(150, 200, 2.0)]);
}

#[test]
fn index_without_magic_is_an_error() {
    let mut bigwig = BigWigRead::from(build(&small_file(false, false, 8))).unwrap();
    let at = bigwig.info.header.full_index_offset as usize;
    bigwig.data[at] ^= 0xff;
    assert_eq!(bigwig.get_interval("chr17", 0, 10).err(), Some(BBIReadError::BadIndexMagic));
    bigwig.info.header.full_index_offset = bigwig.data.len() as u64 - 10;
    assert_eq!(bigwig.get_interval("chr17", 0, 10).err(), Some(BBIReadError::UnexpectedEof));
}

#[test]
fn index_that_points_to_itself_is_too_deep() {
    let mut data = Vec::new();
    put_u32(&mut data, 0x2468_ACE0, false);
    data.resize(48, 0);
    data.push(0);
    data.push(0);
    put_u16(&mut data, 1, false);
    put_u32(&mut data, 0, false);
    put_u32(&mut data, 0, false);
    put_u32(&mut data, 0, false);
    put_u32(&mut data, 100, false);
    put_u64(&mut data, 48, false);
    assert_eq!(
        search_cir_tree(&data, Endianness::Little, 0, 0, 0, 10),
        Err(BBIReadError::IndexTooDeep)
    );
    assert_eq!(search_cir_tree(&data, Endianness::Little, 0, 0, 100, 110), Ok(vec![]));
    assert_eq!(search_cir_tree(&data, Endianness::Little, 0, 1, 0, 10), Ok(vec![]));
}

#[test]
fn index_entry_overlap() {
    let entry = IndexEntry {
        start_chrom_ix: 1,
        start_base: 100,
        end_chrom_ix: 1,
        end_base: 200,
        offset: 0,
        size: 0,
    };
    assert!(overlaps(&entry, 1, 150, 160));
    assert!(overlaps(&entry, 1, 0, 101));
    assert!(overlaps(&entry, 1, 199, 1000));
    assert!(!overlaps(&entry, 1, 0, 100));
    assert!(!overlaps(&entry, 1, 200, 300));
    assert!(!overlaps(&entry, 0, 150, 160));
    assert!(!overlaps(&entry, 2, 150, 160));
    let wide = IndexEntry { start_chrom_ix: 0, end_chrom_ix: 2, ..entry };
    assert!(overlaps(&wide, 1, 0, 1));
    assert!(overlaps(&wide, 0, 100, 101));
    assert!(!overlaps(&wide, 0, 0, 100));
    assert!(overlaps(&wide, 2, 199, 200));
    assert!(!overlaps(&wide, 2, 200, 201));
}

#[test]
fn block_beyond_the_file_is_an_error() {
    let bigwig = BigWigRead::from(build(&small_file(false, true, 8))).unwrap();
    let block = Block { offset: bigwig.data.len() as u64 - 4, size: 5 };
    assert_eq!(
        get_block_values(&bigwig.data, &bigwig.info.header, &block, 0, 10),
        Err(BBIReadError::UnexpectedEof)
    );
    let huge = Block { offset: u64::MAX, size: u64::MAX };
    assert_eq!(
        get_block_values(&bigwig.data, &bigwig.info.header, &huge, 0, 10),
        Err(BBIReadError::UnexpectedEof)
    );
}

#[test]
fn corrupt_block_is_a_decompress_error() {
    let mut bigwig = BigWigRead::from(build(&small_file(false, true, 8))).unwrap();
    let blocks = bigwig.get_overlapping_blocks("chr17", 0, 1000).unwrap();
    let at = blocks[0].offset as usize;
    for i in 0..blocks[0].size as usize {
        bigwig.data[at + i] = 0xff;
    }
    let mut iter = bigwig.get_interval("chr17", 0, 1000).unwrap();
    assert_eq!(iter.next(), Some(Err(BBIReadError::Decompress)));
    assert_eq!(iter.next(), None);
    assert_eq!(bigwig.values("chr17", 0, 10), Err(BBIReadError::Decompress));
}

#[test]
fn stored_block_is_inflated() {
    let raw = bedgraph_section(0, &[(0, 100, 1.0)], false);
    let stored = zlib(&raw);
    assert_ne!(stored, raw);
    assert_eq!(get_block_data(&stored, raw.len()).unwrap(), raw);
    let padded = get_block_data(&stored, raw.len() + 5).unwrap();
    assert_eq!(padded.len(), raw.len() + 5);
    assert_eq!(&padded[..raw.len()], &raw[..]);
    assert_eq!(&padded[raw.len()..], &[0u8; 5]);
    assert_eq!(get_block_data(&raw, 0).unwrap(), raw);
    assert_eq!(get_block_data(&raw, raw.len()), None);
    assert_eq!(get_block_data(&stored, usize::MAX), None);
}

#[test]
fn variable_step_section() {
    let mut payload = Vec::new();
    put_u32(&mut payload, 0, false);
    put_u32(&mut payload, 10, false);
    put_u32(&mut payload, 45, false);
    put_u32(&mut payload, 0, false);
    put_u32(&mut payload, 5, false);
    payload.push(2);
    payload.push(0);
    put_u16(&mut payload, 2, false);
    put_u32(&mut payload, 10, false);
    put_u32(&mut payload, 1.5f32.to_bits(), false);
    put_u32(&mut payload, 40, false);
    put_u32(&mut payload, 2.5f32.to_bits(), false);
    assert_eq!(
        decode_block_values(&payload, Endianness::Little, 0, 1000),
        Ok(vec![value(10, 15, 1.5), value(40, 45, 2.5)])
    );
    assert_eq!(
        decode_block_values(&payload, Endianness::Little, 12, 42),
        Ok(vec![value(12, 15, 1.5), value(40, 42, 2.5)])
    );
}

#[test]
fn fixed_step_section() {
    for big in [false, true] {
        let mut payload = Vec::new();
        put_u32(&mut payload, 0, big);
        put_u32(&mut payload, 100, big);
        put_u32(&mut payload, 160, big);
        put_u32(&mut payload, 20, big);
        put_u32(&mut payload, 10, big);
        payload.push(3);
        payload.push(0);
        put_u16(&mut payload, 3, big);
        put_u32(&mut payload, 1.0f32.to_bits(), big);
        put_u32(&mut payload, 2.0f32.to_bits(), big);
        put_u32(&mut payload, 3.0f32.to_bits(), big);
        let e = if big { Endianness::Big } else { Endianness::Little };
        assert_eq!(
            decode_block_values(&payload, e, 0, 1000),
            Ok(vec![value(100, 110, 1.0), value(120, 130, 2.0), value(140, 150, 3.0)])
        );
        assert_eq!(
            decode_block_values(&payload, e, 105, 125),
            Ok(vec![value(105, 110, 1.0), value(120, 125, 2.0)])
        );
        assert_eq!(decode_block_values(&payload, e, 110, 120), Ok(vec![]));
    }
}

#[test]
fn section_errors() {
    let good = bedgraph_section(0, &[(0, 100, 1.0), (100, 200, 2.0)], false);
    assert_eq!(
        decode_block_values(&good[..23], Endianness::Little, 0, 10),
        Err(BBIReadError::UnexpectedEof)
    );
    assert_eq!(
        decode_block_values(&good[..good.len() - 1], Endianness::Little, 0, 10),
        Err(BBIReadError::UnexpectedEof)
    );
    let mut unknown = good.clone();
    unknown[20] = 7;
    assert_eq!(
        decode_block_values(&unknown, Endianness::Little, 0, 10),
        Err(BBIReadError::UnknownSectionType(7))
    );
    let mut empty = good.clone();
    empty[20] = 7;
    empty[22] = 0;
    assert_eq!(decode_block_values(&empty, Endianness::Little, 0, 10), Ok(vec![]));

    let mut overflow = Vec::new();
    put_u32(&mut overflow, 0, false);
    put_u32(&mut overflow, u32::MAX - 5, false);
    put_u32(&mut overflow, u32::MAX, false);
    put_u32(&mut overflow, 4, false);
    put_u32(&mut overflow, 2, false);
    overflow.push(3);
    overflow.push(0);
    put_u16(&mut overflow, 2, false);
    put_u32(&mut overflow, 1.0f32.to_bits(), false);
    put_u32(&mut overflow, 2.0f32.to_bits(), false);
    assert_eq!(
        decode_block_values(&overflow, Endianness::Little, 0, u32::MAX),
        Err(BBIReadError::PositionOverflow)
    );
    overflow[22] = 1;
    assert_eq!(
        decode_block_values(&overflow, Endianness::Little, 0, u32::MAX),
        Ok(vec![value(u32::MAX - 5, u32::MAX - 3, 1.0)])
    );
}

#[test]
fn numbers_in_both_byte_orders() {
    let data = [0x01u8, 0x02, 0x03, 0x04, 0x05, 0x06, 0x07, 0x08, 0x09];
    assert_eq!(get_u8(&data, 8, Endianness::Big), Some(9));
    assert_eq!(get_u8(&data, 9, Endianness::Big), None);
    assert_eq!(get_u16(&data, 1, Endianness::Little), Some(0x0302));
    assert_eq!(get_u16(&data, 1, Endianness::Big), Some(0x0203));
    assert_eq!(get_u16(&data, 8, Endianness::Big), None);
    assert_eq!(get_u32(&data, 0, Endianness::Little), Some(0x0403_0201));
    assert_eq!(get_u32(&data, 0, Endianness::Big), Some(0x0102_0304));
    assert_eq!(get_u32(&data, 5, Endianness::Big), Some(0x0607_0809));
    assert_eq!(get_u32(&data, 6, Endianness::Big), None);
    assert_eq!(get_u32(&data, usize::MAX, Endianness::Big), None);
    assert_eq!(get_u64(&data, 0, Endianness::Little), Some(0x0807_0605_0403_0201));
    assert_eq!(get_u64(&data, 1, Endianness::Big), Some(0x0203_0405_0607_0809));
    assert_eq!(get_u64(&data, 2, Endianness::Big), None);
}

fn zoom_payload(records: &[ZoomRecord], big: bool) -> Vec<u8> {
    let mut out = Vec::new();
    for r in records {
        for field in [r.chrom, r.start, r.end, r.bases_covered, r.min_val, r.max_val, r.sum, r.sum_squares] {
            put_u32(&mut out, field, big);
        }
    }
    out
}

fn zoom_record(chrom: u32, start: u32, end: u32, covered: u32, min: f32, max: f32, sum: f32, sq: f32) -> ZoomRecord {
    ZoomRecord {
        chrom,
        start,
        end,
        bases_covered: covered,
        min_val: min.to_bits(),
        max_val: max.to_bits(),
        sum: sum.to_bits(),
        sum_squares: sq.to_bits(),
    }
}

#[test]
fn zoom_interval_of_a_level() {
    let bins = vec![
        zoom_record(0, 0, 10, 10, 5.0, 5.0, 50.0, 250.0),
        zoom_record(0, 10, 20, 4, 1.0, 2.0, 6.0, 10.0),
    ];
    let mut image = small_file(false, true, 8);
    image.zoom = Some((
        10,
        vec![Section { chrom_id: 0, start: 0, end: 20, payload: zoom_payload(&bins, false) }],
    ));
    let bigwig = BigWigRead::from(build(&image)).unwrap();
    assert_eq!(bigwig.info.zoom_headers.len(), 1);
    assert_eq!(bigwig.info.zoom_headers[0].reduction_level, 10);

    let mut iter = bigwig.get_zoom_interval("chr17", 0, 1000, 10).unwrap();
    assert_eq!(iter.next(), Some(Ok(bins[0])));
    assert_eq!(iter.next(), Some(Ok(bins[1])));
    assert_eq!(iter.next(), None);

    let mut iter = bigwig.get_zoom_interval("chr17", 10, 11, 10).unwrap();
    assert_eq!(iter.next(), Some(Ok(bins[1])));
    assert_eq!(iter.next(), None);

    let mut iter = bigwig.get_zoom_interval("chr18", 0, 1000, 10).unwrap();
    assert_eq!(iter.next(), None);

    assert_eq!(
        bigwig.get_zoom_interval("chr17", 0, 1000, 40).err(),
        Some(BBIReadError::UnknownZoomLevel)
    );
    assert_eq!(
        bigwig.get_zoom_interval("chrX", 0, 1000, 10).err(),
        Some(BBIReadError::UnknownChrom)
    );
    assert_eq!(
        bigwig.get_zoom_interval("chrX", 0, 1000, 11).err(),
        Some(BBIReadError::UnknownZoomLevel)
    );
}

#[test]
fn zoom_block_keeps_bins_of_the_chromosome() {
    let bins = vec![
        zoom_record(0, 0, 10, 10, 5.0, 5.0, 50.0, 250.0),
        zoom_record(1, 0, 10, 4, 1.0, 2.0, 6.0, 10.0),
        zoom_record(1, 10, 20, 4, 1.0, 2.0, 6.0, 10.0),
    ];
    let mut payload = zoom_payload(&bins, true);
    payload.extend_from_slice(&[0u8; 40]);
    assert_eq!(decode_zoom_block_values(&payload, Endianness::Big, 1, 0, 100), vec![bins[1], bins[2]]);
    assert_eq!(decode_zoom_block_values(&payload, Endianness::Big, 1, 10, 100), vec![bins[2]]);
    assert_eq!(decode_zoom_block_values(&payload, Endianness::Big, 0, 9, 10), vec![bins[0]]);
    assert_eq!(decode_zoom_block_values(&payload, Endianness::Big, 0, 10, 100), vec![]);
    assert_eq!(decode_zoom_block_values(&payload[..31], Endianness::Big, 0, 0, 100), vec![]);
}

#[test]
fn attach_errors_come_from_the_errors_below() {
    let io = std::io::Error::new(std::io::ErrorKind::NotFound, "no such file");
    match BigWigReadAttachError::from(io) {
        BigWigReadAttachError::IoError(e) => assert_eq!(e.kind(), std::io::ErrorKind::NotFound),
        _ => panic!("an I/O error must stay an I/O error"),
    }
    assert!(matches!(
        BigWigReadAttachError::from(BBIFileReadInfoError::UnknownMagic),
        BigWigReadAttachError::NotABigWig
    ));
    assert!(matches!(
        BigWigReadAttachError::from(BBIFileReadInfoError::InvalidChroms),
        BigWigReadAttachError::InvalidChroms
    ));
    let io = std::io::Error::new(std::io::ErrorKind::PermissionDenied, "no");
    match BigWigReadAttachError::from(BBIFileReadInfoError::IoError(io)) {
        BigWigReadAttachError::IoError(e) => assert_eq!(e.kind(), std::io::ErrorKind::PermissionDenied),
        _ => panic!("an I/O error must stay an I/O error"),
    }
}

#[test]
fn reader_can_be_copied() {
    let bigwig = BigWigRead::from(build(&small_file(false, true, 8))).unwrap();
    let copy = bigwig.clone();
    assert_eq!(collect(&copy, "chr17", 0, 1000), collect(&bigwig, "chr17", 0, 1000));
    assert_eq!(copy.get_chroms(), bigwig.get_chroms());
}
