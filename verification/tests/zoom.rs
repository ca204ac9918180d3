use bigtools::bigwig::WriteGroupsError;
use bigtools::zoom::{ZoomBin, ZoomLevel, ZoomStep};

fn bin(start: u32, end: u32, bases_covered: u32) -> ZoomBin {
    ZoomBin { start, end, bases_covered }
}

fn cover(start: u32, end: u32) -> ZoomStep {
    ZoomStep::Cover { start, end }
}

#[test]
fn record_that_fills_a_bin() {
    let mut level = ZoomLevel::new(10);
    assert_eq!(level.add(0, 10).unwrap(), vec![cover(0, 10)]);
    assert_eq!(level.finish(), Some(bin(0, 10, 10)));
    assert_eq!(level.finish(), None);
}

#[test]
fn record_is_cut_at_the_bins() {
    let mut level = ZoomLevel::new(10);
    assert_eq!(
        level.add(5, 32).unwrap(),
        vec![
            cover(5, 10),
            ZoomStep::Close(bin(0, 10, 5)),
            cover(10, 20),
            ZoomStep::Close(bin(10, 20, 10)),
            cover(20, 30),
            ZoomStep::Close(bin(20, 30, 10)),
            cover(30, 32),
        ]
    );
    assert_eq!(level.add(32, 35).unwrap(), vec![cover(32, 35)]);
    assert_eq!(level.add(38, 40).unwrap(), vec![cover(38, 40)]);
    assert_eq!(level.add(40, 41).unwrap(), vec![ZoomStep::Close(bin(30, 40, 7)), cover(40, 41)]);
    assert_eq!(level.add(95, 96).unwrap(), vec![ZoomStep::Close(bin(40, 50, 1)), cover(95, 96)]);
    assert_eq!(level.finish(), Some(bin(90, 100, 1)));
}

#[test]
fn bins_hold_the_bases_of_the_records() {
    for width in [1u32, 3, 10, 40, 1000] {
        let records: Vec<(u32, u32)> = (0..50u32).map(|i| (37 * i, 37 * i + 1 + (i * 7) % 37)).collect();
        let mut level = ZoomLevel::new(width);
        let mut bins = Vec::new();
        let mut covered = 0u64;
        for (start, end) in &records {
            for step in level.add(*start, *end).unwrap() {
                match step {
                    ZoomStep::Cover { start, end } => covered += (end - start) as u64,
                    ZoomStep::Close(bin) => bins.push(bin),
                }
            }
        }
        bins.extend(level.finish());
        let total: u64 = records.iter().map(|(s, e)| (e - s) as u64).sum();
        assert_eq!(covered, total);
        assert_eq!(bins.iter().map(|b| b.bases_covered as u64).sum::<u64>(), total);
        for b in &bins {
            assert_eq!(b.start % width, 0);
            assert_eq!(b.end, b.start + width);
            assert!(0 < b.bases_covered && b.bases_covered <= width);
        }
        for pair in bins.windows(2) {
            assert!(pair[0].end <= pair[1].start);
        }
    }
}

#[test]
fn last_bin_ends_at_the_greatest_position() {
    let mut level = ZoomLevel::new(1 << 31);
    assert_eq!(
        level.add(u32::MAX - 3, u32::MAX).unwrap(),
        vec![cover(u32::MAX - 3, u32::MAX)]
    );
    assert_eq!(level.finish(), Some(bin(1 << 31, u32::MAX, 3)));
}

#[test]
fn record_that_overlaps_the_one_before_is_refused() {
    let mut level = ZoomLevel::new(10);
    level.add(0, 15).unwrap();
    for (start, end) in [(14, 20), (0, 5), (20, 20), (30, 25)] {
        match level.add(start, end) {
            Err(WriteGroupsError::InvalidInput(message)) => assert!(message.contains("overlaps")),
            _ => panic!("the record must be refused"),
        }
    }
    assert_eq!(level.add(15, 16).unwrap(), vec![cover(15, 16)]);
    assert_eq!(level.finish(), Some(bin(10, 20, 6)));
}

#[test]
fn bin_of_ten_bases_at_five() {
    let mut level = ZoomLevel::new(10);
    let (mut sum, mut sum_squares) = (0.0f32, 0.0f32);
    let (mut min, mut max) = (f32::MAX, f32::MIN);
    let value = 5.0f32;
    for step in level.add(0, 10).unwrap() {
        match step {
            ZoomStep::Cover { start, end } => {
                let bases = (end - start) as f32;
                sum += value * bases;
                sum_squares += value * value * bases;
                min = min.min(value);
                max = max.max(value);
            }
            ZoomStep::Close(_) => panic!("no bin is complete yet"),
        }
    }
    assert_eq!(level.finish(), Some(bin(0, 10, 10)));
    assert_eq!(sum, 50.0);
    assert_eq!(sum_squares, 250.0);
    assert_eq!(min, 5.0);
    assert_eq!(max, 5.0);
}
