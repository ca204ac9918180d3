use bigtools::bedparser::BedParser;
use bigtools::bigwig::BedEntry;

fn small_bed() -> Vec<String> {
    vec![
        "chr17\t1\t100\ttest1\t0".to_string(),
        "chr17\t101\t200\ttest2\t0".to_string(),
        "chr17\t201\t300\ttest3\t0".to_string(),
        "chr18\t1\t100\ttest4\t0".to_string(),
        "chr18\t101\t200\ttest5\t0".to_string(),
        "chr19\t1\t100\ttest6\t0".to_string(),
    ]
}

#[test]
fn test_works() {
    let mut bgp = BedParser::from_lines(small_bed());
    {
        let (chrom, mut group) = bgp.next().unwrap().unwrap();
        assert_eq!(chrom, "chr17");
        assert_eq!(
            BedEntry { start: 1, end: 100, rest: "test1\t0".to_string() },
            group.next().unwrap().unwrap()
        );
        assert_eq!(
            &BedEntry { start: 101, end: 200, rest: "test2\t0".to_string() },
            group.peek().unwrap()
        );
        assert_eq!(
            &BedEntry { start: 101, end: 200, rest: "test2\t0".to_string() },
            group.peek().unwrap()
        );

        assert_eq!(
            BedEntry { start: 101, end: 200, rest: "test2\t0".to_string() },
            group.next().unwrap().unwrap()
        );
        assert_eq!(
            &BedEntry { start: 201, end: 300, rest: "test3\t0".to_string() },
            group.peek().unwrap()
        );

        assert_eq!(
            BedEntry { start: 201, end: 300, rest: "test3\t0".to_string() },
            group.next().unwrap().unwrap()
        );
        assert_eq!(None, group.peek());

        assert_eq!(None, group.next().unwrap());
        assert_eq!(None, group.peek());
    }
    {
        let (chrom, mut group) = bgp.next().unwrap().unwrap();
        assert_eq!(chrom, "chr18");
        assert_eq!(
            BedEntry { start: 1, end: 100, rest: "test4\t0".to_string() },
            group.next().unwrap().unwrap()
        );
        assert_eq!(
            &BedEntry { start: 101, end: 200, rest: "test5\t0".to_string() },
            group.peek().unwrap()
        );
        assert_eq!(
            &BedEntry { start: 101, end: 200, rest: "test5\t0".to_string() },
            group.peek().unwrap()
        );

        assert_eq!(
            BedEntry { start: 101, end: 200, rest: "test5\t0".to_string() },
            group.next().unwrap().unwrap()
        );
        assert_eq!(None, group.peek());

        assert_eq!(None, group.next().unwrap());
        assert_eq!(None, group.peek());
    }
    {
        let (chrom, mut group) = bgp.next().unwrap().unwrap();
        assert_eq!(chrom, "chr19");
        assert_eq!(
            BedEntry { start: 1, end: 100, rest: "test6\t0".to_string() },
            group.next().unwrap().unwrap()
        );
        assert_eq!(None, group.peek());

        assert_eq!(None, group.next().unwrap());
        assert_eq!(None, group.peek());
    }
    assert!(bgp.next().unwrap().is_none());
}

use bigtools::bedparser::{
    begin_chrom, bytes_lt, get_chromgroupstreamingiterator, BedParserState, BedStream, Either,
    StreamingChromValues,
};
use bigtools::bigwig::{BBIWriteOptions, WriteGroupsError};
use bigtools::idmap::{ChromSizes, IdMap};

fn lines(text: &[&str]) -> Vec<String> {
    text.iter().map(|l| l.to_string()).collect()
}

fn sizes(entries: &[(&str, u32)]) -> ChromSizes {
    let mut sizes = ChromSizes::new();
    for (name, length) in entries {
        sizes.insert(name.to_string(), *length);
    }
    sizes
}

fn invalid_input<T>(r: Result<T, WriteGroupsError>) -> String {
    match r {
        Err(WriteGroupsError::InvalidInput(message)) => message,
        Err(_) => panic!("the error must be invalid input"),
        Ok(_) => panic!("the input must be refused"),
    }
}

fn record(chrom: &str, start: u32, end: u32, rest: &str) -> Result<(String, u32, u32, String), WriteGroupsError> {
    Ok((chrom.to_string(), start, end, rest.to_string()))
}

#[test]
fn records_of_an_iterator_are_grouped() {
    let records = vec![
        record("chr17", 0, 100, "1.0"),
        record("chr17", 100, 200, "2.0"),
        record("chr18", 0, 50, "3.0"),
    ];
    let mut parser = BedParser::from_iter(records.into_iter());
    {
        let (chrom, mut group) = parser.next().unwrap().unwrap();
        assert_eq!(chrom, "chr17");
        assert_eq!(group.peek(), Some(&BedEntry { start: 100, end: 200, rest: "2.0".to_string() }));
        assert_eq!(group.next().unwrap(), Some(BedEntry { start: 0, end: 100, rest: "1.0".to_string() }));
        assert_eq!(group.next().unwrap(), Some(BedEntry { start: 100, end: 200, rest: "2.0".to_string() }));
        assert_eq!(group.next().unwrap(), None);
    }
    assert!(!parser.group_pending());
    {
        let (chrom, mut group) = parser.next().unwrap().unwrap();
        assert_eq!(chrom, "chr18");
        assert_eq!(group.peek(), None);
        assert_eq!(group.next().unwrap(), Some(BedEntry { start: 0, end: 50, rest: "3.0".to_string() }));
        assert_eq!(group.next().unwrap(), None);
        assert_eq!(group.next().unwrap(), None);
    }
    assert!(parser.next().unwrap().is_none());
    assert!(parser.next().unwrap().is_none());
}

#[test]
fn empty_input_has_no_group() {
    let mut parser = BedParser::from_lines(Vec::new());
    assert!(parser.next().unwrap().is_none());
    let mut parser = BedParser::from_iter(Vec::new().into_iter());
    assert!(parser.next().unwrap().is_none());
}

#[test]
fn abandoned_group_keeps_the_lookahead() {
    let mut parser = BedParser::from_lines(lines(&["chr1 1 2 a", "chr2 3 4 b", "chr2 5 6 c"]));
    {
        let (chrom, _group) = parser.next().unwrap().unwrap();
        assert_eq!(chrom, "chr1");
    }
    assert!(!parser.group_pending());
    {
        let (chrom, mut group) = parser.next().unwrap().unwrap();
        assert_eq!(chrom, "chr2");
        assert_eq!(group.next().unwrap(), Some(BedEntry { start: 3, end: 4, rest: "b".to_string() }));
    }
    assert!(parser.group_pending());
}

#[test]
fn error_of_the_iterator_is_handed_on() {
    let records = vec![
        record("chr17", 0, 100, ""),
        Err(WriteGroupsError::IoError(std::io::Error::new(std::io::ErrorKind::Other, "gone"))),
    ];
    let mut parser = BedParser::from_iter(records.into_iter());
    match parser.next() {
        Err(WriteGroupsError::IoError(e)) => assert_eq!(e.to_string(), "gone"),
        _ => panic!("the error of the iterator must come out"),
    }
}

#[test]
fn record_that_ends_before_it_starts_is_refused() {
    let mut parser = BedParser::from_lines(lines(&["chr1 10 10 a"]));
    let message = invalid_input(parser.next().map(|_| ()));
    assert_eq!(message, "Invalid record: its end is not greater than its start.");
    let mut parser = BedParser::from_lines(lines(&["chr1 10 11 a", "chr1 20 5 b"]));
    let message = invalid_input(parser.next().map(|_| ()));
    assert_eq!(message, "Invalid record: its end is not greater than its start.");
}

#[test]
fn records_out_of_order_within_a_chromosome_are_refused() {
    let mut parser = BedParser::from_lines(lines(&["chr1 10 20", "chr1 10 30", "chr1 9 30", "chr1 40 50"]));
    let (chrom, mut group) = parser.next().unwrap().unwrap();
    assert_eq!(chrom, "chr1");
    assert_eq!(group.next().unwrap(), Some(BedEntry { start: 10, end: 20, rest: String::new() }));
    let message = invalid_input(group.next());
    assert!(message.contains("not sorted"));
}

#[test]
fn same_start_twice_is_accepted() {
    let mut parser = BedParser::from_lines(lines(&["chr1 10 20", "chr1 10 20", "chr2 0 5"]));
    let (_, mut group) = parser.next().unwrap().unwrap();
    assert_eq!(group.next().unwrap(), Some(BedEntry { start: 10, end: 20, rest: String::new() }));
    assert_eq!(group.next().unwrap(), Some(BedEntry { start: 10, end: 20, rest: String::new() }));
    assert_eq!(group.next().unwrap(), None);
}

#[test]
fn malformed_line_is_refused_by_the_parser() {
    let mut parser = BedParser::from_lines(lines(&["chr1 10 20", "chr1 ten 30"]));
    assert_eq!(invalid_input(parser.next().map(|_| ())), "Invalid start");
}

#[test]
fn stream_of_lines_yields_records() {
    let mut stream = BedStream::new(lines(&["chr1 1 2 x y", "", "chr2 3 4"]));
    assert_eq!(stream.next().unwrap(), Some(("chr1", 1, 2, "x\ty".to_string())));
    assert_eq!(stream.next().unwrap(), None);
    assert_eq!(stream.next().unwrap(), Some(("chr2", 3, 4, String::new())));
    assert_eq!(stream.next().unwrap(), None);
    assert_eq!(stream.next().unwrap(), None);
}

#[test]
fn state_accepts_records_one_by_one() {
    let mut state = BedParserState::new(BedStream::new(Vec::new()));
    state.accept(Some(("chr1".to_string(), 5, 10, "a".to_string()))).unwrap();
    state.accept(Some(("chr1".to_string(), 7, 12, "b".to_string()))).unwrap();
    let message = invalid_input(state.accept(Some(("chr1".to_string(), 6, 12, "c".to_string()))));
    assert!(message.contains("not sorted"));
    let message = invalid_input(state.accept(Some(("chr2".to_string(), 6, 6, "c".to_string()))));
    assert!(message.contains("end is not greater"));
    state.accept(Some(("chr0".to_string(), 0, 1, "d".to_string()))).unwrap();
    state.accept(None).unwrap();
    state.advance().unwrap();
}

#[test]
fn names_are_ordered_by_their_bytes() {
    assert!(bytes_lt(b"chr17", b"chr18"));
    assert!(!bytes_lt(b"chr18", b"chr17"));
    assert!(!bytes_lt(b"chr17", b"chr17"));
    assert!(bytes_lt(b"chr1", b"chr17"));
    assert!(!bytes_lt(b"chr17", b"chr1"));
    assert!(bytes_lt(b"chr10", b"chr2"));
    assert!(bytes_lt(b"", b"a"));
    assert!(!bytes_lt(b"", b""));
    assert!(bytes_lt(b"Z", b"a"));
    assert!(bytes_lt("z".as_bytes(), "é".as_bytes()));
    for (a, b) in [("chr1", "chr10"), ("chrX", "chrY"), ("b", "a"), ("é", "z"), ("", "")] {
        assert_eq!(bytes_lt(a.as_bytes(), b.as_bytes()), a < b);
    }
}

#[test]
fn chromosome_gets_id_and_length() {
    let sizes = sizes(&[("chr17", 1000), ("chr18", 2000)]);
    let mut last = None;
    let mut ids = IdMap::new();
    assert_eq!(begin_chrom(&mut last, &mut ids, &sizes, "chr17").unwrap(), (0, 1000));
    assert_eq!(last, Some("chr17".to_string()));
    assert_eq!(begin_chrom(&mut last, &mut ids, &sizes, "chr18").unwrap(), (1, 2000));
    assert_eq!(last, Some("chr18".to_string()));
    assert_eq!(ids.entries(), vec![("chr17".to_string(), 0), ("chr18".to_string(), 1)]);
}

#[test]
fn chromosome_out_of_order_is_refused_by_name() {
    let sizes = sizes(&[("chr17", 1000), ("chr18", 1000)]);
    let mut last = Some("chr18".to_string());
    let mut ids = IdMap::new();
    let message = invalid_input(begin_chrom(&mut last, &mut ids, &sizes, "chr17"));
    assert_eq!(
        message,
        "Input bedGraph not sorted by chromosome. Sort with `sort -k1,1 -k2,2n`. Out of order: chr17"
    );
    assert_eq!(last, Some("chr17".to_string()));
    assert_eq!(ids.len(), 0);
    let message = invalid_input(begin_chrom(&mut last, &mut ids, &sizes, "chr17"));
    assert!(message.contains("not sorted"));
    assert!(message.ends_with("chr17"));
}

#[test]
fn chromosome_without_length_is_refused_by_name() {
    let sizes = sizes(&[("chr17", 1000), ("chr18", 1000)]);
    let mut last = Some("chr18".to_string());
    let mut ids = IdMap::new();
    let message = invalid_input(begin_chrom(&mut last, &mut ids, &sizes, "chrX"));
    assert_eq!(
        message,
        "Input bedGraph contains chromosome that isn't in the input chrom sizes: chrX"
    );
    assert_eq!(ids.len(), 0);
}

fn walk(input: &[&str], chrom_sizes: &[(&str, u32)]) -> Result<Vec<(String, u32, u32, Vec<BedEntry>)>, WriteGroupsError> {
    let parser = BedParser::from_lines(lines(input));
    let mut groups = get_chromgroupstreamingiterator(parser, BBIWriteOptions::default(), sizes(chrom_sizes));
    let mut out = Vec::new();
    loop {
        match groups.next()? {
            Some(Either::Left(mut read)) => {
                let mut entries = Vec::new();
                while let Some(entry) = read.group.next()? {
                    entries.push(entry);
                }
                out.push((read.chrom.clone(), read.chrom_id, read.length, entries));
            }
            Some(Either::Right(ids)) => {
                let names: Vec<String> = out.iter().map(|g| g.0.clone()).collect();
                let expected: Vec<(String, u32)> =
                    names.into_iter().enumerate().map(|(i, n)| (n, i as u32)).collect();
                assert_eq!(ids.entries(), expected);
            }
            None => return Ok(out),
        }
    }
}

#[test]
fn sorted_input_is_walked_chromosome_by_chromosome() {
    let groups = walk(
        &["chr17 0 100 1.0", "chr17 100 200 2.0", "chr18 0 50 3.0"],
        &[("chr17", 1000), ("chr18", 900)],
    )
    .unwrap();
    assert_eq!(groups.len(), 2);
    assert_eq!(groups[0].0, "chr17");
    assert_eq!(groups[0].1, 0);
    assert_eq!(groups[0].2, 1000);
    assert_eq!(
        groups[0].3,
        vec![
            BedEntry { start: 0, end: 100, rest: "1.0".to_string() },
            BedEntry { start: 100, end: 200, rest: "2.0".to_string() }
        ]
    );
    assert_eq!(groups[1].0, "chr18");
    assert_eq!(groups[1].1, 1);
    assert_eq!(groups[1].2, 900);
    assert_eq!(groups[1].3, vec![BedEntry { start: 0, end: 50, rest: "3.0".to_string() }]);
}

#[test]
fn unsorted_input_fails_as_not_sorted() {
    let message = invalid_input(walk(
        &["chr18 0 50 3.0", "chr17 0 100 1.0", "chr17 100 200 2.0"],
        &[("chr17", 1000), ("chr18", 1000)],
    ));
    assert!(message.contains("not sorted"));
    assert!(message.contains("chr17"));
}

#[test]
fn chromosome_that_comes_twice_fails_as_not_sorted() {
    let message = invalid_input(walk(
        &["chr17 0 100 1.0", "chr18 0 50 3.0", "chr17 100 200 2.0"],
        &[("chr17", 1000), ("chr18", 1000)],
    ));
    assert!(message.contains("not sorted"));
}

#[test]
fn input_with_unknown_chromosome_fails_by_name() {
    let message = invalid_input(walk(
        &["chr17 0 100 1.0", "chrX 0 50 3.0"],
        &[("chr17", 1000), ("chr18", 1000)],
    ));
    assert!(message.contains("chromosome that isn't in the input chrom sizes: chrX"));
}

#[test]
fn default_options() {
    let options = BBIWriteOptions::default();
    assert!(options.compress);
    assert_eq!(options.items_per_slot, 1024);
    assert_eq!(options.block_size, 256);
}

#[test]
fn input_that_goes_on_after_a_blank_line_is_refused() {
    let parser = BedParser::from_lines(lines(&["chr1 0 10 1.0", "", "", "chr2 0 10 2.0"]));
    let mut groups =
        get_chromgroupstreamingiterator(parser, BBIWriteOptions::default(), sizes(&[("chr1", 100), ("chr2", 100)]));
    match groups.next().unwrap() {
        Some(Either::Left(mut read)) => {
            assert_eq!(read.chrom, "chr1");
            assert_eq!(read.group.next().unwrap(), Some(BedEntry { start: 0, end: 10, rest: "1.0".to_string() }));
            assert_eq!(read.group.peek(), None);
        }
        _ => panic!("the first chromosome must come first"),
    }
    match groups.next().unwrap() {
        Some(Either::Right(ids)) => assert_eq!(ids.entries(), vec![("chr1".to_string(), 0)]),
        _ => panic!("the ids must come at the end of the input"),
    }
    assert_eq!(invalid_input(groups.next().map(|_| ())), "Input bedGraph goes on after its end.");
}

#[test]
fn walk_ends_with_none_after_the_ids() {
    let parser = BedParser::from_lines(lines(&["chr1 0 10 1.0"]));
    let mut groups = get_chromgroupstreamingiterator(parser, BBIWriteOptions::default(), sizes(&[("chr1", 100)]));
    assert!(matches!(groups.next().unwrap(), Some(Either::Left(_))));
    assert!(matches!(groups.next().unwrap(), Some(Either::Right(_))));
    assert!(groups.next().unwrap().is_none());
    assert!(groups.next().unwrap().is_none());
}

#[test]
fn record_behind_the_end_of_its_chromosome_is_refused() {
    let parser = BedParser::from_lines(lines(&["chr1 0 100 1.0", "chr1 100 101 2.0"]));
    let mut groups = get_chromgroupstreamingiterator(parser, BBIWriteOptions::default(), sizes(&[("chr1", 100)]));
    match groups.next().unwrap() {
        Some(Either::Left(mut read)) => {
            assert_eq!(read.next().unwrap(), Some(BedEntry { start: 0, end: 100, rest: "1.0".to_string() }));
            assert_eq!(
                invalid_input(read.next()),
                "Invalid record: it ends after the end of its chromosome."
            );
        }
        _ => panic!("the chromosome must come first"),
    }
}
