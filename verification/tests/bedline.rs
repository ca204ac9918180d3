use bigtools::bedline::{is_space, parse_bed_line, parse_u32, split_fields, string_from_chars, to_chars};
use bigtools::bigwig::WriteGroupsError;

fn chars(s: &str) -> Vec<char> {
    s.chars().collect()
}

fn message(r: Result<Option<(String, u32, u32, String)>, WriteGroupsError>) -> String {
    match r {
        Err(WriteGroupsError::InvalidInput(message)) => message,
        _ => panic!("the line must be refused as invalid input"),
    }
}

#[test]
fn line_with_rest_is_split() {
    let record = parse_bed_line("chr17\t1\t100\ttest1\t0").unwrap().unwrap();
    assert_eq!(record, ("chr17".to_string(), 1, 100, "test1\t0".to_string()));
}

#[test]
fn rest_is_joined_with_single_tabs() {
    let record = parse_bed_line("  chr1   5 \t 7   a  b\t\tc  ").unwrap().unwrap();
    assert_eq!(record, ("chr1".to_string(), 5, 7, "a\tb\tc".to_string()));
}

#[test]
fn line_without_rest_has_an_empty_rest() {
    let record = parse_bed_line("chrX 0 4294967295").unwrap().unwrap();
    assert_eq!(record, ("chrX".to_string(), 0, u32::MAX, String::new()));
    let record = parse_bed_line("chr2 10 20 0.5").unwrap().unwrap();
    assert_eq!(record, ("chr2".to_string(), 10, 20, "0.5".to_string()));
}

#[test]
fn line_without_fields_is_no_record() {
    assert_eq!(parse_bed_line("").unwrap(), None);
    assert_eq!(parse_bed_line(" \t \r\n").unwrap(), None);
    assert_eq!(parse_bed_line("\u{3000}\u{a0}").unwrap(), None);
}

#[test]
fn line_that_lacks_a_field_is_refused() {
    assert_eq!(message(parse_bed_line("chr1")), "Missing start");
    assert_eq!(message(parse_bed_line("chr1 5")), "Missing end");
    assert_eq!(message(parse_bed_line("chr1 x")), "Invalid start");
}

#[test]
fn line_with_a_malformed_number_is_refused() {
    assert_eq!(message(parse_bed_line("chr1 -1 5")), "Invalid start");
    assert_eq!(message(parse_bed_line("chr1 1.5 5")), "Invalid start");
    assert_eq!(message(parse_bed_line("chr1 1 5x")), "Invalid end");
    assert_eq!(message(parse_bed_line("chr1 1 4294967296")), "Invalid end");
    assert_eq!(message(parse_bed_line("chr1 1 +")), "Invalid end");
}

#[test]
fn unsigned_numbers_are_read_as_std_reads_them() {
    for text in [
        "0", "7", "007", "+5", "+0", "4294967295", "4294967296", "42949672950", "+", "", "-0",
        "-1", "1e3", "0x10", " 1", "1 ", "++1", "+-1", "99999999999999999999999999", "12a", "a12",
        "\u{0661}",
    ] {
        assert_eq!(parse_u32(&chars(text)), text.parse::<u32>().ok(), "{:?}", text);
    }
}

#[test]
fn whitespace_is_what_std_calls_whitespace() {
    let mut c = 0u32;
    while c <= 0x3100 {
        if let Some(ch) = char::from_u32(c) {
            assert_eq!(is_space(ch), ch.is_whitespace(), "U+{:04X}", c);
        }
        c += 1;
    }
    assert!(!is_space('\u{10FFFF}'));
    assert!(!is_space('\u{FEFF}'));
}

#[test]
fn fields_are_the_runs_between_whitespace() {
    for text in ["", " ", "a", " a", "a ", "a b", "  ab\t\tcd \n e  ", "\u{2003}x\u{2003}y", "é ü"] {
        let expected: Vec<Vec<char>> = text.split_whitespace().map(|f| f.chars().collect()).collect();
        assert_eq!(split_fields(&chars(text)), expected, "{:?}", text);
    }
}

#[test]
fn strings_and_characters_convert_both_ways() {
    for text in ["", "chr17", "naïve\t\u{1F600}"] {
        assert_eq!(to_chars(text), chars(text));
        assert_eq!(string_from_chars(&chars(text)), text);
    }
}
