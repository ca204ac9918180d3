//! The text form of one record: a line split at whitespace into chromosome,
//! start, end and the rest.

use crate::bigwig::WriteGroupsError;
use vstd::prelude::*;
use vstd::string::StringExecFns;

verus! {

/// `String::push` of std appends the character to the end of the string.
pub assume_specification[ String::push ](s: &mut String, ch: char)
    ensures
        final(s)@ == old(s)@.push(ch),
;

/// Whether `c` separates fields: the characters with the Unicode property
/// `White_Space`.
pub open spec fn is_whitespace(c: char) -> bool {
    let n = c as u32;
    (0x09 <= n <= 0x0d) || n == 0x20 || n == 0x85 || n == 0xa0 || n == 0x1680 || (0x2000 <= n
        <= 0x200a) || n == 0x2028 || n == 0x2029 || n == 0x202f || n == 0x205f || n == 0x3000
}

/// Where the run of non-whitespace characters that holds position `i` ends.
pub open spec fn word_end(s: Seq<char>, i: int) -> int
    decreases s.len() - i,
{
    if 0 <= i < s.len() && !is_whitespace(s[i]) {
        word_end(s, i + 1)
    } else {
        i
    }
}

/// The fields of `s` from position `i` on: its maximal runs of
/// non-whitespace characters, in their order.
pub open spec fn fields_from(s: Seq<char>, i: int) -> Seq<Seq<char>>
    decreases s.len() - i,
{
    if i < 0 || i >= s.len() {
        Seq::empty()
    } else if is_whitespace(s[i]) {
        fields_from(s, i + 1)
    } else if word_end(s, i) <= i || word_end(s, i) > s.len() {
        Seq::empty()
    } else {
        seq![s.subrange(i, word_end(s, i))] + fields_from(s, word_end(s, i))
    }
}

/// The fields of a line.
pub open spec fn fields(s: Seq<char>) -> Seq<Seq<char>> {
    fields_from(s, 0)
}

/// Whether `c` is one of the ten decimal digits.
pub open spec fn is_digit(c: char) -> bool {
    0x30 <= c as u32 <= 0x39
}

/// The number that a run of decimal digits writes.
pub open spec fn digits_value(s: Seq<char>) -> nat
    decreases s.len(),
{
    if s.len() == 0 {
        0
    } else {
        digits_value(s.drop_last()) * 10 + (s.last() as u32 - 0x30) as nat
    }
}

/// Whether `s` holds decimal digits only.
pub open spec fn all_digits(s: Seq<char>) -> bool {
    forall|i: int| 0 <= i < s.len() ==> is_digit(#[trigger] s[i])
}

/// The field without the plus sign that may stand before the digits.
pub open spec fn unsigned_part(s: Seq<char>) -> Seq<char> {
    if s.len() > 0 && s[0] == '+' {
        s.skip(1)
    } else {
        s
    }
}

/// The unsigned 32-bit number that a field writes: one or more decimal
/// digits, after an optional plus sign, whose value fits in 32 bits.
pub open spec fn spec_parse_u32(s: Seq<char>) -> Option<u32> {
    let body = unsigned_part(s);
    if body.len() > 0 && all_digits(body) && digits_value(body) <= u32::MAX {
        Some(digits_value(body) as u32)
    } else {
        None
    }
}

/// The fields joined again, with one tab between neighbours.
pub open spec fn join_tab(parts: Seq<Seq<char>>) -> Seq<char>
    decreases parts.len(),
{
    if parts.len() == 0 {
        Seq::empty()
    } else if parts.len() == 1 {
        parts[0]
    } else {
        join_tab(parts.drop_last()) + seq!['\t'] + parts.last()
    }
}

/// What is wrong with a line that is no record.
pub enum LineProblem {
    MissingStart,
    InvalidStart,
    MissingEnd,
    InvalidEnd,
}

/// The text that reports a problem of a line.
pub open spec fn problem_message(problem: LineProblem) -> Seq<char> {
    match problem {
        LineProblem::MissingStart => "Missing start"@,
        LineProblem::InvalidStart => "Invalid start"@,
        LineProblem::MissingEnd => "Missing end"@,
        LineProblem::InvalidEnd => "Invalid end"@,
    }
}

/// A record as a line of text gives it: chromosome, start, end and the rest.
pub ghost struct LineRecord {
    pub chrom: Seq<char>,
    pub start: u32,
    pub end: u32,
    pub rest: Seq<char>,
}

/// What a line means. A line without fields is no record and no error. The
/// first field is the chromosome, the second and third are start and end,
/// and what follows is the rest, joined with tabs.
pub open spec fn spec_parse_bed_line(line: Seq<char>) -> Result<Option<LineRecord>, LineProblem> {
    let f = fields(line);
    if f.len() == 0 {
        Ok(None)
    } else if f.len() == 1 {
        Err(LineProblem::MissingStart)
    } else if spec_parse_u32(f[1]) is None {
        Err(LineProblem::InvalidStart)
    } else if f.len() == 2 {
        Err(LineProblem::MissingEnd)
    } else if spec_parse_u32(f[2]) is None {
        Err(LineProblem::InvalidEnd)
    } else {
        Ok(
            Some(
                LineRecord {
                    chrom: f[0],
                    start: spec_parse_u32(f[1])->Some_0,
                    end: spec_parse_u32(f[2])->Some_0,
                    rest: join_tab(f.skip(3)),
                },
            ),
        )
    }
}

/// The views of a list of character vectors.
pub open spec fn views(v: Seq<Vec<char>>) -> Seq<Seq<char>> {
    v.map_values(|x: Vec<char>| x@)
}

/// Tells whether `c` separates fields.
pub fn is_space(c: char) -> (b: bool)
    ensures
        b == is_whitespace(c),
{
    let n: u32 = c as u32;
    (0x09 <= n && n <= 0x0d) || n == 0x20 || n == 0x85 || n == 0xa0 || n == 0x1680 || (0x2000
        <= n && n <= 0x200a) || n == 0x2028 || n == 0x2029 || n == 0x202f || n == 0x205f || n
        == 0x3000
}

/// The characters of a string.
pub fn to_chars(s: &str) -> (v: Vec<char>)
    ensures
        v@ == s@,
{
    let mut v: Vec<char> = Vec::new();
    for c in it: s.chars()
        invariant
            v@ == it.seq().take(it.index() as int),
            it.seq() == s@,
    {
        v.push(c);
    }
    v
}

/// The string that holds the given characters.
pub fn string_from_chars(chars: &Vec<char>) -> (s: String)
    ensures
        s@ == chars@,
{
    let mut s = String::new();
    let mut i: usize = 0;
    while i < chars.len()
        invariant
            i <= chars@.len(),
            s@ == chars@.take(i as int),
        decreases chars@.len() - i,
    {
        s.push(chars[i]);
        i = i + 1;
    }
    s
}

/// A run of non-whitespace characters ends where the run that starts one
/// later ends.
proof fn lemma_word_end_bounds(s: Seq<char>, i: int)
    requires
        0 <= i <= s.len(),
    ensures
        i <= word_end(s, i) <= s.len(),
        forall|j: int| i <= j < word_end(s, i) ==> !is_whitespace(#[trigger] s[j]),
        word_end(s, i) < s.len() ==> is_whitespace(s[word_end(s, i)]),
    decreases s.len() - i,
{
    if i < s.len() && !is_whitespace(s[i]) {
        lemma_word_end_bounds(s, i + 1);
    }
}

/// Splits a line at whitespace.
pub fn split_fields(chars: &Vec<char>) -> (r: Vec<Vec<char>>)
    ensures
        views(r@) == fields(chars@),
{
    let mut out: Vec<Vec<char>> = Vec::new();
    let mut i: usize = 0;
    while i < chars.len()
        invariant
            i <= chars@.len(),
            fields(chars@) == views(out@) + fields_from(chars@, i as int),
        decreases chars@.len() - i,
    {
        if is_space(chars[i]) {
            i = i + 1;
        } else {
            let begin = i;
            let mut word: Vec<char> = Vec::new();
            while i < chars.len() && !is_space(chars[i])
                invariant
                    begin <= i <= chars@.len(),
                    word@ == chars@.subrange(begin as int, i as int),
                    word_end(chars@, begin as int) == word_end(chars@, i as int),
                    begin < chars@.len(),
                    !is_whitespace(chars@[begin as int]),
                decreases chars@.len() - i,
            {
                word.push(chars[i]);
                i = i + 1;
            }
            proof {
                assert(word_end(chars@, i as int) == i);
                assert(i > begin);
                let rest = fields_from(chars@, i as int);
                assert(fields_from(chars@, begin as int) == seq![word@] + rest);
                assert(views(out@.push(word)) =~= views(out@).push(word@));
                assert(views(out@).push(word@) + rest =~= views(out@) + (seq![word@] + rest));
            }
            out.push(word);
        }
    }
    proof {
        assert(fields_from(chars@, chars@.len() as int) == Seq::<Seq<char>>::empty());
        assert(views(out@) + Seq::<Seq<char>>::empty() =~= views(out@));
    }
    out
}

/// A run of digits writes a number at least as large as any of its prefixes.
proof fn lemma_digits_value_prefix(s: Seq<char>, k: int)
    requires
        0 <= k <= s.len(),
        all_digits(s),
    ensures
        digits_value(s.take(k)) <= digits_value(s),
    decreases s.len() - k,
{
    if k == s.len() {
        assert(s.take(k) == s);
    } else {
        lemma_digits_value_prefix(s, k + 1);
        assert(s.take(k + 1).drop_last() == s.take(k));
        assert(is_digit(s[k]));
    }
}

/// Reads an unsigned 32-bit number from a field.
pub fn parse_u32(field: &Vec<char>) -> (r: Option<u32>)
    ensures
        r == spec_parse_u32(field@),
{
    let begin: usize = if field.len() > 0 && field[0] == '+' { 1 } else { 0 };
    let ghost body = unsigned_part(field@);
    assert(body == field@.skip(begin as int));
    if begin == field.len() {
        return None;
    }
    let mut acc: u64 = 0;
    let mut i: usize = begin;
    while i < field.len()
        invariant
            begin <= i <= field@.len(),
            begin < field@.len(),
            body == unsigned_part(field@),
            body == field@.skip(begin as int),
            all_digits(body.take(i - begin)),
            acc == digits_value(body.take(i - begin)),
            acc <= u32::MAX,
        decreases field@.len() - i,
    {
        let c: u32 = field[i] as u32;
        let ghost longer = body.take(i - begin + 1);
        assert(longer.drop_last() == body.take(i - begin));
        assert(longer.last() == field@[i as int]);
        assert(body[i - begin] == field@[i as int]);
        if c < 0x30 || c > 0x39 {
            assert(!is_digit(body[i - begin]));
            assert(!all_digits(body));
            return None;
        }
        assert(is_digit(longer.last()));
        assert(all_digits(longer)) by {
            assert forall|k: int| 0 <= k < longer.len() implies is_digit(#[trigger] longer[k]) by {
                if k < longer.len() - 1 {
                    assert(longer[k] == body.take(i - begin)[k]);
                }
            }
        }
        let next: u64 = acc * 10 + (c - 0x30) as u64;
        if next > u32::MAX as u64 {
            proof {
                if all_digits(body) {
                    lemma_digits_value_prefix(body, i - begin + 1);
                }
            }
            return None;
        }
        acc = next;
        i = i + 1;
    }
    assert(body.take(body.len() as int) == body);
    Some(acc as u32)
}

/// Joins the fields from the fourth on with tabs.
fn join_rest(parts: &Vec<Vec<char>>) -> (s: String)
    requires
        parts@.len() >= 3,
    ensures
        s@ == join_tab(views(parts@).skip(3)),
{
    let mut s = String::new();
    let ghost tail = views(parts@).skip(3);
    let mut k: usize = 3;
    while k < parts.len()
        invariant
            3 <= k <= parts@.len(),
            tail == views(parts@).skip(3),
            s@ == join_tab(tail.take(k - 3)),
        decreases parts@.len() - k,
    {
        let ghost longer = tail.take(k - 3 + 1);
        assert(longer.drop_last() == tail.take(k - 3));
        assert(longer.last() == parts@[k as int]@);
        if k > 3 {
            s.push('\t');
        }
        let word = &parts[k];
        let ghost before = s@;
        let mut j: usize = 0;
        while j < word.len()
            invariant
                j <= word@.len(),
                s@ == before + word@.take(j as int),
            decreases word@.len() - j,
        {
            s.push(word[j]);
            j = j + 1;
        }
        assert(word@.take(word@.len() as int) == word@);
        k = k + 1;
    }
    assert(tail.take(tail.len() as int) == tail);
    s
}

/// Reads one record from a line of text.
///
/// A line without fields gives `Ok(None)`. A line that lacks start or end,
/// or whose start or end is no unsigned 32-bit number, is refused with the
/// text that names the problem.
pub fn parse_bed_line(line: &str) -> (r: Result<
    Option<(String, u32, u32, String)>,
    WriteGroupsError,
>)
    ensures
        match r {
            Ok(None) => spec_parse_bed_line(line@) == Ok::<Option<LineRecord>, LineProblem>(None),
            Ok(Some(record)) => spec_parse_bed_line(line@) == Ok::<
                Option<LineRecord>,
                LineProblem,
            >(
                Some(
                    LineRecord {
                        chrom: record.0@,
                        start: record.1,
                        end: record.2,
                        rest: record.3@,
                    },
                ),
            ),
            Err(WriteGroupsError::InvalidInput(message)) => spec_parse_bed_line(line@) is Err
                && message@ == problem_message(spec_parse_bed_line(line@)->Err_0),
            Err(WriteGroupsError::IoError(_)) => false,
        },
{
    let chars = to_chars(line);
    let parts = split_fields(&chars);
    assert(views(parts@).len() == parts@.len());
    if parts.len() == 0 {
        return Ok(None);
    }
    assert(views(parts@)[0] == parts@[0]@);
    if parts.len() == 1 {
        return Err(WriteGroupsError::InvalidInput(String::from_str("Missing start")));
    }
    assert(views(parts@)[1] == parts@[1]@);
    let start = match parse_u32(&parts[1]) {
        Some(start) => start,
        None => {
            return Err(WriteGroupsError::InvalidInput(String::from_str("Invalid start")));
        },
    };
    if parts.len() == 2 {
        return Err(WriteGroupsError::InvalidInput(String::from_str("Missing end")));
    }
    assert(views(parts@)[2] == parts@[2]@);
    let end = match parse_u32(&parts[2]) {
        Some(end) => end,
        None => {
            return Err(WriteGroupsError::InvalidInput(String::from_str("Invalid end")));
        },
    };
    let chrom = string_from_chars(&parts[0]);
    let rest = join_rest(&parts);
    Ok(Some((chrom, start, end, rest)))
}

} // verus!
