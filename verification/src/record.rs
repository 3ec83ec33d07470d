//! The record parser: one line of trace text becomes an entry or exit event.
//!
//! A line is a sequence of columns separated by white space. The first two
//! columns are not read; the third says whether the record is an exit, the
//! fourth is its timestamp, the sixth the function's name and the eighth the
//! path that an inclusion call names.
use vstd::prelude::*;
use vstd::string::StrSliceExecFns;
use crate::error::TraceError;

verus! {

/// White space in the sense of Unicode's `White_Space` property.
pub open spec fn is_space(c: char) -> bool {
    let n = c as u32;
    ||| 0x09 <= n <= 0x0D
    ||| n == 0x20
    ||| n == 0x85
    ||| n == 0xA0
    ||| n == 0x1680
    ||| 0x2000 <= n <= 0x200A
    ||| n == 0x2028
    ||| n == 0x2029
    ||| n == 0x202F
    ||| n == 0x205F
    ||| n == 0x3000
}

/// The end of the run of non-space characters that starts at `i`.
pub open spec fn word_end(s: Seq<char>, i: int) -> int
    decreases s.len() - i,
{
    if 0 <= i < s.len() && !is_space(s[i]) {
        word_end(s, i + 1)
    } else {
        i
    }
}

/// The columns of `s` from position `i` on, each as the range of positions it
/// covers: the maximal runs of non-space characters, left to right.
pub open spec fn columns_from(s: Seq<char>, i: int) -> Seq<(int, int)>
    decreases s.len() - i,
    via columns_from_decreases
{
    if i < 0 || i >= s.len() {
        Seq::empty()
    } else if is_space(s[i]) {
        columns_from(s, i + 1)
    } else {
        seq![(i, word_end(s, i + 1))] + columns_from(s, word_end(s, i + 1))
    }
}

#[via_fn]
proof fn columns_from_decreases(s: Seq<char>, i: int) {
    if 0 <= i < s.len() && !is_space(s[i]) {
        lemma_word_end_bounds(s, i + 1);
    }
}

/// A word ends at or after the position where it was looked for, within the
/// text, at a space or at the end of the text, and holds no space.
pub proof fn lemma_word_end_bounds(s: Seq<char>, i: int)
    requires
        0 <= i <= s.len(),
    ensures
        i <= word_end(s, i) <= s.len(),
        word_end(s, i) < s.len() ==> is_space(s[word_end(s, i)]),
        forall|j: int| i <= j < word_end(s, i) ==> !is_space(#[trigger] s[j]),
    decreases s.len() - i,
{
    if i < s.len() && !is_space(s[i]) {
        lemma_word_end_bounds(s, i + 1);
    }
}

/// Every column is a word: a run of characters that are no spaces, with a
/// space or an end of the text on either side. This holds of the columns
/// from any position on that is not inside a word.
pub proof fn lemma_columns_are_words(s: Seq<char>, i: int, k: int)
    requires
        0 <= i <= s.len(),
        i == 0 || i == s.len() || is_space(s[i - 1]) || is_space(s[i]),
        0 <= k < columns_from(s, i).len(),
    ensures
        i <= columns_from(s, i)[k].0 < columns_from(s, i)[k].1 <= s.len(),
        forall|j: int| columns_from(s, i)[k].0 <= j < columns_from(s, i)[k].1 ==> !is_space(#[trigger] s[j]),
        columns_from(s, i)[k].0 == 0 || is_space(s[columns_from(s, i)[k].0 - 1]),
        columns_from(s, i)[k].1 == s.len() || is_space(s[columns_from(s, i)[k].1]),
    decreases s.len() - i,
{
    if is_space(s[i]) {
        lemma_columns_are_words(s, i + 1, k);
    } else {
        let end = word_end(s, i + 1);
        lemma_word_end_bounds(s, i + 1);
        if k > 0 {
            lemma_columns_are_words(s, end, k - 1);
            assert(columns_from(s, i)[k] == columns_from(s, end)[k - 1]);
        }
    }
}

/// The columns of a line, as texts.
pub open spec fn columns(s: Seq<char>) -> Seq<Seq<char>> {
    Seq::new(columns_from(s, 0).len(), |k: int| s.subrange(columns_from(s, 0)[k].0, columns_from(s, 0)[k].1))
}

/// Whether `c` separates columns.
pub fn is_space_char(c: char) -> (b: bool)
    ensures
        b == is_space(c),
{
    let n: u32 = c as u32;
    (0x09 <= n && n <= 0x0D) || n == 0x20 || n == 0x85 || n == 0xA0 || n == 0x1680 || (0x2000 <= n
        && n <= 0x200A) || n == 0x2028 || n == 0x2029 || n == 0x202F || n == 0x205F || n == 0x3000
}

/// The characters of a text, one by one.
pub fn characters(text: &str) -> (out: Vec<char>)
    ensures
        out@ == text@,
{
    let mut out: Vec<char> = Vec::new();
    for c in it: text.chars()
        invariant
            it.seq() == text@,
            out@ == it.seq().take(it.index() as int),
    {
        out.push(c);
        assert(out@ =~= it.seq().take(it.index() + 1));
    }
    assert(out@ =~= text@);
    out
}

/// Column ranges as the machine holds them, read as mathematical ranges.
pub open spec fn as_ranges(v: Seq<(usize, usize)>) -> Seq<(int, int)> {
    Seq::new(v.len(), |k: int| (v[k].0 as int, v[k].1 as int))
}

/// Splits a line into its columns, each given by the positions where it
/// starts and ends.
pub fn split_columns(chars: &Vec<char>) -> (out: Vec<(usize, usize)>)
    ensures
        as_ranges(out@) == columns_from(chars@, 0),
        forall|k: int| 0 <= k < out@.len() ==> (#[trigger] out@[k]).0 < out@[k].1 <= chars@.len(),
{
    let n: usize = chars.len();
    let mut out: Vec<(usize, usize)> = Vec::new();
    let mut i: usize = 0;
    assert(as_ranges(out@) + columns_from(chars@, 0) =~= columns_from(chars@, 0));
    while i < n
        invariant
            n == chars@.len(),
            i <= n,
            columns_from(chars@, 0) == as_ranges(out@) + columns_from(chars@, i as int),
            forall|k: int| 0 <= k < out@.len() ==> (#[trigger] out@[k]).0 < out@[k].1 <= n,
        decreases n - i,
    {
        if is_space_char(chars[i]) {
            i = i + 1;
        } else {
            let start: usize = i;
            let mut j: usize = i + 1;
            while j < n && !is_space_char(chars[j])
                invariant
                    n == chars@.len(),
                    start < j <= n,
                    word_end(chars@, start + 1) == word_end(chars@, j as int),
                decreases n - j,
            {
                j = j + 1;
            }
            let ghost before = out@;
            out.push((start, j));
            proof {
                assert(columns_from(chars@, start as int) == seq![(start as int, j as int)]
                    + columns_from(chars@, j as int));
                assert(as_ranges(out@) =~= as_ranges(before) + seq![(start as int, j as int)]);
                assert(as_ranges(out@) + columns_from(chars@, j as int) =~= as_ranges(before) + (
                seq![(start as int, j as int)] + columns_from(chars@, j as int)));
            }
            i = j;
        }
    }
    assert(as_ranges(out@) + columns_from(chars@, n as int) =~= as_ranges(out@));
    out
}

/// One usable record of a trace.
#[derive(Debug)]
pub struct Record {
    /// Whether the record closes a call (otherwise it opens one).
    pub is_exit: bool,
    /// The timestamp column, as written.
    pub time: String,
    /// The name of the function that is entered, where the line has one.
    pub name: Option<String>,
    /// The path column of the function that is entered, where the line has one.
    pub path: Option<String>,
}

/// The characters of an optional text.
pub open spec fn text_of(t: Option<String>) -> Option<Seq<char>> {
    match t {
        Some(s) => Some(s@),
        None => None,
    }
}

/// Column `k` of a line, if the line has that many columns.
pub open spec fn column(s: Seq<char>, k: int) -> Option<Seq<char>> {
    if 0 <= k < columns(s).len() {
        Some(columns(s)[k])
    } else {
        None
    }
}

/// A line is a record when it has the exit flag and the timestamp.
pub open spec fn is_usable(s: Seq<char>) -> bool {
    columns(s).len() >= 4
}

/// What the exit flag of a usable line says, if it is well formed.
pub open spec fn exit_flag(s: Seq<char>) -> Option<bool> {
    if columns(s)[2] == seq!['1'] {
        Some(true)
    } else if columns(s)[2] == seq!['0'] {
        Some(false)
    } else {
        None
    }
}

/// Whether `record` is what a usable line with the given exit flag says.
pub open spec fn record_matches(s: Seq<char>, is_exit: bool, record: Record) -> bool {
    &&& record.is_exit == is_exit
    &&& record.time@ == columns(s)[3]
    &&& text_of(record.name) == (if is_exit { None } else { column(s, 5) })
    &&& text_of(record.path) == (if is_exit { None } else { column(s, 7) })
}

/// Copies one column out of a line.
fn column_text(line: &str, cols: &Vec<(usize, usize)>, k: usize) -> (out: Option<String>)
    requires
        as_ranges(cols@) == columns_from(line@, 0),
        forall|j: int| 0 <= j < cols@.len() ==> (#[trigger] cols@[j]).0 < cols@[j].1 <= line@.len(),
    ensures
        text_of(out) == column(line@, k as int),
{
    if k < cols.len() {
        let (from, to) = cols[k];
        assert(as_ranges(cols@)[k as int] == (from as int, to as int));
        Some(line.substring_char(from, to).to_owned())
    } else {
        assert(as_ranges(cols@).len() == cols@.len());
        None
    }
}

/// Reads one line of a trace.
///
/// A line with fewer than four columns is no record and gives `None`. A
/// record's exit flag must be `0` or `1`; any other text there is an error.
/// The name and the path are read for entries only, from the sixth and the
/// eighth column.
pub fn parse_record(line: &str) -> (r: Result<Option<Record>, TraceError>)
    ensures
        !is_usable(line@) ==> r matches Ok(None),
        is_usable(line@) && exit_flag(line@) is None ==> (r matches Err(TraceError::ExitFlag { token })
            && token@ == columns(line@)[2]),
        is_usable(line@) && exit_flag(line@) is Some ==> (r matches Ok(Some(record)) && record_matches(
            line@,
            exit_flag(line@)->0,
            record,
        )),
{
    let chars = characters(line);
    let cols = split_columns(&chars);
    assert(as_ranges(cols@).len() == cols@.len());
    if cols.len() < 4 {
        return Ok(None);
    }
    let (from, to) = cols[2];
    assert(as_ranges(cols@)[2] == (from as int, to as int));
    assert(columns(line@)[2] == line@.subrange(from as int, to as int));
    assert(to - from == 1 ==> line@.subrange(from as int, to as int) =~= seq![line@[from as int]]);
    assert(columns(line@)[2].len() == to - from);
    let single: bool = to - from == 1;
    let is_exit: bool = if single && chars[from] == '1' {
        assert(columns(line@)[2] =~= seq!['1']);
        true
    } else if single && chars[from] == '0' {
        assert(columns(line@)[2] =~= seq!['0']);
        assert(seq!['0'][0] != seq!['1'][0]);
        false
    } else {
        assert(seq!['1'].len() == 1 && seq!['1'][0] == '1');
        assert(seq!['0'].len() == 1 && seq!['0'][0] == '0');
        let token = line.substring_char(from, to).to_owned();
        return Err(TraceError::ExitFlag { token });
    };
    let (time_from, time_to) = cols[3];
    assert(as_ranges(cols@)[3] == (time_from as int, time_to as int));
    assert(columns(line@)[3] == line@.subrange(time_from as int, time_to as int));
    let time = line.substring_char(time_from, time_to).to_owned();
    if is_exit {
        Ok(Some(Record { is_exit, time, name: None, path: None }))
    } else {
        let name = column_text(line, &cols, 5);
        let path = column_text(line, &cols, 7);
        Ok(Some(Record { is_exit, time, name, path }))
    }
}

} // verus!
