//! The two source formats, one record per line: how a line splits into its
//! date and its number, and how the number's text is brought into the plain
//! form with a decimal point and no grouping spaces.

use crate::date::{parse_date, parsed_date, Date};
use vstd::prelude::*;

verus! {

/// Why a line yields no record.
#[derive(Clone, Copy, Debug, PartialEq, Eq, Structural)]
pub enum LineError {
    /// The line has fewer columns than its format asks for.
    MissingColumn,
    /// The first column is not a date.
    BadDate,
}

/// What a line holds: its date, and the text of its number in plain form.
#[derive(Clone, Debug)]
pub struct RawRecord {
    pub date: Date,
    pub value_text: String,
}

/// The pattern under which the date column is read: year, month and day,
/// joined by hyphens.
pub open spec fn date_pattern() -> Seq<char> {
    "%Y-%m-%d"@
}

/// The first position at or after `from` at which `s` holds `sep`, or the
/// length of `s` where there is none.
pub open spec fn field_end(s: Seq<char>, sep: char, from: int) -> int
    decreases s.len() - from,
{
    if from >= s.len() {
        s.len() as int
    } else if s[from] == sep {
        from
    } else {
        field_end(s, sep, from + 1)
    }
}

/// The first two columns of a line whose columns are parted by `sep`, where
/// the line has at least `columns` of them (`columns` is 2 or 3).
pub open spec fn leading_fields(line: Seq<char>, sep: char, columns: int) -> Option<
    (Seq<char>, Seq<char>),
> {
    let a = field_end(line, sep, 0);
    let b = field_end(line, sep, a + 1);
    if a >= line.len() || (columns >= 3 && b >= line.len()) {
        None
    } else {
        Some((line.subrange(0, a), line.subrange(a + 1, b)))
    }
}

/// What one character of a number becomes: a grouping space goes, a decimal
/// comma becomes a point, anything else stays.
pub open spec fn plain_char(c: char) -> Option<char> {
    if c == ' ' {
        None
    } else if c == ',' {
        Some('.')
    } else {
        Some(c)
    }
}

/// A number's text in plain form.
pub open spec fn plain_number(text: Seq<char>) -> Seq<char> {
    text.filter_map(|c: char| plain_char(c))
}

/// The record made of a date column that was read as `date` and of the text
/// of the number column.
pub open spec fn record_of(date: Option<Date>, value_field: Seq<char>) -> Result<
    (Date, Seq<char>),
    LineError,
> {
    match date {
        None => Err(LineError::BadDate),
        Some(d) => Ok((d, plain_number(value_field))),
    }
}

/// The record of a whole line in the format with separator `sep` and at
/// least `columns` columns.
pub open spec fn line_record(line: Seq<char>, sep: char, columns: int) -> Result<
    (Date, Seq<char>),
    LineError,
> {
    match leading_fields(line, sep, columns) {
        None => Err(LineError::MissingColumn),
        Some(f) => record_of(parsed_date(f.0, date_pattern()), f.1),
    }
}

/// Whether `r` is the record that `expected` describes.
pub open spec fn is_record(r: Result<RawRecord, LineError>, expected: Result<
    (Date, Seq<char>),
    LineError,
>) -> bool {
    match (r, expected) {
        (Ok(rec), Ok(e)) => rec.date == e.0 && rec.value_text@ == e.1,
        (Err(a), Err(b)) => a == b,
        _ => false,
    }
}

fn find_separator(line: &str, sep: char, from: usize, len: usize) -> (end: usize)
    requires
        len == line@.len(),
        from <= len,
    ensures
        from <= end <= len,
        end == field_end(line@, sep, from as int),
{
    let mut i: usize = from;
    while i < len
        invariant
            len == line@.len(),
            from <= i <= len,
            field_end(line@, sep, from as int) == field_end(line@, sep, i as int),
        ensures
            from <= i <= len,
            i == field_end(line@, sep, from as int),
        decreases len - i,
    {
        if line.get_char(i) == sep {
            break ;
        }
        i = i + 1;
    }
    i
}

/// Brings a number's text into plain form: grouping spaces are dropped and
/// a decimal comma becomes a decimal point.
pub fn normalize_number(text: &str) -> (plain: String)
    ensures
        plain@ == plain_number(text@),
{
    let len = text.unicode_len();
    let mut plain = String::new();
    let mut i: usize = 0;
    assert(text@.take(0).filter_map(|c: char| plain_char(c)) == Seq::<char>::empty());
    while i < len
        invariant
            len == text@.len(),
            i <= len,
            plain@ == plain_number(text@.take(i as int)),
        decreases len - i,
    {
        let c = text.get_char(i);
        proof {
            text@.lemma_filter_map_take_succ(|c: char| plain_char(c), i as int);
        }
        if c == ',' {
            proof {
                reveal_strlit(".");
            }
            assert("."@ =~= seq!['.']);
            plain.append(".");
        } else if c != ' ' {
            let one = text.substring_char(i, i + 1);
            assert(one@ =~= seq![c]);
            plain.append(one);
        }
        i = i + 1;
    }
    assert(text@.take(len as int) == text@);
    plain
}

/// The record of a line whose columns are already told apart, given what
/// the date column was read as.
pub fn record_from_fields(date: Option<Date>, value_field: &str) -> (r: Result<
    RawRecord,
    LineError,
>)
    ensures
        is_record(r, record_of(date, value_field@)),
{
    match date {
        None => Err(LineError::BadDate),
        Some(d) => Ok(RawRecord { date: d, value_text: normalize_number(value_field) }),
    }
}

fn parse_line(line: &str, sep: char, three_columns: bool) -> (r: Result<RawRecord, LineError>)
    ensures
        is_record(r, line_record(line@, sep, if three_columns { 3 } else { 2 })),
{
    let len = line.unicode_len();
    let a = find_separator(line, sep, 0, len);
    if a >= len {
        return Err(LineError::MissingColumn);
    }
    let b = find_separator(line, sep, a + 1, len);
    if three_columns && b >= len {
        return Err(LineError::MissingColumn);
    }
    let date_field = line.substring_char(0, a);
    let value_field = line.substring_char(a + 1, b);
    let date = match parse_date(date_field, "%Y-%m-%d") {
        Ok(d) => Some(d),
        Err(_) => None,
    };
    record_from_fields(date, value_field)
}

/// Reads one line of the index source: tab-separated, the date first, the
/// index value second.
pub fn parse_omxs30_line(line: &str) -> (r: Result<RawRecord, LineError>)
    ensures
        is_record(r, line_record(line@, '\t', 2)),
{
    parse_line(line, '\t', false)
}

/// Reads one line of the rate source: semicolon-separated with at least
/// three columns, the date first, the rate second.
pub fn parse_slr_line(line: &str) -> (r: Result<RawRecord, LineError>)
    ensures
        is_record(r, line_record(line@, ';', 3)),
{
    parse_line(line, ';', true)
}

} // verus!
