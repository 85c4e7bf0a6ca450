use vstd::prelude::*;

use crate::error::ParseError;

verus! {

/// Where the zone records are read from.
#[derive(Debug)]
pub enum InputSource {
    /// A directory holding the IANA timezone database's area files.
    TzdbDirectory(String),
    /// A CSV export of the database.
    CsvFile(String),
}

/// Picks the input: the IANA directory when one is given, else the CSV file.
pub fn choose_source(tzdb_path: Option<String>, csv_path: Option<String>) -> (r: Result<
    InputSource,
    ParseError,
>)
    ensures
        match tzdb_path {
            Some(d) => r matches Ok(InputSource::TzdbDirectory(p)) && p@ == d@,
            None => match csv_path {
                Some(c) => r matches Ok(InputSource::CsvFile(p)) && p@ == c@,
                None => r == Err::<InputSource, ParseError>(ParseError::NoInputSource),
            },
        },
{
    match tzdb_path {
        Some(d) => Ok(InputSource::TzdbDirectory(d)),
        None => match csv_path {
            Some(c) => Ok(InputSource::CsvFile(c)),
            None => Err(ParseError::NoInputSource),
        },
    }
}

/// What a line of an IANA area file is.
#[derive(Debug, Clone, Copy, PartialEq, Eq, Structural)]
pub enum LineKind {
    /// Starts with `#`.
    Comment,
    /// Starts with `Zone`: the first line of a zone definition.
    ZoneStart,
    /// Anything else.
    Other,
}

pub open spec fn line_kind(line: Seq<char>) -> LineKind {
    if line.len() > 0 && line[0] == '#' {
        LineKind::Comment
    } else if line.len() >= 4 && line.subrange(0, 4) == seq!['Z', 'o', 'n', 'e'] {
        LineKind::ZoneStart
    } else {
        LineKind::Other
    }
}

/// Tells comment lines and the lines that open a zone definition from the rest.
pub fn classify_line(line: &str) -> (r: LineKind)
    ensures
        r == line_kind(line@),
{
    let n = line.unicode_len();
    if n > 0 && line.get_char(0) == '#' {
        return LineKind::Comment;
    }
    if n >= 4 {
        let c0 = line.get_char(0);
        let c1 = line.get_char(1);
        let c2 = line.get_char(2);
        let c3 = line.get_char(3);
        if c0 == 'Z' && c1 == 'o' && c2 == 'n' && c3 == 'e' {
            assert(line@.subrange(0, 4) =~= seq!['Z', 'o', 'n', 'e']);
            return LineKind::ZoneStart;
        }
        assert(line@.subrange(0, 4)[0] == c0);
        assert(line@.subrange(0, 4)[1] == c1);
        assert(line@.subrange(0, 4)[2] == c2);
        assert(line@.subrange(0, 4)[3] == c3);
    }
    LineKind::Other
}

} // verus!
