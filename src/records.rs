use vstd::prelude::*;

use crate::error::ParseError;
use crate::offset::{offset_spec, str_to_offset};
use crate::zone::{collection_text, format_collection, ZoneInfo, ZoneView};

verus! {

#[verifier::external_type_specification]
#[verifier::external_body]
pub struct ExCsvError(csv::Error);

/// The data rows that the csv crate reads from `text` (after its header row), each as its
/// list of fields; `None` where the crate reports an error.
pub uninterp spec fn csv_records_of(text: Seq<char>) -> Option<Seq<Seq<Seq<char>>>>;

/// Relies on csv::ReaderBuilder (with `has_headers(true)`, so the first row is a header) and
/// csv::Reader::records: every data record as its fields, or the first error met.
#[verifier::external_body]
fn read_csv_rows(text: &str) -> (r: Result<Vec<Vec<String>>, csv::Error>)
    ensures
        r is Ok <==> csv_records_of(text@) is Some,
        r matches Ok(rows) ==> rows.deep_view() == csv_records_of(text@)->0,
{
    csv::ReaderBuilder::new().has_headers(true).from_reader(text.as_bytes()).records().map(
        |rec| rec.map(|rec| rec.iter().map(String::from).collect()),
    ).collect()
}

/// The record that a row describes: its name is column 0, its abbreviation column 1 and its
/// offset column 5.
pub open spec fn row_zone(row: Seq<Seq<char>>) -> Result<ZoneView, ParseError> {
    if row.len() < 6 {
        Err(ParseError::MissingField)
    } else {
        match offset_spec(row[5]) {
            Ok(v) => Ok((row[0], row[1], v)),
            Err(e) => Err(e),
        }
    }
}

/// The error of the first row that describes no record, if there is one.
pub open spec fn first_error(rows: Seq<Seq<Seq<char>>>) -> Option<ParseError>
    decreases rows.len(),
{
    if rows.len() == 0 {
        None
    } else {
        match first_error(rows.drop_last()) {
            Some(e) => Some(e),
            None => match row_zone(rows.last()) {
                Ok(_) => None,
                Err(e) => Some(e),
            },
        }
    }
}

/// The records of rows that all describe one.
pub open spec fn rows_zones(rows: Seq<Seq<Seq<char>>>) -> Seq<ZoneView> {
    Seq::new(rows.len(), |i: int| row_zone(rows[i])->Ok_0)
}

proof fn lemma_first_error_none(rows: Seq<Seq<Seq<char>>>, i: int)
    requires
        first_error(rows) is None,
        0 <= i < rows.len(),
    ensures
        row_zone(rows[i]) is Ok,
    decreases rows.len(),
{
    if i < rows.len() - 1 {
        lemma_first_error_none(rows.drop_last(), i);
    }
}

proof fn lemma_first_error_prefix(rows: Seq<Seq<Seq<char>>>, k: int)
    requires
        0 <= k <= rows.len(),
        first_error(rows.subrange(0, k)) is Some,
    ensures
        first_error(rows) == first_error(rows.subrange(0, k)),
    decreases rows.len(),
{
    if k < rows.len() {
        assert(rows.drop_last().subrange(0, k) =~= rows.subrange(0, k));
        lemma_first_error_prefix(rows.drop_last(), k);
    } else {
        assert(rows.subrange(0, k) =~= rows);
    }
}

/// Builds one record per row, in order, and stops at the first row that describes none.
pub fn zones_from_rows(rows: &Vec<Vec<String>>) -> (r: Result<Vec<ZoneInfo>, ParseError>)
    ensures
        match r {
            Ok(zs) => first_error(rows.deep_view()) is None && zs.deep_view() == rows_zones(
                rows.deep_view(),
            ),
            Err(e) => first_error(rows.deep_view()) == Some(e),
        },
{
    let mut zs: Vec<ZoneInfo> = Vec::new();
    let mut i: usize = 0;
    while i < rows.len()
        invariant
            i <= rows@.len(),
            first_error(rows.deep_view().subrange(0, i as int)) is None,
            zs.deep_view() == rows_zones(rows.deep_view().subrange(0, i as int)),
        decreases rows@.len() - i,
    {
        let ghost prefix = rows.deep_view().subrange(0, i + 1);
        assert(prefix.drop_last() =~= rows.deep_view().subrange(0, i as int));
        assert(prefix.last() == rows[i as int].deep_view());
        let row = &rows[i];
        if row.len() < 6 {
            proof {
                lemma_first_error_prefix(rows.deep_view(), i + 1);
            }
            return Err(ParseError::MissingField);
        }
        assert(row.deep_view()[5] == row[5]@);
        match str_to_offset(row[5].as_str()) {
            Ok(v) => {
                let z = ZoneInfo::new(row[0].as_str(), row[1].as_str(), v);
                let ghost before = zs.deep_view();
                assert(row.deep_view()[0] == row[0]@);
                assert(row.deep_view()[1] == row[1]@);
                assert(row_zone(prefix.last()) == Ok::<ZoneView, ParseError>(z@));
                zs.push(z);
                assert(zs.deep_view() =~= before.push(z@));
                assert(zs.deep_view() =~= rows_zones(prefix));
            },
            Err(e) => {
                proof {
                    lemma_first_error_prefix(rows.deep_view(), i + 1);
                }
                return Err(e);
            },
        }
        i += 1;
    }
    assert(rows.deep_view().subrange(0, i as int) =~= rows.deep_view());
    Ok(zs)
}

/// Reads the zone records of a CSV text whose first line is a header.
///
/// Text that the CSV reader refuses gives `IOError`; otherwise the rows go through
/// `zones_from_rows`.
pub fn zones_from_csv(text: &str) -> (r: Result<Vec<ZoneInfo>, ParseError>)
    ensures
        match csv_records_of(text@) {
            None => r == Err::<Vec<ZoneInfo>, ParseError>(ParseError::IOError),
            Some(rows) => match first_error(rows) {
                Some(e) => r == Err::<Vec<ZoneInfo>, ParseError>(e),
                None => r matches Ok(zs) && zs.deep_view() == rows_zones(rows),
            },
        },
{
    match read_csv_rows(text) {
        Ok(rows) => zones_from_rows(&rows),
        Err(_) => Err(ParseError::IOError),
    }
}

/// Turns a CSV text whose first line is a header into the C++ array literal of its records.
///
/// Nothing is produced unless every row gives a record.
pub fn convert_csv(text: &str) -> (r: Result<String, ParseError>)
    ensures
        match csv_records_of(text@) {
            None => r == Err::<String, ParseError>(ParseError::IOError),
            Some(rows) => match first_error(rows) {
                Some(e) => r == Err::<String, ParseError>(e),
                None => r matches Ok(s) && s@ == collection_text(rows_zones(rows)),
            },
        },
{
    match zones_from_csv(text) {
        Ok(zs) => Ok(format_collection(&zs)),
        Err(e) => Err(e),
    }
}

} // verus!
