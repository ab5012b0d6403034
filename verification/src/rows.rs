//! Delimited text: the calls into `csv` that turn bytes into rows of fields
//! and a row of fields into bytes.

use vstd::prelude::*;

verus! {

/// What `csv` reads from `data` with no header row and every field trimmed:
/// one item for each record, its fields in order, or `None` for a record
/// that `csv` reports as an error.
pub uninterp spec fn csv_rows(data: Seq<u8>) -> Seq<Option<Seq<Seq<char>>>>;

/// The bytes that `csv` writes for one record with these fields, the line
/// end included.
pub uninterp spec fn csv_line(fields: Seq<Seq<char>>) -> Seq<u8>;

/// The rows of `rows` with each string seen as its characters.
pub open spec fn row_views(rows: Seq<Option<Vec<String>>>) -> Seq<Option<Seq<Seq<char>>>> {
    Seq::new(
        rows.len(),
        |i: int|
            match rows[i] {
                Some(row) => Some(row.deep_view()),
                None => None,
            },
    )
}

/// The field at place `i` of `row`, or the empty text where the row is
/// shorter.
pub open spec fn field(row: Seq<Seq<char>>, i: int) -> Seq<char> {
    if 0 <= i < row.len() {
        row[i]
    } else {
        Seq::empty()
    }
}

/// Calls `csv::ReaderBuilder` (`has_headers(false)`, `trim(Trim::All)`,
/// `from_reader`) and walks `Reader::into_records` to the end. The contract
/// names the outcome `csv_rows` and claims only that equal bytes give equal
/// rows; a record that `csv` answers with an error becomes `None`.
#[verifier::external_body]
pub(crate) fn read_rows(data: &[u8]) -> (out: Vec<Option<Vec<String>>>)
    ensures
        row_views(out@) == csv_rows(data@),
{
    csv::ReaderBuilder::new()
        .has_headers(false)
        .trim(csv::Trim::All)
        .from_reader(data)
        .into_records()
        .map(|record| record.ok().map(|r| r.iter().map(String::from).collect()))
        .collect()
}

/// Calls `csv::Writer::from_writer` on an empty buffer, then
/// `Writer::write_record` once and `Writer::into_inner`. The contract names
/// the bytes `csv_line` and claims only that equal fields give equal bytes.
#[verifier::external_body]
pub(crate) fn encode_row(fields: &Vec<String>) -> (out: Vec<u8>)
    ensures
        out@ == csv_line(fields.deep_view()),
{
    let mut writer = csv::Writer::from_writer(Vec::new());
    let _ = writer.write_record(fields);
    writer.into_inner().unwrap_or_default()
}

/// The field at place `i` of `row`, or the empty text where the row is
/// shorter.
pub fn get_field(row: &Vec<String>, i: usize) -> (out: &str)
    ensures
        out@ == field(row.deep_view(), i as int),
{
    if i < row.len() {
        row[i].as_str()
    } else {
        proof {
            reveal_strlit("");
            assert(""@ =~= Seq::<char>::empty());
        }
        ""
    }
}

} // verus!
