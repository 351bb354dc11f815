//! The input table: CSV without a header, whose rows may differ in length,
//! with one agent per row. The `csv` crate reads the records; what it reads is
//! taken on trust and given a name, and the rows are turned into agents by
//! verified code, so that a bad row is reported before an error that the
//! reader meets later in the table.

use crate::error::InputError;
use crate::input::{parse_rows, row_ok, rows_model, table_agents, table_fails_with};
use crate::prefs::{model_of, Agent};
use vstd::prelude::*;

verus! {

/// The error type of the `csv` crate, `csv::Error`. Nothing is known of its
/// values.
#[verifier::external_type_specification]
#[verifier::external_body]
pub struct ExCsvError(csv::Error);

/// The records that the `csv` crate reads from `data` until it ends or the
/// reader reports an error, each with its fields in order, and whether an
/// error ended the reading. `data` is taken as a table without a header whose
/// records may differ in length.
pub uninterp spec fn csv_table(data: Seq<u8>) -> (Seq<Seq<Seq<char>>>, bool);

/// Reads `data` with `csv::Reader::records`, on a reader built by
/// `csv::ReaderBuilder` with `has_headers(false)` and `flexible(true)`, up to
/// the first error that the reader reports.
///
/// Not proved: that the records read and the presence of an error are
/// `csv_table` of `data`. This only gives the reader's result its name; it
/// rests on the reader being a function of the bytes it is given.
#[verifier::external_body]
fn read_records(data: &[u8]) -> (res: (Vec<Vec<String>>, Option<csv::Error>))
    ensures
        csv_table(data@) == (rows_model(res.0@), res.1 is Some),
{
    let mut reader = csv::ReaderBuilder::new().has_headers(false).flexible(true).from_reader(data);
    let mut rows: Vec<Vec<String>> = Vec::new();
    for result in reader.records() {
        match result {
            Ok(record) => rows.push(record.iter().map(|field| field.to_owned()).collect()),
            Err(e) => return (rows, Some(e)),
        }
    }
    (rows, None)
}

/// The text that `csv::Error` gives of itself through `to_string`. Nothing is
/// claimed of the text.
#[verifier::external_body]
fn error_text(e: &csv::Error) -> (text: String) {
    e.to_string()
}

/// The agents of the CSV table `data`: a row per agent, without a header.
///
/// The rows are judged in their order. The error is that of the first row
/// that is not an agent; where every row that the CSV reader could read is an
/// agent, but the reader met an error after them, the error is `Malformed`.
pub fn parse_table(data: &[u8]) -> (res: Result<Vec<Agent>, InputError>)
    ensures
        ({
            let rows = csv_table(data@).0;
            let broken = csv_table(data@).1;
            match res {
                Ok(agents) => {
                    &&& !broken
                    &&& forall|r: int| 0 <= r < rows.len() ==> row_ok(#[trigger] rows[r])
                    &&& model_of(agents@) == table_agents(rows)
                },
                Err(InputError::Malformed { .. }) => {
                    &&& broken
                    &&& forall|r: int| 0 <= r < rows.len() ==> row_ok(#[trigger] rows[r])
                },
                Err(e) => table_fails_with(rows, e),
            }
        }),
{
    let (rows, failure) = read_records(data);
    match parse_rows(&rows) {
        Err(e) => Err(e),
        Ok(agents) => match failure {
            Some(e) => Err(InputError::Malformed { message: error_text(&e) }),
            None => Ok(agents),
        },
    }
}

} // verus!
