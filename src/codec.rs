//! The delimited-text codec: records are parsed from and written to bytes by
//! the `csv` crate.
use vstd::prelude::*;

verus! {

#[verifier::external_type_specification]
#[verifier::external_body]
pub struct ExCsvError(csv::Error);

/// The text of each field of each row.
pub open spec fn rows_of(v: Seq<Vec<String>>) -> Seq<Seq<Seq<char>>> {
    v.map_values(|r: Vec<String>| r@.map_values(|f: String| f@))
}

/// The records that the codec reads from `bytes`, every line included (a
/// header line is not set apart), or `None` where the text is not
/// well-formed: a record of another length than the first, or a field that
/// is not UTF-8.
pub uninterp spec fn csv_records(bytes: Seq<u8>) -> Option<Seq<Seq<Seq<char>>>>;

/// The bytes that the codec writes for `rows`, one record per row.
pub uninterp spec fn csv_text(rows: Seq<Seq<Seq<char>>>) -> Seq<u8>;

/// Relies on csv's `ReaderBuilder` with `has_headers(false)` and
/// `StringRecordsIter`: the records of `bytes`, each field as text, or the
/// first error met. Reading from a byte slice involves no I/O, so the result
/// depends on the bytes alone.
#[verifier::external_body]
pub(crate) fn read_records(bytes: &[u8]) -> (r: Result<Vec<Vec<String>>, csv::Error>)
    ensures
        match r {
            Ok(rows) => csv_records(bytes@) == Some(rows_of(rows@)),
            Err(_) => csv_records(bytes@) is None,
        },
{
    let mut reader = csv::ReaderBuilder::new().has_headers(false).from_reader(bytes);
    reader
        .records()
        .map(|rec| rec.map(|rec| rec.iter().map(String::from).collect()))
        .collect()
}

/// Relies on csv's `WriterBuilder` with `flexible(true)`, `Writer::write_record`
/// once per row in order, and `Writer::into_inner` for the bytes written.
/// With `flexible(true)` no field-count check is made, and a `Vec<u8>` sink
/// never reports an I/O error, so neither call fails.
#[verifier::external_body]
pub(crate) fn write_records(rows: &Vec<Vec<String>>) -> (r: Result<Vec<u8>, csv::Error>)
    ensures
        r is Ok,
        r matches Ok(bytes) ==> bytes@ == csv_text(rows_of(rows@)),
{
    let mut writer = csv::WriterBuilder::new().flexible(true).from_writer(Vec::new());
    for row in rows {
        writer.write_record(row)?;
    }
    writer.into_inner().map_err(|e| csv::Error::from(e.into_error()))
}

} // verus!
