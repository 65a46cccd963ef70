//! Source files as bytes: CSV records read and written through the csv
//! crate, and the lines of a text file, inflated through flate2 when the
//! file is gzipped.

use vstd::prelude::*;
use vstd::utf8::{decode_utf8, valid_utf8};
use vstd::string::StringExecFns;
use std::io::Read;
use crate::scan::{line_bounds, lines_of};
use crate::text::{chars_of, string_of_range, strings_view};

verus! {

/// The records the csv crate reads from `bytes` with the given header and
/// flexibility settings, each as its fields; `None` when it refuses one.
pub uninterp spec fn csv_records(bytes: Seq<u8>, has_headers: bool, flexible: bool) -> Option<Seq<Seq<Seq<char>>>>;

/// The bytes the csv crate's default writer produces for the records
/// `rows`, each field quoted where needed; `None` when it fails.
pub uninterp spec fn csv_encoding(rows: Seq<Seq<Seq<char>>>) -> Option<Seq<u8>>;

/// What flate2's gzip decoder inflates `bytes` to; `None` when it fails.
pub uninterp spec fn gunzip(bytes: Seq<u8>) -> Option<Seq<u8>>;

/// The fields of each row, as characters.
pub open spec fn rows_view(v: Seq<Vec<String>>) -> Seq<Seq<Seq<char>>> {
    v.map_values(|row: Vec<String>| strings_view(row@))
}

/// `csv::ReaderBuilder` with `has_headers` and `flexible` set, reading
/// every record of `bytes`. The contract claims only that the result is
/// the records the crate reads (`None` as soon as it returns an error for
/// one), each field as a string; which inputs it refuses is left to the
/// crate (invalid UTF-8, and without `flexible` a record whose length
/// differs from the first).
#[verifier::external_body]
fn read_csv_records(bytes: &[u8], has_headers: bool, flexible: bool) -> (r: Option<Vec<Vec<String>>>)
    ensures
        r is Some <==> csv_records(bytes@, has_headers, flexible) is Some,
        r matches Some(v) ==> rows_view(v@) == csv_records(bytes@, has_headers, flexible)->0,
{
    let reader = csv::ReaderBuilder::new().has_headers(has_headers).flexible(flexible).from_reader(bytes);
    let mut rows: Vec<Vec<String>> = Vec::new();
    for record in reader.into_records() {
        match record {
            Ok(rec) => rows.push(rec.iter().map(String::from).collect()),
            Err(_) => return None,
        }
    }
    Some(rows)
}

/// `csv::WriterBuilder::new()` writing every record of `rows` into a
/// buffer, which is returned. The contract claims only that the result is
/// the crate's encoding of the records (`None` when a write reports an
/// error); how fields are quoted is left to the crate.
#[verifier::external_body]
fn encode_csv_records(rows: &Vec<Vec<String>>) -> (r: Option<Vec<u8>>)
    ensures
        r is Some <==> csv_encoding(rows_view(rows@)) is Some,
        r matches Some(v) ==> v@ == csv_encoding(rows_view(rows@))->0,
{
    let mut writer = csv::WriterBuilder::new().from_writer(Vec::new());
    for row in rows {
        if writer.write_record(row).is_err() {
            return None;
        }
    }
    writer.into_inner().ok()
}

/// `flate2::read::GzDecoder` over `bytes`, read to the end. The contract
/// claims only that the result is what the decoder yields, `None` when it
/// reports an error (a bad header, a corrupt stream or a wrong checksum).
#[verifier::external_body]
fn inflate_gzip(bytes: &[u8]) -> (r: Option<Vec<u8>>)
    ensures
        r is Some <==> gunzip(bytes@) is Some,
        r matches Some(v) ==> v@ == gunzip(bytes@)->0,
{
    let mut out: Vec<u8> = Vec::new();
    match flate2::read::GzDecoder::new(bytes).read_to_end(&mut out) {
        Ok(_) => Some(out),
        Err(_) => None,
    }
}

/// `String::from_utf8`: the string `bytes` encode when they are valid
/// UTF-8, and `None` when they are not, as its documentation states.
#[verifier::external_body]
fn utf8_string(bytes: Vec<u8>) -> (r: Option<String>)
    ensures
        r is Some <==> valid_utf8(bytes@),
        r matches Some(s) ==> s@ == decode_utf8(bytes@),
{
    String::from_utf8(bytes).ok()
}

/// The error for bytes the csv reader refuses.
pub open spec fn csv_error_message() -> Seq<char> {
    "CSV error: a record could not be read"@
}

/// The error for records the csv writer refuses.
pub open spec fn csv_write_error_message() -> Seq<char> {
    "CSV error: a record could not be written"@
}

/// The error for a gzip stream that does not inflate.
pub open spec fn gzip_error_message() -> Seq<char> {
    "gzip error: the stream could not be inflated"@
}

/// The error for text that is not UTF-8.
pub open spec fn utf8_error_message() -> Seq<char> {
    "stream did not contain valid UTF-8"@
}

/// The rows of a dictionary CSV without a header line: every record is a
/// row. Without `flexible`, records must all have the same length.
pub fn source_rows(bytes: &[u8], flexible: bool) -> (r: Result<Vec<Vec<String>>, String>)
    ensures
        r is Ok <==> csv_records(bytes@, false, flexible) is Some,
        r matches Ok(v) ==> rows_view(v@) == csv_records(bytes@, false, flexible)->0,
        r matches Err(m) ==> m@ == csv_error_message(),
{
    match read_csv_records(bytes, false, flexible) {
        Some(rows) => Ok(rows),
        None => Err(String::from_str("CSV error: a record could not be read")),
    }
}

/// The bytes of a CSV file holding the records `rows`.
pub fn csv_file_bytes(rows: &Vec<Vec<String>>) -> (r: Result<Vec<u8>, String>)
    ensures
        r is Ok <==> csv_encoding(rows_view(rows@)) is Some,
        r matches Ok(v) ==> v@ == csv_encoding(rows_view(rows@))->0,
        r matches Err(m) ==> m@ == csv_write_error_message(),
{
    match encode_csv_records(rows) {
        Some(bytes) => Ok(bytes),
        None => Err(String::from_str("CSV error: a record could not be written")),
    }
}

/// The kept rows of an ontology CSV (`surface,uri[,confidence]` after a
/// header line) and the number of skipped ones: a row is kept when its
/// surface and URI are both present and non-empty, with its third field,
/// if any, as the confidence text.
pub open spec fn ontology_rows(rs: Seq<Seq<Seq<char>>>) -> (Seq<(Seq<char>, Seq<char>, Option<Seq<char>>)>, nat)
    decreases rs.len(),
{
    if rs.len() == 0 {
        (Seq::empty(), 0)
    } else {
        let (kept, skipped) = ontology_rows(rs.drop_last());
        let row = rs.last();
        if row.len() >= 2 && row[0].len() > 0 && row[1].len() > 0 {
            (kept.push((row[0], row[1], if row.len() >= 3 { Some(row[2]) } else { None })), skipped)
        } else {
            (kept, skipped + 1)
        }
    }
}

/// The view of kept ontology rows.
pub open spec fn ontology_view(v: Seq<(String, String, Option<String>)>) -> Seq<(Seq<char>, Seq<char>, Option<Seq<char>>)> {
    v.map_values(|e: (String, String, Option<String>)| (e.0@, e.1@, match e.2 {
        Some(c) => Some(c@),
        None => None,
    }))
}

proof fn lemma_ontology_rows_bound(rs: Seq<Seq<Seq<char>>>)
    ensures
        ontology_rows(rs).0.len() + ontology_rows(rs).1 == rs.len(),
    decreases rs.len(),
{
    if rs.len() > 0 {
        lemma_ontology_rows_bound(rs.drop_last());
    }
}

/// Read an ontology CSV: the rows with a surface and a URI, each with its
/// confidence text, and the number of rows skipped for lacking either.
pub fn ontology_csv_rows(bytes: &[u8]) -> (r: Result<(Vec<(String, String, Option<String>)>, u64), String>)
    ensures
        r is Ok <==> csv_records(bytes@, true, true) is Some,
        r matches Ok((kept, skipped)) ==> {
            let rs = csv_records(bytes@, true, true)->0;
            ontology_view(kept@) == ontology_rows(rs).0 && skipped == ontology_rows(rs).1
        },
        r matches Err(m) ==> m@ == csv_error_message(),
{
    let rows = match read_csv_records(bytes, true, true) {
        Some(rows) => rows,
        None => return Err(String::from_str("CSV error: a record could not be read")),
    };
    let ghost rs = rows_view(rows@);
    let mut kept: Vec<(String, String, Option<String>)> = Vec::new();
    let mut skipped: u64 = 0;
    let mut i: usize = 0;
    while i < rows.len()
        invariant
            i <= rows@.len(),
            rs == rows_view(rows@),
            ontology_view(kept@) == ontology_rows(rs.take(i as int)).0,
            skipped == ontology_rows(rs.take(i as int)).1,
        decreases rows@.len() - i,
    {
        proof {
            assert(rs.take(i + 1).drop_last() =~= rs.take(i as int));
            lemma_ontology_rows_bound(rs.take(i as int));
            assert(rs[i as int] == strings_view(rows@[i as int]@));
        }
        let row = &rows[i];
        if row.len() >= 2 && row[0].as_str().unicode_len() > 0 && row[1].as_str().unicode_len() > 0 {
            let conf = if row.len() >= 3 { Some(row[2].clone()) } else { None };
            let ghost before = kept@;
            kept.push((row[0].clone(), row[1].clone(), conf));
            proof {
                assert(ontology_view(kept@) =~= ontology_view(before).push(ontology_view(kept@).last()));
            }
        } else {
            skipped = skipped + 1;
        }
        i = i + 1;
    }
    proof {
        assert(rs.take(rows@.len() as int) =~= rs);
    }
    Ok((kept, skipped))
}

/// The text of a file's bytes, inflated first when `gzipped`; `None` when
/// inflating fails or the text is not UTF-8.
pub open spec fn file_text(bytes: Seq<u8>, gzipped: bool) -> Option<Seq<char>> {
    let raw = if gzipped { gunzip(bytes) } else { Some(bytes) };
    match raw {
        Some(b) => if valid_utf8(b) { Some(decode_utf8(b)) } else { None },
        None => None,
    }
}

/// The lines of a text file given as its bytes, inflated first when
/// `gzipped`; each line without its `"\n"` or `"\r\n"` ending.
pub fn text_file_lines(bytes: Vec<u8>, gzipped: bool) -> (r: Result<Vec<String>, String>)
    ensures
        match file_text(bytes@, gzipped) {
            Some(t) => r matches Ok(v) && strings_view(v@) == lines_of(t),
            None => r is Err,
        },
        gzipped && gunzip(bytes@) is None ==> (r matches Err(m) && m@ == gzip_error_message()),
        (!gzipped || gunzip(bytes@) is Some) && file_text(bytes@, gzipped) is None
            ==> (r matches Err(m) && m@ == utf8_error_message()),
{
    let raw = if gzipped {
        match inflate_gzip(&bytes) {
            Some(b) => b,
            None => return Err(String::from_str("gzip error: the stream could not be inflated")),
        }
    } else {
        bytes
    };
    let text = match utf8_string(raw) {
        Some(s) => s,
        None => return Err(String::from_str("stream did not contain valid UTF-8")),
    };
    let cs = chars_of(text.as_str());
    let bounds = line_bounds(&cs);
    let mut lines: Vec<String> = Vec::new();
    let mut k: usize = 0;
    while k < bounds.len()
        invariant
            k <= bounds@.len(),
            bounds@.len() == lines_of(cs@).len(),
            forall|j: int| 0 <= j < bounds@.len() ==> (#[trigger] bounds@[j]).0 <= bounds@[j].1 <= cs@.len()
                && cs@.subrange(bounds@[j].0 as int, bounds@[j].1 as int) == lines_of(cs@)[j],
            strings_view(lines@) == lines_of(cs@).take(k as int),
        decreases bounds@.len() - k,
    {
        let (lo, hi) = bounds[k];
        let line = string_of_range(&cs, lo, hi);
        let ghost before = lines@;
        lines.push(line);
        proof {
            assert(strings_view(lines@) =~= strings_view(before).push(line@));
            assert(lines_of(cs@).take(k + 1) =~= lines_of(cs@).take(k as int).push(lines_of(cs@)[k as int]));
        }
        k = k + 1;
    }
    proof {
        assert(lines_of(cs@).take(bounds@.len() as int) =~= lines_of(cs@));
    }
    Ok(lines)
}

} // verus!
