//! CSV ingestion: raw bytes in, a ragged text grid out.
//!
//! The byte stream is framed into records by the csv crate (no header row is
//! assumed, and records may have different field counts), and every field is
//! decoded with [`crate::decoder::decode_field`]. Framing errors are the only
//! failure; decoding never fails.

use vstd::prelude::*;

use crate::decoder::{decode_field, decoded_chars, unmapped_bytes};

verus! {

#[verifier::external_type_specification]
#[verifier::external_body]
pub struct ExCsvError(csv::Error);

/// What the csv crate frames the given bytes into: the records' raw byte
/// fields in order, or nothing where the framing is malformed.
pub uninterp spec fn csv_table(data: Seq<u8>) -> Option<Seq<Seq<Seq<u8>>>>;

/// Relies on `csv::ReaderBuilder` / `Reader::into_byte_records`, reading with
/// no header row and flexible record lengths from an in-memory slice: the
/// records of `data` as raw byte fields, in order; an error only where the
/// framing is malformed.
#[verifier::external_body]
fn csv_records(data: &[u8]) -> (r: Result<Vec<Vec<Vec<u8>>>, csv::Error>)
    ensures
        r matches Ok(rows) ==> csv_table(data@) == Some(rows.deep_view()),
        r is Err ==> csv_table(data@) is None,
{
    let rdr = csv::ReaderBuilder::new().has_headers(false).flexible(true).from_reader(data);
    let mut out: Vec<Vec<Vec<u8>>> = Vec::new();
    for rec in rdr.into_byte_records() {
        let rec = rec?;
        out.push(rec.iter().map(|f| f.to_vec()).collect());
    }
    Ok(out)
}

/// Why ingestion failed.
#[derive(Clone, Copy, Debug, PartialEq, Eq, Structural)]
pub enum LoadError {
    /// The CSV framing was malformed; no table can be read from the bytes.
    Malformed,
}

/// The text grid a raw record table decodes to, field by field.
pub open spec fn decoded_grid(raw: Seq<Seq<Seq<u8>>>) -> Seq<Seq<Seq<char>>> {
    Seq::new(raw.len(), |r: int| Seq::new(raw[r].len(), |c: int| decoded_chars(raw[r][c])))
}

/// The bytes one record's decoding drops, in field order.
pub open spec fn row_unmapped(row: Seq<Seq<u8>>) -> Seq<u8>
    decreases row.len(),
{
    if row.len() == 0 {
        Seq::<u8>::empty()
    } else {
        row_unmapped(row.drop_last()) + unmapped_bytes(row.last())
    }
}

/// The bytes a whole record table's decoding drops, in record order.
pub open spec fn grid_unmapped(raw: Seq<Seq<Seq<u8>>>) -> Seq<u8>
    decreases raw.len(),
{
    if raw.len() == 0 {
        Seq::<u8>::empty()
    } else {
        grid_unmapped(raw.drop_last()) + row_unmapped(raw.last())
    }
}

/// The CSV ingestion entry point.
pub struct CsvLoader {
    pub path: String,
}

impl CsvLoader {
    /// Parses raw CSV bytes into a ragged text grid: the first record is
    /// data, records may differ in length, and each field is decoded with the
    /// best-effort legacy decoder. Returns the grid together with every byte
    /// the decoder dropped (the caller's diagnostic hook), or an error
    /// exactly when the framing is malformed.
    #[verifier::loop_isolation(false)]
    pub fn from_bytes(data: &[u8]) -> (r: Result<(Vec<Vec<String>>, Vec<u8>), LoadError>)
        ensures
            r matches Ok(g) ==> {
                &&& csv_table(data@) matches Some(raw)
                &&& g.0.deep_view() == decoded_grid(raw)
                &&& g.1@ == grid_unmapped(raw)
            },
            r is Err <==> csv_table(data@) is None,
    {
        let raw = match csv_records(data) {
            Ok(raw) => raw,
            Err(_) => {
                return Err(LoadError::Malformed);
            },
        };
        let ghost rawv = raw.deep_view();
        let ghost dg = decoded_grid(rawv);
        let mut grid: Vec<Vec<String>> = Vec::new();
        let mut unmapped: Vec<u8> = Vec::new();
        let mut r: usize = 0;
        proof {
            assert(grid.deep_view() =~= dg.take(0));
            assert(rawv.take(0) =~= Seq::<Seq<Seq<u8>>>::empty());
            assert(unmapped@ =~= grid_unmapped(rawv.take(0)));
        }
        while r < raw.len()
            invariant
                r <= raw@.len(),
                grid.deep_view() == dg.take(r as int),
                unmapped@ == grid_unmapped(rawv.take(r as int)),
            decreases raw@.len() - r,
        {
            let row = &raw[r];
            proof {
                assert(rawv[r as int] == row.deep_view());
            }
            let mut fields: Vec<String> = Vec::new();
            let mut c: usize = 0;
            proof {
                assert(fields.deep_view() =~= dg[r as int].take(0));
                assert(rawv[r as int].take(0) =~= Seq::<Seq<u8>>::empty());
            }
            while c < row.len()
                invariant
                    r < raw@.len(),
                    c <= row@.len(),
                    fields.deep_view() == dg[r as int].take(c as int),
                    unmapped@ == grid_unmapped(rawv.take(r as int)) + row_unmapped(
                        rawv[r as int].take(c as int),
                    ),
                decreases row@.len() - c,
            {
                let (text, um) = decode_field(row[c].as_slice());
                let mut um = um;
                fields.push(text);
                unmapped.append(&mut um);
                c = c + 1;
                proof {
                    assert(rawv[r as int][c as int - 1] == row@[c as int - 1]@);
                    assert(fields.deep_view() =~= dg[r as int].take(c as int));
                    assert(rawv[r as int].take(c as int).drop_last() =~= rawv[r as int].take(
                        c as int - 1,
                    ));
                    assert(rawv[r as int].take(c as int).last() == rawv[r as int][c as int - 1]);
                    assert(unmapped@ =~= grid_unmapped(rawv.take(r as int)) + row_unmapped(
                        rawv[r as int].take(c as int),
                    ));
                }
            }
            grid.push(fields);
            r = r + 1;
            proof {
                assert(rawv[r as int - 1].take(row@.len() as int) =~= rawv[r as int - 1]);
                assert(dg[r as int - 1].take(row@.len() as int) =~= dg[r as int - 1]);
                assert(grid.deep_view() =~= dg.take(r as int));
                assert(rawv.take(r as int).drop_last() =~= rawv.take(r as int - 1));
                assert(rawv.take(r as int).last() == rawv[r as int - 1]);
                assert(unmapped@ =~= grid_unmapped(rawv.take(r as int)));
            }
        }
        proof {
            assert(dg.take(rawv.len() as int) =~= dg);
            assert(rawv.take(rawv.len() as int) =~= rawv);
        }
        Ok((grid, unmapped))
    }
}

} // verus!
