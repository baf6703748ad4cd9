//! Whole-catalog conversions: MO bytes to PO text and PO text to MO
//! bytes. The unverified caller reads and writes the files; these
//! functions do all the work in between.

use vstd::prelude::*;
use crate::entry::{spec_collect, upsert_all, Catalog, EntryV};
use crate::errors::CatalogError;
use crate::mo::{
    decode_mo, decoded_items, encode_mo, mo_decode_ok, mo_encode_ok, mo_overflows,
};
use crate::po::{
    default_header_text, default_po_header, encode_po, parse_po_text, po_encode_ok,
    spec_po_entries,
};

verus! {

/// Converts compiled MO catalogs to editable PO text.
pub struct MoConverter;

impl MoConverter {
    /// Decodes MO bytes and re-encodes the catalog as PO text (a catalog
    /// without a header gets the minimal default header). Fails exactly
    /// when the bytes are not a well-formed MO file.
    pub fn convert_mo_to_po(input: &Vec<u8>) -> (r: Result<String, CatalogError>)
        ensures
            match r {
                Ok(t) => {
                    &&& mo_decode_ok(input@)
                    &&& ({
                        let (h, acc) = spec_collect(decoded_items(input@), None, Seq::empty());
                        po_encode_ok(h, acc, t@)
                    })
                },
                Err(e) => !mo_decode_ok(input@) && e == (CatalogError::Format { line: 0 }),
            },
    {
        match decode_mo(input) {
            Ok(c) => Ok(encode_po(c)),
            Err(e) => Err(e),
        }
    }
}

/// Converts editable PO text to compiled MO catalogs.
pub struct PoConverter;

impl PoConverter {
    /// Parses PO text (last write wins per key) and encodes the catalog
    /// as MO bytes; a catalog without a header gets the minimal default
    /// so the output is self-describing. Fails on a PO syntax violation,
    /// or when the catalog outgrows the 32-bit MO offsets.
    pub fn convert_po_to_mo(input: &str) -> (r: Result<Vec<u8>, CatalogError>)
        ensures
            ({
                let parsed = spec_po_entries(input@, false);
                match r {
                    Ok(b) => {
                        &&& parsed is Ok
                        &&& ({
                            let (h, es) = parsed->Ok_0;
                            let hv = match h {
                                Some(x) => Some(x),
                                None => Some(default_header_text()),
                            };
                            mo_encode_ok(hv, upsert_all(Seq::empty(), es), b@)
                        })
                    },
                    Err(e) => {
                        ||| (parsed is Err && e == (CatalogError::Format {
                            line: parsed->Err_0 as usize,
                        }))
                        ||| (parsed is Ok && e == (CatalogError::Format { line: 0 }) && ({
                            let (h, es) = parsed->Ok_0;
                            let hv = match h {
                                Some(x) => Some(x),
                                None => Some(default_header_text()),
                            };
                            mo_overflows(hv, upsert_all(Seq::empty(), es))
                        }))
                    },
                }
            }),
    {
        match parse_po_text(input, false) {
            Err(e) => Err(e),
            Ok(c) => {
                let Catalog { header, entries } = c;
                let h = match header {
                    Some(h) => h,
                    None => default_po_header(),
                };
                let c2 = Catalog { header: Some(h), entries };
                encode_mo(c2)
            },
        }
    }
}

} // verus!
