//! Conversion of password-strength assessment records between the
//! line-oriented "linescore" format and a small JSON array format.
//!
//! Neither format is read by one call: reading first records the text of
//! every number (see [`linescore::scan`] and [`json::scan`]); the caller
//! turns those texts into floating-point values, which this library does not
//! handle itself, and hands them to [`linescore::parse`] or [`json::parse`].
use vstd::prelude::*;

pub mod text;
pub mod record;
pub mod linescore;
pub mod json;
pub mod json_roundtrip;
pub mod json_laws;
pub mod linescore_concat;

verus! {

/// The command-line usage text.
pub open spec fn usage_text() -> Seq<char> {
    "usage: pwconv <from> <to> [input-file] [output-file]\nformats: linescore, json"@
}

/// The command-line usage text.
pub fn usage() -> (r: String)
    ensures
        r@ == usage_text(),
{
    String::from_str("usage: pwconv <from> <to> [input-file] [output-file]\nformats: linescore, json")
}

} // verus!
