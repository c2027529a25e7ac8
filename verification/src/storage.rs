//! How a saved scan is laid out in its file.

use vstd::prelude::*;

verus! {

/// Which encoding a saved scan uses.
#[derive(Debug, Clone, Copy, PartialEq, Eq, Structural)]
pub enum OutputFormat {
    Json,
    Binary,
}

/// The byte that ends a pretty-printed JSON file.
pub const NEWLINE: u8 = 10;

/// The format that the `--json` flag selects, and the file extension that goes with it.
pub fn format_for_flag(json: bool) -> (choice: (OutputFormat, &'static str))
    ensures
        choice.0 == if json {
            OutputFormat::Json
        } else {
            OutputFormat::Binary
        },
        choice.1@ == if json {
            "json"@
        } else {
            "bin"@
        },
{
    if json {
        (OutputFormat::Json, "json")
    } else {
        (OutputFormat::Binary, "bin")
    }
}

/// The bytes that go into the file for an `encoded` scan: pretty JSON ends with a newline,
/// a binary encoding is written as it is.
pub fn frame_output(format: OutputFormat, encoded: Vec<u8>) -> (file: Vec<u8>)
    ensures
        file@ == match format {
            OutputFormat::Json => encoded@.push(NEWLINE),
            OutputFormat::Binary => encoded@,
        },
{
    let mut file = encoded;
    match format {
        OutputFormat::Json => {
            file.push(NEWLINE);
        },
        OutputFormat::Binary => {},
    }
    file
}

} // verus!
