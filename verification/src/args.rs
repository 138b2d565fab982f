use vstd::prelude::*;

verus! {

/// Command-line options of the editor: the file to open, if any, and whether
/// to show line numbers. Parsing the real command line happens outside the
/// library; it hands the result over as plain values.
pub struct Args {
    pub file: Option<String>,
    pub line_numbers: bool,
}

} // verus!
