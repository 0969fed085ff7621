use vstd::prelude::*;

verus! {

/// The settings of one run.
#[derive(Debug)]
pub struct Opt {
    /// Files to process (glob pattern).
    pub files: String,
    /// Path to the table of key/value pairs.
    pub map: String,
    /// Field delimiter of the table.
    pub delimiter: String,
    /// Whether the first line of the table is a header.
    pub has_headers: bool,
    /// Prefix of the name of each copied file.
    pub prefix: String,
    /// Whether files are overwritten in place.
    pub inplace: bool,
    /// Whether progress output is suppressed.
    pub silent: bool,
}

} // verus!
