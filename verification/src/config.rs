//! Configuration structures: which files to export and how the output is
//! formatted.  Reading a configuration file and decoding it belong to the
//! binary around the library; the structures themselves, and the defaults,
//! are plain values.

use vstd::prelude::*;

verus! {

/// Main configuration: the file selection and the output formatting.
#[derive(Debug, Clone)]
pub struct Config {
    /// The files to include in the export, relative to the base directory.
    pub files: Vec<String>,
    /// Output formatting configuration.
    pub output_format: OutputFormat,
}

/// What the generated output holds and how it is presented.
#[derive(Debug, Clone)]
pub struct OutputFormat {
    /// Whether the directory tree section is included.
    pub include_tree: bool,
    /// Whether the file contents section is included.
    pub include_file_contents: bool,
    /// Whether file contents carry line numbers.
    pub include_line_numbers: bool,
    /// Separator string kept for configuration files that set it.
    pub file_separator: String,
}

/// Default for a flag that starts switched on.
pub fn default_true() -> (b: bool)
    ensures
        b == true,
{
    true
}

/// Default for a flag that starts switched off.
pub fn default_false() -> (b: bool)
    ensures
        b == false,
{
    false
}

/// The default section separator: a long double-bar rule.
pub fn default_separator() -> (s: String)
    ensures
        s@
            == "════════════════════════════════════════════════════════════════════════════════"@,
{
    "════════════════════════════════════════════════════════════════════════════════".to_owned()
}

impl Default for OutputFormat {
    /// The default format: tree and contents included, no line numbers.
    fn default() -> (r: OutputFormat)
        ensures
            r.include_tree == true,
            r.include_file_contents == true,
            r.include_line_numbers == false,
    {
        OutputFormat {
            include_tree: true,
            include_file_contents: true,
            include_line_numbers: false,
            file_separator: default_separator(),
        }
    }
}

} // verus!
