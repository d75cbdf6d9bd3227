//! The formatter's settings.
use vstd::prelude::*;

verus! {

/// How the formatter lays out a document.
#[derive(Clone, Copy, Debug, PartialEq, Eq, Structural)]
pub struct Configuration {
    /// Spaces per indentation level.
    pub indent_width: u8,
    /// Longest run of blank lines that is kept.
    pub max_blank_lines: u8,
    /// Widest line, in bytes, that joining two lines may produce.
    pub line_width: u16,
}

impl Default for Configuration {
    /// Two-space indentation, at most one blank line in a row, lines of at most 80 bytes.
    fn default() -> (config: Self)
        ensures
            config.indent_width == 2,
            config.max_blank_lines == 1,
            config.line_width == 80,
    {
        Self { indent_width: 2, max_blank_lines: 1, line_width: 80 }
    }
}

/// The settings a `dprint` plugin falls back on for a key the user leaves
/// out: the global indent width, else 2; one blank line; the global line
/// width taken to 16 bits, else 80.
pub fn plugin_defaults(global_indent_width: Option<u8>, global_line_width: Option<u32>) -> (config:
    Configuration)
    ensures
        config.indent_width == match global_indent_width {
            Some(w) => w,
            None => 2u8,
        },
        config.max_blank_lines == 1,
        config.line_width == match global_line_width {
            Some(w) => w as u16,
            None => 80u16,
        },
{
    let indent_width = match global_indent_width {
        Some(w) => w,
        None => 2,
    };
    let line_width: u32 = match global_line_width {
        Some(w) => w,
        None => 80,
    };
    Configuration { indent_width, max_blank_lines: 1, line_width: line_width as u16 }
}

} // verus!
