//! vsg-rs: the verified core of a VHDL style checker with VSG-compatible rules (the lint
//! analyses over a plain syntax tree and the layered configuration), and the parts of a VHDL
//! formatter that do not walk the syntax tree: the document printer, edits, indentation policy,
//! blank-line and alignment settings, comment alignment and re-wrapping, and layout checks.
pub mod bytes;
pub mod doc;
pub mod text;

pub use doc::display_width;
pub use text::{apply_edits, Diagnostic, FormatError, TextEdit};
pub mod analysis;
pub mod config;

pub mod chars;
pub mod rules;
pub mod blank;
pub mod indent;
pub mod organize;
pub mod format;
pub mod align;
pub mod fuzz;
pub mod lsp;
pub mod layout;
pub mod reflow;
pub mod combinational;
