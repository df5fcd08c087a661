//! Terminal column widths of Unicode text.
//!
//! The crate has two halves. The table compiler turns text of the Unicode
//! Character Database into a dense array with one width class per codepoint
//! and compresses that array into a three-tier lookup table, together with
//! the set of emoji whose width a variation selector can change. The
//! resolver answers width queries from such tables in constant time.
//!
//! * [`ucd`]: the field parser for the data files.
//! * [`rules`]: the rules that give each codepoint its width class.
//! * [`bucket`], [`table`], [`compile`]: the table compiler.
//! * [`emit`]: the emitted bytes, and the whole run from data files to
//!   tables.
//! * [`trie`]: the compressed set of variation-sensitive emoji.
//! * [`width`]: the resolver.
//! * [`roundtrip`], [`flat`], [`laws`]: what is proved of the compiler and
//!   of the resolver.

pub mod bucket;
pub mod compile;
pub mod emit;
pub mod flat;
pub mod laws;
pub mod roundtrip;
pub mod rules;
pub mod table;
pub mod trie;
pub mod ucd;
pub mod width;

pub use compile::{CodePointData, CompileError, TierTables};
pub use emit::{emit_width_table, gen_tables, Error, TableBytes};
pub use rules::RawUnicodeData;
pub use ucd::{ParseError, ParseErrorKind};
pub use width::{
    char_width_unicode14, char_width_unicode9, char_width_with_lookahead, grapheme_width,
    grapheme_width_non_zero, lookup_codepoint, lookup_width, str_width, UnicodeCompat, WidthTables,
};
