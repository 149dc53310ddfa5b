//! Conversions between machine integers and two numeral notations: Roman
//! numerals (a subtractive, symbol-based notation) and balanced ternary (a
//! base-3 notation with digits -1, 0 and +1).
//!
//! Each module offers the same four operations: parse a string of characters
//! into a symbol sequence, compute the integer value of a sequence, build the
//! canonical sequence for an integer, and render a sequence back to text.

pub mod bt;
pub mod roman;
