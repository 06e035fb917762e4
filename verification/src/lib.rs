//! Compact lookup tables for Unicode character properties.
//!
//! A sequence of character database records is compiled into two structures:
//! a blocked, deduplicated table that maps a code point to its general
//! category, and a list of affine ranges that maps a code point to its decimal
//! digit value.
use vstd::prelude::*;

pub mod builder;
pub mod category;
pub mod decimal;
pub mod digits;
pub mod labels;
pub mod laws;
pub mod mappings;
pub mod record;
pub mod runs;
pub mod selection;
pub mod text;

pub use builder::{CompiledTables, Predicate, RecordFilter, Unfiltered, UnipropsBuilder};
pub use category::{CategoryTable, IndexWidth};
pub use decimal::{normalize_decimals, normalize_decimals_filtering, DecimalExtended};
pub use digits::{DigitRange, DigitTable};
pub use mappings::{parse_digit_mappings, DigitRecord, NormalizationReplacement};
pub use record::{get_tag_by_name, PositionTag, UnicodeRecord};
pub use runs::Run;
pub use text::extract_unicode_char;

verus! {

/// Largest code point of the Unicode code space.
pub const MAX_CODEPOINT: u32 = 0x10FFFF;

} // verus!
