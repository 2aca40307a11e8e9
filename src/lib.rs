//! Verified word ladders: short transformation chains between two
//! equal-length words through a fixed dictionary, one changed character per
//! step. Beside the ladder search, small verified exercises: counting binary
//! numbers without adjacent ones, binary search, bit widths, business rules
//! for purchases, a store checkout, counting lines of code, dependency
//! graphs, starred measurements, and the text helpers they share.

pub mod adjacent_ones;
pub mod binary_chop;
pub mod bit_size;
pub mod business_rules;
pub mod checkout;
pub mod code_lines;
pub mod decisions;
pub mod dependencies;
pub mod measurements;
pub mod sorting;
pub mod storage;
pub mod tag_rules;
pub mod text;
pub mod word_ladder;
