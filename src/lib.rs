//! A succinct full-text index (FM-index) over sequences of unsigned integer
//! symbols: count and locate the occurrences of a pattern, and walk the text
//! from any row, without keeping the text itself.
pub mod bits;
pub mod character;
pub mod converter;
pub mod fm_index;
pub mod frontend;
pub mod heap;
pub mod iter;
pub mod lf;
pub mod sampled;
pub mod search;
pub mod text;
pub mod wavelet;
