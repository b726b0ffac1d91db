//! Rewrites inline math delimiters (`$...$`) in document text into the
//! `\( ... \)` form, leaving block math (`$$...$$`) and escaped dollar signs
//! (`\$`) untouched.

pub mod delimiter;
pub mod laws;
pub mod preprocessor;

pub use delimiter::{
    closing_marker, is_candidate, marker, opening_marker, rendered, rendered_from, InlinePattern,
    INLINE_DELIMITER, UNBOUNDED_BACKTRACKING,
};
pub use preprocessor::{preprocessor_name, same_text, unsupported_renderer, Mathjax};
