//! Splits text into sentences.
//!
//! [`segment`] cuts a text into the sentences of a language, and [`IncrementalSegmenter`] does so
//! for text that arrives in parts. A [`Language`] says what is particular to a language; the rules
//! that follow from it are stated in [`rules`]. What holds of them as a whole is stated in [`laws`],
//! what they come to for texts and results in [`behaviour`], and how results relate to each other in
//! [`composition`].

pub mod behaviour;
pub mod composition;
pub mod constants;
pub mod graphemes;
pub mod incremental;
pub mod language;
pub mod languages;
pub mod laws;
pub mod pattern;
pub mod rules;
pub mod segmentation;
pub mod split;
pub mod text;

pub use graphemes::GraphemeCursor;
pub use incremental::IncrementalSegmenter;
pub use language::Language;
pub use languages::{DataLanguage, Fallback, LanguageData, LanguageTables};
pub use pattern::Pattern;
pub use segmentation::{segment, segment_with, try_segment, try_segment_with, SegmentError};
