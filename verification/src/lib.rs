//! Sillycode: a small bracket-tag markup language.
//!
//! `parse` turns raw text into a flat sequence of typed [`Part`]s, handling
//! escapes, malformed tags and nesting ambiguity; `render` replays such a
//! sequence against a nesting-aware element stack and produces well-formed
//! HTML, accumulating link hrefs from nested content; `length` counts the
//! visible units of a sequence.

pub mod parser;
pub mod parts;
pub mod renderer;
pub mod text;

pub use parts::Color;
pub use parts::EmoteKind;
pub use parts::Part;
pub use parts::StyleKind;

pub use parser::length;
pub use parser::parse;
pub use renderer::render;
