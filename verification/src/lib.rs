//! A font matching, caching, and Unicode-range fallback resolution engine.
//!
//! Given a set of loaded font faces and a run of text with requested
//! attributes (family, weight, style), the engine decides which face renders
//! each character, substitutes alternate faces for characters the primary
//! face cannot render, and merges re-shaped glyphs back into an ordered
//! glyph stream.

pub mod attrs;
pub mod codepoints;
pub mod db;
pub mod fallback;
pub mod order;
pub mod pipeline;
pub mod range_fallback;
pub mod system;
pub mod text;
