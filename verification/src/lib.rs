//! Baseline-aware stroke layout for handwritten formulas.
pub mod bits;
pub mod canvas;
pub mod compose;
pub mod distance;
pub mod entries;
pub mod entry;
pub mod exact;
pub mod gauge;
pub mod glyphs;
pub mod ink;
pub mod laws;
pub mod layout;
pub mod milli;
pub mod node;
pub mod pen;
pub mod picture;
pub mod profile;
pub mod promises;
pub mod prose;
pub mod scalar;
pub mod strokes;
pub mod traces;
pub mod variation;
pub mod words;
