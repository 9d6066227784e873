//! What holds of a layout in every number type that computes nearly exactly.
pub mod brackets;
pub mod fractions;
pub mod ink;
pub mod instances;
pub mod lines;
pub mod measure;
pub mod pages;
pub mod roots;
pub mod scripts;
