//! What can be counted on of a page, in terms of what was put in.
pub mod accents;
pub mod brackets;
pub mod drawing;
pub mod extents;
pub mod fractions;
pub mod hands;
pub mod inks;
pub mod pictures;
pub mod placing;
pub mod profiles;
pub mod roots;
pub mod rows;
pub mod scripts;
pub mod symbols;
pub mod text;
pub mod views;
