//! What holds of the layout in thousandths, where arithmetic is exact.
pub mod arithmetic;
pub mod boxes;
pub mod calibration;
pub mod depth;
pub mod distances;
pub mod fractions;
pub mod lines;
pub mod pages;
pub mod scripts;
pub mod shapes;
pub mod text;
