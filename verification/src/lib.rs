//! The vocabulary of a network scan, with its rules stated and proved.

pub mod index;
pub mod model;
pub mod ordered;
pub mod text;
