//! Verified core of a read-only markdown viewer.
pub mod text;
pub mod normalize;
pub mod sections;
pub mod tables;
pub mod fonts;
pub mod render;
pub mod viewer;
