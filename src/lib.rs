//! Planar geometry for clipping surveyed reference lines against a boundary
//! ring, and parsing of the text rows that feed it.

pub mod plane;
pub mod boundary;
pub mod text;
pub mod team;
