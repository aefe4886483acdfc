//! FlatGeobuf Overviews: the file format, the read protocol and the geometry
//! rules of a scale-optimised extension of FlatGeobuf, verified with Verus.

pub mod bench;
pub mod cli;
pub mod clip;
pub mod decoder;
pub mod encoder;
pub mod error;
pub mod fgb;
pub mod format;
pub mod function;
pub mod geometry;
pub mod http;
pub mod importance;
pub mod le;
pub mod outside;
pub mod simplify;
pub mod sparse;
pub mod synth;
pub mod text;
pub mod tile;
