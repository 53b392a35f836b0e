//! Decoding, dissolving and packing of gas network map tiles.
pub mod archive;
pub mod bldg;
pub mod bucket;
pub mod builtin;
pub mod bytes;
pub mod cgm;
pub mod config;
pub mod ext;
pub mod extent;
pub mod fetch;
pub mod geom;
pub mod grid;
pub mod keyed;
pub mod label;
pub mod map;
pub mod number;
pub mod order;
pub mod paint;
pub mod pattern;
pub mod pipes;
pub mod records;
pub mod simplify;
pub mod table;
pub mod terrain;
pub mod text;
pub mod tile;
pub mod vocab;
pub mod works;
pub mod years;
