//! Spacemaxxer: scans a directory tree and lays it out as a 3D city of islands, or as a 2D
//! treemap. This library holds the rules of both that do not depend on floating point: how
//! a scan builds its tree, the order in which islands are placed, the block structure of
//! an island, and the colours of the drawing.

pub mod draw;
pub mod hash;
pub mod layout;
pub mod layout_laws;
pub mod order;
pub mod render;
pub mod scanner;
pub mod storage;
pub mod types;
