//! The data model: raw entities as read, and the semantic elements made of
//! them.

pub mod osm;
pub mod polygon;
pub mod semantic;
