//! Turns an OpenStreetMap-style entity graph into typed, render-ready map
//! elements: roads, rails, transit lines, stations, areas and landmarks.
//!
//! The executable functions of this crate carry contracts that Verus
//! proves; the few calls into other crates are isolated in small trusted
//! functions whose contracts are documented where they stand.

pub mod bytes;
pub mod data;
pub mod errors;
pub mod etl;
pub mod render;
pub mod text;
