//! Verified core of a pixel-terrain mining game: world coordinates and
//! chunk addressing, the chunked terrain map, tools that dig and place
//! material, falling-sand gravity, terrain generation and collision.
#![allow(unused_imports)]

pub mod constants;
pub mod util;
pub mod components;
pub mod color_map;
pub mod tools;
pub mod world_generation;
pub mod chunk_generator;
pub mod player;
pub mod drill;
pub mod render;
