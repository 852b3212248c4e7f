//! Integer settings of the world and of the tools.
use vstd::prelude::*;

verus! {

/// Most material pixels the shovel can hold.
pub const MAX_SHOVEL_CAPACITY: usize = 575;
/// Radius, in pixels, of the round shovel and pickaxe cursors.
pub const CURSOR_RADIUS: usize = 15;
/// Farthest distance, in pixels, from the player at which a tool may float.
pub const CURSOR_ORBITAL_RADIUS: i32 = 100;

pub const WINDOW_WIDTH: usize = 1200;
pub const WINDOW_HEIGHT: usize = 1200;
/// Side length, in pixels, of one square terrain chunk.
pub const CHUNK_SIZE: i32 = 600;
/// Number of pixels in one chunk.
pub const CHUNK_AREA: usize = 360000;
pub const CHUNKS_HORIZONTAL: i32 = 33;
pub const CHUNKS_VERTICAL: i32 = 33;

pub const PLAYER_WIDTH: usize = 20;
pub const PLAYER_HEIGHT: usize = 60;
pub const PLAYER_SPAWN_X: usize = 0;
pub const PLAYER_SPAWN_Y: usize = 600;

pub const HOE_WIDTH: usize = 3;
pub const HOE_HEIGHT: usize = 15;
pub const SELL_BOX_HEIGHT: usize = 16;
pub const SELL_BOX_WIDTH: usize = 40;
pub const MAX_COPPER_ORE_SPAWNS: usize = 12;
pub const COPPER_SPAWN_RADIUS: i32 = 40;
pub const NUM_BOXES_IN_TOOL_BAR: usize = 6;
pub const TOOL_BAR_BOX_SIZE: usize = 30;
pub const RENDER_SIZE: i32 = 3;

/// Largest world x coordinate: half a chunk plus sixteen chunks.
pub const GLOBAL_MAX_X: i32 = 9900;
pub const GLOBAL_MIN_X: i32 = -9900;
pub const GLOBAL_MAX_Y: i32 = 9900;
pub const GLOBAL_MIN_Y: i32 = -9900;

} // verus!
