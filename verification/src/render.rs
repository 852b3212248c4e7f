//! Which chunk each terrain tile around the player shows.
use vstd::prelude::*;
use crate::chunk_generator::NewChunkEvent;
use crate::components::ChunkMap;
use crate::util::{chunk_x_of, chunk_y_of, get_chunk_x_g, get_chunk_y_g};

verus! {

/// What a terrain tile is to show: a copy of its chunk, or, where the
/// chunk is not loaded yet, a request to generate it.
pub enum TileSource {
    Copy(Vec<u8>),
    Request(NewChunkEvent),
}

/// The tile `offset_x` chunks right of and `offset_y` chunks above the
/// chunk that holds the player at (player_x, player_y): its chunk
/// coordinates, and what it shows.
pub fn tile_source(chunk_map: &ChunkMap, player_x: i32, player_y: i32, offset_x: i32, offset_y: i32)
    -> (r: (i32, i32, TileSource))
    requires
        player_x + 300 <= i32::MAX,
        player_y + 300 <= i32::MAX,
        i32::MIN <= chunk_x_of(player_x as int) + offset_x <= i32::MAX,
        i32::MIN <= chunk_y_of(player_y as int) + offset_y <= i32::MAX,
    ensures
        r.0 == chunk_x_of(player_x as int) + offset_x,
        r.1 == chunk_y_of(player_y as int) + offset_y,
        match r.2 {
            TileSource::Copy(v) => chunk_map@.contains_key((r.0 as int, r.1 as int))
                && v@ == chunk_map@[(r.0 as int, r.1 as int)],
            TileSource::Request(e) => !chunk_map@.contains_key((r.0 as int, r.1 as int))
                && e.chunk_x_g == r.0 && e.chunk_y_g == r.1,
        },
{
    let shown_x = get_chunk_x_g(player_x) + offset_x;
    let shown_y = get_chunk_y_g(player_y) + offset_y;
    match chunk_map.chunk_copy(shown_x, shown_y) {
        Some(chunk) => (shown_x, shown_y, TileSource::Copy(chunk)),
        None => (shown_x, shown_y, TileSource::Request(NewChunkEvent { chunk_x_g: shown_x, chunk_y_g: shown_y })),
    }
}

} // verus!
