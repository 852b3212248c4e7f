use pixel_terrain::color_map::{ROCK, SKY};
use pixel_terrain::components::ChunkMap;
use pixel_terrain::render::{tile_source, TileSource};

#[test]
fn a_loaded_tile_is_copied() {
    let mut map = ChunkMap::new();
    map.insert_chunk(1, -1, vec![ROCK; 360000]);
    let (x, y, source) = tile_source(&map, 400, -400, 0, 0);
    assert_eq!((x, y), (1, -1));
    match source {
        TileSource::Copy(chunk) => assert!(chunk.len() == 360000 && chunk.iter().all(|p| *p == ROCK)),
        TileSource::Request(_) => panic!("the chunk is loaded"),
    }
}

#[test]
fn a_missing_tile_is_requested() {
    let mut map = ChunkMap::new();
    map.insert_chunk(0, 0, vec![SKY; 360000]);
    let (x, y, source) = tile_source(&map, 0, 0, -1, 1);
    assert_eq!((x, y), (-1, 1));
    match source {
        TileSource::Copy(_) => panic!("the chunk is not loaded"),
        TileSource::Request(event) => assert_eq!((event.chunk_x_g, event.chunk_y_g), (-1, 1)),
    }
}
