use pixel_terrain::components::{pack_coords, unpack_coords, ChunkMap, GravityCoords};
use pixel_terrain::color_map::{SKY, ROCK, DIRT2};

fn chunk_of(value: u8) -> Vec<u8> {
    vec![value; 360000]
}

#[test]
fn coordinate_keys_round_trip() {
    for (x, y) in [(0, 0), (-1, 1), (i32::MIN, i32::MAX), (i32::MAX, i32::MIN), (123, -456)] {
        assert_eq!(unpack_coords(pack_coords(x, y)), (x, y));
    }
    assert_ne!(pack_coords(1, 0), pack_coords(0, 1));
    assert_eq!(pack_coords(i32::MIN, i32::MIN), 0);
    assert_eq!(pack_coords(i32::MAX, i32::MAX), u64::MAX);
}

#[test]
fn chunk_map_reads_back_what_was_written() {
    let mut map = ChunkMap::new();
    assert!(!map.has_chunk(0, 0));
    assert_eq!(map.pixel(0, 0), None);
    map.insert_chunk(0, 0, chunk_of(SKY));
    assert!(map.has_chunk(0, 0));
    assert!(!map.has_chunk(1, 0));
    assert_eq!(map.pixel(10, -20), Some(SKY));
    map.set_pixel(10, -20, ROCK);
    assert_eq!(map.pixel(10, -20), Some(ROCK));
    assert_eq!(map.pixel(11, -20), Some(SKY));
    assert_eq!(map.pixel(10, -19), Some(SKY));
    assert_eq!(map.pixel(300, 0), None);
}

#[test]
fn chunk_map_cells_follow_local_indices() {
    let mut map = ChunkMap::new();
    map.insert_chunk(-1, 2, chunk_of(SKY));
    // world (-900, 1499): chunk (-1, 2), local x 0, local y 0
    map.set_pixel(-900, 1499, DIRT2);
    assert_eq!(map.get_cell(-1, 2, 0), Some(DIRT2));
    assert_eq!(map.get_cell(-1, 2, 360000), None);
    map.set_cell(-1, 2, 1, ROCK);
    assert_eq!(map.pixel(-899, 1499), Some(ROCK));
    let copy = map.chunk_copy(-1, 2).unwrap();
    assert_eq!(copy.len(), 360000);
    assert_eq!(copy[0], DIRT2);
    assert!(map.chunk_copy(0, 0).is_none());
}

#[test]
fn replacing_a_chunk_replaces_its_pixels() {
    let mut map = ChunkMap::new();
    map.insert_chunk(0, 0, chunk_of(SKY));
    map.insert_chunk(0, 0, chunk_of(ROCK));
    assert_eq!(map.pixel(0, 0), Some(ROCK));
}

#[test]
fn gravity_coords_behave_as_a_set() {
    let mut coords = GravityCoords::new();
    assert!(coords.to_vec().is_empty());
    coords.insert(3, -4);
    coords.insert(3, -4);
    coords.insert(-7, 8);
    assert!(coords.contains(3, -4));
    assert!(coords.contains(-7, 8));
    assert!(!coords.contains(-4, 3));
    let mut all = coords.to_vec();
    all.sort();
    assert_eq!(all, vec![(-7, 8), (3, -4)]);
}
