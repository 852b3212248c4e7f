use pixel_terrain::util::in_coord_range;
use pixel_terrain::constants::CHUNK_SIZE;
use pixel_terrain::util::{
    flatten_index, flatten_index_standard_grid, get_chunk_x_g, get_chunk_y_g, get_global_x_coordinate,
    get_global_y_coordinate, get_local_x, get_local_y, grid_text, local_to_global_x, local_to_global_y,
    valid_machine_spawn,
};
use pixel_terrain::components::ChunkMap;

#[test]
fn test_get_local_y() {
    assert_eq!(get_local_y(-300), 599);
    assert_eq!(get_local_y(-301), 0);
    assert_eq!(get_local_y(0), 299);
    assert_eq!(get_local_y(300), 599);
    assert_eq!(get_local_y(299), 0);
}

#[test]
fn test_get_local_x_chunk() {
    assert_eq!(get_chunk_x_g(0), 0);
    assert_eq!(get_chunk_x_g(300), 1);
    assert_eq!(get_chunk_x_g(-300), 0);
    assert_eq!(get_chunk_x_g(-301), -1);
}

#[test]
fn test_get_local_y_chunk() {
    assert_eq!(get_chunk_y_g(0), 0);
    assert_eq!(get_chunk_y_g(300), 1);
    assert_eq!(get_chunk_y_g(299), 0);
    assert_eq!(get_chunk_y_g(-300), 0);
    assert_eq!(get_chunk_y_g(-301), -1);
}

#[test]
fn test_get_local_x() {
    assert_eq!(get_local_x(-301), 599);
    assert_eq!(get_local_x(-400), 500);
    assert_eq!(get_local_x(0), CHUNK_SIZE as usize / 2);
    assert_eq!(get_local_x(-300), 0);
    assert_eq!(get_local_x(300 + 1 * CHUNK_SIZE as i32 + 200), 200);
    assert_eq!(get_local_x(301), 1);
    assert_eq!(get_local_x(400), 100);
    assert_eq!(get_local_x(0), 300);
    assert_eq!(get_local_x(100), 400);
    assert_eq!(get_local_x(-100), 200);
    assert_eq!(get_local_x(300 + -1 * CHUNK_SIZE as i32 + 200), 200);
    assert_eq!(get_local_x(300), 0);
}

#[test]
fn test_local_to_global_x() {
    assert_eq!(local_to_global_x(0, (CHUNK_SIZE as i32/2) as usize), 0);
}

#[test]
fn test_local_to_global_y() {
    assert_eq!(local_to_global_y(0, (CHUNK_SIZE as i32/2) as usize), 0);
}

#[test]
fn flatten_index_centres_the_grid() {
    assert_eq!(flatten_index(0, 0), 300 * 600 + 300);
    assert_eq!(flatten_index(-300, 300), 0);
    assert_eq!(flatten_index(299, -299), 599 * 600 + 599);
}

#[test]
fn flatten_index_standard_grid_is_row_major() {
    assert_eq!(flatten_index_standard_grid(&3, &2, 10), 23);
    assert_eq!(flatten_index_standard_grid(&0, &0, 1), 0);
    assert_eq!(flatten_index_standard_grid(&599, &599, 600), 359999);
}

#[test]
fn global_coordinates_of_chunk_corners() {
    assert_eq!(get_global_x_coordinate(0, 0), -300);
    assert_eq!(get_global_x_coordinate(2, 10), 910);
    assert_eq!(get_global_y_coordinate(0, 0), 300);
    assert_eq!(get_global_y_coordinate(-1, 599), -899);
    assert_eq!(get_global_x_coordinate(3, 17), local_to_global_x(3, 17));
    assert_eq!(get_global_y_coordinate(-4, 250), local_to_global_y(-4, 250));
}

#[test]
fn x_split_and_join_gives_back_x() {
    for x in [-9900, -601, -600, -301, -300, -1, 0, 1, 299, 300, 301, 1234, 9899] {
        assert_eq!(local_to_global_x(get_chunk_x_g(x), get_local_x(x)), x);
        assert!(get_local_x(x) < 600);
    }
}

#[test]
fn y_split_and_join_is_one_pixel_off() {
    for y in [-9900, -601, -301, -300, -1, 0, 1, 299, 300, 1234] {
        assert_eq!(local_to_global_y(get_chunk_y_g(y), get_local_y(y)), y + 1);
        assert!(get_local_y(y) < 600);
    }
}

#[test]
fn grid_text_writes_rows_of_digits() {
    let data: Vec<u8> = vec![0, 5, 12, 255, 7];
    let text = grid_text(2, &data);
    assert_eq!(text, b"05\n12255\n7\n".to_vec());
    assert_eq!(grid_text(3, &Vec::new()), Vec::<u8>::new());
    assert_eq!(grid_text(5, &vec![100, 9]), b"1009\n".to_vec());
}

#[test]
fn every_machine_spawn_is_valid() {
    let map = ChunkMap::new();
    assert!(valid_machine_spawn(&map, 10, -20, 42, 48));
}

#[test]
fn coordinate_range_check() {
    assert!(in_coord_range(0, 0));
    assert!(in_coord_range(i32::MIN, 0));
    assert!(!in_coord_range(i32::MAX, 0));
    assert!(!in_coord_range(0, i32::MAX));
    assert!(!in_coord_range(0, i32::MIN));
}
