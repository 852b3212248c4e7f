use pixel_terrain::chunk_generator::{chunk_column_ok, chunk_row_ok, column_noise_ok};
use pixel_terrain::world_generation::sold_value_cents;
use pixel_terrain::world_generation::{sell_box_area_loaded, sell_box_in_range};
use pixel_terrain::chunk_generator::{generate_chunk, ColumnNoise};
use pixel_terrain::color_map::{
    COPPER, DIRT1, DIRT3, GRASS1, GRASS2, REFINED_COPPER, ROCK, SELL_BOX, SILVER, SKY,
};
use pixel_terrain::components::{ChunkMap, GravityCoords};
use pixel_terrain::world_generation::{
    add_sell_box_to_grid, does_gravity_apply_to_entity, generate_chunk as generate_world_chunk,
    gravity_tick, settle_sell_box,
};

fn sky_map() -> ChunkMap {
    let mut map = ChunkMap::new();
    map.insert_chunk(0, 0, vec![SKY; 360000]);
    map
}

#[test]
fn loose_material_slides_down_with_its_column() {
    let mut map = sky_map();
    map.set_pixel(0, 5, DIRT1);
    map.set_pixel(0, 6, DIRT3);
    map.set_pixel(0, 8, ROCK);
    let mut coords = GravityCoords::new();
    coords.insert(0, 5);
    let sold = gravity_tick(&mut coords, &mut map).unwrap();
    assert!(sold.is_empty());
    assert_eq!(map.pixel(0, 4), Some(DIRT1));
    assert_eq!(map.pixel(0, 5), Some(DIRT3));
    assert_eq!(map.pixel(0, 6), Some(SKY));
    assert_eq!(map.pixel(0, 8), Some(ROCK));
    assert_eq!(map.pixel(1, 4), Some(SKY));
    assert_eq!(map.pixel(-1, 5), Some(SKY));
    assert_eq!(coords.to_vec(), vec![(0, 4)]);
}

#[test]
fn ore_grows_only_in_ground() {
    let mut map = sky_map();
    map.set_pixel(2, 2, DIRT1);
    pixel_terrain::world_generation::plant_ore(&mut map, 2, 2, COPPER);
    pixel_terrain::world_generation::plant_ore(&mut map, 3, 2, SILVER);
    assert_eq!(map.pixel(2, 2), Some(COPPER));
    assert_eq!(map.pixel(3, 2), Some(SKY));
}

#[test]
fn falling_stops_at_rock_above() {
    let mut map = sky_map();
    map.set_pixel(3, 0, DIRT1);
    map.set_pixel(3, 1, ROCK);
    let mut coords = GravityCoords::new();
    coords.insert(3, 0);
    assert!(gravity_tick(&mut coords, &mut map).is_some());
    assert_eq!(map.pixel(3, -1), Some(DIRT1));
    assert_eq!(map.pixel(3, 0), Some(SKY));
    assert_eq!(map.pixel(3, 1), Some(ROCK));
}

#[test]
fn material_over_the_sell_box_is_sold() {
    let mut map = sky_map();
    map.set_pixel(0, 4, SELL_BOX);
    map.set_pixel(0, 5, DIRT1);
    map.set_pixel(0, 6, COPPER);
    map.set_pixel(0, 7, SILVER);
    let mut coords = GravityCoords::new();
    coords.insert(0, 5);
    let sold = gravity_tick(&mut coords, &mut map).unwrap();
    assert_eq!(sold, vec![DIRT1, COPPER, SILVER]);
    assert_eq!(map.pixel(0, 4), Some(SELL_BOX));
    assert_eq!(map.pixel(0, 5), Some(SKY));
    assert_eq!(map.pixel(0, 6), Some(SKY));
    assert_eq!(map.pixel(0, 7), Some(SKY));
    assert_eq!(coords.to_vec(), vec![(0, 4)]);
}

#[test]
fn firm_material_ignores_gravity() {
    let mut map = sky_map();
    map.set_pixel(1, 1, ROCK);
    map.set_pixel(2, 2, COPPER);
    let mut coords = GravityCoords::new();
    coords.insert(1, 1);
    coords.insert(2, 2);
    coords.insert(4, 4);
    let sold = gravity_tick(&mut coords, &mut map).unwrap();
    assert!(sold.is_empty());
    assert!(coords.to_vec().is_empty());
    assert_eq!(map.pixel(1, 1), Some(ROCK));
    assert_eq!(map.pixel(2, 2), Some(COPPER));
    assert_eq!(map.pixel(1, 0), Some(SKY));
}

#[test]
fn loose_material_on_ground_stays() {
    let mut map = sky_map();
    map.set_pixel(0, 0, ROCK);
    map.set_pixel(0, 1, DIRT1);
    let mut coords = GravityCoords::new();
    coords.insert(0, 1);
    assert!(gravity_tick(&mut coords, &mut map).is_some());
    assert_eq!(map.pixel(0, 1), Some(DIRT1));
    assert!(coords.to_vec().is_empty());
}

#[test]
fn sell_box_is_a_framed_box() {
    let mut map = sky_map();
    add_sell_box_to_grid(&mut map, 0, 0);
    assert_eq!(map.pixel(0, 0), Some(SELL_BOX));
    assert_eq!(map.pixel(16, 0), Some(SELL_BOX));
    assert_eq!(map.pixel(17, 0), Some(REFINED_COPPER));
    assert_eq!(map.pixel(-17, 0), Some(SELL_BOX));
    assert_eq!(map.pixel(-18, 0), Some(REFINED_COPPER));
    assert_eq!(map.pixel(-20, 0), Some(REFINED_COPPER));
    assert_eq!(map.pixel(19, 7), Some(REFINED_COPPER));
    assert_eq!(map.pixel(0, -5), Some(SELL_BOX));
    assert_eq!(map.pixel(0, -6), Some(REFINED_COPPER));
    assert_eq!(map.pixel(0, -8), Some(REFINED_COPPER));
    assert_eq!(map.pixel(0, 7), Some(SELL_BOX));
    assert_eq!(map.pixel(20, 0), Some(SKY));
    assert_eq!(map.pixel(0, 8), Some(SKY));
    assert_eq!(map.pixel(0, -9), Some(SKY));
}

#[test]
fn gravity_applies_over_passable_floor_only() {
    let mut map = sky_map();
    for x in -20..20 {
        map.set_pixel(x, -50, ROCK);
    }
    map.set_pixel(0, -49, SELL_BOX);
    assert_eq!(does_gravity_apply_to_entity(-20, 20, -50, &map), Some(false));
    assert_eq!(does_gravity_apply_to_entity(-20, 20, -49, &map), Some(true));
    assert_eq!(does_gravity_apply_to_entity(5, 5, -50, &map), Some(true));
    assert_eq!(settle_sell_box(&map, 0, 0), Some(-42));
    assert_eq!(settle_sell_box(&map, 0, -42), Some(-42));
}

#[test]
fn first_world_chunk_is_layered() {
    let dirt = vec![0i32; 33 * 600];
    let rock = vec![-100i32; 33 * 600];
    let grid = generate_world_chunk(0, 0, &dirt, &rock, 3);
    assert_eq!(grid.len(), 360000);
    assert_eq!(grid[0], SKY);
    assert_eq!(grid[299 * 600 + 17], SKY);
    for y in 300..400 {
        let p = grid[y * 600 + 5];
        assert!(p == 1 || p == 2 || p == 3);
    }
    assert_eq!(grid[400 * 600], ROCK);
    assert_eq!(grid[599 * 600 + 599], ROCK);
}

#[test]
fn generated_chunk_follows_the_noise_heights() {
    let columns: Vec<ColumnNoise> = (0..600)
        .map(|x| if x == 7 {
            ColumnNoise { grass_top: -1000, grass_bottom: -1000, dirt: -1000, rock: -1000 }
        } else {
            ColumnNoise { grass_top: 0, grass_bottom: 0, dirt: -20, rock: 0 }
        })
        .collect();
    let (grid, heights) = generate_chunk(0, &columns, 99);
    assert_eq!(grid.len(), 360000);
    assert_eq!(heights.len(), 600);
    assert_eq!(grid[289 * 600], SKY);
    for y in 290..305 {
        let p = grid[y * 600];
        assert!(p == GRASS1 || p == GRASS2);
    }
    for y in 305..400 {
        let p = grid[y * 600 + 1];
        assert!(p == 1 || p == 2 || p == 3);
    }
    assert_eq!(grid[400 * 600 + 2], ROCK);
    assert_eq!(heights[0], 10);
    assert_eq!(heights[599], 10);
    assert_eq!(heights[7], i32::MIN);
    assert_eq!(grid[599 * 600 + 7], SKY);
}

#[test]
fn sold_material_is_valued_in_cents() {
    assert_eq!(sold_value_cents(&vec![DIRT1, COPPER, SILVER]), 151);
    assert_eq!(sold_value_cents(&vec![COPPER, COPPER, ROCK, SKY]), 100);
    assert_eq!(sold_value_cents(&Vec::new()), 0);
}

#[test]
fn gravity_tick_reports_a_missing_chunk_below() {
    let mut map = sky_map();
    map.set_pixel(0, -300, DIRT1);
    let mut coords = GravityCoords::new();
    coords.insert(0, -300);
    assert!(gravity_tick(&mut coords, &mut map).is_none());
}

#[test]
fn a_fall_keeps_every_material_but_the_open_space_it_fills() {
    let mut map = sky_map();
    map.set_pixel(0, 10, DIRT1);
    map.set_pixel(0, 11, COPPER);
    map.set_pixel(0, 12, DIRT3);
    let mut coords = GravityCoords::new();
    coords.insert(0, 10);
    let sold = gravity_tick(&mut coords, &mut map).unwrap();
    assert!(sold.is_empty());
    let column: Vec<u8> = (5..15).map(|y| map.pixel(0, y).unwrap()).collect();
    assert_eq!(column.iter().filter(|p| **p == DIRT1).count(), 1);
    assert_eq!(column.iter().filter(|p| **p == COPPER).count(), 1);
    assert_eq!(column.iter().filter(|p| **p == DIRT3).count(), 1);
    assert_eq!(map.pixel(0, 9), Some(DIRT1));
    assert_eq!(map.pixel(0, 10), Some(COPPER));
    assert_eq!(map.pixel(0, 11), Some(DIRT3));
    assert_eq!(map.pixel(0, 12), Some(SKY));
}

#[test]
fn floor_checks_report_missing_chunks() {
    let empty = ChunkMap::new();
    assert_eq!(does_gravity_apply_to_entity(-20, 20, -50, &empty), None);
    assert_eq!(settle_sell_box(&empty, 0, 0), None);
    let map = sky_map();
    assert_eq!(settle_sell_box(&map, 0, 0), None);
}

#[test]
fn sell_box_area_and_range_checks() {
    let map = sky_map();
    assert!(sell_box_area_loaded(&map, 0, 0));
    assert!(!sell_box_area_loaded(&map, 0, 295));
    assert!(!sell_box_area_loaded(&ChunkMap::new(), 0, 0));
    assert!(sell_box_in_range(0, 0));
    assert!(!sell_box_in_range(i32::MAX, 0));
    assert!(!sell_box_in_range(0, i32::MIN));
}

#[test]
fn a_tick_without_the_sell_box_keeps_every_material_count() {
    let mut map = sky_map();
    map.set_pixel(0, 5, DIRT1);
    map.set_pixel(0, 6, COPPER);
    map.set_pixel(3, 2, DIRT3);
    map.set_pixel(3, 0, ROCK);
    let count = |m: &ChunkMap, v: u8| {
        let mut n = 0;
        for x in -10..10 {
            for y in -10..20 {
                if m.pixel(x, y) == Some(v) {
                    n += 1;
                }
            }
        }
        n
    };
    let before: Vec<usize> = [DIRT1, DIRT3, COPPER, ROCK].iter().map(|v| count(&map, *v)).collect();
    let mut coords = GravityCoords::new();
    coords.insert(0, 5);
    coords.insert(3, 2);
    let sold = gravity_tick(&mut coords, &mut map).unwrap();
    assert!(sold.is_empty());
    let after: Vec<usize> = [DIRT1, DIRT3, COPPER, ROCK].iter().map(|v| count(&map, *v)).collect();
    assert_eq!(before, after);
    assert_eq!(map.pixel(3, 1), Some(DIRT3));
}

#[test]
fn chunk_range_checks() {
    assert!(chunk_row_ok(0));
    assert!(!chunk_row_ok(i32::MAX / 600));
    assert!(chunk_column_ok(-16));
    assert!(!chunk_column_ok(i32::MIN / 600));
    assert!(column_noise_ok(&ColumnNoise { grass_top: 0, grass_bottom: 0, dirt: 0, rock: 0 }));
    assert!(!column_noise_ok(&ColumnNoise { grass_top: i32::MAX, grass_bottom: 0, dirt: 0, rock: 0 }));
}
