use pixel_terrain::tools::select_with_keys;
use pixel_terrain::tools::rim_pixels_loaded;
use pixel_terrain::color_map::{
    CLEAR, COPPER, DIRT1, DIRT2, DIRT3, GRAVEL1, GRAVEL3, RED, ROCK, SILVER, SKY, STEEL, TRANSLUCENT_GREY, WHITE,
};
use pixel_terrain::components::{ChunkMap, GravityCoords};
use pixel_terrain::tools::{
    generate_hoe_grid, generate_pickaxe_grid, generate_shovel_grid, left_click_action, left_click_hoe,
    left_click_pickaxe, left_click_shovel, right_click_action, right_click_hoe, right_click_shovel,
    update_shovel_content_visual, ClickAction, Tool,
};

fn map_of(value: u8) -> ChunkMap {
    let mut map = ChunkMap::new();
    map.insert_chunk(0, 0, vec![value; 360000]);
    map
}

fn inside_rim(dx: i32, dy: i32) -> bool {
    4 * (dx * dx + dy * dy) < 729
}

#[test]
fn cursor_images() {
    let shovel = generate_shovel_grid();
    let pickaxe = generate_pickaxe_grid();
    assert_eq!(shovel.len(), 900);
    assert_eq!(shovel[15 * 30 + 15], TRANSLUCENT_GREY);
    assert_eq!(shovel[0], CLEAR);
    assert_eq!(shovel[15 * 30], WHITE);
    assert_eq!(shovel[15 * 30 + 1], WHITE);
    assert_eq!(shovel[15 * 30 + 2], TRANSLUCENT_GREY);
    assert_eq!(pickaxe[15 * 30], RED);
    assert_eq!(pickaxe[15 * 30 + 15], TRANSLUCENT_GREY);
    assert_eq!(shovel.iter().filter(|p| **p == TRANSLUCENT_GREY).count(), 577);
    assert_eq!(shovel.iter().filter(|p| **p == WHITE).count(), 130);
    assert_eq!(pickaxe.iter().filter(|p| **p == RED).count(), 130);
    let hoe = generate_hoe_grid();
    assert_eq!(hoe, vec![STEEL; 45]);
}

#[test]
fn shovel_visual_fills_from_the_end() {
    let mut grid = vec![DIRT1, TRANSLUCENT_GREY, SKY, TRANSLUCENT_GREY, COPPER];
    update_shovel_content_visual(&mut grid, &vec![ROCK, SILVER]);
    assert_eq!(grid, vec![TRANSLUCENT_GREY, TRANSLUCENT_GREY, SKY, SILVER, ROCK]);
    let mut empty = vec![DIRT1, COPPER, WHITE];
    update_shovel_content_visual(&mut empty, &Vec::new());
    assert_eq!(empty, vec![TRANSLUCENT_GREY, TRANSLUCENT_GREY, WHITE]);
}

#[test]
fn shovel_visual_redrawn_twice_is_unchanged() {
    let contents = vec![DIRT2, COPPER];
    let mut grid = vec![DIRT1, TRANSLUCENT_GREY, SKY, TRANSLUCENT_GREY, COPPER];
    update_shovel_content_visual(&mut grid, &contents);
    let once = grid.clone();
    assert_eq!(once, vec![TRANSLUCENT_GREY, TRANSLUCENT_GREY, SKY, COPPER, DIRT2]);
    update_shovel_content_visual(&mut grid, &contents);
    assert_eq!(grid, once);
}

#[test]
fn hoe_locks_and_releases() {
    let mut map = map_of(SKY);
    let mut locked = false;
    left_click_hoe(&mut map, &mut locked);
    assert!(locked);
    right_click_hoe(&mut locked);
    assert!(!locked);
    assert_eq!(map.pixel(0, 0), Some(SKY));
}

#[test]
fn pickaxe_turns_rock_inside_the_rim_into_gravel() {
    let mut map = map_of(ROCK);
    let mut gravity = GravityCoords::new();
    left_click_pickaxe(0, 0, &mut map, &mut gravity, 17);
    for dy in -15..15 {
        for dx in -15..15 {
            let p = map.pixel(dx, dy).unwrap();
            if inside_rim(dx, dy) {
                assert!(p >= GRAVEL1 && p <= GRAVEL3);
                assert!(gravity.contains(dx, dy));
            } else {
                assert_eq!(p, ROCK);
                assert!(!gravity.contains(dx, dy));
            }
        }
    }
    assert_eq!(map.pixel(14, 0), Some(ROCK));
    assert_eq!(gravity.to_vec().len(), 577);
}

#[test]
fn pickaxe_leaves_other_material_alone() {
    let mut map = map_of(DIRT1);
    let mut gravity = GravityCoords::new();
    left_click_pickaxe(5, 5, &mut map, &mut gravity, 18);
    assert_eq!(map.pixel(5, 5), Some(DIRT1));
    assert!(gravity.to_vec().is_empty());
}

#[test]
fn shovel_digs_until_full() {
    let mut map = map_of(DIRT1);
    let mut contents: Vec<u8> = Vec::new();
    let mut grid = generate_shovel_grid();
    let mut gravity = GravityCoords::new();
    assert!(left_click_shovel(0, 0, &mut contents, &mut map, &mut grid, &mut gravity));
    assert_eq!(contents.len(), 575);
    assert!(contents.iter().all(|p| *p == DIRT1));
    // the last two cells of the disc, in the top row, were not reached
    assert_eq!(map.pixel(2, 13), Some(DIRT1));
    assert_eq!(map.pixel(3, 13), Some(DIRT1));
    assert_eq!(map.pixel(1, 13), Some(SKY));
    assert_eq!(map.pixel(0, 0), Some(SKY));
    assert_eq!(map.pixel(0, -13), Some(SKY));
    assert_eq!(map.pixel(14, 0), Some(DIRT1));
    // every dug pixel had dirt right above it when it was dug
    assert!(gravity.contains(0, 1));
    assert!(gravity.contains(1, 14));
    assert_eq!(gravity.to_vec().len(), 575);
    // the image shows the load; two grey pixels are left over
    assert_eq!(grid.iter().filter(|p| **p == DIRT1).count(), 575);
    assert_eq!(grid.iter().filter(|p| **p == TRANSLUCENT_GREY).count(), 2);
}

#[test]
fn shovel_ignores_unshovelable_material() {
    let mut map = map_of(ROCK);
    let mut contents: Vec<u8> = Vec::new();
    let mut grid = generate_shovel_grid();
    let before = grid.clone();
    let mut gravity = GravityCoords::new();
    assert!(left_click_shovel(0, 0, &mut contents, &mut map, &mut grid, &mut gravity));
    assert!(contents.is_empty());
    assert_eq!(grid, before);
    assert_eq!(map.pixel(0, 0), Some(ROCK));
}

#[test]
fn shovel_puts_back_last_unit_first() {
    let mut map = map_of(SKY);
    let mut contents = vec![DIRT1, DIRT2, DIRT3];
    let mut grid = generate_shovel_grid();
    update_shovel_content_visual(&mut grid, &contents);
    let mut gravity = GravityCoords::new();
    assert!(right_click_shovel(&mut grid, &mut map, 0, 0, &mut contents, &mut gravity));
    assert!(contents.is_empty());
    assert_eq!(map.pixel(1, -14), Some(DIRT3));
    assert_eq!(map.pixel(2, -14), Some(DIRT2));
    assert_eq!(map.pixel(3, -14), Some(DIRT1));
    assert_eq!(map.pixel(0, -14), Some(SKY));
    assert!(gravity.contains(1, -14) && gravity.contains(2, -14) && gravity.contains(3, -14));
    assert_eq!(gravity.to_vec().len(), 3);
    assert_eq!(grid, generate_shovel_grid());
}

#[test]
fn shovel_keeps_material_where_there_is_no_room() {
    let mut map = map_of(ROCK);
    let mut contents = vec![DIRT1, DIRT2];
    let mut grid = generate_shovel_grid();
    update_shovel_content_visual(&mut grid, &contents);
    let shown = grid.clone();
    let mut gravity = GravityCoords::new();
    assert!(right_click_shovel(&mut grid, &mut map, 0, 0, &mut contents, &mut gravity));
    assert_eq!(contents, vec![DIRT1, DIRT2]);
    assert_eq!(grid, shown);
    assert!(gravity.to_vec().is_empty());
}

#[test]
fn click_actions_by_tool() {
    assert_eq!(left_click_action(&Tool::Shovel, 0), ClickAction::DigWithShovel);
    assert_eq!(left_click_action(&Tool::Pickaxe, 574), ClickAction::StrikeWithPickaxe);
    assert_eq!(left_click_action(&Tool::Hoe, 10), ClickAction::LockHoe);
    assert_eq!(left_click_action(&Tool::SpawnDrill, 10), ClickAction::AimDrill);
    assert_eq!(left_click_action(&Tool::Shovel, 575), ClickAction::Nothing);
    assert_eq!(left_click_action(&Tool::Pickaxe, 600), ClickAction::Nothing);
    assert_eq!(right_click_action(&Tool::Shovel), ClickAction::PlaceFromShovel);
    assert_eq!(right_click_action(&Tool::Pickaxe), ClickAction::Nothing);
    assert_eq!(right_click_action(&Tool::Hoe), ClickAction::ReleaseHoe);
    assert_eq!(right_click_action(&Tool::SpawnDrill), ClickAction::Nothing);
}

#[test]
fn tool_area_needs_every_chunk_it_may_read() {
    let map = map_of(DIRT1);
    assert!(pixel_terrain::tools::tool_area_loaded(&map, 0, 0));
    assert!(pixel_terrain::tools::tool_area_loaded(&map, 280, 0));
    assert!(!pixel_terrain::tools::tool_area_loaded(&map, 290, 0));
    assert!(!pixel_terrain::tools::tool_area_loaded(&map, 0, 290));
    let mut bigger = map_of(DIRT1);
    bigger.insert_chunk(1, 0, vec![SKY; 360000]);
    bigger.insert_chunk(0, 1, vec![SKY; 360000]);
    bigger.insert_chunk(1, 1, vec![SKY; 360000]);
    assert!(pixel_terrain::tools::tool_area_loaded(&bigger, 290, 0));
}

#[test]
fn shovel_clicks_report_missing_chunks() {
    let mut map = ChunkMap::new();
    let mut contents: Vec<u8> = Vec::new();
    let mut grid = generate_shovel_grid();
    let mut gravity = GravityCoords::new();
    assert!(!left_click_shovel(0, 0, &mut contents, &mut map, &mut grid, &mut gravity));
    let mut contents = vec![DIRT1];
    let mut image = vec![DIRT1; 900];
    assert!(!right_click_shovel(&mut image, &mut map, 0, 0, &mut contents, &mut gravity));
}

#[test]
fn placing_stops_past_the_end_of_the_image() {
    let mut map = map_of(SKY);
    let mut contents = vec![DIRT1];
    let mut grid: Vec<u8> = Vec::new();
    let mut gravity = GravityCoords::new();
    assert!(!right_click_shovel(&mut grid, &mut map, 0, 0, &mut contents, &mut gravity));
}

#[test]
fn digging_under_the_top_of_a_chunk_needs_the_chunk_above() {
    let mut map = map_of(DIRT1);
    let mut contents: Vec<u8> = Vec::new();
    let mut grid = generate_shovel_grid();
    let mut gravity = GravityCoords::new();
    assert!(!left_click_shovel(0, 290, &mut contents, &mut map, &mut grid, &mut gravity));
}

#[test]
fn rim_check_sees_missing_chunks() {
    let map = map_of(ROCK);
    assert!(rim_pixels_loaded(&map, 0, 0));
    assert!(!rim_pixels_loaded(&map, 290, 0));
    assert!(!rim_pixels_loaded(&ChunkMap::new(), 0, 0));
}

#[test]
fn shovel_key_takes_up_the_shovel_and_frees_the_hoe() {
    let mut tool = Tool::Hoe;
    let mut locked = true;
    assert_eq!(select_with_keys(true, &mut tool, &mut locked), Some(Tool::Shovel));
    assert_eq!(tool, Tool::Shovel);
    assert!(!locked);
    let mut tool = Tool::Pickaxe;
    let mut locked = true;
    assert_eq!(select_with_keys(false, &mut tool, &mut locked), None);
    assert_eq!(tool, Tool::Pickaxe);
    assert!(locked);
}
