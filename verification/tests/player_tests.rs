use pixel_terrain::color_map::{BLACK, PLAYER_SKIN, RED, ROCK, SELL_BOX, SKY, WHITE};
use pixel_terrain::components::ChunkMap;
use pixel_terrain::player::{generate_player_grid, horizontal_collision, vertical_collision};

#[test]
fn player_sprite() {
    let s = generate_player_grid();
    assert_eq!(s.len(), 1200);
    assert_eq!(s[0], PLAYER_SKIN);
    assert_eq!(s[10 * 20 + 2], RED);
    assert_eq!(s[10 * 20 + 17], RED);
    assert_eq!(s[10 * 20 + 18], PLAYER_SKIN);
    assert_eq!(s[5 * 20 + 5], BLACK);
    assert_eq!(s[5 * 20 + 14], BLACK);
    assert_eq!(s[4 * 20 + 5], WHITE);
    assert_eq!(s[4 * 20 + 2], WHITE);
    assert_eq!(s[5 * 20 + 17], WHITE);
    assert_eq!(s[5 * 20 + 9], PLAYER_SKIN);
    assert_eq!(s[19 * 20], PLAYER_SKIN);
    assert_eq!(s[20 * 20], BLACK);
    assert_eq!(s[59 * 20 + 19], BLACK);
}

#[test]
fn collisions_with_terrain() {
    let mut map = ChunkMap::new();
    map.insert_chunk(0, 0, vec![SKY; 360000]);
    map.set_pixel(15, 10, ROCK);
    map.set_pixel(5, 31, ROCK);
    map.set_pixel(-40, 0, SELL_BOX);
    assert_eq!(horizontal_collision(15, 0, &map), Some(true));
    assert_eq!(horizontal_collision(16, 0, &map), Some(false));
    assert_eq!(horizontal_collision(15, -20, &map), Some(false));
    assert_eq!(horizontal_collision(15, -19, &map), Some(true));
    assert_eq!(horizontal_collision(-40, 0, &map), Some(false));
    assert_eq!(vertical_collision(0, 31, &map), Some(true));
    assert_eq!(vertical_collision(20, 31, &map), Some(false));
    assert_eq!(vertical_collision(0, 32, &map), Some(false));
}
