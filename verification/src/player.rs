//! The player: its sprite and its collisions with the terrain.
use vstd::prelude::*;
use crate::color_map::{PLAYER_SKIN, BLACK, WHITE, RED, passable, is_passable};
use crate::components::{ChunkMap, pixel_at};
use crate::constants::{PLAYER_WIDTH, PLAYER_HEIGHT};
use crate::util::{coord_in_range, flatten_index_standard_grid};
use crate::world_generation::{floor_free, does_gravity_apply_to_entity, passable_at, blocked_at, lemma_floor_free_law};

verus! {

/// Tag of the player entity.
pub struct PlayerTag;

/// Pixel (x, y) of the player's sprite, PLAYER_WIDTH wide and
/// PLAYER_HEIGHT tall, rows from the top: a skin-coloured head over a
/// black body, two white eyes with black pupils, and a red mouth.
pub open spec fn player_pixel(x: int, y: int) -> u8 {
    if y == 10 && 2 <= x < 18 {
        RED
    } else if y == 5 && (x == 5 || x == 14) {
        BLACK
    } else if (y == 4 || y == 5) && ((2 <= x < 9) || (11 <= x < 18)) {
        WHITE
    } else if y < 20 {
        PLAYER_SKIN
    } else {
        BLACK
    }
}

/// The player's sprite, row-major from the top.
pub open spec fn player_sprite() -> Seq<u8> {
    Seq::new(1200, |i: int| player_pixel(i % 20, i / 20))
}

proof fn lemma_sprite_index(x: int, y: int)
    requires
        0 <= x < 20,
        0 <= y < 60,
    ensures
        (y * 20 + x) % 20 == x,
        (y * 20 + x) / 20 == y,
        0 <= y * 20 + x < 1200,
{
    vstd::arithmetic::div_mod::lemma_fundamental_div_mod_converse(y * 20 + x, 20, y, x);
}

/// Draws the player's sprite.
pub fn generate_player_grid() -> (grid: Vec<u8>)
    ensures
        grid@ == player_sprite(),
{
    let mut data_buffer: Vec<u8> = Vec::new();
    let mut y: usize = 0;
    while y < PLAYER_HEIGHT
        invariant
            y <= 60,
            data_buffer@.len() == y * 20,
            forall|i: int| 0 <= i < y * 20 ==> #[trigger] data_buffer@[i] == (if i / 20 < 20 { PLAYER_SKIN } else { BLACK }),
        decreases 60 - y,
    {
        let mut x: usize = 0;
        while x < PLAYER_WIDTH
            invariant
                y < 60,
                x <= 20,
                data_buffer@.len() == y * 20 + x,
                forall|i: int| 0 <= i < y * 20 + x ==> #[trigger] data_buffer@[i] == (if i / 20 < 20 { PLAYER_SKIN } else { BLACK }),
            decreases 20 - x,
        {
            proof { lemma_sprite_index(x as int, y as int); }
            if y < PLAYER_HEIGHT / 3 {
                data_buffer.push(PLAYER_SKIN);
            } else {
                data_buffer.push(BLACK);
            }
            x = x + 1;
        }
        y = y + 1;
    }
    let ghost base = data_buffer@;
    let mut i: usize = 0;
    while i < 7
        invariant
            i <= 7,
            base.len() == 1200,
            forall|j: int| 0 <= j < 1200 ==> #[trigger] base[j] == (if j / 20 < 20 { PLAYER_SKIN } else { BLACK }),
            data_buffer@.len() == 1200,
            forall|j: int| 0 <= j < 1200 ==> #[trigger] data_buffer@[j] == (
                if (j / 20 == 4 || j / 20 == 5) && ((2 <= j % 20 < 2 + i) || (18 - i <= j % 20 < 18)) {
                    WHITE
                } else {
                    base[j]
                }),
        decreases 7 - i,
    {
        proof {
            lemma_sprite_index(2 + i as int, 5);
            lemma_sprite_index(17 - i as int, 5);
            lemma_sprite_index(2 + i as int, 4);
            lemma_sprite_index(17 - i as int, 4);
        }
        let a = flatten_index_standard_grid(&(2 + i), &5, PLAYER_WIDTH);
        data_buffer.set(a, WHITE);
        let b = flatten_index_standard_grid(&(PLAYER_WIDTH - 3 - i), &5, PLAYER_WIDTH);
        data_buffer.set(b, WHITE);
        let c = flatten_index_standard_grid(&(2 + i), &4, PLAYER_WIDTH);
        data_buffer.set(c, WHITE);
        let d = flatten_index_standard_grid(&(PLAYER_WIDTH - 3 - i), &4, PLAYER_WIDTH);
        data_buffer.set(d, WHITE);
        i = i + 1;
    }
    proof {
        lemma_sprite_index(5, 5);
        lemma_sprite_index(14, 5);
    }
    let e = flatten_index_standard_grid(&(2 + 3), &5, PLAYER_WIDTH);
    data_buffer.set(e, BLACK);
    let f = flatten_index_standard_grid(&(PLAYER_WIDTH - 3 - 3), &5, PLAYER_WIDTH);
    data_buffer.set(f, BLACK);
    let ghost eyes = data_buffer@;
    let mut k: usize = 0;
    while k < PLAYER_WIDTH - 4
        invariant
            k <= 16,
            eyes.len() == 1200,
            data_buffer@.len() == 1200,
            forall|j: int| 0 <= j < 1200 ==> #[trigger] data_buffer@[j] == (
                if j / 20 == 10 && 2 <= j % 20 < 2 + k { RED } else { eyes[j] }),
        decreases 16 - k,
    {
        proof { lemma_sprite_index(2 + k as int, 10); }
        let g = flatten_index_standard_grid(&(2 + k), &10, PLAYER_WIDTH);
        data_buffer.set(g, RED);
        k = k + 1;
    }
    assert(data_buffer@ =~= player_sprite());
    data_buffer
}

/// Whether the column of world pixels at x, from row y_from up to (not
/// including) y_to, is all passable: Some(true) when it is, Some(false) at
/// the first pixel that is not, None where a missing chunk is read first.
pub open spec fn column_free(m: Map<(int, int), Seq<u8>>, x: int, y_from: int, y_to: int) -> Option<bool>
    decreases y_to - y_from,
{
    if y_from >= y_to {
        Some(true)
    } else {
        match pixel_at(m, x, y_from) {
            None => None,
            Some(p) => if passable(p) {
                column_free(m, x, y_from + 1, y_to)
            } else {
                Some(false)
            },
        }
    }
}

/// A column is free exactly when nothing solid lies in it: Some(true)
/// means every pixel of column x from y_from up to y_to is present and
/// passable; Some(false) means one of them is solid; and a solid pixel
/// reached with every pixel below it present makes the column not free.
pub proof fn lemma_column_free_law(m: Map<(int, int), Seq<u8>>, x: int, y_from: int, y_to: int)
    ensures
        column_free(m, x, y_from, y_to) == Some(true) ==>
            forall|y: int| y_from <= y < y_to ==> #[trigger] passable_at(m, x, y),
        column_free(m, x, y_from, y_to) == Some(false) ==>
            exists|y: int| y_from <= y < y_to && #[trigger] blocked_at(m, x, y),
        forall|y: int| y_from <= y < y_to && #[trigger] blocked_at(m, x, y)
            && (forall|y2: int| y_from <= y2 < y ==> (#[trigger] pixel_at(m, x, y2)) is Some)
            ==> column_free(m, x, y_from, y_to) == Some(false),
    decreases y_to - y_from,
{
    if y_from < y_to {
        lemma_column_free_law(m, x, y_from + 1, y_to);
        assert forall|y: int| y_from <= y < y_to && #[trigger] blocked_at(m, x, y)
            && (forall|y2: int| y_from <= y2 < y ==> (#[trigger] pixel_at(m, x, y2)) is Some)
            implies column_free(m, x, y_from, y_to) == Some(false) by {
            if y > y_from {
                assert(pixel_at(m, x, y_from) is Some);
                assert(forall|y2: int| y_from + 1 <= y2 < y ==> (#[trigger] pixel_at(m, x, y2)) is Some);
            }
        }
        if column_free(m, x, y_from, y_to) == Some(false) && blocked_at(m, x, y_from) {
            assert(y_from <= y_from < y_to && blocked_at(m, x, y_from));
        }
    }
}

/// Whether the player, centred at height `center_y`, would run into
/// terrain in world column `edge_x` just beside it: true when some pixel of
/// that column over the player's height is neither sky, sell box nor light.
/// None where a missing chunk is read before the answer is known.
pub fn horizontal_collision(edge_x: i32, center_y: i32, chunk_map: &ChunkMap) -> (r: Option<bool>)
    requires
        i32::MIN + 30 <= center_y <= i32::MAX - 30,
        forall|y: int| center_y - 29 <= y < center_y + 30 ==> coord_in_range(edge_x as int, y),
    ensures
        r is Some <==> column_free(chunk_map@, edge_x as int, center_y - 29, center_y + 30) is Some,
        r is Some ==> Some(!r->0) == column_free(chunk_map@, edge_x as int, center_y - 29, center_y + 30),
        r == Some(false) ==> forall|y: int| center_y - 29 <= y < center_y + 30 ==> #[trigger] passable_at(chunk_map@, edge_x as int, y),
        r == Some(true) ==> exists|y: int| center_y - 29 <= y < center_y + 30 && #[trigger] blocked_at(chunk_map@, edge_x as int, y),
        forall|y: int| center_y - 29 <= y < center_y + 30 && #[trigger] blocked_at(chunk_map@, edge_x as int, y)
            && (forall|y2: int| center_y - 29 <= y2 < y ==> (#[trigger] pixel_at(chunk_map@, edge_x as int, y2)) is Some)
            ==> r == Some(true),
{
    proof {
        lemma_column_free_law(chunk_map@, edge_x as int, center_y - 29, center_y + 30);
    }
    let mut y = center_y - PLAYER_HEIGHT as i32 / 2 + 1;
    while y < center_y + PLAYER_HEIGHT as i32 / 2
        invariant
            i32::MIN + 30 <= center_y <= i32::MAX - 30,
            center_y - 29 <= y,
            forall|y2: int| center_y - 29 <= y2 < center_y + 30 ==> coord_in_range(edge_x as int, y2),
            column_free(chunk_map@, edge_x as int, y as int, center_y + 30)
                == column_free(chunk_map@, edge_x as int, center_y - 29, center_y + 30),
        decreases center_y + 30 - y,
    {
        proof {
            lemma_column_free_law(chunk_map@, edge_x as int, center_y - 29, center_y + 30);
        }
        let p = match chunk_map.pixel(edge_x, y) {
            Some(p) => p,
            None => return None,
        };
        if !is_passable(p) {
            return Some(true);
        }
        y = y + 1;
    }
    proof {
        lemma_column_free_law(chunk_map@, edge_x as int, center_y - 29, center_y + 30);
    }
    Some(false)
}

/// Whether the player, centred at column `center_x`, would bump its head
/// on world row `head_y`: true when some pixel of that row over the
/// player's width is neither sky, sell box nor light. None where a missing
/// chunk is read before the answer is known.
pub fn vertical_collision(center_x: i32, head_y: i32, chunk_map: &ChunkMap) -> (r: Option<bool>)
    requires
        i32::MIN + 10 <= center_x <= i32::MAX - 10,
        forall|x: int| center_x - 10 <= x < center_x + 10 ==> coord_in_range(x, head_y as int),
    ensures
        r is Some <==> floor_free(chunk_map@, center_x - 10, center_x + 10, head_y as int) is Some,
        r is Some ==> Some(!r->0) == floor_free(chunk_map@, center_x - 10, center_x + 10, head_y as int),
        r == Some(false) ==> forall|x: int| center_x - 10 <= x < center_x + 10 ==> #[trigger] passable_at(chunk_map@, x, head_y as int),
        r == Some(true) ==> exists|x: int| center_x - 10 <= x < center_x + 10 && #[trigger] blocked_at(chunk_map@, x, head_y as int),
        forall|x: int| center_x - 10 <= x < center_x + 10 && #[trigger] blocked_at(chunk_map@, x, head_y as int)
            && (forall|x2: int| center_x - 10 <= x2 < x ==> (#[trigger] pixel_at(chunk_map@, x2, head_y as int)) is Some)
            ==> r == Some(true),
{
    proof {
        lemma_floor_free_law(chunk_map@, center_x - 10, center_x + 10, head_y as int);
    }
    match does_gravity_apply_to_entity(center_x - PLAYER_WIDTH as i32 / 2, center_x + PLAYER_WIDTH as i32 / 2, head_y, chunk_map) {
        Some(free) => Some(!free),
        None => None,
    }
}

} // verus!
