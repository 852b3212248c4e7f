//! Generating the terrain of a chunk from per-column noise heights.
use vstd::prelude::*;
use vstd::arithmetic::div_mod::lemma_fundamental_div_mod_converse;
use crate::color_map::{
    SKY, ROCK, grass_variant, dirt_variant, dirt_variant_pmf, grass_variant_pmf, lemma_dirt_choices,
    lemma_grass_choices, DIRT1, DIRT2, DIRT3, GRASS1, GRASS2,
};
use crate::constants::CHUNK_SIZE;
use crate::util::get_global_y_coordinate;

verus! {

/// Mixed into a chunk's seed for its dirt picks, so that they follow a
/// stream of their own beside the grass picks.
pub const DIRT_STREAM: u64 = 0x9e37_79b9_7f4a_7c15;

/// A request to generate the chunk at (chunk_x_g, chunk_y_g).
pub struct NewChunkEvent {
    pub chunk_x_g: i32,
    pub chunk_y_g: i32,
}

/// The noise heights of one world column, each already truncated to an
/// integer: the top and bottom of the grass layer, the bottom of the upper
/// dirt layer and the rock line.
pub struct ColumnNoise {
    pub grass_top: i32,
    pub grass_bottom: i32,
    pub dirt: i32,
    pub rock: i32,
}

/// The column's heights leave room for the offsets the layering adds.
pub open spec fn column_noise_in_range(c: ColumnNoise) -> bool {
    &&& c.grass_top <= i32::MAX - 10
    &&& c.grass_bottom >= i32::MIN + 5
    &&& c.rock >= i32::MIN + 100
}

/// Whether the column's heights leave room for the layering's offsets.
pub fn column_noise_ok(c: &ColumnNoise) -> (r: bool)
    ensures
        r == column_noise_in_range(*c),
{
    c.grass_top <= i32::MAX - 10 && c.grass_bottom >= i32::MIN + 5 && c.rock >= i32::MIN + 100
}

/// Whether the heights of the chunk row `chunk_y_g` fit in i32 with a
/// chunk's margin.
pub fn chunk_row_ok(chunk_y_g: i32) -> (r: bool)
    ensures
        r == (i32::MIN + 600 <= chunk_y_g * 600 <= i32::MAX - 600),
{
    let h: i64 = chunk_y_g as i64 * 600;
    i32::MIN as i64 + 600 <= h && h <= i32::MAX as i64 - 600
}

/// Whether every world x of the chunk column `chunk_x_g` fits in i32.
pub fn chunk_column_ok(chunk_x_g: i32) -> (r: bool)
    ensures
        r == (i32::MIN <= chunk_x_g * 600 - 300 && chunk_x_g * 600 + 299 <= i32::MAX),
{
    let w: i64 = chunk_x_g as i64 * 600;
    i32::MIN as i64 <= w - 300 && w + 299 <= i32::MAX as i64
}

/// The material class of world height gy in a column: 0 sky, 1 grass,
/// 2 dirt of the upper layer, 3 deep dirt, 4 rock.
pub open spec fn layer_of(gy: int, c: ColumnNoise) -> int {
    if gy > c.grass_top + 10 {
        0
    } else if gy > c.grass_bottom - 5 {
        1
    } else if gy > c.dirt {
        2
    } else if gy > -100 + c.rock {
        3
    } else {
        4
    }
}

/// Material p fits layer class l.
pub open spec fn fits_layer(p: u8, l: int) -> bool {
    if l == 0 {
        p == SKY
    } else if l == 1 {
        grass_variant(p)
    } else if l == 2 || l == 3 {
        dirt_variant(p)
    } else {
        p == ROCK
    }
}

/// World height of row `row` (counted from the top) of a chunk in chunk row cy.
pub open spec fn row_height(cy: int, row: int) -> int {
    cy * 600 + 300 - row
}

/// The highest world height of the chunk column that holds grass or
/// upper-layer dirt, or i32::MIN where there is none.
pub open spec fn column_height(cy: int, c: ColumnNoise) -> int {
    let hi = row_height(cy, 0);
    let lo = row_height(cy, 599);
    let t = if hi < c.grass_top + 10 { hi } else { c.grass_top + 10 };
    let m = if c.grass_bottom - 5 < c.dirt { c.grass_bottom - 5 } else { c.dirt as int };
    if t >= lo && t > m {
        t
    } else {
        i32::MIN as int
    }
}

/// Generates the chunk in chunk row `chunk_y_g` whose columns have the
/// given noise heights. Returns its pixels, row-major from the top, and
/// for each column the height of its highest grass or upper-layer dirt.
/// `seed` decides which grass and dirt variants are picked.
pub fn generate_chunk(chunk_y_g: i32, columns: &Vec<ColumnNoise>, seed: u64) -> (r: (Vec<u8>, Vec<i32>))
    requires
        columns@.len() == 600,
        forall|i: int| 0 <= i < 600 ==> column_noise_in_range(#[trigger] columns@[i]),
        i32::MIN + 600 <= chunk_y_g * 600 <= i32::MAX - 600,
    ensures
        r.0@.len() == 360000,
        r.1@.len() == 600,
        forall|i: int| 0 <= i < 360000 ==> fits_layer(#[trigger] r.0@[i],
            layer_of(row_height(chunk_y_g as int, i / 600), columns@[i % 600])),
        forall|x: int| 0 <= x < 600 ==> #[trigger] r.1@[x] == column_height(chunk_y_g as int, columns@[x]),
{
    let mut local_height_map: Vec<i32> = Vec::new();
    let mut grid: Vec<u8> = vec![0; 360000];
    let mut grass_pmf = grass_variant_pmf(seed);
    let mut dirt_pmf = dirt_variant_pmf(seed ^ DIRT_STREAM);
    let mut x: usize = 0;
    while x < CHUNK_SIZE as usize
        invariant
            columns@.len() == 600,
            forall|i: int| 0 <= i < 600 ==> column_noise_in_range(#[trigger] columns@[i]),
            i32::MIN + 600 <= chunk_y_g * 600 <= i32::MAX - 600,
            x <= 600,
            grid@.len() == 360000,
            local_height_map@.len() == x,
            grass_pmf.choices() == seq![GRASS1, GRASS2],
            dirt_pmf.choices() == seq![DIRT1, DIRT1, DIRT1, DIRT2, DIRT2, DIRT3],
            forall|i: int| 0 <= i < 360000 && i % 600 < x ==> fits_layer(#[trigger] grid@[i],
                layer_of(row_height(chunk_y_g as int, i / 600), columns@[i % 600])),
            forall|x2: int| 0 <= x2 < x ==> #[trigger] local_height_map@[x2] == column_height(chunk_y_g as int, columns@[x2]),
        decreases 600 - x,
    {
        let mut max_column_height = i32::MIN;
        let column = &columns[x];
        let mut y: usize = 0;
        while y < CHUNK_SIZE as usize
            invariant
                columns@.len() == 600,
                forall|i: int| 0 <= i < 600 ==> column_noise_in_range(#[trigger] columns@[i]),
                i32::MIN + 600 <= chunk_y_g * 600 <= i32::MAX - 600,
                x < 600,
                y <= 600,
                *column == columns@[x as int],
                grid@.len() == 360000,
                grass_pmf.choices() == seq![GRASS1, GRASS2],
                dirt_pmf.choices() == seq![DIRT1, DIRT1, DIRT1, DIRT2, DIRT2, DIRT3],
                forall|i: int| 0 <= i < 360000 && (i % 600 < x || (i % 600 == x && i / 600 < y)) ==>
                    fits_layer(#[trigger] grid@[i], layer_of(row_height(chunk_y_g as int, i / 600), columns@[i % 600])),
                ({
                    let hi = row_height(chunk_y_g as int, 0);
                    let t = if hi < column.grass_top + 10 { hi } else { column.grass_top + 10 };
                    let m = if column.grass_bottom - 5 < column.dirt { column.grass_bottom - 5 } else { column.dirt as int };
                    max_column_height == if t > hi - y && t > m { t } else { i32::MIN as int }
                }),
            decreases 600 - y,
        {
            let global_y = get_global_y_coordinate(chunk_y_g, y);
            let index = y * CHUNK_SIZE as usize + x;
            proof {
                lemma_fundamental_div_mod_converse(index as int, 600, y as int, x as int);
            }
            let v: u8;
            if global_y > column.grass_top + 10 {
                v = SKY;
            } else if global_y > column.grass_bottom - 5 {
                v = grass_pmf.next();
                proof { lemma_grass_choices(v); }
                if global_y > max_column_height {
                    max_column_height = global_y;
                }
            } else if global_y > column.dirt {
                v = dirt_pmf.next();
                proof { lemma_dirt_choices(v); }
                if global_y > max_column_height {
                    max_column_height = global_y;
                }
            } else if global_y > -100 + column.rock {
                v = dirt_pmf.next();
                proof { lemma_dirt_choices(v); }
            } else {
                v = ROCK;
            }
            let ghost before = grid@;
            grid.set(index, v);
            proof {
                assert forall|i: int| 0 <= i < 360000 && (i % 600 < x || (i % 600 == x && i / 600 < y + 1)) implies
                    fits_layer(#[trigger] grid@[i], layer_of(row_height(chunk_y_g as int, i / 600), columns@[i % 600])) by {
                    if i != index {
                        assert(grid@[i] == before[i]);
                        assert(i % 600 < x || (i % 600 == x && i / 600 < y));
                    }
                }
            }
            y = y + 1;
        }
        local_height_map.push(max_column_height);
        x = x + 1;
    }
    (grid, local_height_map)
}

} // verus!
