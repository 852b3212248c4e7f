//! World coordinates and their chunk/local decomposition.
//!
//! The world is cut into square chunks of `CHUNK_SIZE` pixels. A chunk is
//! addressed by its chunk coordinates `(chunk_x_g, chunk_y_g)`; inside a
//! chunk a pixel is addressed by `local_x` (columns, left to right) and
//! `local_y` (rows, top to bottom). World y grows upwards.
use vstd::prelude::*;
use crate::constants::CHUNK_SIZE;
use crate::components::ChunkMap;

verus! {

/// Column of world x inside its chunk.
pub open spec fn local_x_of(x: int) -> int {
    (x + 300) % 600
}

/// Row (counted from the top) of world y inside its chunk.
pub open spec fn local_y_of(y: int) -> int {
    (299 - y) % 600
}

/// Chunk column that holds world x.
pub open spec fn chunk_x_of(x: int) -> int {
    (x + 300) / 600
}

/// Chunk row that holds world y.
pub open spec fn chunk_y_of(y: int) -> int {
    (y + 300) / 600
}

/// Index of a pixel inside a chunk's row-major grid.
pub open spec fn local_index_of(x: int, y: int) -> int {
    local_y_of(y) * 600 + local_x_of(x)
}

/// World x of column `local_x` of the chunk in chunk column `chunk_x`.
pub open spec fn world_x_of(chunk_x: int, local_x: int) -> int {
    chunk_x * 600 + local_x - 300
}

/// World y of row `local_y` of the chunk in chunk row `chunk_y`.
pub open spec fn world_y_of(chunk_y: int, local_y: int) -> int {
    chunk_y * 600 + 300 - local_y
}

/// World coordinates on which the chunk and local conversions do not overflow.
pub open spec fn coord_in_range(x: int, y: int) -> bool {
    &&& x <= i32::MAX - 300
    &&& i32::MIN <= x
    &&& 299 - i32::MAX <= y <= i32::MAX - 300
}

/// Whether the chunk and local conversions of world pixel (x, y) stay
/// inside i32.
pub fn in_coord_range(x: i32, y: i32) -> (r: bool)
    ensures
        r == coord_in_range(x as int, y as int),
{
    x <= i32::MAX - 300 && 299 - i32::MAX <= y && y <= i32::MAX - 300
}

pub open spec fn flatten_index_value(x: int, y: int) -> int {
    (300 - y) * 600 + (x + 300)
}

/// Index of world pixel (x, y) in a single chunk-sized grid centred on the origin.
pub fn flatten_index(x: i32, y: i32) -> (index: usize)
    requires
        i32::MIN <= 300 - y <= i32::MAX,
        i32::MIN <= (300 - y) * 600 <= i32::MAX,
        x + 300 <= i32::MAX,
        i32::MIN <= flatten_index_value(x as int, y as int) <= i32::MAX,
    ensures
        index == flatten_index_value(x as int, y as int) as usize,
{
    let index = ((CHUNK_SIZE / 2) - y) * CHUNK_SIZE + (x + CHUNK_SIZE / 2);
    index as usize
}

/// Row-major index of cell (x, y) in a grid `grid_width` cells wide.
pub fn flatten_index_standard_grid(x: &usize, y: &usize, grid_width: usize) -> (index: usize)
    requires
        *y < grid_width,
        *y * grid_width + *x <= usize::MAX,
    ensures
        index == *y * grid_width + *x,
{
    proof {
        assert(0 <= *y * grid_width) by (nonlinear_arith)
            requires *y >= 0, grid_width >= 0;
    }
    *y * grid_width + *x
}

/// World y of row `local_y` of the chunk in chunk row `chunk_y_g`.
pub fn get_global_y_coordinate(chunk_y_g: i32, local_y: usize) -> (y: i32)
    requires
        i32::MIN <= chunk_y_g * 600 + 300 - (local_y as i32) <= i32::MAX,
        i32::MIN <= chunk_y_g * 600 <= i32::MAX,
        i32::MIN <= chunk_y_g * 600 + 300 <= i32::MAX,
    ensures
        y == world_y_of(chunk_y_g as int, (local_y as i32) as int),
{
    chunk_y_g * CHUNK_SIZE + CHUNK_SIZE / 2 - local_y as i32
}

/// World x of column `local_x` of the chunk in chunk column `chunk_x_g`.
pub fn get_global_x_coordinate(chunk_x_g: i32, local_x: usize) -> (x: i32)
    requires
        i32::MIN <= chunk_x_g * 600 - 300 + (local_x as i32) <= i32::MAX,
        i32::MIN <= chunk_x_g * 600 <= i32::MAX,
        i32::MIN <= chunk_x_g * 600 - 300 <= i32::MAX,
    ensures
        x == world_x_of(chunk_x_g as int, (local_x as i32) as int),
{
    chunk_x_g * CHUNK_SIZE - CHUNK_SIZE / 2 + local_x as i32
}

/// Column of world x inside its chunk.
pub fn get_local_x(global_x: i32) -> (local_x: usize)
    ensures
        local_x == local_x_of(global_x as int),
        local_x < 600,
{
    let x = CHUNK_SIZE / 2 + (global_x % CHUNK_SIZE);
    if x >= CHUNK_SIZE {
        return (x - CHUNK_SIZE) as usize;
    } else if x < 0 {
        return (CHUNK_SIZE + x) as usize;
    }
    x as usize
}

/// Row, counted from the top, of world y inside its chunk.
pub fn get_local_y(global_x: i32) -> (local_y: usize)
    requires
        299 - global_x <= i32::MAX,
    ensures
        local_y == local_y_of(global_x as int),
        local_y < 600,
{
    let r = (299 - global_x).checked_rem_euclid(600);
    match r {
        Some(v) => v as usize,
        None => 0,
    }
}

/// Chunk column that holds world x.
pub fn get_chunk_x_g(x_g: i32) -> (chunk_x_g: i32)
    requires
        x_g + 300 <= i32::MAX,
    ensures
        chunk_x_g == chunk_x_of(x_g as int),
{
    let q = (x_g + CHUNK_SIZE / 2).checked_div_euclid(CHUNK_SIZE);
    match q {
        Some(v) => v,
        None => 0,
    }
}

/// Chunk row that holds world y.
pub fn get_chunk_y_g(y_g: i32) -> (chunk_y_g: i32)
    requires
        y_g + 300 <= i32::MAX,
    ensures
        chunk_y_g == chunk_y_of(y_g as int),
{
    let q = (y_g + CHUNK_SIZE / 2).checked_div_euclid(CHUNK_SIZE);
    match q {
        Some(v) => v,
        None => 0,
    }
}

/// World x of column `local_x` of the chunk in chunk column `chunk_x_g`.
pub fn local_to_global_x(chunk_x_g: i32, local_x: usize) -> (x: i32)
    requires
        i32::MIN <= chunk_x_g * 600 <= i32::MAX,
        i32::MIN <= chunk_x_g * 600 + (local_x as i32) <= i32::MAX,
        i32::MIN <= chunk_x_g * 600 + (local_x as i32) - 300 <= i32::MAX,
    ensures
        x == world_x_of(chunk_x_g as int, (local_x as i32) as int),
{
    chunk_x_g * CHUNK_SIZE + local_x as i32 - CHUNK_SIZE / 2
}

/// World y of row `local_y` of the chunk in chunk row `chunk_y_g`.
pub fn local_to_global_y(chunk_y_g: i32, local_y: usize) -> (y: i32)
    requires
        i32::MIN <= chunk_y_g * 600 <= i32::MAX,
        i32::MIN <= chunk_y_g * 600 + 300 <= i32::MAX,
        i32::MIN <= chunk_y_g * 600 + 300 - (local_y as i32) <= i32::MAX,
    ensures
        y == world_y_of(chunk_y_g as int, (local_y as i32) as int),
{
    chunk_y_g * CHUNK_SIZE + CHUNK_SIZE / 2 - local_y as i32
}

// ---------------------------------------------------------------------
// Laws of the coordinate conversions
// ---------------------------------------------------------------------

/// Splitting a world x into its chunk column and its column inside that
/// chunk, and joining them again, gives back the same x; the local column
/// lies in 0..CHUNK_SIZE.
pub proof fn lemma_x_roundtrip(x: int)
    ensures
        chunk_x_of(x) * 600 + local_x_of(x) - 300 == x,
        0 <= local_x_of(x) < 600,
{
    vstd::arithmetic::div_mod::lemma_fundamental_div_mod(x + 300, 600);
    vstd::arithmetic::div_mod::lemma_mod_bound(x + 300, 600);
}

/// Splitting a world y into its chunk row and its row inside that chunk,
/// and joining them with local_to_global_y, gives y + 1, not y: the two
/// conversions are one pixel apart. The local row lies in 0..CHUNK_SIZE.
pub proof fn lemma_y_split_join_offset(y: int)
    ensures
        chunk_y_of(y) * 600 + 300 - local_y_of(y) == y + 1,
        0 <= local_y_of(y) < 600,
{
    vstd::arithmetic::div_mod::lemma_fundamental_div_mod(y + 300, 600);
    vstd::arithmetic::div_mod::lemma_mod_bound(y + 300, 600);
    vstd::arithmetic::div_mod::lemma_mod_bound(299 - y, 600);
    vstd::arithmetic::div_mod::lemma_fundamental_div_mod_converse(
        299 - y, 600, -chunk_y_of(y), 599 - (y + 300) % 600);
}

/// A local column and its chunk column give back the chunk column and the
/// local column when the world x they name is split again.
pub proof fn lemma_x_join_split(chunk_x: int, local_x: int)
    requires
        0 <= local_x < 600,
    ensures
        chunk_x_of(chunk_x * 600 + local_x - 300) == chunk_x,
        local_x_of(chunk_x * 600 + local_x - 300) == local_x,
{
    vstd::arithmetic::div_mod::lemma_fundamental_div_mod_converse(chunk_x * 600 + local_x, 600, chunk_x, local_x);
}

// ---------------------------------------------------------------------
// Writing a grid out as text
// ---------------------------------------------------------------------

/// The ASCII decimal digits of b, without leading zeros.
pub open spec fn decimal_digits(b: u8) -> Seq<u8> {
    if b < 10 {
        seq![(48 + b) as u8]
    } else if b < 100 {
        seq![(48 + b / 10) as u8, (48 + b % 10) as u8]
    } else {
        seq![(48 + b / 100) as u8, (48 + (b / 10) % 10) as u8, (48 + b % 10) as u8]
    }
}

/// The decimal digits of each value of `row`, run together.
pub open spec fn digits_of_row(row: Seq<u8>) -> Seq<u8>
    decreases row.len(),
{
    if row.len() == 0 {
        Seq::empty()
    } else {
        digits_of_row(row.drop_last()) + decimal_digits(row.last())
    }
}

/// The text of a grid `width` values wide: one line per row, each line the
/// run-together decimal digits of its values followed by a newline; a last
/// row shorter than `width` makes a shorter last line.
pub open spec fn grid_text_spec(width: int, data: Seq<u8>) -> Seq<u8>
    decreases data.len(),
{
    if data.len() == 0 || width <= 0 {
        Seq::empty()
    } else if data.len() <= width {
        digits_of_row(data).push(10)
    } else {
        digits_of_row(data.take(width)).push(10) + grid_text_spec(width, data.skip(width))
    }
}

fn push_decimal(out: &mut Vec<u8>, b: u8)
    ensures
        final(out)@ == old(out)@ + decimal_digits(b),
{
    if b < 10 {
        out.push(48 + b);
    } else if b < 100 {
        out.push(48 + b / 10);
        out.push(48 + b % 10);
    } else {
        out.push(48 + b / 100);
        out.push(48 + (b / 10) % 10);
        out.push(48 + b % 10);
    }
    assert(final(out)@ =~= old(out)@ + decimal_digits(b));
}

/// The bytes `write_u8s_to_file` writes for a grid `width` values wide.
pub fn grid_text(width: usize, data: &Vec<u8>) -> (text: Vec<u8>)
    requires
        width > 0,
    ensures
        text@ == grid_text_spec(width as int, data@),
{
    let mut text: Vec<u8> = Vec::new();
    let mut start: usize = 0;
    let n = data.len();
    assert(data@.skip(0) =~= data@);
    assert(text@ + grid_text_spec(width as int, data@) =~= grid_text_spec(width as int, data@));
    while start < n
        invariant
            width > 0,
            n == data@.len(),
            start <= n,
            text@ + grid_text_spec(width as int, data@.skip(start as int)) == grid_text_spec(width as int, data@),
        decreases n - start,
    {
        let end = if n - start <= width { n } else { start + width };
        let ghost rest = data@.skip(start as int);
        let ghost before = text@;
        let mut i = start;
        assert(data@.subrange(start as int, start as int) =~= Seq::<u8>::empty());
        while i < end
            invariant
                start <= i <= end,
                end <= n,
                n == data@.len(),
                text@ == before + digits_of_row(data@.subrange(start as int, i as int)),
            decreases end - i,
        {
            push_decimal(&mut text, data[i]);
            assert(data@.subrange(start as int, i + 1).drop_last() =~= data@.subrange(start as int, i as int));
            i = i + 1;
        }
        text.push(10);
        proof {
            if n - start <= width {
                assert(data@.subrange(start as int, end as int) =~= rest);
                assert(data@.skip(end as int) =~= Seq::<u8>::empty());
            } else {
                assert(data@.subrange(start as int, end as int) =~= rest.take(width as int));
                assert(data@.skip(end as int) =~= rest.skip(width as int));
            }
            assert(text@ + grid_text_spec(width as int, data@.skip(end as int)) =~= before + grid_text_spec(width as int, rest));
        }
        start = end;
    }
    proof {
        assert(data@.skip(n as int) =~= Seq::<u8>::empty());
        assert(text@ + Seq::<u8>::empty() =~= text@);
    }
    text
}

/// Whether a machine may be placed at (x, y): every place is allowed.
pub fn valid_machine_spawn(_chunk_map: &ChunkMap, _x: i32, _y: i32, _width: usize, _height: usize) -> (r: bool)
    ensures
        r,
{
    true
}

} // verus!
