//! The drill: a machine that bores down through a single chunk-sized
//! terrain grid, pushing what it digs out of its output pipe.
use vstd::prelude::*;
use crate::color_map::{
    SKY, COPPER, ROCK, DRILL_BLACK, DRILL_GREY, gravity_affected, gravel_variant, is_gravity_affected,
    gravel_variant_pmf, lemma_gravel_choices, GRAVEL1, GRAVEL2, GRAVEL3,
};
use crate::util::{flatten_index, flatten_index_value};

verus! {

/// Tag of a drill entity.
pub struct DrillTag;

/// Most pixels the drill holds before it must empty its pipe.
pub const DRILL_BUFFER_SIZE: usize = 20;
/// Half the drill's height in pixels.
pub const DRILL_HALF_HEIGHT: i32 = 24;
/// Width of the bore in pixels.
pub const DRILL_BORE_WIDTH: i32 = 6;
pub const DRILL_PIPE_OFFSET: i32 = 1;
pub const DRILL_OUTPUT_OFFSET_Y: i32 = 16;
pub const DRILL_OUTPUT_OFFSET_X: i32 = -21;

/// flatten_index does not overflow at world pixel (x, y).
pub open spec fn flatten_in_range(x: int, y: int) -> bool {
    &&& i32::MIN <= 300 - y <= i32::MAX
    &&& i32::MIN <= (300 - y) * 600 <= i32::MAX
    &&& x + 300 <= i32::MAX
    &&& i32::MIN <= flatten_index_value(x, y) <= i32::MAX
}

/// The grid index flatten_index gives for (x, y), where it is inside a
/// grid of length n.
pub open spec fn grid_index(x: int, y: int, n: int) -> Option<int> {
    let i = flatten_index_value(x, y);
    if 0 <= i < n {
        Some(i)
    } else {
        None
    }
}

/// Digging the bore's row y from column x on (of DRILL_BORE_WIDTH), the
/// drill at column dx: while the drill has room, loose material and copper
/// go into the drill and leave sky, rock turns into the gravel variant
/// draws[x]; sky and the drill's own pipe are passed over. The count of
/// pixels dug is carried along. None where the row leaves the grid or
/// meets any other material.
pub open spec fn dig_row_from(
    g: Seq<u8>,
    contents: Seq<u8>,
    dug: int,
    dx: int,
    y: int,
    draws: Seq<u8>,
    x: int,
) -> Option<(Seq<u8>, Seq<u8>, int)>
    decreases 6 - x,
{
    if x >= 6 || x < 0 {
        Some((g, contents, dug))
    } else if contents.len() >= 20 {
        dig_row_from(g, contents, dug, dx, y, draws, x + 1)
    } else {
        match grid_index(dx + x + 1, y, g.len() as int) {
            None => None,
            Some(i) => {
                let p = g[i];
                if gravity_affected(p) || p == COPPER {
                    dig_row_from(g.update(i, SKY), contents.push(p), dug + 1, dx, y, draws, x + 1)
                } else if p == ROCK {
                    dig_row_from(g.update(i, draws[x]), contents, dug + 1, dx, y, draws, x + 1)
                } else if p == SKY || p == DRILL_BLACK || p == DRILL_GREY {
                    dig_row_from(g, contents, dug, dx, y, draws, x + 1)
                } else {
                    None
                }
            },
        }
    }
}

/// Emptying the drill into its output pipe from column x on: each sky
/// pixel of the pipe's row takes the drill's oldest pixel while any are
/// left. None where the pipe leaves the grid.
pub open spec fn flush_from(g: Seq<u8>, contents: Seq<u8>, dx: int, dy: int, x: int) -> Option<(Seq<u8>, Seq<u8>)>
    decreases 6 - x,
{
    if x >= 6 || x < 0 {
        Some((g, contents))
    } else {
        match grid_index(dx + x - 21, dy + 16, g.len() as int) {
            None => None,
            Some(i) => if g[i] == SKY && contents.len() != 0 {
                flush_from(g.update(i, contents[0]), contents.drop_first(), dx, dy, x + 1)
            } else {
                flush_from(g, contents, dx, dy, x + 1)
            },
        }
    }
}

/// Whether some pixel of row y under the bore, from column x on, has the
/// value 255, the complement of sky. None where the row leaves the grid.
pub open spec fn pipe_blocked_from(g: Seq<u8>, dx: int, y: int, x: int) -> Option<bool>
    decreases 6 - x,
{
    if x >= 6 || x < 0 {
        Some(false)
    } else {
        match grid_index(dx + x + 1, y, g.len() as int) {
            None => None,
            Some(i) => if g[i] == 255 {
                Some(true)
            } else {
                pipe_blocked_from(g, dx, y, x + 1)
            },
        }
    }
}

/// The pipe's colour at column x of the bore: black, grey, black, two
/// pixels each.
pub open spec fn pipe_colour(x: int) -> u8 {
    if 2 <= x < 4 {
        DRILL_GREY
    } else {
        DRILL_BLACK
    }
}

/// Laying the pipe in row y of the bore from column x on.
pub open spec fn paint_pipe_from(g: Seq<u8>, dx: int, y: int, x: int) -> Option<Seq<u8>>
    decreases 6 - x,
{
    if x >= 6 || x < 0 {
        Some(g)
    } else {
        match grid_index(dx + x + 1, y, g.len() as int) {
            None => None,
            Some(i) => paint_pipe_from(g.update(i, pipe_colour(x)), dx, y, x + 1),
        }
    }
}

/// The bore's row for a drill centred at height dy that has gone `depth`
/// pixels down.
pub open spec fn bore_row(dy: int, depth: int) -> int {
    dy - 24 - depth
}

/// One tick of a drill centred at (dx, dy), `depth` pixels deep, holding
/// `contents`, with draws[x] the gravel variant rock in bore column x turns
/// into: dig the bore's row, empty into the pipe, and when nothing was dug
/// and the drill is empty, deepen by one (while above the chunk's floor)
/// and lay the pipe in the row just dug. None where the tick cannot go on:
/// an index outside the grid, or material the drill cannot handle.
pub open spec fn drill_tick_effect(g: Seq<u8>, contents: Seq<u8>, depth: int, dx: int, dy: int, draws: Seq<u8>)
    -> Option<(Seq<u8>, Seq<u8>, int)>
{
    let y = bore_row(dy, depth);
    if y <= -299 {
        Some((g, contents, depth))
    } else {
        match dig_row_from(g, contents, 0, dx, y, draws, 0) {
            None => None,
            Some(d) => match flush_from(d.0, d.1, dx, dy, 0) {
                None => None,
                Some(f) => if d.2 == 0 && f.1.len() == 0 {
                    match pipe_blocked_from(f.0, dx, y - 1, 0) {
                        None => None,
                        Some(blocked) => if blocked {
                            Some((f.0, f.1, depth))
                        } else {
                            let depth2 = if dy - 24 - depth - 2 > -300 { depth + 1 } else { depth };
                            match paint_pipe_from(f.0, dx, y, 0) {
                                None => None,
                                Some(g3) => Some((g3, f.1, depth2)),
                            }
                        },
                    }
                } else {
                    Some((f.0, f.1, depth))
                },
            },
        }
    }
}

/// The coordinates one drill tick works on stay where flatten_index and
/// the bore arithmetic do not overflow.
pub open spec fn drill_in_range(dx: int, dy: int, depth: int) -> bool {
    &&& i32::MIN + 30 <= dx <= i32::MAX - 30
    &&& depth <= i32::MAX
    &&& i32::MIN + 30 <= dy - 24 - depth
    &&& dy + 16 <= i32::MAX
    &&& forall|x: int| dx + 1 <= x < dx + 7 ==> #[trigger] flatten_in_range(x, bore_row(dy, depth))
    &&& forall|x: int| dx + 1 <= x < dx + 7 ==> #[trigger] flatten_in_range(x, bore_row(dy, depth) - 1)
    &&& forall|x: int| dx - 21 <= x < dx - 15 ==> #[trigger] flatten_in_range(x, dy + 16)
}

fn flatten_ok(x: i64, y: i64) -> (r: bool)
    requires
        -0x1_0000_0000 <= x <= 0x1_0000_0000,
        -0x1_0000_0000 <= y <= 0x1_0000_0000,
    ensures
        r == flatten_in_range(x as int, y as int),
{
    let a: i64 = 300 - y;
    let b: i64 = a * 600;
    let v: i64 = b + (x + 300);
    let lo: i64 = i32::MIN as i64;
    let hi: i64 = i32::MAX as i64;
    lo <= a && a <= hi && lo <= b && b <= hi && x + 300 <= hi && lo <= v && v <= hi
}

/// Whether one tick of a drill centred at (dx, dy) and `depth` pixels deep
/// keeps its arithmetic inside i32.
pub fn drill_position_ok(dx: i32, dy: i32, depth: usize) -> (r: bool)
    ensures
        r == drill_in_range(dx as int, dy as int, depth as int),
{
    if dx < i32::MIN + 30 || dx > i32::MAX - 30 || depth > i32::MAX as usize {
        return false;
    }
    let y: i64 = dy as i64 - 24 - depth as i64;
    if y < i32::MIN as i64 + 30 || dy as i64 + 16 > i32::MAX as i64 {
        return false;
    }
    let ghost yr = bore_row(dy as int, depth as int);
    assert(y == yr);
    let mut k: i64 = 1;
    while k < 7
        invariant
            1 <= k <= 7,
            i32::MIN + 30 <= dx <= i32::MAX - 30,
            y == yr,
            yr == bore_row(dy as int, depth as int),
            depth <= i32::MAX,
            dy + 16 <= i32::MAX,
            i32::MIN + 30 <= y <= i32::MAX,
            forall|x: int| dx + 1 <= x < dx + k ==> #[trigger] flatten_in_range(x, yr),
            forall|x: int| dx + 1 <= x < dx + k ==> #[trigger] flatten_in_range(x, yr - 1),
        decreases 7 - k,
    {
        let here = flatten_ok(dx as i64 + k, y);
        let below = flatten_ok(dx as i64 + k, y - 1);
        assert(here == flatten_in_range(dx + k, yr));
        assert(below == flatten_in_range(dx + k, yr - 1));
        if !here || !below {
            proof {
                if drill_in_range(dx as int, dy as int, depth as int) {
                    assert(flatten_in_range(dx + k, bore_row(dy as int, depth as int)));
                    assert(flatten_in_range(dx + k, bore_row(dy as int, depth as int) - 1));
                }
            }
            return false;
        }
        k = k + 1;
    }
    let mut k: i64 = -21;
    while k < -15
        invariant
            -21 <= k <= -15,
            i32::MIN + 30 <= dx <= i32::MAX - 30,
            dy + 16 <= i32::MAX,
            depth <= i32::MAX,
            i32::MIN + 30 <= dy - 24 - depth,
            forall|x: int| dx + 1 <= x < dx + 7 ==> #[trigger] flatten_in_range(x, bore_row(dy as int, depth as int)),
            forall|x: int| dx + 1 <= x < dx + 7 ==> #[trigger] flatten_in_range(x, bore_row(dy as int, depth as int) - 1),
            forall|x: int| dx - 21 <= x < dx + k ==> #[trigger] flatten_in_range(x, dy + 16),
        decreases -15 - k,
    {
        if !flatten_ok(dx as i64 + k, dy as i64 + 16) {
            assert(!flatten_in_range(dx + k, dy + 16));
            return false;
        }
        k = k + 1;
    }
    true
}

/// Draws the bore's gravel variants.
fn draw_gravel(seed: u64) -> (draws: Vec<u8>)
    ensures
        draws@.len() == 6,
        forall|i: int| 0 <= i < 6 ==> gravel_variant(#[trigger] draws@[i]),
{
    let mut pmf = gravel_variant_pmf(seed);
    let mut draws: Vec<u8> = Vec::new();
    let mut i: usize = 0;
    while i < 6
        invariant
            i <= 6,
            draws@.len() == i,
            pmf.choices() == seq![GRAVEL1, GRAVEL1, GRAVEL1, GRAVEL1, GRAVEL2, GRAVEL3],
            forall|j: int| 0 <= j < i ==> gravel_variant(#[trigger] draws@[j]),
        decreases 6 - i,
    {
        let v = pmf.next();
        proof { lemma_gravel_choices(v); }
        draws.push(v);
        i = i + 1;
    }
    draws
}

/// Where world pixel (x, y) falls inside a grid of length `len`, the
/// index flatten_index gives for it.
fn grid_index_in(x: i32, y: i32, len: usize) -> (r: Option<usize>)
    requires
        flatten_in_range(x as int, y as int),
    ensures
        r is Some <==> grid_index(x as int, y as int, len as int) is Some,
        r is Some ==> r->0 as int == grid_index(x as int, y as int, len as int)->0,
{
    let v: i32 = (300 - y) * 600 + (x + 300);
    if v >= 0 && (v as usize) < len {
        Some(flatten_index(x, y))
    } else {
        None
    }
}

/// Empties the drill into its output pipe, oldest pixel first. Returns
/// false, having stopped part way, where the pipe leaves the grid.
pub fn flush_buffer(contents: &mut Vec<u8>, terrain_grid: &mut Vec<u8>, dx: i32, dy: i32) -> (done: bool)
    requires
        dy + 16 <= i32::MAX,
        i32::MIN + 30 <= dx <= i32::MAX - 30,
        forall|x: int| dx - 21 <= x < dx - 15 ==> #[trigger] flatten_in_range(x, dy + 16),
    ensures
        done == flush_from(old(terrain_grid)@, old(contents)@, dx as int, dy as int, 0) is Some,
        done ==> (final(terrain_grid)@, final(contents)@) == flush_from(old(terrain_grid)@, old(contents)@, dx as int, dy as int, 0)->0,
{
    let ghost r = flush_from(terrain_grid@, contents@, dx as int, dy as int, 0);
    let mut x: i32 = 0;
    while x < DRILL_BORE_WIDTH
        invariant
            0 <= x <= 6,
            dy + 16 <= i32::MAX,
            i32::MIN + 30 <= dx <= i32::MAX - 30,
            forall|x2: int| dx - 21 <= x2 < dx - 15 ==> #[trigger] flatten_in_range(x2, dy + 16),
            r == flush_from(old(terrain_grid)@, old(contents)@, dx as int, dy as int, 0),
            flush_from(terrain_grid@, contents@, dx as int, dy as int, x as int) == r,
        decreases 6 - x,
    {
        assert(flatten_in_range(dx + x - 21, dy + 16));
        let index = match grid_index_in(dx + x + DRILL_OUTPUT_OFFSET_X, dy + DRILL_OUTPUT_OFFSET_Y, terrain_grid.len()) {
            Some(i) => i,
            None => return false,
        };
        if terrain_grid[index] == SKY {
            if contents.len() != 0 {
                let p = contents.remove(0);
                terrain_grid.set(index, p);
            }
        }
        x = x + 1;
    }
    true
}

fn dig_row(terrain_grid: &mut Vec<u8>, contents: &mut Vec<u8>, dx: i32, y: i32, draws: &Vec<u8>) -> (dug: Option<i32>)
    requires
        draws@.len() == 6,
        i32::MIN + 30 <= dx <= i32::MAX - 30,
        forall|x: int| dx + 1 <= x < dx + 7 ==> #[trigger] flatten_in_range(x, y as int),
    ensures
        dug is Some == dig_row_from(old(terrain_grid)@, old(contents)@, 0, dx as int, y as int, draws@, 0) is Some,
        dug is Some ==> (final(terrain_grid)@, final(contents)@, dug->0 as int)
            == dig_row_from(old(terrain_grid)@, old(contents)@, 0, dx as int, y as int, draws@, 0)->0,
{
    let ghost r = dig_row_from(terrain_grid@, contents@, 0, dx as int, y as int, draws@, 0);
    let mut dug_count: i32 = 0;
    let mut x: i32 = 0;
    while x < DRILL_BORE_WIDTH
        invariant
            0 <= x <= 6,
            0 <= dug_count <= x,
            draws@.len() == 6,
            i32::MIN + 30 <= dx <= i32::MAX - 30,
            forall|x2: int| dx + 1 <= x2 < dx + 7 ==> #[trigger] flatten_in_range(x2, y as int),
            r == dig_row_from(old(terrain_grid)@, old(contents)@, 0, dx as int, y as int, draws@, 0),
            dig_row_from(terrain_grid@, contents@, dug_count as int, dx as int, y as int, draws@, x as int) == r,
        decreases 6 - x,
    {
        if DRILL_BUFFER_SIZE > contents.len() {
            assert(flatten_in_range(dx + x + 1, y as int));
            let index = match grid_index_in(dx + x + DRILL_PIPE_OFFSET, y, terrain_grid.len()) {
                Some(i) => i,
                None => return None,
            };
            let p = terrain_grid[index];
            if is_gravity_affected(p) || p == COPPER {
                contents.push(p);
                terrain_grid.set(index, SKY);
                dug_count = dug_count + 1;
            } else if p == ROCK {
                terrain_grid.set(index, draws[x as usize]);
                dug_count = dug_count + 1;
            } else if p != SKY && p != DRILL_BLACK && p != DRILL_GREY {
                return None;
            }
        }
        x = x + 1;
    }
    Some(dug_count)
}

fn pipe_blocked(terrain_grid: &Vec<u8>, dx: i32, y: i32) -> (blocked: Option<bool>)
    requires
        i32::MIN + 30 <= dx <= i32::MAX - 30,
        forall|x: int| dx + 1 <= x < dx + 7 ==> #[trigger] flatten_in_range(x, y as int),
    ensures
        blocked == pipe_blocked_from(terrain_grid@, dx as int, y as int, 0),
{
    let mut x: i32 = 0;
    while x < DRILL_BORE_WIDTH
        invariant
            0 <= x <= 6,
            i32::MIN + 30 <= dx <= i32::MAX - 30,
            forall|x2: int| dx + 1 <= x2 < dx + 7 ==> #[trigger] flatten_in_range(x2, y as int),
            pipe_blocked_from(terrain_grid@, dx as int, y as int, x as int)
                == pipe_blocked_from(terrain_grid@, dx as int, y as int, 0),
        decreases 6 - x,
    {
        assert(flatten_in_range(dx + x + 1, y as int));
        let index = match grid_index_in(dx + x + DRILL_PIPE_OFFSET, y, terrain_grid.len()) {
            Some(i) => i,
            None => return None,
        };
        assert(!0u8 == 255u8) by (bit_vector);
        if terrain_grid[index] == !SKY {
            return Some(true);
        }
        x = x + 1;
    }
    Some(false)
}

fn paint_pipe(terrain_grid: &mut Vec<u8>, dx: i32, y: i32) -> (done: bool)
    requires
        i32::MIN + 30 <= dx <= i32::MAX - 30,
        forall|x: int| dx + 1 <= x < dx + 7 ==> #[trigger] flatten_in_range(x, y as int),
    ensures
        done == paint_pipe_from(old(terrain_grid)@, dx as int, y as int, 0) is Some,
        done ==> final(terrain_grid)@ == paint_pipe_from(old(terrain_grid)@, dx as int, y as int, 0)->0,
{
    let ghost r = paint_pipe_from(terrain_grid@, dx as int, y as int, 0);
    let mut x: i32 = 0;
    while x < DRILL_BORE_WIDTH
        invariant
            0 <= x <= 6,
            i32::MIN + 30 <= dx <= i32::MAX - 30,
            forall|x2: int| dx + 1 <= x2 < dx + 7 ==> #[trigger] flatten_in_range(x2, y as int),
            r == paint_pipe_from(old(terrain_grid)@, dx as int, y as int, 0),
            paint_pipe_from(terrain_grid@, dx as int, y as int, x as int) == r,
        decreases 6 - x,
    {
        assert(flatten_in_range(dx + x + 1, y as int));
        let index = match grid_index_in(dx + x + DRILL_PIPE_OFFSET, y, terrain_grid.len()) {
            Some(i) => i,
            None => return false,
        };
        let colour = if 2 <= x && x < 4 { DRILL_GREY } else { DRILL_BLACK };
        terrain_grid.set(index, colour);
        x = x + 1;
    }
    true
}

/// One tick of the drill centred at (dx, dy): it digs the row under its
/// bore, empties into its output pipe, and when it dug nothing and holds
/// nothing it extends its pipe one row down. Rock it digs turns into
/// gravel variants picked in the sequence that `seed` decides. Returns
/// false, having stopped part way, where the tick reaches outside the
/// grid or meets material the drill cannot handle.
pub fn drill_step(terrain_grid: &mut Vec<u8>, dx: i32, dy: i32, drill_depth: &mut usize, contents: &mut Vec<u8>, seed: u64) -> (done: bool)
    requires
        drill_in_range(dx as int, dy as int, *old(drill_depth) as int),
    ensures
        exists|d: Seq<u8>| d.len() == 6 && (forall|i: int| 0 <= i < 6 ==> gravel_variant(#[trigger] d[i])) && {
            let r = #[trigger] drill_tick_effect(old(terrain_grid)@, old(contents)@, *old(drill_depth) as int, dx as int, dy as int, d);
            &&& done == r is Some
            &&& done ==> final(terrain_grid)@ == (r->0).0
            &&& done ==> final(contents)@ == (r->0).1
            &&& done ==> *final(drill_depth) as int == (r->0).2
        },
        done && old(contents)@.len() <= DRILL_BUFFER_SIZE ==> final(contents)@.len() <= DRILL_BUFFER_SIZE,
        done ==> *final(drill_depth) == *old(drill_depth) || *final(drill_depth) == *old(drill_depth) + 1,
        done && old(contents)@.len() + 6 <= DRILL_BUFFER_SIZE && bore_row(dy as int, *old(drill_depth) as int) > -299
            && (exists|xc: int| 0 <= xc < 6
                && #[trigger] bore_holds_diggable(old(terrain_grid)@, dx as int, bore_row(dy as int, *old(drill_depth) as int), xc))
            ==> *final(drill_depth) == *old(drill_depth),
{
    let draws = draw_gravel(seed);
    let ghost d = draws@;
    let ghost effect = drill_tick_effect(terrain_grid@, contents@, *drill_depth as int, dx as int, dy as int, d);
    proof {
        if effect is Some {
            lemma_drill_tick_bounds(terrain_grid@, contents@, *drill_depth as int, dx as int, dy as int, d);
            let yb = bore_row(dy as int, *drill_depth as int);
            if contents@.len() + 6 <= DRILL_BUFFER_SIZE && yb > -299
                && (exists|xc: int| 0 <= xc < 6 && #[trigger] bore_holds_diggable(terrain_grid@, dx as int, yb, xc)) {
                let xc = choose|xc: int| 0 <= xc < 6 && #[trigger] bore_holds_diggable(terrain_grid@, dx as int, yb, xc);
                let i = grid_index(dx + xc + 1, yb, terrain_grid@.len() as int)->0;
                lemma_drill_tick_digs_before_deepening(terrain_grid@, contents@, *drill_depth as int, dx as int, dy as int, d, xc, i);
            }
        }
    }
    let y = dy - DRILL_HALF_HEIGHT - *drill_depth as i32;
    assert(y as int == bore_row(dy as int, *drill_depth as int));
    if y <= (600 / 2 - 1) * -1 {
        assert(effect == Some((terrain_grid@, contents@, *drill_depth as int)));
        return true;
    }
    assert(forall|x: int| dx + 1 <= x < dx + 7 ==> #[trigger] flatten_in_range(x, y as int));
    let dug_count = match dig_row(terrain_grid, contents, dx, y, &draws) {
        Some(c) => c,
        None => return false,
    };
    if !flush_buffer(contents, terrain_grid, dx, dy) {
        return false;
    }
    if dug_count == 0 && contents.len() == 0 {
        assert(forall|x: int| dx + 1 <= x < dx + 7 ==> #[trigger] flatten_in_range(x, y - 1));
        match pipe_blocked(terrain_grid, dx, y - 1) {
            None => return false,
            Some(true) => return true,
            Some(false) => {},
        }
        if dy - DRILL_HALF_HEIGHT - *drill_depth as i32 - 2 > -1 * 600 / 2 {
            *drill_depth = *drill_depth + 1;
        }
        return paint_pipe(terrain_grid, dx, y);
    }
    true
}

/// A drill on the terrain: the pixel its centre stands on, how deep its
/// pipe reaches, and what it holds.
pub struct DrillState {
    pub x: i32,
    pub y: i32,
    pub depth: usize,
    pub contents: Vec<u8>,
}

/// A drill as plain values: centre x, centre y, depth, load.
pub open spec fn drill_view(d: DrillState) -> (int, int, int, Seq<u8>) {
    (d.x as int, d.y as int, d.depth as int, d.contents@)
}

/// The drills one after another, each on the terrain the ones before it
/// left, with draws[i] the gravel picks of drill i. Returns the terrain
/// and the drills afterwards; None where some drill's tick cannot go on.
pub open spec fn drills_effect(g: Seq<u8>, drills: Seq<(int, int, int, Seq<u8>)>, draws: Seq<Seq<u8>>)
    -> Option<(Seq<u8>, Seq<(int, int, int, Seq<u8>)>)>
    decreases drills.len(),
{
    if drills.len() == 0 {
        Some((g, Seq::empty()))
    } else {
        match drills_effect(g, drills.drop_last(), draws.drop_last()) {
            None => None,
            Some(before) => {
                let d = drills.last();
                match drill_tick_effect(before.0, d.3, d.2, d.0, d.1, draws.last()) {
                    None => None,
                    Some(r) => Some((r.0, before.1.push((d.0, d.1, r.2, r.1)))),
                }
            },
        }
    }
}

/// Once some drill's tick cannot go on, the drills after it change
/// nothing about that.
proof fn lemma_drills_effect_prefix_none(
    g: Seq<u8>,
    drills: Seq<(int, int, int, Seq<u8>)>,
    draws: Seq<Seq<u8>>,
    k: int,
)
    requires
        0 <= k <= drills.len(),
        draws.len() == drills.len(),
        drills_effect(g, drills.take(k), draws.take(k)) is None,
    ensures
        drills_effect(g, drills, draws) is None,
    decreases drills.len(),
{
    if k == drills.len() {
        assert(drills.take(k) =~= drills);
        assert(draws.take(k) =~= draws);
    } else {
        assert(drills.drop_last().take(k) =~= drills.take(k));
        assert(draws.drop_last().take(k) =~= draws.take(k));
        lemma_drills_effect_prefix_none(g, drills.drop_last(), draws.drop_last(), k);
    }
}

/// Bore column xc of row y, for a drill at column dx, lies in the grid and
/// holds loose material or copper.
pub open spec fn bore_holds_diggable(g: Seq<u8>, dx: int, y: int, xc: int) -> bool {
    match grid_index(dx + xc + 1, y, g.len() as int) {
        Some(i) => gravity_affected(g[i]) || g[i] == COPPER,
        None => false,
    }
}

/// Every draw list is six gravel variants.
pub open spec fn gravel_draws(draws: Seq<Seq<u8>>) -> bool {
    forall|i: int| 0 <= i < draws.len() ==> (#[trigger] draws[i]).len() == 6
        && forall|j: int| 0 <= j < 6 ==> gravel_variant(#[trigger] draws[i][j])
}

/// One tick of the drills' timer. Until the timer has finished nothing
/// changes. Once it has, each drill in turn takes one step (drill_step)
/// with the seed seeds[i]. Returns the drills afterwards and whether every
/// step could go on; where one could not, it stops there.
pub fn drill_tick(
    timer_finished: bool,
    terrain_grid: &mut Vec<u8>,
    drills: Vec<DrillState>,
    seeds: &Vec<u64>,
) -> (r: (Vec<DrillState>, bool))
    requires
        seeds@.len() == drills@.len(),
        forall|i: int| 0 <= i < drills@.len() ==>
            drill_in_range((#[trigger] drills@[i]).x as int, drills@[i].y as int, drills@[i].depth as int),
    ensures
        !timer_finished ==> r.1 && final(terrain_grid)@ == old(terrain_grid)@
            && r.0@.map_values(|d: DrillState| drill_view(d)) == drills@.map_values(|d: DrillState| drill_view(d)),
        timer_finished ==> exists|draws: Seq<Seq<u8>>| draws.len() == drills@.len() && #[trigger] gravel_draws(draws) && {
            let e = drills_effect(old(terrain_grid)@, drills@.map_values(|d: DrillState| drill_view(d)), draws);
            &&& r.1 == e is Some
            &&& r.1 ==> final(terrain_grid)@ == (e->0).0
            &&& r.1 ==> r.0@.map_values(|d: DrillState| drill_view(d)) == (e->0).1
        },
        r.1 ==> r.0@.len() == drills@.len(),
        r.1 ==> forall|i: int| 0 <= i < drills@.len() ==> {
            let before = #[trigger] drills@[i];
            let after = r.0@[i];
            &&& after.x == before.x
            &&& after.y == before.y
            &&& (after.depth == before.depth || after.depth == before.depth + 1)
            &&& (before.contents@.len() <= DRILL_BUFFER_SIZE ==> after.contents@.len() <= DRILL_BUFFER_SIZE)
        },
{
    if !timer_finished {
        proof {
            assert(drills@.map_values(|d: DrillState| drill_view(d)) =~= drills@.map_values(|d: DrillState| drill_view(d)));
        }
        return (drills, true);
    }
    let ghost g0 = terrain_grid@;
    let ghost all = drills@;
    let ghost views = all.map_values(|d: DrillState| drill_view(d));
    let mut rest = drills;
    let mut out: Vec<DrillState> = Vec::new();
    let ghost mut draws: Seq<Seq<u8>> = Seq::empty();
    let mut i: usize = 0;
    proof {
        assert(views.take(0) =~= Seq::<(int, int, int, Seq<u8>)>::empty());
        assert(out@.map_values(|d: DrillState| drill_view(d)) =~= Seq::<(int, int, int, Seq<u8>)>::empty());
        assert(rest@ =~= all.skip(0));
    }
    while i < seeds.len()
        invariant
            timer_finished,
            all == drills@,
            seeds@.len() == all.len(),
            views == all.map_values(|d: DrillState| drill_view(d)),
            forall|k: int| 0 <= k < all.len() ==>
                drill_in_range((#[trigger] all[k]).x as int, all[k].y as int, all[k].depth as int),
            i <= all.len(),
            rest@ == all.skip(i as int),
            out@.len() == i,
            draws.len() == i,
            gravel_draws(draws),
            g0 == old(terrain_grid)@,
            drills_effect(g0, views.take(i as int), draws) == Some((terrain_grid@, out@.map_values(|d: DrillState| drill_view(d)))),
            forall|k: int| 0 <= k < i ==> {
                let before = #[trigger] all[k];
                let after = out@[k];
                &&& after.x == before.x
                &&& after.y == before.y
                &&& (after.depth == before.depth || after.depth == before.depth + 1)
                &&& (before.contents@.len() <= DRILL_BUFFER_SIZE ==> after.contents@.len() <= DRILL_BUFFER_SIZE)
            },
        decreases all.len() - i,
    {
        proof {
            assert(rest@.len() == all.len() - i);
            assert(rest@[0] == all[i as int]);
        }
        let mut d = rest.remove(0);
        let ghost old_d = d;
        let ghost grid_before = terrain_grid@;
        let ok = drill_step(terrain_grid, d.x, d.y, &mut d.depth, &mut d.contents, seeds[i]);
        let ghost dr = choose|dr: Seq<u8>| dr.len() == 6 && (forall|j: int| 0 <= j < 6 ==> gravel_variant(#[trigger] dr[j])) && {
            let r = #[trigger] drill_tick_effect(grid_before, old_d.contents@, old_d.depth as int, old_d.x as int, old_d.y as int, dr);
            &&& ok == r is Some
            &&& ok ==> terrain_grid@ == (r->0).0
            &&& ok ==> d.contents@ == (r->0).1
            &&& ok ==> d.depth as int == (r->0).2
        };
        proof {
            let nd = draws.push(dr);
            assert(views.take(i + 1).drop_last() =~= views.take(i as int));
            assert(nd.drop_last() =~= draws);
            assert(views.take(i + 1).last() == drill_view(old_d));
            assert(gravel_draws(nd)) by {
                assert forall|k: int| 0 <= k < nd.len() implies (#[trigger] nd[k]).len() == 6
                    && forall|j: int| 0 <= j < 6 ==> gravel_variant(#[trigger] nd[k][j]) by {
                    if k < draws.len() {
                        assert(nd[k] == draws[k]);
                    }
                }
            }
            draws = nd;
        }
        if !ok {
            proof {
                let n = all.len();
                let pad = Seq::new((n - i - 1) as nat, |k: int| seq![GRAVEL1, GRAVEL1, GRAVEL1, GRAVEL1, GRAVEL1, GRAVEL1]);
                let full = draws + pad;
                assert(full.take(i + 1) =~= draws);
                assert(gravel_draws(full)) by {
                    assert forall|k: int| 0 <= k < full.len() implies (#[trigger] full[k]).len() == 6
                        && forall|j: int| 0 <= j < 6 ==> gravel_variant(#[trigger] full[k][j]) by {
                        if k < draws.len() {
                            assert(full[k] == draws[k]);
                        } else {
                            assert(full[k] == pad[k - draws.len()]);
                        }
                    }
                }
                assert(drills_effect(g0, views.take(i + 1), full.take(i + 1)) is None);
                lemma_drills_effect_prefix_none(g0, views, full, i + 1);
            }
            return (out, false);
        }
        let ghost out_before = out@;
        out.push(d);
        proof {
            assert(rest@ =~= all.skip(i + 1));
            assert(out@.map_values(|d: DrillState| drill_view(d))
                =~= out@.drop_last().map_values(|d: DrillState| drill_view(d)).push(drill_view(d)));
            assert(out@.drop_last() =~= out_before);
        }
        i = i + 1;
    }
    proof {
        assert(views.take(all.len() as int) =~= views);
    }
    (out, true)
}

// ---------------------------------------------------------------------
// Laws of a drill tick
// ---------------------------------------------------------------------

/// Digging a row never fills the drill past DRILL_BUFFER_SIZE.
pub proof fn lemma_dig_row_keeps_capacity(
    g: Seq<u8>,
    contents: Seq<u8>,
    dug: int,
    dx: int,
    y: int,
    draws: Seq<u8>,
    x: int,
)
    requires
        contents.len() <= 20,
        dig_row_from(g, contents, dug, dx, y, draws, x) is Some,
    ensures
        (dig_row_from(g, contents, dug, dx, y, draws, x)->0).1.len() <= 20,
    decreases 6 - x,
{
    if x >= 6 || x < 0 {
    } else if contents.len() >= 20 {
        lemma_dig_row_keeps_capacity(g, contents, dug, dx, y, draws, x + 1);
    } else {
        let i = grid_index(dx + x + 1, y, g.len() as int)->0;
        let p = g[i];
        if gravity_affected(p) || p == COPPER {
            lemma_dig_row_keeps_capacity(g.update(i, SKY), contents.push(p), dug + 1, dx, y, draws, x + 1);
        } else if p == ROCK {
            lemma_dig_row_keeps_capacity(g.update(i, draws[x]), contents, dug + 1, dx, y, draws, x + 1);
        } else {
            lemma_dig_row_keeps_capacity(g, contents, dug, dx, y, draws, x + 1);
        }
    }
}

/// Emptying into the pipe never adds to the drill's load.
pub proof fn lemma_flush_never_adds(g: Seq<u8>, contents: Seq<u8>, dx: int, dy: int, x: int)
    requires
        flush_from(g, contents, dx, dy, x) is Some,
    ensures
        (flush_from(g, contents, dx, dy, x)->0).1.len() <= contents.len(),
    decreases 6 - x,
{
    if x >= 6 || x < 0 {
    } else {
        let i = grid_index(dx + x - 21, dy + 16, g.len() as int)->0;
        if g[i] == SKY && contents.len() != 0 {
            lemma_flush_never_adds(g.update(i, contents[0]), contents.drop_first(), dx, dy, x + 1);
        } else {
            lemma_flush_never_adds(g, contents, dx, dy, x + 1);
        }
    }
}

/// A drill that holds at most DRILL_BUFFER_SIZE pixels still does after a
/// tick, and a tick leaves its depth as it was or one pixel deeper.
pub proof fn lemma_drill_tick_bounds(g: Seq<u8>, contents: Seq<u8>, depth: int, dx: int, dy: int, draws: Seq<u8>)
    requires
        drill_tick_effect(g, contents, depth, dx, dy, draws) is Some,
    ensures
        contents.len() <= 20 ==> (drill_tick_effect(g, contents, depth, dx, dy, draws)->0).1.len() <= 20,
        (drill_tick_effect(g, contents, depth, dx, dy, draws)->0).2 == depth
            || (drill_tick_effect(g, contents, depth, dx, dy, draws)->0).2 == depth + 1,
{
    let y = bore_row(dy, depth);
    if y > -299 && contents.len() <= 20 {
        lemma_dig_row_keeps_capacity(g, contents, 0, dx, y, draws, 0);
        let d = dig_row_from(g, contents, 0, dx, y, draws, 0)->0;
        lemma_flush_never_adds(d.0, d.1, dx, dy, 0);
    }
}

/// Digging a row only writes the bore's own pixels from column x on, keeps
/// the grid's length, only appends to the drill's load, and never lowers
/// the count of pixels dug.
proof fn lemma_dig_row_frame(
    g: Seq<u8>,
    contents: Seq<u8>,
    dug: int,
    dx: int,
    y: int,
    draws: Seq<u8>,
    x: int,
)
    requires
        dig_row_from(g, contents, dug, dx, y, draws, x) is Some,
    ensures
        ({
            let r = dig_row_from(g, contents, dug, dx, y, draws, x)->0;
            &&& r.0.len() == g.len()
            &&& r.1.len() >= contents.len()
            &&& r.1.take(contents.len() as int) == contents
            &&& r.2 >= dug
            &&& forall|j: int| 0 <= j < g.len() && (forall|x2: int| x <= x2 < 6 ==> #[trigger] grid_index(dx + x2 + 1, y, g.len() as int) != Some(j))
                ==> #[trigger] r.0[j] == g[j]
        }),
    decreases 6 - x,
{
    if x >= 6 || x < 0 {
        assert(contents.take(contents.len() as int) =~= contents);
    } else if contents.len() >= 20 {
        lemma_dig_row_frame(g, contents, dug, dx, y, draws, x + 1);
    } else {
        let i = grid_index(dx + x + 1, y, g.len() as int)->0;
        let p = g[i];
        let r = dig_row_from(g, contents, dug, dx, y, draws, x)->0;
        if gravity_affected(p) || p == COPPER {
            let c1 = contents.push(p);
            lemma_dig_row_frame(g.update(i, SKY), c1, dug + 1, dx, y, draws, x + 1);
            assert(r.1.take(contents.len() as int) =~= r.1.take(c1.len() as int).take(contents.len() as int));
            assert(c1.take(contents.len() as int) =~= contents);
        } else if p == ROCK {
            lemma_dig_row_frame(g.update(i, draws[x]), contents, dug + 1, dx, y, draws, x + 1);
        } else {
            lemma_dig_row_frame(g, contents, dug, dx, y, draws, x + 1);
        }
        assert forall|j: int| 0 <= j < g.len() && (forall|x2: int| x <= x2 < 6 ==> #[trigger] grid_index(dx + x2 + 1, y, g.len() as int) != Some(j))
            implies #[trigger] r.0[j] == g[j] by {
            assert(grid_index(dx + x + 1, y, g.len() as int) != Some(j));
        }
    }
}

/// While the drill has room for the whole row, every bore pixel of the
/// row holding loose material or copper is taken into the drill: it
/// becomes sky, its material joins the load, and it counts as dug.
pub proof fn lemma_dig_row_takes_loose_material_and_copper(
    g: Seq<u8>,
    contents: Seq<u8>,
    dug: int,
    dx: int,
    y: int,
    draws: Seq<u8>,
    x: int,
    xc: int,
    i: int,
)
    requires
        dig_row_from(g, contents, dug, dx, y, draws, x) is Some,
        0 <= x <= xc < 6,
        contents.len() + (6 - x) <= DRILL_BUFFER_SIZE,
        grid_index(dx + xc + 1, y, g.len() as int) == Some(i),
        gravity_affected(g[i]) || g[i] == COPPER,
    ensures
        (dig_row_from(g, contents, dug, dx, y, draws, x)->0).0[i] == SKY,
        (dig_row_from(g, contents, dug, dx, y, draws, x)->0).1.contains(g[i]),
        (dig_row_from(g, contents, dug, dx, y, draws, x)->0).2 > dug,
    decreases 6 - x,
{
    let r = dig_row_from(g, contents, dug, dx, y, draws, x)->0;
    let k = grid_index(dx + x + 1, y, g.len() as int)->0;
    let p = g[k];
    if x == xc {
        let c1 = contents.push(p);
        let g1 = g.update(i, SKY);
        lemma_dig_row_frame(g1, c1, dug + 1, dx, y, draws, x + 1);
        assert(forall|x2: int| x + 1 <= x2 < 6 ==> #[trigger] grid_index(dx + x2 + 1, y, g1.len() as int) != Some(i));
        assert(r.1.take(c1.len() as int)[contents.len() as int] == p);
        assert(r.1[contents.len() as int] == p);
    } else {
        assert(k != i);
        if gravity_affected(p) || p == COPPER {
            lemma_dig_row_takes_loose_material_and_copper(g.update(k, SKY), contents.push(p), dug + 1, dx, y, draws, x + 1, xc, i);
        } else if p == ROCK {
            lemma_dig_row_takes_loose_material_and_copper(g.update(k, draws[x]), contents, dug + 1, dx, y, draws, x + 1, xc, i);
        } else {
            lemma_dig_row_takes_loose_material_and_copper(g, contents, dug, dx, y, draws, x + 1, xc, i);
        }
    }
}

/// A drill tick whose bore row holds loose material or copper, while the
/// drill has room for the whole row, digs it out: that pixel becomes sky
/// for the moment of digging, its material goes into the drill, and the
/// drill does not deepen or lay pipe over it in that tick.
pub proof fn lemma_drill_tick_digs_before_deepening(
    g: Seq<u8>,
    contents: Seq<u8>,
    depth: int,
    dx: int,
    dy: int,
    draws: Seq<u8>,
    xc: int,
    i: int,
)
    requires
        drill_tick_effect(g, contents, depth, dx, dy, draws) is Some,
        bore_row(dy, depth) > -299,
        0 <= xc < 6,
        contents.len() + 6 <= DRILL_BUFFER_SIZE,
        grid_index(dx + xc + 1, bore_row(dy, depth), g.len() as int) == Some(i),
        gravity_affected(g[i]) || g[i] == COPPER,
    ensures
        (drill_tick_effect(g, contents, depth, dx, dy, draws)->0).2 == depth,
        ({
            let d = dig_row_from(g, contents, 0, dx, bore_row(dy, depth), draws, 0)->0;
            &&& d.0[i] == SKY
            &&& d.1.contains(g[i])
        }),
{
    lemma_dig_row_takes_loose_material_and_copper(g, contents, 0, dx, bore_row(dy, depth), draws, 0, xc, i);
}

} // verus!
