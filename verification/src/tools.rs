//! The player's tools: their cursor images, what the shovel shows of its
//! load, and how the shovel, pickaxe and hoe act on the terrain.
use vstd::prelude::*;
use vstd::arithmetic::div_mod::lemma_fundamental_div_mod_converse;
use crate::color_map::{
    CLEAR, TRANSLUCENT_GREY, WHITE, RED, STEEL, SKY, ROCK, shovel_able, open_space,
    gravel_variant, is_shovel_able, is_open_space, gravel_variant_pmf, lemma_gravel_choices,
};
use crate::components::{ChunkMap, GravityCoords, chunk_ready, pixel_at, cell_at, chunk_of, with_pixel, lemma_with_pixel_same, lemma_with_pixel_other, lemma_with_cell_shape};
use crate::util::{local_index_of, flatten_index_standard_grid, get_local_x, get_local_y, get_chunk_x_g, get_chunk_y_g};
use crate::color_map::{GRAVEL1, GRAVEL2, GRAVEL3};
use crate::constants::{CURSOR_RADIUS, HOE_WIDTH, HOE_HEIGHT, MAX_SHOVEL_CAPACITY, CURSOR_ORBITAL_RADIUS};

verus! {

/// Tag of the hoe entity.
pub struct HoeTag;

/// Tag of the pickaxe entity.
pub struct PickaxeTag;

/// Tag of the shovel entity.
pub struct ShovelTag;

/// The tools the player can hold.
#[derive(PartialEq, Eq, Structural, Debug, Clone, Copy)]
pub enum Tool {
    Shovel,
    Pickaxe,
    Hoe,
    SpawnDrill,
}

/// The tool keys: the shovel key takes up the shovel and releases the
/// hoe. Returns the tool now shown, where the keys changed it.
pub fn select_with_keys(shovel_key: bool, tool: &mut Tool, hoe_locked: &mut bool) -> (shown: Option<Tool>)
    ensures
        shovel_key ==> *final(tool) == Tool::Shovel && !*final(hoe_locked) && shown == Some(Tool::Shovel),
        !shovel_key ==> *final(tool) == *old(tool) && *final(hoe_locked) == *old(hoe_locked) && shown is None,
{
    if shovel_key {
        *hoe_locked = false;
        *tool = Tool::Shovel;
        Some(Tool::Shovel)
    } else {
        None
    }
}

/// The tool the player holds.
#[derive(PartialEq, Eq, Structural)]
pub struct CurrentTool {
    pub tool: Tool,
}

// ---------------------------------------------------------------------
// Cursor images
// ---------------------------------------------------------------------

/// Offset (dx, dy) from the cursor's centre lies strictly inside the
/// cursor's rim: its distance is below CURSOR_RADIUS - 1.5, that is
/// 13.5, written here without square roots.
pub open spec fn inside_rim(dx: int, dy: int) -> bool {
    4 * (dx * dx + dy * dy) < 729
}

/// Offset (dx, dy) from the cursor's centre lies outside the cursor:
/// its distance exceeds CURSOR_RADIUS.
pub open spec fn outside_cursor(dx: int, dy: int) -> bool {
    dx * dx + dy * dy > 225
}

/// Pixel (x, y) of a round cursor image whose rim has colour `rim`.
pub open spec fn cursor_pixel(x: int, y: int, rim: u8) -> u8 {
    if outside_cursor(x - 15, y - 15) {
        CLEAR
    } else if inside_rim(x - 15, y - 15) {
        TRANSLUCENT_GREY
    } else {
        rim
    }
}

/// The row-major image of a round cursor with rim colour `rim`,
/// 2 * CURSOR_RADIUS pixels on each side.
pub open spec fn cursor_image(rim: u8) -> Seq<u8> {
    Seq::new(900, |i: int| cursor_pixel(i % 30, i / 30, rim))
}

fn cursor_pixel_exec(x: i32, y: i32, rim: u8) -> (p: u8)
    requires
        0 <= x < 30,
        0 <= y < 30,
    ensures
        p == cursor_pixel(x as int, y as int, rim),
{
    let dx = x - 15;
    let dy = y - 15;
    assert(dx * dx <= 225 && dy * dy <= 225 && dx * dx >= 0 && dy * dy >= 0) by (nonlinear_arith)
        requires -15 <= dx <= 15, -15 <= dy <= 15;
    let d2 = dx * dx + dy * dy;
    if d2 > 225 {
        CLEAR
    } else if 4 * d2 < 729 {
        TRANSLUCENT_GREY
    } else {
        rim
    }
}

fn generate_cursor_grid(rim: u8) -> (grid: Vec<u8>)
    ensures
        grid@ == cursor_image(rim),
{
    let mut data_buffer: Vec<u8> = Vec::with_capacity(CURSOR_RADIUS * 2 * CURSOR_RADIUS * 2);
    let mut y: usize = 0;
    while y < CURSOR_RADIUS * 2
        invariant
            y <= 30,
            data_buffer@.len() == y * 30,
            forall|i: int| 0 <= i < y * 30 ==> data_buffer@[i] == cursor_image(rim)[i],
        decreases 30 - y,
    {
        let mut x: usize = 0;
        while x < CURSOR_RADIUS * 2
            invariant
                y < 30,
                x <= 30,
                data_buffer@.len() == y * 30 + x,
                forall|i: int| 0 <= i < y * 30 + x ==> data_buffer@[i] == cursor_image(rim)[i],
            decreases 30 - x,
        {
            let p = cursor_pixel_exec(x as i32, y as i32, rim);
            proof {
                let i = y * 30 + x;
                lemma_fundamental_div_mod_converse(i as int, 30, y as int, x as int);
            }
            data_buffer.push(p);
            x = x + 1;
        }
        y = y + 1;
    }
    assert(data_buffer@ =~= cursor_image(rim));
    data_buffer
}

/// The shovel's cursor image: clear outside, translucent grey inside, a white rim.
pub fn generate_shovel_grid() -> (grid: Vec<u8>)
    ensures
        grid@ == cursor_image(WHITE),
{
    generate_cursor_grid(WHITE)
}

/// The pickaxe's cursor image: clear outside, translucent grey inside, a red rim.
pub fn generate_pickaxe_grid() -> (grid: Vec<u8>)
    ensures
        grid@ == cursor_image(RED),
{
    generate_cursor_grid(RED)
}

/// The hoe's image: HOE_WIDTH by HOE_HEIGHT pixels of steel.
pub fn generate_hoe_grid() -> (grid: Vec<u8>)
    ensures
        grid@ == Seq::new(45, |i: int| STEEL),
{
    let mut data_buffer: Vec<u8> = Vec::with_capacity(HOE_WIDTH * HOE_HEIGHT);
    let mut y: usize = 0;
    while y < HOE_HEIGHT
        invariant
            y <= 15,
            data_buffer@.len() == y * 3,
            forall|i: int| 0 <= i < y * 3 ==> data_buffer@[i] == STEEL,
        decreases 15 - y,
    {
        let mut x: usize = 0;
        while x < HOE_WIDTH
            invariant
                y < 15,
                x <= 3,
                data_buffer@.len() == y * 3 + x,
                forall|i: int| 0 <= i < y * 3 + x ==> data_buffer@[i] == STEEL,
            decreases 3 - x,
        {
            data_buffer.push(STEEL);
            x = x + 1;
        }
        y = y + 1;
    }
    assert(data_buffer@ =~= Seq::new(45, |i: int| STEEL));
    data_buffer
}

// ---------------------------------------------------------------------
// What the shovel shows of its load
// ---------------------------------------------------------------------

/// Number of entries of s equal to v.
pub open spec fn count_value(s: Seq<u8>, v: u8) -> nat
    decreases s.len(),
{
    if s.len() == 0 {
        0
    } else {
        (if s[0] == v { 1nat } else { 0nat }) + count_value(s.drop_first(), v)
    }
}

/// The shovel image with every shovel-able pixel turned back into
/// translucent grey.
pub open spec fn cleared_shovel_image(g: Seq<u8>) -> Seq<u8> {
    Seq::new(g.len(), |i: int| if shovel_able(g[i]) { TRANSLUCENT_GREY } else { g[i] })
}

/// How many translucent grey pixels of g come after index i.
pub open spec fn grey_after(g: Seq<u8>, i: int) -> nat {
    count_value(g.subrange(i + 1, g.len() as int), TRANSLUCENT_GREY)
}

/// The shovel image showing `contents`: after clearing, the translucent
/// grey pixels are filled from the end of the image backwards with
/// contents[0], contents[1], ... until the contents run out.
pub open spec fn shovel_visual(g: Seq<u8>, contents: Seq<u8>) -> Seq<u8> {
    let c = cleared_shovel_image(g);
    Seq::new(
        g.len(),
        |i: int|
            if c[i] == TRANSLUCENT_GREY && grey_after(c, i) < contents.len() {
                contents[grey_after(c, i) as int]
            } else {
                c[i]
            },
    )
}

proof fn lemma_count_suffix_step(s: Seq<u8>, i: int, v: u8)
    requires
        0 <= i < s.len(),
    ensures
        count_value(s.subrange(i, s.len() as int), v)
            == (if s[i] == v { 1nat } else { 0nat }) + count_value(s.subrange(i + 1, s.len() as int), v),
{
    let t = s.subrange(i, s.len() as int);
    assert(t.drop_first() =~= s.subrange(i + 1, s.len() as int));
}

/// Redraws the shovel image so that it shows the shovel's load.
pub fn update_shovel_content_visual(shovel_image_grid: &mut Vec<u8>, shovel_contents: &Vec<u8>)
    ensures
        final(shovel_image_grid)@ == shovel_visual(old(shovel_image_grid)@, shovel_contents@),
{
    let ghost g = shovel_image_grid@;
    let ghost c = cleared_shovel_image(g);
    let n = shovel_image_grid.len();
    let mut i: usize = 0;
    while i < n
        invariant
            n == g.len(),
            c == cleared_shovel_image(g),
            i <= n,
            shovel_image_grid@.len() == n,
            forall|j: int| 0 <= j < i ==> shovel_image_grid@[j] == c[j],
            forall|j: int| i <= j < n ==> shovel_image_grid@[j] == g[j],
        decreases n - i,
    {
        if is_shovel_able(shovel_image_grid[i]) {
            shovel_image_grid.set(i, TRANSLUCENT_GREY);
        }
        i = i + 1;
    }
    assert(shovel_image_grid@ =~= c);
    let ghost target = shovel_visual(g, shovel_contents@);
    let mut drawn_content: usize = 0;
    let mut k: usize = n;
    assert(c.subrange(n as int, n as int) =~= Seq::<u8>::empty());
    while k > 0
        invariant
            n == g.len(),
            c == cleared_shovel_image(g),
            target == shovel_visual(g, shovel_contents@),
            g == old(shovel_image_grid)@,
            c.len() == n,
            target.len() == n,
            k <= n,
            shovel_image_grid@.len() == n,
            drawn_content == count_value(c.subrange(k as int, n as int), TRANSLUCENT_GREY),
            drawn_content <= shovel_contents@.len(),
            forall|j: int| 0 <= j < k ==> shovel_image_grid@[j] == c[j],
            forall|j: int| k <= j < n ==> shovel_image_grid@[j] == target[j],
        decreases k,
    {
        if drawn_content == shovel_contents.len() {
            assert forall|j: int| 0 <= j < k implies shovel_image_grid@[j] == target[j] by {
                assert(grey_after(c, j) >= drawn_content) by {
                    lemma_count_suffix_monotone(c, k as int, j + 1);
                }
            }
            assert(shovel_image_grid@ =~= target);
            return;
        }
        let j = k - 1;
        proof {
            lemma_count_suffix_step(c, j as int, TRANSLUCENT_GREY);
        }
        if shovel_image_grid[j] == TRANSLUCENT_GREY {
            shovel_image_grid.set(j, shovel_contents[drawn_content]);
            drawn_content = drawn_content + 1;
        }
        k = j;
    }
    assert(shovel_image_grid@ =~= target);
}

/// Translucent grey pixels counted from a later index are no more than
/// those counted from an earlier one.
proof fn lemma_count_suffix_monotone(s: Seq<u8>, a: int, b: int)
    requires
        0 <= b <= a <= s.len(),
    ensures
        count_value(s.subrange(a, s.len() as int), TRANSLUCENT_GREY)
            <= count_value(s.subrange(b, s.len() as int), TRANSLUCENT_GREY),
    decreases a - b,
{
    if b < a {
        lemma_count_suffix_step(s, b, TRANSLUCENT_GREY);
        lemma_count_suffix_monotone(s, a, b + 1);
    }
}

// ---------------------------------------------------------------------
// Hoe
// ---------------------------------------------------------------------

/// A left click with the hoe locks it in place; the terrain is left alone.
pub fn left_click_hoe(_grid: &mut ChunkMap, is_locked: &mut bool)
    ensures
        *final(is_locked),
        final(_grid)@ == old(_grid)@,
{
    *is_locked = true;
}

/// A right click with the hoe releases it.
pub fn right_click_hoe(is_locked: &mut bool)
    ensures
        !*final(is_locked),
{
    *is_locked = false;
}

// ---------------------------------------------------------------------
// Pickaxe
// ---------------------------------------------------------------------

/// A tool centred at (cx, cy) touches only world pixels on which the chunk
/// and local conversions, and the upward search of the shovel, do not
/// overflow i32.
pub open spec fn tool_position_in_range(cx: int, cy: int) -> bool {
    &&& i32::MIN + 15 <= cx <= i32::MAX - 314
    &&& i32::MIN + 315 <= cy <= i32::MAX - 314
}

/// Whether the tools' arithmetic around a cursor at (cx, cy) fits in i32.
pub fn tool_in_range(cx: i32, cy: i32) -> (r: bool)
    ensures
        r == tool_position_in_range(cx as int, cy as int),
{
    i32::MIN + 15 <= cx && cx <= i32::MAX - 314 && i32::MIN + 315 <= cy && cy <= i32::MAX - 314
}

/// (x, y) lies in the square of side 2 * CURSOR_RADIUS around (cx, cy)
/// and comes before row yc, column xc in the order the tools visit it
/// (rows bottom up, each row left to right).
pub open spec fn visited_before(cx: int, cy: int, yc: int, xc: int, x: int, y: int) -> bool {
    &&& cx - 15 <= x < cx + 15
    &&& cy - 15 <= y < cy + 15
    &&& (y < yc || (y == yc && x < xc))
}

/// The pickaxe at (cx, cy) strikes world pixel (x, y): it lies inside the
/// cursor's rim and is rock.
pub open spec fn pickaxe_hit(m: Map<(int, int), Seq<u8>>, cx: int, cy: int, x: int, y: int) -> bool {
    inside_rim(x - cx, y - cy) && pixel_at(m, x, y) == Some(ROCK)
}

/// A pixel that is present and holds a gravel variant.
pub open spec fn holds_gravel(o: Option<u8>) -> bool {
    match o {
        Some(p) => gravel_variant(p),
        None => false,
    }
}

proof fn lemma_inside_rim_bounds(dx: int, dy: int)
    requires
        inside_rim(dx, dy),
    ensures
        -13 <= dx <= 13,
        -13 <= dy <= 13,
{
    assert(dx * dx >= 0 && dy * dy >= 0) by (nonlinear_arith);
    if dx > 13 || dx < -13 {
        assert(dx * dx >= 196) by (nonlinear_arith)
            requires dx > 13 || dx < -13;
    }
    if dy > 13 || dy < -13 {
        assert(dy * dy >= 196) by (nonlinear_arith)
            requires dy > 13 || dy < -13;
    }
}

fn inside_rim_exec(dx: i32, dy: i32) -> (r: bool)
    requires
        -15 <= dx <= 15,
        -15 <= dy <= 15,
    ensures
        r == inside_rim(dx as int, dy as int),
{
    assert(dx * dx <= 225 && dy * dy <= 225 && dx * dx >= 0 && dy * dy >= 0) by (nonlinear_arith)
        requires -15 <= dx <= 15, -15 <= dy <= 15;
    4 * (dx * dx + dy * dy) < 729
}

/// Every world pixel inside the cursor's rim around (cx, cy) lies in a
/// chunk that is loaded.
pub open spec fn rim_loaded(m: Map<(int, int), Seq<u8>>, cx: int, cy: int) -> bool {
    forall|x: int, y: int| inside_rim(x - cx, y - cy) ==> (#[trigger] pixel_at(m, x, y)) is Some
}

/// Whether every world pixel inside the cursor's rim around (cx, cy) lies
/// in a loaded chunk.
pub fn rim_pixels_loaded(chunk_map: &ChunkMap, cx: i32, cy: i32) -> (r: bool)
    requires
        tool_position_in_range(cx as int, cy as int),
    ensures
        r == rim_loaded(chunk_map@, cx as int, cy as int),
{
    let mut y = cy - 15;
    while y < cy + 15
        invariant
            tool_position_in_range(cx as int, cy as int),
            cy - 15 <= y <= cy + 15,
            forall|x2: int, y2: int| visited_before(cx as int, cy as int, y as int, cx - 15, x2, y2)
                && inside_rim(x2 - cx, y2 - cy) ==> (#[trigger] pixel_at(chunk_map@, x2, y2)) is Some,
        decreases cy + 15 - y,
    {
        let mut x = cx - 15;
        while x < cx + 15
            invariant
                tool_position_in_range(cx as int, cy as int),
                cy - 15 <= y < cy + 15,
                cx - 15 <= x <= cx + 15,
                forall|x2: int, y2: int| visited_before(cx as int, cy as int, y as int, x as int, x2, y2)
                    && inside_rim(x2 - cx, y2 - cy) ==> (#[trigger] pixel_at(chunk_map@, x2, y2)) is Some,
            decreases cx + 15 - x,
        {
            if inside_rim_exec(x - cx, y - cy) && chunk_map.pixel(x, y).is_none() {
                return false;
            }
            x = x + 1;
        }
        assert forall|x2: int, y2: int| visited_before(cx as int, cy as int, y + 1, cx - 15, x2, y2)
            && inside_rim(x2 - cx, y2 - cy) implies (#[trigger] pixel_at(chunk_map@, x2, y2)) is Some by {
            assert(visited_before(cx as int, cy as int, y as int, x as int, x2, y2));
        }
        y = y + 1;
    }
    proof {
        assert forall|x2: int, y2: int| inside_rim(x2 - cx, y2 - cy) implies (#[trigger] pixel_at(chunk_map@, x2, y2)) is Some by {
            lemma_inside_rim_bounds(x2 - cx, y2 - cy);
            assert(visited_before(cx as int, cy as int, y as int, cx - 15, x2, y2));
        }
    }
    true
}

/// A left click with the pickaxe centred at (cx, cy): every rock pixel
/// inside the cursor's rim becomes a random gravel variant, picked in the
/// sequence that `seed` decides, and is handed to gravity; nothing else
/// changes.
pub fn left_click_pickaxe(cx: i32, cy: i32, chunk_map: &mut ChunkMap, gravity_coords: &mut GravityCoords, seed: u64)
    requires
        tool_position_in_range(cx as int, cy as int),
        rim_loaded(old(chunk_map)@, cx as int, cy as int),
    ensures
        final(chunk_map)@.dom() == old(chunk_map)@.dom(),
        forall|c: (int, int)| #[trigger] old(chunk_map)@.contains_key(c) ==> final(chunk_map)@[c].len() == old(chunk_map)@[c].len(),
        forall|x: int, y: int| pickaxe_hit(old(chunk_map)@, cx as int, cy as int, x, y) ==>
            holds_gravel(#[trigger] pixel_at(final(chunk_map)@, x, y)),
        forall|x: int, y: int| !pickaxe_hit(old(chunk_map)@, cx as int, cy as int, x, y) ==>
            #[trigger] pixel_at(final(chunk_map)@, x, y) == pixel_at(old(chunk_map)@, x, y),
        forall|c: (int, int), i: int| #[trigger] cell_at(final(chunk_map)@, c, i) != cell_at(old(chunk_map)@, c, i) ==>
            exists|x: int, y: int| pickaxe_hit(old(chunk_map)@, cx as int, cy as int, x, y)
                && #[trigger] chunk_of(x, y) == c && local_index_of(x, y) == i,
        final(gravity_coords)@ == old(gravity_coords)@.union(
            Set::new(|p: (int, int)| pickaxe_hit(old(chunk_map)@, cx as int, cy as int, p.0, p.1))),
{
    let ghost m0 = chunk_map@;
    let ghost g0 = gravity_coords@;
    let left = cx - 15;
    let right = cx + 15;
    let top = cy + 15;
    let bottom = cy - 15;
    let mut pmf = gravel_variant_pmf(seed);
    let mut y_g = bottom;
    while y_g < top
        invariant
            tool_position_in_range(cx as int, cy as int),
            left == cx - 15, right == cx + 15, top == cy + 15, bottom == cy - 15,
            bottom <= y_g <= top,
            m0 == old(chunk_map)@,
            g0 == old(gravity_coords)@,
            pmf.choices() == seq![GRAVEL1, GRAVEL1, GRAVEL1, GRAVEL1, GRAVEL2, GRAVEL3],
            forall|x: int, y: int| inside_rim(x - cx, y - cy) ==> (#[trigger] pixel_at(m0, x, y)) is Some,
            chunk_map@.dom() == m0.dom(),
            forall|c: (int, int)| #[trigger] m0.contains_key(c) ==> chunk_map@[c].len() == m0[c].len(),
            forall|x: int, y: int| visited_before(cx as int, cy as int, y_g as int, left as int, x, y)
                && pickaxe_hit(m0, cx as int, cy as int, x, y) ==>
                holds_gravel(#[trigger] pixel_at(chunk_map@, x, y)),
            forall|x: int, y: int| !(visited_before(cx as int, cy as int, y_g as int, left as int, x, y)
                && pickaxe_hit(m0, cx as int, cy as int, x, y)) ==>
                #[trigger] pixel_at(chunk_map@, x, y) == pixel_at(m0, x, y),
            forall|c: (int, int), i: int| #[trigger] cell_at(chunk_map@, c, i) != cell_at(m0, c, i) ==>
                exists|x: int, y: int| visited_before(cx as int, cy as int, y_g as int, left as int, x, y)
                    && pickaxe_hit(m0, cx as int, cy as int, x, y)
                    && #[trigger] chunk_of(x, y) == c && local_index_of(x, y) == i,
            gravity_coords@ == g0.union(Set::new(|p: (int, int)|
                visited_before(cx as int, cy as int, y_g as int, left as int, p.0, p.1)
                && pickaxe_hit(m0, cx as int, cy as int, p.0, p.1))),
        decreases top - y_g,
    {
        let mut x_g = left;
        while x_g < right
            invariant
                tool_position_in_range(cx as int, cy as int),
                left == cx - 15, right == cx + 15, top == cy + 15, bottom == cy - 15,
                bottom <= y_g < top,
                left <= x_g <= right,
                m0 == old(chunk_map)@,
                g0 == old(gravity_coords)@,
                pmf.choices() == seq![GRAVEL1, GRAVEL1, GRAVEL1, GRAVEL1, GRAVEL2, GRAVEL3],
                forall|x: int, y: int| inside_rim(x - cx, y - cy) ==> (#[trigger] pixel_at(m0, x, y)) is Some,
                chunk_map@.dom() == m0.dom(),
                forall|c: (int, int)| #[trigger] m0.contains_key(c) ==> chunk_map@[c].len() == m0[c].len(),
                forall|x: int, y: int| visited_before(cx as int, cy as int, y_g as int, x_g as int, x, y)
                    && pickaxe_hit(m0, cx as int, cy as int, x, y) ==>
                    holds_gravel(#[trigger] pixel_at(chunk_map@, x, y)),
                forall|x: int, y: int| !(visited_before(cx as int, cy as int, y_g as int, x_g as int, x, y)
                    && pickaxe_hit(m0, cx as int, cy as int, x, y)) ==>
                    #[trigger] pixel_at(chunk_map@, x, y) == pixel_at(m0, x, y),
                forall|c: (int, int), i: int| #[trigger] cell_at(chunk_map@, c, i) != cell_at(m0, c, i) ==>
                    exists|x: int, y: int| visited_before(cx as int, cy as int, y_g as int, x_g as int, x, y)
                        && pickaxe_hit(m0, cx as int, cy as int, x, y)
                        && #[trigger] chunk_of(x, y) == c && local_index_of(x, y) == i,
                gravity_coords@ == g0.union(Set::new(|p: (int, int)|
                    visited_before(cx as int, cy as int, y_g as int, x_g as int, p.0, p.1)
                    && pickaxe_hit(m0, cx as int, cy as int, p.0, p.1))),
            decreases right - x_g,
        {
            let ghost m_before = chunk_map@;
            let ghost g_before = gravity_coords@;
            let mut hit = false;
            if inside_rim_exec(x_g - cx, y_g - cy) {
                let p = chunk_map.pixel(x_g, y_g).unwrap();
                assert(Some(p) == pixel_at(m0, x_g as int, y_g as int));
                if p == ROCK {
                    let v = pmf.next();
                    proof { lemma_gravel_choices(v); }
                    chunk_map.set_pixel(x_g, y_g, v);
                    gravity_coords.insert(x_g, y_g);
                    hit = true;
                    proof {
                        lemma_with_pixel_same(m_before, x_g as int, y_g as int, v);
                        lemma_with_cell_shape(m_before, chunk_of(x_g as int, y_g as int), local_index_of(x_g as int, y_g as int), v);
                    }
                }
            }
            proof {
                let xi = x_g as int;
                let yi = y_g as int;
                assert(hit == pickaxe_hit(m0, cx as int, cy as int, xi, yi));
                assert forall|x: int, y: int| (x != xi || y != yi) implies
                    #[trigger] pixel_at(chunk_map@, x, y) == pixel_at(m_before, x, y) by {
                    if hit {
                        lemma_with_pixel_other(m_before, xi, yi, chunk_map@[chunk_of(xi, yi)][local_index_of(xi, yi)], x, y);
                    }
                }
                assert forall|c: (int, int), i: int| #[trigger] cell_at(chunk_map@, c, i) != cell_at(m0, c, i) implies
                    exists|x: int, y: int| visited_before(cx as int, cy as int, yi, xi + 1, x, y)
                        && pickaxe_hit(m0, cx as int, cy as int, x, y)
                        && #[trigger] chunk_of(x, y) == c && local_index_of(x, y) == i by {
                    if hit && c == chunk_of(xi, yi) && i == local_index_of(xi, yi) {
                        assert(visited_before(cx as int, cy as int, yi, xi + 1, xi, yi));
                    } else {
                        assert(cell_at(chunk_map@, c, i) == cell_at(m_before, c, i));
                        let (x, y) = choose|x: int, y: int| visited_before(cx as int, cy as int, yi, xi, x, y)
                            && pickaxe_hit(m0, cx as int, cy as int, x, y)
                            && #[trigger] chunk_of(x, y) == c && local_index_of(x, y) == i;
                        assert(visited_before(cx as int, cy as int, yi, xi + 1, x, y));
                    }
                }
                assert(gravity_coords@ =~= g0.union(Set::new(|p: (int, int)|
                    visited_before(cx as int, cy as int, yi, xi + 1, p.0, p.1)
                    && pickaxe_hit(m0, cx as int, cy as int, p.0, p.1))));
            }
            x_g = x_g + 1;
        }
        proof {
            assert(gravity_coords@ =~= g0.union(Set::new(|p: (int, int)|
                visited_before(cx as int, cy as int, y_g + 1, left as int, p.0, p.1)
                && pickaxe_hit(m0, cx as int, cy as int, p.0, p.1))));
            assert forall|c: (int, int), i: int| #[trigger] cell_at(chunk_map@, c, i) != cell_at(m0, c, i) implies
                exists|x: int, y: int| visited_before(cx as int, cy as int, y_g + 1, left as int, x, y)
                    && pickaxe_hit(m0, cx as int, cy as int, x, y)
                    && #[trigger] chunk_of(x, y) == c && local_index_of(x, y) == i by {
                let (x, y) = choose|x: int, y: int| visited_before(cx as int, cy as int, y_g as int, right as int, x, y)
                    && pickaxe_hit(m0, cx as int, cy as int, x, y)
                    && #[trigger] chunk_of(x, y) == c && local_index_of(x, y) == i;
                assert(visited_before(cx as int, cy as int, y_g + 1, left as int, x, y));
            }
        }
        y_g = y_g + 1;
    }
    proof {
        assert forall|x: int, y: int| pickaxe_hit(m0, cx as int, cy as int, x, y) implies
            visited_before(cx as int, cy as int, top as int, left as int, x, y) by {
            lemma_inside_rim_bounds(x - cx, y - cy);
        }
        assert(gravity_coords@ =~= g0.union(
            Set::new(|p: (int, int)| pickaxe_hit(m0, cx as int, cy as int, p.0, p.1))));
    }
}

// ---------------------------------------------------------------------
// Shovel
// ---------------------------------------------------------------------

/// What a right click with the shovel at (cx, cy) does from step k on,
/// in the order the shovel image is read (rows top down, each row left
/// to right): while material is left, each image pixel that shows
/// material and whose world pixel is open space gets the last unit of
/// material, and that world pixel is handed to gravity. None where the
/// step would index past the image or read a missing chunk.
pub open spec fn place_from(
    m: Map<(int, int), Seq<u8>>,
    contents: Seq<u8>,
    g: Set<(int, int)>,
    grid: Seq<u8>,
    cx: int,
    cy: int,
    k: int,
) -> Option<(Map<(int, int), Seq<u8>>, Seq<u8>, Set<(int, int)>)>
    decreases 900 - k,
{
    if k >= 900 || k < 0 || contents.len() == 0 {
        Some((m, contents, g))
    } else if k >= grid.len() {
        None
    } else if !shovel_able(grid[k]) {
        place_from(m, contents, g, grid, cx, cy, k + 1)
    } else {
        let wx = cx - 15 + k % 30;
        let wy = cy - 15 + (29 - k / 30);
        match pixel_at(m, wx, wy) {
            None => None,
            Some(p) => if open_space(p) {
                place_from(
                    with_pixel(m, wx, wy, contents.last()),
                    contents.drop_last(),
                    g.insert((wx, wy)),
                    grid,
                    cx,
                    cy,
                    k + 1,
                )
            } else {
                place_from(m, contents, g, grid, cx, cy, k + 1)
            },
        }
    }
}

/// A right click with the shovel centred at (cx, cy): the shovel's load
/// is put back into open space where its image shows material, last unit
/// first, and the shovel image is redrawn.
pub fn right_click_shovel(
    shovel_grid: &mut Vec<u8>,
    chunk_map: &mut ChunkMap,
    cx: i32,
    cy: i32,
    cursor_contents: &mut Vec<u8>,
    gravity_coords: &mut GravityCoords,
) -> (done: bool)
    requires
        tool_position_in_range(cx as int, cy as int),
    ensures
        done == place_from(old(chunk_map)@, old(cursor_contents)@, old(gravity_coords)@, old(shovel_grid)@,
            cx as int, cy as int, 0) is Some,
        done ==> ({
            let r = place_from(old(chunk_map)@, old(cursor_contents)@, old(gravity_coords)@,
                old(shovel_grid)@, cx as int, cy as int, 0)->0;
            &&& final(chunk_map)@ == r.0
            &&& final(cursor_contents)@ == r.1
            &&& final(gravity_coords)@ == r.2
            &&& final(shovel_grid)@ == shovel_visual(old(shovel_grid)@, r.1)
        }),
{
    let ghost grid0 = shovel_grid@;
    let ghost r = place_from(chunk_map@, cursor_contents@, gravity_coords@, shovel_grid@, cx as int, cy as int, 0);
    let mut y: usize = 0;
    while y < CURSOR_RADIUS * 2
        invariant
            tool_position_in_range(cx as int, cy as int),
            y <= 30,
            shovel_grid@ == grid0,
            grid0 == old(shovel_grid)@,
            r == place_from(old(chunk_map)@, old(cursor_contents)@, old(gravity_coords)@, grid0, cx as int, cy as int, 0),
            place_from(chunk_map@, cursor_contents@, gravity_coords@, grid0, cx as int, cy as int, y * 30) == r,
        decreases 30 - y,
    {
        let mut x: usize = 0;
        while x < CURSOR_RADIUS * 2
            invariant
                tool_position_in_range(cx as int, cy as int),
                y < 30,
                x <= 30,
                shovel_grid@ == grid0,
                grid0 == old(shovel_grid)@,
                r == place_from(old(chunk_map)@, old(cursor_contents)@, old(gravity_coords)@, grid0, cx as int, cy as int, 0),
                place_from(chunk_map@, cursor_contents@, gravity_coords@, grid0, cx as int, cy as int, y * 30 + x) == r,
            decreases 30 - x,
        {
            let k = y * 30 + x;
            proof {
                lemma_fundamental_div_mod_converse(k as int, 30, y as int, x as int);
            }
            if cursor_contents.len() == 0 {
                update_shovel_content_visual(shovel_grid, cursor_contents);
                return true;
            }
            let shovel_grid_index = flatten_index_standard_grid(&x, &y, CURSOR_RADIUS * 2);
            if shovel_grid_index >= shovel_grid.len() {
                return false;
            }
            if is_shovel_able(shovel_grid[shovel_grid_index]) {
                let wx = cx - 15 + x as i32;
                let wy = cy - 15 + (CURSOR_RADIUS * 2 - y - 1) as i32;
                let p = match chunk_map.pixel(wx, wy) {
                    Some(p) => p,
                    None => return false,
                };
                if is_open_space(p) {
                    let pixel = cursor_contents.pop().unwrap();
                    chunk_map.set_pixel(wx, wy, pixel);
                    gravity_coords.insert(wx, wy);
                }
            }
            x = x + 1;
        }
        y = y + 1;
    }
    update_shovel_content_visual(shovel_grid, cursor_contents);
    true
}

/// Division rounding towards zero, as Rust's `/` on integers does.
pub open spec fn trunc_div(a: int, d: int) -> int {
    if a >= 0 {
        a / d
    } else {
        -((-a) / d)
    }
}

/// The search above world pixel (x, y) for material, from `lvl` pixels up
/// to 199 pixels up. The chunk looked in is found by rounding towards zero
/// and the index inside it by the local conversions. Some(Some(y2)) names
/// the first non-sky pixel (x, y2); Some(None) says there is none; None
/// says the search reads a missing chunk or past a chunk's end.
pub open spec fn search_up_from(m: Map<(int, int), Seq<u8>>, x: int, y: int, lvl: int) -> Option<Option<int>>
    decreases 200 - lvl,
{
    if lvl >= 200 || lvl < 1 {
        Some(None)
    } else {
        match cell_at(m, (trunc_div(x, 600), trunc_div(y + lvl, 600)), local_index_of(x, y + lvl)) {
            None => None,
            Some(p) => if p != SKY {
                Some(Some(y + lvl))
            } else {
                search_up_from(m, x, y, lvl + 1)
            },
        }
    }
}

fn search_upward_for_non_sky_pixel(chunk_map: &ChunkMap, x_g: i32, y_g: i32) -> (r: Option<Option<i32>>)
    requires
        298 - i32::MAX <= y_g <= i32::MAX - 200,
    ensures
        match search_up_from(chunk_map@, x_g as int, y_g as int, 1) {
            Some(Some(y2)) => r is Some && r->0 is Some && r->0->0 as int == y2,
            Some(None) => r == Some(None::<i32>),
            None => r is None,
        },
{
    let mut y_level: i32 = 1;
    while y_g + y_level < y_g + CURSOR_ORBITAL_RADIUS * 2
        invariant
            298 - i32::MAX <= y_g <= i32::MAX - 200,
            1 <= y_level <= 200,
            search_up_from(chunk_map@, x_g as int, y_g as int, y_level as int)
                == search_up_from(chunk_map@, x_g as int, y_g as int, 1),
        decreases 200 - y_level,
    {
        let local_x = get_local_x(x_g);
        let local_y = get_local_y(y_g + y_level);
        let local_index = flatten_index_standard_grid(&local_x, &local_y, 600);
        let (chunk_x_g, chunk_y_g) = (x_g / 600, (y_g + y_level) / 600);
        let p = match chunk_map.get_cell(chunk_x_g, chunk_y_g, local_index) {
            Some(p) => p,
            None => return None,
        };
        if p != SKY {
            return Some(Some(y_g + y_level));
        }
        y_level = y_level + 1;
    }
    Some(None)
}

/// What a left click with the shovel at (cx, cy) does from step k on,
/// visiting the square around the cursor in rows bottom up, each row left
/// to right: each shovel-able pixel inside the cursor's rim joins the load
/// and becomes sky, and the first material above it, if any, is handed to
/// gravity; digging stops when the load reaches MAX_SHOVEL_CAPACITY.
/// The last component tells whether it stopped for that reason. None
/// where a step would read a missing chunk or past a chunk's end.
pub open spec fn dig_from(
    m: Map<(int, int), Seq<u8>>,
    contents: Seq<u8>,
    g: Set<(int, int)>,
    cx: int,
    cy: int,
    k: int,
) -> Option<(Map<(int, int), Seq<u8>>, Seq<u8>, Set<(int, int)>, bool)>
    decreases 900 - k,
{
    if k >= 900 || k < 0 {
        Some((m, contents, g, false))
    } else {
        let x = cx - 15 + k % 30;
        let y = cy - 15 + k / 30;
        if !inside_rim(x - cx, y - cy) {
            dig_from(m, contents, g, cx, cy, k + 1)
        } else {
            match pixel_at(m, x, y) {
                None => None,
                Some(p) => if !shovel_able(p) {
                    dig_from(m, contents, g, cx, cy, k + 1)
                } else {
                    let m1 = with_pixel(m, x, y, SKY);
                    let c1 = contents.push(p);
                    match search_up_from(m1, x, y, 1) {
                        None => None,
                        Some(found) => {
                            let g1 = match found {
                                Some(y2) => g.insert((x, y2)),
                                None => g,
                            };
                            if c1.len() == MAX_SHOVEL_CAPACITY {
                                Some((m1, c1, g1, true))
                            } else {
                                dig_from(m1, c1, g1, cx, cy, k + 1)
                            }
                        },
                    }
                },
            }
        }
    }
}

/// One step of `left_click_shovel`: the cell (x, y) of the square around
/// the cursor. Tells whether the load just filled up.
fn shovel_dig_cell(
    cx: i32,
    cy: i32,
    x: i32,
    y: i32,
    shovel_contents: &mut Vec<u8>,
    chunk_map: &mut ChunkMap,
    gravity_coords: &mut GravityCoords,
) -> (full: Option<bool>)
    requires
        tool_position_in_range(cx as int, cy as int),
        cx - 15 <= x < cx + 15,
        cy - 15 <= y < cy + 15,
    ensures
        ({
            let k = (y - (cy - 15)) * 30 + (x - (cx - 15));
            let before = dig_from(old(chunk_map)@, old(shovel_contents)@, old(gravity_coords)@, cx as int, cy as int, k);
            match full {
                None => before is None,
                Some(true) => before == Some((final(chunk_map)@, final(shovel_contents)@, final(gravity_coords)@, true)),
                Some(false) => before == dig_from(final(chunk_map)@, final(shovel_contents)@, final(gravity_coords)@, cx as int, cy as int, k + 1),
            }
        }),
{
    let ghost k = (y - (cy - 15)) * 30 + (x - (cx - 15));
    proof {
        lemma_fundamental_div_mod_converse(k, 30, (y - (cy - 15)) as int, (x - (cx - 15)) as int);
    }
    if inside_rim_exec(x - cx, y - cy) {
        let comparing_pixel = match chunk_map.pixel(x, y) {
            Some(p) => p,
            None => return None,
        };
        if is_shovel_able(comparing_pixel) {
            shovel_contents.push(comparing_pixel);
            chunk_map.set_pixel(x, y, SKY);
            let found = search_upward_for_non_sky_pixel(chunk_map, x, y);
            match found {
                None => return None,
                Some(Some(y2)) => {
                    gravity_coords.insert(x, y2);
                },
                Some(None) => {},
            }
            if shovel_contents.len() == MAX_SHOVEL_CAPACITY {
                return Some(true);
            }
        }
    }
    Some(false)
}

/// A left click with the shovel centred at (cx, cy): shovel-able pixels
/// inside the cursor's rim are dug out into the shovel's load, material
/// left hanging above them is handed to gravity, and the shovel image is
/// redrawn when the load changed or filled up.
pub fn left_click_shovel(
    cx: i32,
    cy: i32,
    shovel_contents: &mut Vec<u8>,
    chunk_map: &mut ChunkMap,
    shovel_grid: &mut Vec<u8>,
    gravity_coords: &mut GravityCoords,
) -> (done: bool)
    requires
        tool_position_in_range(cx as int, cy as int),
    ensures
        done == dig_from(old(chunk_map)@, old(shovel_contents)@, old(gravity_coords)@, cx as int, cy as int, 0) is Some,
        done ==> ({
            let r = dig_from(old(chunk_map)@, old(shovel_contents)@, old(gravity_coords)@, cx as int, cy as int, 0)->0;
            &&& final(chunk_map)@ == r.0
            &&& final(shovel_contents)@ == r.1
            &&& final(gravity_coords)@ == r.2
            &&& final(shovel_grid)@ == if r.3 || r.1.len() != old(shovel_contents)@.len() {
                shovel_visual(old(shovel_grid)@, r.1)
            } else {
                old(shovel_grid)@
            }
        }),
        done ==> final(shovel_contents)@ == (old(shovel_contents)@ + rim_material_from(old(chunk_map)@, cx as int, cy as int, 0))
            .take(final(shovel_contents)@.len() as int),
        done && !(dig_from(old(chunk_map)@, old(shovel_contents)@, old(gravity_coords)@, cx as int, cy as int, 0)->0).3 ==> {
            &&& final(shovel_contents)@ == old(shovel_contents)@ + rim_material_from(old(chunk_map)@, cx as int, cy as int, 0)
            &&& forall|x: int, y: int| inside_rim(x - cx, y - cy) ==> #[trigger] dug_clear(final(chunk_map)@, x, y)
        },
        done && (dig_from(old(chunk_map)@, old(shovel_contents)@, old(gravity_coords)@, cx as int, cy as int, 0)->0).3
            ==> final(shovel_contents)@.len() == MAX_SHOVEL_CAPACITY,
{
    let ghost r = dig_from(chunk_map@, shovel_contents@, gravity_coords@, cx as int, cy as int, 0);
    proof {
        if r is Some {
            lemma_dig_load_is_rim_material(chunk_map@, shovel_contents@, gravity_coords@, cx as int, cy as int, 0);
            lemma_dig_clears_rim(chunk_map@, shovel_contents@, gravity_coords@, cx as int, cy as int);
        }
    }
    let left = cx - 15;
    let right = cx + 15;
    let top = cy + 15;
    let bottom = cy - 15;
    let starting_count = shovel_contents.len();
    let mut y = bottom;
    while y < top
        invariant
            tool_position_in_range(cx as int, cy as int),
            left == cx - 15, right == cx + 15, top == cy + 15, bottom == cy - 15,
            bottom <= y <= top,
            starting_count == old(shovel_contents)@.len(),
            shovel_grid@ == old(shovel_grid)@,
            r == dig_from(old(chunk_map)@, old(shovel_contents)@, old(gravity_coords)@, cx as int, cy as int, 0),
            dig_from(chunk_map@, shovel_contents@, gravity_coords@, cx as int, cy as int, (y - bottom) * 30) == r,
        decreases top - y,
    {
        let mut x = left;
        while x < right
            invariant
                tool_position_in_range(cx as int, cy as int),
                left == cx - 15, right == cx + 15, top == cy + 15, bottom == cy - 15,
                bottom <= y < top,
                left <= x <= right,
                starting_count == old(shovel_contents)@.len(),
                shovel_grid@ == old(shovel_grid)@,
                r == dig_from(old(chunk_map)@, old(shovel_contents)@, old(gravity_coords)@, cx as int, cy as int, 0),
                dig_from(chunk_map@, shovel_contents@, gravity_coords@, cx as int, cy as int,
                    (y - bottom) * 30 + (x - left)) == r,
            decreases right - x,
        {
            match shovel_dig_cell(cx, cy, x, y, shovel_contents, chunk_map, gravity_coords) {
                None => return false,
                Some(true) => {
                    update_shovel_content_visual(shovel_grid, shovel_contents);
                    proof {
                        lemma_dig_load_is_rim_material(old(chunk_map)@, old(shovel_contents)@, old(gravity_coords)@, cx as int, cy as int, 0);
                        lemma_dig_clears_rim(old(chunk_map)@, old(shovel_contents)@, old(gravity_coords)@, cx as int, cy as int);
                    }
                    return true;
                },
                Some(false) => {},
            }
            x = x + 1;
        }
        y = y + 1;
    }
    if starting_count != shovel_contents.len() {
        update_shovel_content_visual(shovel_grid, shovel_contents);
    }
    true
}

// ---------------------------------------------------------------------
// Mouse clicks
// ---------------------------------------------------------------------

/// What a mouse click asks of the held tool.
#[derive(PartialEq, Eq, Structural, Debug, Clone, Copy)]
pub enum ClickAction {
    DigWithShovel,
    StrikeWithPickaxe,
    LockHoe,
    AimDrill,
    PlaceFromShovel,
    ReleaseHoe,
    Nothing,
}

/// What a left click does with `tool` while the shovel holds
/// `contents_len` pixels: nothing once the shovel is full, whatever tool
/// is held; otherwise the held tool's left-click action.
pub fn left_click_action(tool: &Tool, contents_len: usize) -> (a: ClickAction)
    ensures
        contents_len >= MAX_SHOVEL_CAPACITY ==> a == ClickAction::Nothing,
        contents_len < MAX_SHOVEL_CAPACITY ==> a == match *tool {
            Tool::Shovel => ClickAction::DigWithShovel,
            Tool::Pickaxe => ClickAction::StrikeWithPickaxe,
            Tool::Hoe => ClickAction::LockHoe,
            Tool::SpawnDrill => ClickAction::AimDrill,
        },
{
    if contents_len < MAX_SHOVEL_CAPACITY {
        match tool {
            Tool::Shovel => ClickAction::DigWithShovel,
            Tool::Pickaxe => ClickAction::StrikeWithPickaxe,
            Tool::Hoe => ClickAction::LockHoe,
            Tool::SpawnDrill => ClickAction::AimDrill,
        }
    } else {
        ClickAction::Nothing
    }
}

/// What a right click does with `tool`: the shovel puts material back, the
/// hoe is released, the other tools do nothing.
pub fn right_click_action(tool: &Tool) -> (a: ClickAction)
    ensures
        a == match *tool {
            Tool::Shovel => ClickAction::PlaceFromShovel,
            Tool::Pickaxe => ClickAction::Nothing,
            Tool::Hoe => ClickAction::ReleaseHoe,
            Tool::SpawnDrill => ClickAction::Nothing,
        },
{
    match tool {
        Tool::Shovel => ClickAction::PlaceFromShovel,
        Tool::Pickaxe => ClickAction::Nothing,
        Tool::Hoe => ClickAction::ReleaseHoe,
        Tool::SpawnDrill => ClickAction::Nothing,
    }
}

// ---------------------------------------------------------------------
// Laws of the tools
// ---------------------------------------------------------------------

/// Redrawing the shovel image a second time with the same load changes
/// nothing, when everything in the load is shovel-able (as all dug
/// material is).
pub proof fn lemma_shovel_visual_idempotent(g: Seq<u8>, contents: Seq<u8>)
    requires
        forall|i: int| 0 <= i < contents.len() ==> shovel_able(#[trigger] contents[i]),
    ensures
        shovel_visual(shovel_visual(g, contents), contents) == shovel_visual(g, contents),
{
    let v = shovel_visual(g, contents);
    let c = cleared_shovel_image(g);
    assert forall|i: int| 0 <= i < g.len() implies #[trigger] cleared_shovel_image(v)[i] == c[i] by {
        if c[i] == TRANSLUCENT_GREY && grey_after(c, i) < contents.len() {
            assert(shovel_able(contents[grey_after(c, i) as int]));
        }
    }
    assert(cleared_shovel_image(v) =~= c);
    assert(shovel_visual(v, contents) =~= v);
}

/// Digging never loses what the shovel held, and a shovel that starts
/// below MAX_SHOVEL_CAPACITY never ends above it.
pub proof fn lemma_dig_keeps_load_and_capacity(
    m: Map<(int, int), Seq<u8>>,
    contents: Seq<u8>,
    g: Set<(int, int)>,
    cx: int,
    cy: int,
    k: int,
)
    requires
        contents.len() < MAX_SHOVEL_CAPACITY,
        dig_from(m, contents, g, cx, cy, k) is Some,
    ensures
        (dig_from(m, contents, g, cx, cy, k)->0).1.len() <= MAX_SHOVEL_CAPACITY,
        (dig_from(m, contents, g, cx, cy, k)->0).1.len() >= contents.len(),
        (dig_from(m, contents, g, cx, cy, k)->0).1.subrange(0, contents.len() as int) == contents,
    decreases 900 - k,
{
    if k >= 900 || k < 0 {
        assert(contents.subrange(0, contents.len() as int) =~= contents);
    } else {
        let x = cx - 15 + k % 30;
        let y = cy - 15 + k / 30;
        if !inside_rim(x - cx, y - cy) {
            lemma_dig_keeps_load_and_capacity(m, contents, g, cx, cy, k + 1);
        } else {
            let p = pixel_at(m, x, y)->0;
            if !shovel_able(p) {
                lemma_dig_keeps_load_and_capacity(m, contents, g, cx, cy, k + 1);
            } else {
                let m1 = with_pixel(m, x, y, SKY);
                let c1 = contents.push(p);
                let found = search_up_from(m1, x, y, 1)->0;
                let g1 = match found {
                    Some(y2) => g.insert((x, y2)),
                    None => g,
                };
                if c1.len() == MAX_SHOVEL_CAPACITY {
                    assert(c1.subrange(0, contents.len() as int) =~= contents);
                } else {
                    lemma_dig_keeps_load_and_capacity(m1, c1, g1, cx, cy, k + 1);
                    let r = (dig_from(m1, c1, g1, cx, cy, k + 1)->0).1;
                    assert(r.subrange(0, c1.len() as int).subrange(0, contents.len() as int) =~= r.subrange(0, contents.len() as int));
                    assert(c1.subrange(0, contents.len() as int) =~= contents);
                }
            }
        }
    }
}

/// Putting material back only ever takes units off the end of the
/// shovel's load: what is left is a prefix of what was held.
pub proof fn lemma_place_leaves_prefix(
    m: Map<(int, int), Seq<u8>>,
    contents: Seq<u8>,
    g: Set<(int, int)>,
    grid: Seq<u8>,
    cx: int,
    cy: int,
    k: int,
)
    requires
        place_from(m, contents, g, grid, cx, cy, k) is Some,
    ensures
        (place_from(m, contents, g, grid, cx, cy, k)->0).1.len() <= contents.len(),
        (place_from(m, contents, g, grid, cx, cy, k)->0).1
            == contents.subrange(0, (place_from(m, contents, g, grid, cx, cy, k)->0).1.len() as int),
    decreases 900 - k,
{
    if k >= 900 || k < 0 || contents.len() == 0 {
        assert(contents.subrange(0, contents.len() as int) =~= contents);
    } else if !shovel_able(grid[k]) {
        lemma_place_leaves_prefix(m, contents, g, grid, cx, cy, k + 1);
    } else {
        let wx = cx - 15 + k % 30;
        let wy = cy - 15 + (29 - k / 30);
        let p = pixel_at(m, wx, wy)->0;
        if open_space(p) {
            let c1 = contents.drop_last();
            lemma_place_leaves_prefix(with_pixel(m, wx, wy, contents.last()), c1, g.insert((wx, wy)), grid, cx, cy, k + 1);
            let r = (place_from(with_pixel(m, wx, wy, contents.last()), c1, g.insert((wx, wy)), grid, cx, cy, k + 1)->0).1;
            assert(c1.subrange(0, r.len() as int) =~= contents.subrange(0, r.len() as int));
        } else {
            lemma_place_leaves_prefix(m, contents, g, grid, cx, cy, k + 1);
        }
    }
}

proof fn lemma_with_pixel_cell_cases(m: Map<(int, int), Seq<u8>>, x: int, y: int, p: u8, c: (int, int), i: int)
    ensures
        cell_at(with_pixel(m, x, y, p), c, i) == cell_at(m, c, i)
            || (cell_at(with_pixel(m, x, y, p), c, i) == Some(p) && c == chunk_of(x, y) && i == local_index_of(x, y)
                && cell_at(m, c, i) is Some),
{
    crate::components::lemma_with_cell_shape(m, chunk_of(x, y), local_index_of(x, y), p);
}

/// Digging with the shovel only ever turns pixels into sky.
pub proof fn lemma_dig_only_makes_sky(
    m: Map<(int, int), Seq<u8>>,
    contents: Seq<u8>,
    g: Set<(int, int)>,
    cx: int,
    cy: int,
    k: int,
    c: (int, int),
    i: int,
)
    requires
        dig_from(m, contents, g, cx, cy, k) is Some,
        cell_at((dig_from(m, contents, g, cx, cy, k)->0).0, c, i) != cell_at(m, c, i),
    ensures
        cell_at((dig_from(m, contents, g, cx, cy, k)->0).0, c, i) == Some(SKY),
    decreases 900 - k,
{
    if k < 900 && k >= 0 {
        let x = cx - 15 + k % 30;
        let y = cy - 15 + k / 30;
        if !inside_rim(x - cx, y - cy) {
            lemma_dig_only_makes_sky(m, contents, g, cx, cy, k + 1, c, i);
        } else {
            let p = pixel_at(m, x, y)->0;
            if !shovel_able(p) {
                lemma_dig_only_makes_sky(m, contents, g, cx, cy, k + 1, c, i);
            } else {
                let m1 = with_pixel(m, x, y, SKY);
                let c1 = contents.push(p);
                let found = search_up_from(m1, x, y, 1)->0;
                let g1 = match found {
                    Some(y2) => g.insert((x, y2)),
                    None => g,
                };
                lemma_with_pixel_cell_cases(m, x, y, SKY, c, i);
                if c1.len() != MAX_SHOVEL_CAPACITY {
                    let r = (dig_from(m1, c1, g1, cx, cy, k + 1)->0).0;
                    if cell_at(r, c, i) != cell_at(m1, c, i) {
                        lemma_dig_only_makes_sky(m1, c1, g1, cx, cy, k + 1, c, i);
                    }
                }
            }
        }
    }
}

/// The shovel puts material only where there was open space.
pub proof fn lemma_place_only_fills_open_space(
    m: Map<(int, int), Seq<u8>>,
    contents: Seq<u8>,
    g: Set<(int, int)>,
    grid: Seq<u8>,
    cx: int,
    cy: int,
    k: int,
    c: (int, int),
    i: int,
)
    requires
        place_from(m, contents, g, grid, cx, cy, k) is Some,
        cell_at((place_from(m, contents, g, grid, cx, cy, k)->0).0, c, i) != cell_at(m, c, i),
    ensures
        cell_at(m, c, i) matches Some(p) && open_space(p),
    decreases 900 - k,
{
    if k < 900 && k >= 0 && contents.len() > 0 {
        if !shovel_able(grid[k]) {
            lemma_place_only_fills_open_space(m, contents, g, grid, cx, cy, k + 1, c, i);
        } else {
            let wx = cx - 15 + k % 30;
            let wy = cy - 15 + (29 - k / 30);
            let p = pixel_at(m, wx, wy)->0;
            if open_space(p) {
                let m1 = with_pixel(m, wx, wy, contents.last());
                lemma_with_pixel_cell_cases(m, wx, wy, contents.last(), c, i);
                let r = (place_from(m1, contents.drop_last(), g.insert((wx, wy)), grid, cx, cy, k + 1)->0).0;
                if cell_at(m1, c, i) == cell_at(m, c, i) {
                    lemma_place_only_fills_open_space(m1, contents.drop_last(), g.insert((wx, wy)), grid, cx, cy, k + 1, c, i);
                }
            } else {
                lemma_place_only_fills_open_space(m, contents, g, grid, cx, cy, k + 1, c, i);
            }
        }
    }
}

// ---------------------------------------------------------------------
// Whether the terrain a tool works on is loaded
// ---------------------------------------------------------------------

/// Every chunk a tool centred at (cx, cy) may read is loaded and full:
/// those holding the square around the cursor, and those the shovel's
/// upward search looks in (found by rounding towards zero) over the
/// square and the 199 rows above it.
pub open spec fn tool_area_ready(m: Map<(int, int), Seq<u8>>, cx: int, cy: int) -> bool {
    &&& forall|x: int, y: int| cx - 15 <= x < cx + 15 && cy - 15 <= y < cy + 15 ==>
        #[trigger] chunk_ready(m, chunk_of(x, y))
    &&& forall|x: int, y: int| cx - 15 <= x < cx + 15 && cy - 14 <= y < cy + 214 ==>
        #[trigger] chunk_ready(m, (trunc_div(x, 600), trunc_div(y, 600)))
}

/// Whether every chunk the tools may read around (cx, cy) is loaded and
/// full; when it is, no tool click there reads a missing chunk.
pub fn tool_area_loaded(chunk_map: &ChunkMap, cx: i32, cy: i32) -> (r: bool)
    requires
        tool_position_in_range(cx as int, cy as int),
    ensures
        r == tool_area_ready(chunk_map@, cx as int, cy as int),
{
    let mut x = cx - 15;
    while x < cx + 15
        invariant
            tool_position_in_range(cx as int, cy as int),
            cx - 15 <= x <= cx + 15,
            forall|x2: int, y2: int| cx - 15 <= x2 < x && cy - 15 <= y2 < cy + 15 ==>
                #[trigger] chunk_ready(chunk_map@, chunk_of(x2, y2)),
            forall|x2: int, y2: int| cx - 15 <= x2 < x && cy - 14 <= y2 < cy + 214 ==>
                #[trigger] chunk_ready(chunk_map@, (trunc_div(x2, 600), trunc_div(y2, 600))),
        decreases cx + 15 - x,
    {
        let mut y = cy - 15;
        while y < cy + 214
            invariant
                tool_position_in_range(cx as int, cy as int),
                cx - 15 <= x < cx + 15,
                cy - 15 <= y <= cy + 214,
                forall|x2: int, y2: int| cx - 15 <= x2 < x && cy - 15 <= y2 < cy + 15 ==>
                    #[trigger] chunk_ready(chunk_map@, chunk_of(x2, y2)),
                forall|x2: int, y2: int| cx - 15 <= x2 < x && cy - 14 <= y2 < cy + 214 ==>
                    #[trigger] chunk_ready(chunk_map@, (trunc_div(x2, 600), trunc_div(y2, 600))),
                forall|y2: int| cy - 15 <= y2 < y && y2 < cy + 15 ==>
                    #[trigger] chunk_ready(chunk_map@, chunk_of(x as int, y2)),
                forall|y2: int| cy - 14 <= y2 < y ==>
                    #[trigger] chunk_ready(chunk_map@, (trunc_div(x as int, 600), trunc_div(y2, 600))),
            decreases cy + 214 - y,
        {
            if y < cy + 15 {
                let own = chunk_map.get_cell(get_chunk_x_g(x), get_chunk_y_g(y), 359999);
                if own.is_none() {
                    assert(!chunk_ready(chunk_map@, chunk_of(x as int, y as int)));
                    return false;
                }
            }
            if y > cy - 15 {
                let searched = chunk_map.get_cell(x / 600, y / 600, 359999);
                if searched.is_none() {
                    assert(!chunk_ready(chunk_map@, (trunc_div(x as int, 600), trunc_div(y as int, 600))));
                    return false;
                }
            }
            y = y + 1;
        }
        x = x + 1;
    }
    true
}

proof fn lemma_search_ready(m: Map<(int, int), Seq<u8>>, x: int, y: int, lvl: int)
    requires
        1 <= lvl,
        forall|l: int| lvl <= l < 200 ==> #[trigger] chunk_ready(m, (trunc_div(x, 600), trunc_div(y + l, 600))),
    ensures
        search_up_from(m, x, y, lvl) is Some,
    decreases 200 - lvl,
{
    if lvl < 200 {
        assert(chunk_ready(m, (trunc_div(x, 600), trunc_div(y + lvl, 600))));
        crate::components::lemma_local_index_bounds(x, y + lvl);
        lemma_search_ready(m, x, y, lvl + 1);
    }
}

proof fn lemma_area_ready_after_write(m: Map<(int, int), Seq<u8>>, cx: int, cy: int, x: int, y: int, p: u8)
    requires
        tool_area_ready(m, cx, cy),
    ensures
        tool_area_ready(with_pixel(m, x, y, p), cx, cy),
{
    let m1 = with_pixel(m, x, y, p);
    assert forall|x2: int, y2: int| cx - 15 <= x2 < cx + 15 && cy - 15 <= y2 < cy + 15 implies
        #[trigger] chunk_ready(m1, chunk_of(x2, y2)) by {
        crate::components::lemma_with_pixel_keeps_ready(m, x, y, p, chunk_of(x2, y2));
    }
    assert forall|x2: int, y2: int| cx - 15 <= x2 < cx + 15 && cy - 14 <= y2 < cy + 214 implies
        #[trigger] chunk_ready(m1, (trunc_div(x2, 600), trunc_div(y2, 600))) by {
        crate::components::lemma_with_pixel_keeps_ready(m, x, y, p, (trunc_div(x2, 600), trunc_div(y2, 600)));
    }
}

/// Where the tool area is loaded, a left click with the shovel reads no
/// missing chunk.
pub proof fn lemma_dig_defined_when_loaded(
    m: Map<(int, int), Seq<u8>>,
    contents: Seq<u8>,
    g: Set<(int, int)>,
    cx: int,
    cy: int,
    k: int,
)
    requires
        tool_area_ready(m, cx, cy),
        0 <= k,
    ensures
        dig_from(m, contents, g, cx, cy, k) is Some,
    decreases 900 - k,
{
    if k < 900 {
        let x = cx - 15 + k % 30;
        let y = cy - 15 + k / 30;
        assert(cx - 15 <= x < cx + 15 && cy - 15 <= y < cy + 15);
        if !inside_rim(x - cx, y - cy) {
            lemma_dig_defined_when_loaded(m, contents, g, cx, cy, k + 1);
        } else {
            assert(chunk_ready(m, chunk_of(x, y)));
            crate::components::lemma_local_index_bounds(x, y);
            let p = pixel_at(m, x, y)->0;
            if !shovel_able(p) {
                lemma_dig_defined_when_loaded(m, contents, g, cx, cy, k + 1);
            } else {
                let m1 = with_pixel(m, x, y, SKY);
                lemma_area_ready_after_write(m, cx, cy, x, y, SKY);
                assert forall|l: int| 1 <= l < 200 implies #[trigger] chunk_ready(m1, (trunc_div(x, 600), trunc_div(y + l, 600))) by {
                    assert(cx - 15 <= x < cx + 15 && cy - 14 <= y + l < cy + 214);
                }
                lemma_search_ready(m1, x, y, 1);
                let c1 = contents.push(p);
                let found = search_up_from(m1, x, y, 1)->0;
                let g1 = match found {
                    Some(y2) => g.insert((x, y2)),
                    None => g,
                };
                lemma_dig_defined_when_loaded(m1, c1, g1, cx, cy, k + 1);
            }
        }
    }
}

/// Where the tool area is loaded and the shovel image is whole, a right
/// click with the shovel reads no missing chunk.
pub proof fn lemma_place_defined_when_loaded(
    m: Map<(int, int), Seq<u8>>,
    contents: Seq<u8>,
    g: Set<(int, int)>,
    grid: Seq<u8>,
    cx: int,
    cy: int,
    k: int,
)
    requires
        tool_area_ready(m, cx, cy),
        grid.len() >= 900,
        0 <= k,
    ensures
        place_from(m, contents, g, grid, cx, cy, k) is Some,
    decreases 900 - k,
{
    if k < 900 && contents.len() > 0 && shovel_able(grid[k]) {
        let wx = cx - 15 + k % 30;
        let wy = cy - 15 + (29 - k / 30);
        assert(cx - 15 <= wx < cx + 15 && cy - 15 <= wy < cy + 15);
        assert(chunk_ready(m, chunk_of(wx, wy)));
        crate::components::lemma_local_index_bounds(wx, wy);
        let p = pixel_at(m, wx, wy)->0;
        if open_space(p) {
            lemma_area_ready_after_write(m, cx, cy, wx, wy, contents.last());
            lemma_place_defined_when_loaded(with_pixel(m, wx, wy, contents.last()), contents.drop_last(),
                g.insert((wx, wy)), grid, cx, cy, k + 1);
        } else {
            lemma_place_defined_when_loaded(m, contents, g, grid, cx, cy, k + 1);
        }
    } else if k < 900 && contents.len() > 0 {
        lemma_place_defined_when_loaded(m, contents, g, grid, cx, cy, k + 1);
    }
}

/// Where the tool area is loaded, every pixel inside the cursor's rim
/// can be read, as a left click with the pickaxe needs.
pub proof fn lemma_rim_pixels_present_when_loaded(m: Map<(int, int), Seq<u8>>, cx: int, cy: int)
    requires
        tool_area_ready(m, cx, cy),
    ensures
        forall|x: int, y: int| inside_rim(x - cx, y - cy) ==> (#[trigger] pixel_at(m, x, y)) is Some,
{
    assert forall|x: int, y: int| inside_rim(x - cx, y - cy) implies (#[trigger] pixel_at(m, x, y)) is Some by {
        lemma_inside_rim_bounds(x - cx, y - cy);
        assert(chunk_ready(m, chunk_of(x, y)));
        crate::components::lemma_local_index_bounds(x, y);
    }
}

/// Step of the shovel's visit (rows bottom up, each row left to right) at
/// which world pixel (x, y) of the square around (cx, cy) is reached.
pub open spec fn visit_index(cx: int, cy: int, x: int, y: int) -> int {
    (y - (cy - 15)) * 30 + (x - (cx - 15))
}

/// World pixel (x, y) is present and holds nothing the shovel could take.
pub open spec fn dug_clear(m: Map<(int, int), Seq<u8>>, x: int, y: int) -> bool {
    match pixel_at(m, x, y) {
        Some(p) => !shovel_able(p),
        None => false,
    }
}

proof fn lemma_visit_index_of_rim(cx: int, cy: int, x: int, y: int)
    requires
        inside_rim(x - cx, y - cy),
    ensures
        0 <= visit_index(cx, cy, x, y) < 900,
        visit_index(cx, cy, x, y) % 30 == x - (cx - 15),
        visit_index(cx, cy, x, y) / 30 == y - (cy - 15),
{
    lemma_inside_rim_bounds(x - cx, y - cy);
    lemma_fundamental_div_mod_converse(visit_index(cx, cy, x, y), 30, y - (cy - 15), x - (cx - 15));
}

proof fn lemma_dig_clears_rim_from(
    m: Map<(int, int), Seq<u8>>,
    contents: Seq<u8>,
    g: Set<(int, int)>,
    cx: int,
    cy: int,
    k: int,
)
    requires
        0 <= k <= 900,
        dig_from(m, contents, g, cx, cy, k) is Some,
        !(dig_from(m, contents, g, cx, cy, k)->0).3,
        forall|x: int, y: int| inside_rim(x - cx, y - cy) && visit_index(cx, cy, x, y) < k ==> #[trigger] dug_clear(m, x, y),
    ensures
        forall|x: int, y: int| inside_rim(x - cx, y - cy) ==> #[trigger] dug_clear((dig_from(m, contents, g, cx, cy, k)->0).0, x, y),
    decreases 900 - k,
{
    let r = dig_from(m, contents, g, cx, cy, k)->0;
    if k == 900 {
        assert forall|x: int, y: int| inside_rim(x - cx, y - cy) implies #[trigger] dug_clear(r.0, x, y) by {
            lemma_visit_index_of_rim(cx, cy, x, y);
        }
    } else {
        let x = cx - 15 + k % 30;
        let y = cy - 15 + k / 30;
        assert(visit_index(cx, cy, x, y) == k) by {
            vstd::arithmetic::div_mod::lemma_fundamental_div_mod(k, 30);
        }
        if !inside_rim(x - cx, y - cy) {
            assert forall|x2: int, y2: int| inside_rim(x2 - cx, y2 - cy) && visit_index(cx, cy, x2, y2) < k + 1
                implies #[trigger] dug_clear(m, x2, y2) by {
                if visit_index(cx, cy, x2, y2) == k {
                    lemma_visit_index_of_rim(cx, cy, x2, y2);
                }
            }
            lemma_dig_clears_rim_from(m, contents, g, cx, cy, k + 1);
        } else {
            let p = pixel_at(m, x, y)->0;
            if !shovel_able(p) {
                assert forall|x2: int, y2: int| inside_rim(x2 - cx, y2 - cy) && visit_index(cx, cy, x2, y2) < k + 1
                    implies #[trigger] dug_clear(m, x2, y2) by {
                    if visit_index(cx, cy, x2, y2) == k {
                        lemma_visit_index_of_rim(cx, cy, x2, y2);
                    }
                }
                lemma_dig_clears_rim_from(m, contents, g, cx, cy, k + 1);
            } else {
                let m1 = with_pixel(m, x, y, SKY);
                let c1 = contents.push(p);
                let found = search_up_from(m1, x, y, 1)->0;
                let g1 = match found {
                    Some(y2) => g.insert((x, y2)),
                    None => g,
                };
                assert(c1.len() != MAX_SHOVEL_CAPACITY);
                lemma_with_pixel_same(m, x, y, SKY);
                assert forall|x2: int, y2: int| inside_rim(x2 - cx, y2 - cy) && visit_index(cx, cy, x2, y2) < k + 1
                    implies #[trigger] dug_clear(m1, x2, y2) by {
                    if visit_index(cx, cy, x2, y2) == k {
                        lemma_visit_index_of_rim(cx, cy, x2, y2);
                    } else {
                        lemma_with_pixel_other(m, x, y, SKY, x2, y2);
                        assert(dug_clear(m, x2, y2));
                    }
                }
                lemma_dig_clears_rim_from(m1, c1, g1, cx, cy, k + 1);
            }
        }
    }
}

/// A shovel dig that ends without filling the shovel leaves nothing the
/// shovel could take inside the cursor's rim: every pixel there is
/// present and holds no shovel-able material. A dig that ends by filling
/// the shovel ends with exactly MAX_SHOVEL_CAPACITY pixels in the load.
pub proof fn lemma_dig_clears_rim(
    m: Map<(int, int), Seq<u8>>,
    contents: Seq<u8>,
    g: Set<(int, int)>,
    cx: int,
    cy: int,
)
    requires
        dig_from(m, contents, g, cx, cy, 0) is Some,
    ensures
        !(dig_from(m, contents, g, cx, cy, 0)->0).3 ==>
            forall|x: int, y: int| inside_rim(x - cx, y - cy) ==> #[trigger] dug_clear((dig_from(m, contents, g, cx, cy, 0)->0).0, x, y),
        (dig_from(m, contents, g, cx, cy, 0)->0).3 ==>
            (dig_from(m, contents, g, cx, cy, 0)->0).1.len() == MAX_SHOVEL_CAPACITY,
{
    if !(dig_from(m, contents, g, cx, cy, 0)->0).3 {
        assert forall|x: int, y: int| inside_rim(x - cx, y - cy) && visit_index(cx, cy, x, y) < 0
            implies #[trigger] dug_clear(m, x, y) by {
            lemma_visit_index_of_rim(cx, cy, x, y);
        }
        lemma_dig_clears_rim_from(m, contents, g, cx, cy, 0);
    } else {
        lemma_dig_full_flag(m, contents, g, cx, cy, 0);
    }
}

proof fn lemma_dig_full_flag(
    m: Map<(int, int), Seq<u8>>,
    contents: Seq<u8>,
    g: Set<(int, int)>,
    cx: int,
    cy: int,
    k: int,
)
    requires
        dig_from(m, contents, g, cx, cy, k) is Some,
        (dig_from(m, contents, g, cx, cy, k)->0).3,
    ensures
        (dig_from(m, contents, g, cx, cy, k)->0).1.len() == MAX_SHOVEL_CAPACITY,
    decreases 900 - k,
{
    if 0 <= k < 900 {
        let x = cx - 15 + k % 30;
        let y = cy - 15 + k / 30;
        if !inside_rim(x - cx, y - cy) {
            lemma_dig_full_flag(m, contents, g, cx, cy, k + 1);
        } else {
            let p = pixel_at(m, x, y)->0;
            if !shovel_able(p) {
                lemma_dig_full_flag(m, contents, g, cx, cy, k + 1);
            } else {
                let m1 = with_pixel(m, x, y, SKY);
                let c1 = contents.push(p);
                let found = search_up_from(m1, x, y, 1)->0;
                let g1 = match found {
                    Some(y2) => g.insert((x, y2)),
                    None => g,
                };
                if c1.len() != MAX_SHOVEL_CAPACITY {
                    lemma_dig_full_flag(m1, c1, g1, cx, cy, k + 1);
                }
            }
        }
    }
}

/// The shovel-able material inside the cursor's rim around (cx, cy), from
/// step k of the visit on (rows bottom up, each row left to right).
pub open spec fn rim_material_from(m: Map<(int, int), Seq<u8>>, cx: int, cy: int, k: int) -> Seq<u8>
    decreases 900 - k,
{
    if k >= 900 || k < 0 {
        Seq::empty()
    } else {
        let x = cx - 15 + k % 30;
        let y = cy - 15 + k / 30;
        let rest = rim_material_from(m, cx, cy, k + 1);
        match pixel_at(m, x, y) {
            Some(p) => if inside_rim(x - cx, y - cy) && shovel_able(p) {
                seq![p] + rest
            } else {
                rest
            },
            None => rest,
        }
    }
}

proof fn lemma_rim_material_frame(m: Map<(int, int), Seq<u8>>, m1: Map<(int, int), Seq<u8>>, cx: int, cy: int, k: int)
    requires
        forall|j: int| k <= j < 900 ==> #[trigger] pixel_at(m1, cx - 15 + j % 30, cy - 15 + j / 30)
            == pixel_at(m, cx - 15 + j % 30, cy - 15 + j / 30),
    ensures
        rim_material_from(m1, cx, cy, k) == rim_material_from(m, cx, cy, k),
    decreases 900 - k,
{
    if 0 <= k < 900 {
        assert(pixel_at(m1, cx - 15 + k % 30, cy - 15 + k / 30) == pixel_at(m, cx - 15 + k % 30, cy - 15 + k / 30));
        lemma_rim_material_frame(m, m1, cx, cy, k + 1);
    }
}

/// What a shovel dig puts into the load: the shovel-able material inside
/// the cursor's rim, in the order the dig reaches it, appended to what the
/// shovel held, up to its capacity. A dig that does not fill the shovel
/// takes all of it.
pub proof fn lemma_dig_load_is_rim_material(
    m: Map<(int, int), Seq<u8>>,
    contents: Seq<u8>,
    g: Set<(int, int)>,
    cx: int,
    cy: int,
    k: int,
)
    requires
        dig_from(m, contents, g, cx, cy, k) is Some,
    ensures
        (dig_from(m, contents, g, cx, cy, k)->0).1
            == (contents + rim_material_from(m, cx, cy, k)).take((dig_from(m, contents, g, cx, cy, k)->0).1.len() as int),
        !(dig_from(m, contents, g, cx, cy, k)->0).3 ==>
            (dig_from(m, contents, g, cx, cy, k)->0).1 == contents + rim_material_from(m, cx, cy, k),
    decreases 900 - k,
{
    let r = dig_from(m, contents, g, cx, cy, k)->0;
    if k >= 900 || k < 0 {
        assert(contents + rim_material_from(m, cx, cy, k) =~= contents);
        assert(contents.take(contents.len() as int) =~= contents);
    } else {
        let x = cx - 15 + k % 30;
        let y = cy - 15 + k / 30;
        let rest = rim_material_from(m, cx, cy, k + 1);
        if !inside_rim(x - cx, y - cy) {
            lemma_dig_load_is_rim_material(m, contents, g, cx, cy, k + 1);
        } else {
            let p = pixel_at(m, x, y)->0;
            if !shovel_able(p) {
                lemma_dig_load_is_rim_material(m, contents, g, cx, cy, k + 1);
            } else {
                let m1 = with_pixel(m, x, y, SKY);
                let c1 = contents.push(p);
                let found = search_up_from(m1, x, y, 1)->0;
                let g1 = match found {
                    Some(y2) => g.insert((x, y2)),
                    None => g,
                };
                assert(contents + (seq![p] + rest) =~= c1 + rest);
                if c1.len() == MAX_SHOVEL_CAPACITY {
                    assert((c1 + rest).take(c1.len() as int) =~= c1);
                } else {
                    assert forall|j: int| k + 1 <= j < 900 implies #[trigger] pixel_at(m1, cx - 15 + j % 30, cy - 15 + j / 30)
                        == pixel_at(m, cx - 15 + j % 30, cy - 15 + j / 30) by {
                        vstd::arithmetic::div_mod::lemma_fundamental_div_mod(j, 30);
                        vstd::arithmetic::div_mod::lemma_fundamental_div_mod(k, 30);
                        lemma_with_pixel_other(m, x, y, SKY, cx - 15 + j % 30, cy - 15 + j / 30);
                    }
                    lemma_rim_material_frame(m, m1, cx, cy, k + 1);
                    lemma_dig_load_is_rim_material(m1, c1, g1, cx, cy, k + 1);
                }
            }
        }
    }
}

} // verus!
