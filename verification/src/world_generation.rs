//! The world's rules over time: gravity on loose material, selling at the
//! sell box, placing the sell box, and laying out the first terrain.
use vstd::prelude::*;
use crate::color_map::{
    SKY, LIGHT, ROCK, REFINED_COPPER, SELL_BOX, gravity_affected, open_space, is_gravity_affected,
    is_open_space, passable, is_passable, ground, is_ground, sell_value_cents, sell_value_cents_spec,
};
use crate::components::{ChunkMap, GravityCoords, pixel_at, with_pixel, cell_at, chunk_of, lemma_with_pixel_same, lemma_with_pixel_other, lemma_with_cell_shape, is_i32_pair};
use crate::util::{local_index_of, get_global_y_coordinate};
use crate::chunk_generator::row_height;
use crate::color_map::{dirt_variant, dirt_variant_pmf, lemma_dirt_choices, DIRT1, DIRT2, DIRT3};
use crate::constants::{SELL_BOX_WIDTH, SELL_BOX_HEIGHT, CHUNKS_HORIZONTAL, CHUNK_SIZE};
use crate::util::{coord_in_range, in_coord_range};

verus! {

/// Tag of the camera entity.
pub struct CameraTag;

/// Material that stops a falling column from sliding further down.
pub open spec fn stops_fall(p: u8) -> bool {
    p == SKY || p == REFINED_COPPER || p == ROCK || p == LIGHT
}

/// Material that ends a column being fed into the sell box.
pub open spec fn stops_sale(p: u8) -> bool {
    p == SKY || p == REFINED_COPPER
}

/// The column above world pixel (x, y) slides down by one pixel, from
/// (x, y + 1) upwards, until a pixel that stops falling; each moved pixel
/// leaves sky behind. None where the slide reads a missing chunk or runs
/// off the i32 coordinates.
pub open spec fn fall_from(m: Map<(int, int), Seq<u8>>, x: int, y: int) -> Option<Map<(int, int), Seq<u8>>>
    decreases i32::MAX - y,
{
    if !coord_in_range(x, y + 1) || !coord_in_range(x, y) {
        None
    } else {
        match pixel_at(m, x, y + 1) {
            None => None,
            Some(a) => if stops_fall(a) {
                Some(m)
            } else if pixel_at(m, x, y) is None {
                None
            } else {
                fall_from(with_pixel(with_pixel(m, x, y, a), x, y + 1, SKY), x, y + 1)
            },
        }
    }
}

/// The column above world pixel (x, y) is fed into the sell box: from
/// (x, y + 1) upwards every pixel is sold (appended to `sold`) and becomes
/// sky, until sky or refined copper.
pub open spec fn sell_from(m: Map<(int, int), Seq<u8>>, x: int, y: int, sold: Seq<u8>) -> Option<(Map<(int, int), Seq<u8>>, Seq<u8>)>
    decreases i32::MAX - y,
{
    if !coord_in_range(x, y + 1) || !coord_in_range(x, y) {
        None
    } else {
        match pixel_at(m, x, y + 1) {
            None => None,
            Some(a) => if stops_sale(a) {
                Some((m, sold))
            } else {
                sell_from(with_pixel(m, x, y + 1, SKY), x, y + 1, sold.push(a))
            },
        }
    }
}

/// Gravity at world pixel (x, y): loose material over open space slides
/// down with the column above it, loose material over the sell box is sold
/// with the column above it; in both cases the pixel below is remembered
/// for the next tick.
pub open spec fn gravity_step(
    m: Map<(int, int), Seq<u8>>,
    x: int,
    y: int,
    next: Set<(int, int)>,
    sold: Seq<u8>,
) -> Option<(Map<(int, int), Seq<u8>>, Set<(int, int)>, Seq<u8>)> {
    if !coord_in_range(x, y) {
        None
    } else {
        match pixel_at(m, x, y) {
            None => None,
            Some(p) => if !gravity_affected(p) {
                Some((m, next, sold))
            } else if !coord_in_range(x, y - 1) {
                None
            } else {
                match pixel_at(m, x, y - 1) {
                    None => None,
                    Some(b) => if open_space(b) {
                        match fall_from(m, x, y - 1) {
                            None => None,
                            Some(m2) => Some((m2, next.insert((x, y - 1)), sold)),
                        }
                    } else if b == SELL_BOX {
                        match sell_from(m, x, y - 1, sold) {
                            None => None,
                            Some(r) => Some((r.0, next.insert((x, y - 1)), r.1)),
                        }
                    } else {
                        Some((m, next, sold))
                    },
                }
            },
        }
    }
}

/// Gravity applied at each pixel of `coords` in turn.
pub open spec fn gravity_fold(
    m: Map<(int, int), Seq<u8>>,
    coords: Seq<(int, int)>,
    next: Set<(int, int)>,
    sold: Seq<u8>,
) -> Option<(Map<(int, int), Seq<u8>>, Set<(int, int)>, Seq<u8>)>
    decreases coords.len(),
{
    if coords.len() == 0 {
        Some((m, next, sold))
    } else {
        match gravity_step(m, coords[0].0, coords[0].1, next, sold) {
            None => None,
            Some(r) => gravity_fold(r.0, coords.drop_first(), r.1, r.2),
        }
    }
}

/// `s` lists each element of `set` exactly once, in some order.
pub open spec fn enumerates(s: Seq<(int, int)>, set: Set<(int, int)>) -> bool {
    &&& s.no_duplicates()
    &&& forall|c: (int, int)| set.contains(c) <==> s.contains(c)
}

fn fall_column(chunk_map: &mut ChunkMap, x: i32, y: i32) -> (done: bool)
    ensures
        done == fall_from(old(chunk_map)@, x as int, y as int) is Some,
        done ==> final(chunk_map)@ == fall_from(old(chunk_map)@, x as int, y as int)->0,
{
    let ghost r = fall_from(chunk_map@, x as int, y as int);
    let mut looking_at_y = y;
    loop
        invariant
            fall_from(chunk_map@, x as int, looking_at_y as int) == r,
            r == fall_from(old(chunk_map)@, x as int, y as int),
        ensures
            r is Some,
            chunk_map@ == r->0,
        decreases i32::MAX - looking_at_y,
    {
        if !in_coord_range(x, looking_at_y) || !in_coord_range(x, looking_at_y + 1) {
            return false;
        }
        let above = match chunk_map.pixel(x, looking_at_y + 1) {
            Some(p) => p,
            None => return false,
        };
        if above == SKY || above == REFINED_COPPER || above == ROCK || above == LIGHT {
            break;
        }
        if chunk_map.pixel(x, looking_at_y).is_none() {
            return false;
        }
        chunk_map.set_pixel(x, looking_at_y, above);
        chunk_map.set_pixel(x, looking_at_y + 1, SKY);
        looking_at_y = looking_at_y + 1;
    }
    true
}

fn sell_column(chunk_map: &mut ChunkMap, x: i32, y: i32, sold: &mut Vec<u8>) -> (done: bool)
    ensures
        done == sell_from(old(chunk_map)@, x as int, y as int, old(sold)@) is Some,
        done ==> (final(chunk_map)@, final(sold)@) == sell_from(old(chunk_map)@, x as int, y as int, old(sold)@)->0,
{
    let ghost r = sell_from(chunk_map@, x as int, y as int, sold@);
    let mut looking_at_y = y;
    loop
        invariant
            sell_from(chunk_map@, x as int, looking_at_y as int, sold@) == r,
            r == sell_from(old(chunk_map)@, x as int, y as int, old(sold)@),
        ensures
            r is Some,
            (chunk_map@, sold@) == r->0,
        decreases i32::MAX - looking_at_y,
    {
        if !in_coord_range(x, looking_at_y) || !in_coord_range(x, looking_at_y + 1) {
            return false;
        }
        let above = match chunk_map.pixel(x, looking_at_y + 1) {
            Some(p) => p,
            None => return false,
        };
        if above == SKY || above == REFINED_COPPER {
            break;
        }
        sold.push(above);
        chunk_map.set_pixel(x, looking_at_y + 1, SKY);
        looking_at_y = looking_at_y + 1;
    }
    true
}

fn gravity_at(chunk_map: &mut ChunkMap, x: i32, y: i32, next: &mut GravityCoords, sold: &mut Vec<u8>) -> (done: bool)
    ensures
        done == gravity_step(old(chunk_map)@, x as int, y as int, old(next)@, old(sold)@) is Some,
        done ==> (final(chunk_map)@, final(next)@, final(sold)@)
            == gravity_step(old(chunk_map)@, x as int, y as int, old(next)@, old(sold)@)->0,
{
    if !in_coord_range(x, y) {
        return false;
    }
    let p = match chunk_map.pixel(x, y) {
        Some(p) => p,
        None => return false,
    };
    if is_gravity_affected(p) {
        if !in_coord_range(x, y - 1) {
            return false;
        }
        let below = match chunk_map.pixel(x, y - 1) {
            Some(b) => b,
            None => return false,
        };
        if is_open_space(below) {
            let looking_at_y = y - 1;
            next.insert(x, looking_at_y);
            return fall_column(chunk_map, x, looking_at_y);
        } else if below == SELL_BOX {
            let looking_at_y = y - 1;
            next.insert(x, looking_at_y);
            return sell_column(chunk_map, x, looking_at_y, sold);
        }
    }
    true
}

/// The outcome of one gravity tick that visits the remembered pixels in
/// the order `s`: the terrain, the new remembered set and the material
/// sold, or None where the tick reads a missing chunk or leaves the i32
/// coordinates.
pub open spec fn gravity_outcome(m: Map<(int, int), Seq<u8>>, s: Seq<(int, int)>)
    -> Option<(Map<(int, int), Seq<u8>>, Set<(int, int)>, Seq<u8>)>
{
    gravity_fold(m, s, Set::empty(), Seq::empty())
}

/// One gravity tick. Each remembered pixel is visited once, in the order
/// the set yields them; loose material over open space slides down with
/// the column above it, loose material over the sell box is sold with the
/// column above it. The remembered set becomes the pixels just below the
/// columns that moved. Returns the material sold, in the order it was sold,
/// or None where the tick reads a missing chunk or leaves the i32
/// coordinates; the terrain and the set are then left as far as the tick
/// had come.
pub fn gravity_tick(gravity_coords: &mut GravityCoords, chunk_map: &mut ChunkMap) -> (sold: Option<Vec<u8>>)
    ensures
        exists|s: Seq<(int, int)>| enumerates(s, old(gravity_coords)@) && {
            let r = #[trigger] gravity_outcome(old(chunk_map)@, s);
            &&& sold is Some <==> r is Some
            &&& sold is Some ==> final(chunk_map)@ == (r->0).0
            &&& sold is Some ==> final(gravity_coords)@ == (r->0).1
            &&& sold is Some ==> sold->0@ == (r->0).2
        },
{
    let coords = gravity_coords.to_vec();
    let ghost s = coords@.map_values(|p: (i32, i32)| (p.0 as int, p.1 as int));
    proof {
        assert forall|i: int, j: int| 0 <= i < s.len() && 0 <= j < s.len() && i != j implies s[i] != s[j] by {
            assert(coords@[i] != coords@[j]);
        }
        assert forall|c: (int, int)| gravity_coords@.contains(c) <==> s.contains(c) by {
            if gravity_coords@.contains(c) {
                let i = choose|i: int| 0 <= i < coords@.len() && coords@[i].0 == c.0 && coords@[i].1 == c.1;
                assert(s[i] == c);
            }
            if s.contains(c) {
                let i = choose|i: int| 0 <= i < s.len() && s[i] == c;
                assert(coords@[i].0 == c.0 && coords@[i].1 == c.1);
            }
        }
        assert(enumerates(s, gravity_coords@));
    }
    let ghost g0 = gravity_coords@;
    let ghost r = gravity_outcome(chunk_map@, s);
    let mut next = GravityCoords::new();
    let mut sold: Vec<u8> = Vec::new();
    let mut i: usize = 0;
    assert(s.skip(0) =~= s);
    assert(sold@ =~= Seq::<u8>::empty());
    while i < coords.len()
        invariant
            s == coords@.map_values(|p: (i32, i32)| (p.0 as int, p.1 as int)),
            enumerates(s, g0),
            g0 == old(gravity_coords)@,
            r == gravity_outcome(old(chunk_map)@, s),
            i <= coords@.len(),
            gravity_fold(chunk_map@, s.skip(i as int), next@, sold@) == r,
        decreases coords.len() - i,
    {
        let (x, y) = coords[i];
        proof {
            assert(s.skip(i as int)[0] == (x as int, y as int));
            assert(s.skip(i as int).drop_first() =~= s.skip(i + 1));
        }
        if !gravity_at(chunk_map, x, y, &mut next, &mut sold) {
            return None;
        }
        i = i + 1;
    }
    proof {
        assert(s.skip(coords@.len() as int) =~= Seq::<(int, int)>::empty());
    }
    *gravity_coords = next;
    Some(sold)
}

/// What the material in `sold` fetches at the sell box, in hundredths of
/// a dollar.
pub open spec fn sold_value(sold: Seq<u8>) -> int
    decreases sold.len(),
{
    if sold.len() == 0 {
        0
    } else {
        sold_value(sold.drop_last()) + sell_value_cents_spec(sold.last()) as int
    }
}

proof fn lemma_sold_value_bounds(sold: Seq<u8>)
    ensures
        0 <= sold_value(sold) <= 100 * sold.len(),
    decreases sold.len(),
{
    if sold.len() > 0 {
        lemma_sold_value_bounds(sold.drop_last());
    }
}

/// What the material sold in one gravity tick fetches, in hundredths of a
/// dollar.
pub fn sold_value_cents(sold: &Vec<u8>) -> (cents: u64)
    requires
        sold@.len() <= u64::MAX / 100,
    ensures
        cents == sold_value(sold@),
{
    let mut total: u64 = 0;
    let mut i: usize = 0;
    while i < sold.len()
        invariant
            i <= sold@.len(),
            sold@.len() <= u64::MAX / 100,
            total == sold_value(sold@.take(i as int)),
        decreases sold@.len() - i,
    {
        proof {
            lemma_sold_value_bounds(sold@.take(i as int));
            assert(sold@.take(i + 1).drop_last() =~= sold@.take(i as int));
        }
        total = total + sell_value_cents(sold[i]) as u64;
        i = i + 1;
    }
    assert(sold@.take(sold@.len() as int) =~= sold@);
    total
}

/// Selling never takes money away: whatever is sold, the money held
/// afterwards is at least what was held before.
pub proof fn lemma_sale_never_lowers_money(money: int, sold: Seq<u8>)
    ensures
        money + sold_value(sold) >= money,
{
    lemma_sold_value_bounds(sold);
}

/// Selling in two goes fetches as much as selling all at once.
pub proof fn lemma_sold_value_append(a: Seq<u8>, b: Seq<u8>)
    ensures
        sold_value(a + b) == sold_value(a) + sold_value(b),
    decreases b.len(),
{
    if b.len() == 0 {
        assert(a + b =~= a);
    } else {
        lemma_sold_value_append(a, b.drop_last());
        assert((a + b).drop_last() =~= a + b.drop_last());
    }
}

// ---------------------------------------------------------------------
// Entities standing on the terrain
// ---------------------------------------------------------------------

/// Whether an entity whose bottom edge is the row just above world row y,
/// spanning columns from x_from up to (not including) x_to, has nothing but
/// passable material beneath it: Some(true) when every pixel of row y in
/// that span is passable, Some(false) at the first that is not, None where
/// a missing chunk is read before that.
pub open spec fn floor_free(m: Map<(int, int), Seq<u8>>, x_from: int, x_to: int, y: int) -> Option<bool>
    decreases x_to - x_from,
{
    if x_from >= x_to {
        Some(true)
    } else {
        match pixel_at(m, x_from, y) {
            None => None,
            Some(p) => if passable(p) {
                floor_free(m, x_from + 1, x_to, y)
            } else {
                Some(false)
            },
        }
    }
}

/// World pixel (x, y) is present and something an entity can move through.
pub open spec fn passable_at(m: Map<(int, int), Seq<u8>>, x: int, y: int) -> bool {
    match pixel_at(m, x, y) {
        Some(p) => passable(p),
        None => false,
    }
}

/// World pixel (x, y) is present and solid: neither sky, sell box nor light.
pub open spec fn blocked_at(m: Map<(int, int), Seq<u8>>, x: int, y: int) -> bool {
    match pixel_at(m, x, y) {
        Some(p) => !passable(p),
        None => false,
    }
}

/// A floor is free exactly when nothing solid lies in it: Some(true)
/// means every pixel of row y from x_from up to x_to is present and
/// passable; Some(false) means one of them is solid; and a solid pixel
/// reached with every pixel before it present makes the floor not free.
pub proof fn lemma_floor_free_law(m: Map<(int, int), Seq<u8>>, x_from: int, x_to: int, y: int)
    ensures
        floor_free(m, x_from, x_to, y) == Some(true) ==>
            forall|x: int| x_from <= x < x_to ==> #[trigger] passable_at(m, x, y),
        floor_free(m, x_from, x_to, y) == Some(false) ==>
            exists|x: int| x_from <= x < x_to && #[trigger] blocked_at(m, x, y),
        forall|x: int| x_from <= x < x_to && #[trigger] blocked_at(m, x, y)
            && (forall|x2: int| x_from <= x2 < x ==> (#[trigger] pixel_at(m, x2, y)) is Some)
            ==> floor_free(m, x_from, x_to, y) == Some(false),
    decreases x_to - x_from,
{
    if x_from < x_to {
        lemma_floor_free_law(m, x_from + 1, x_to, y);
        assert forall|x: int| x_from <= x < x_to && #[trigger] blocked_at(m, x, y)
            && (forall|x2: int| x_from <= x2 < x ==> (#[trigger] pixel_at(m, x2, y)) is Some)
            implies floor_free(m, x_from, x_to, y) == Some(false) by {
            if x > x_from {
                assert(pixel_at(m, x_from, y) is Some);
                assert(forall|x2: int| x_from + 1 <= x2 < x ==> (#[trigger] pixel_at(m, x2, y)) is Some);
            }
        }
        if floor_free(m, x_from, x_to, y) == Some(false) && blocked_at(m, x_from, y) {
            assert(x_from <= x_from < x_to && blocked_at(m, x_from, y));
        }
    }
}

/// Whether gravity pulls on an entity whose feet rest on world row
/// `foot_y`, spanning columns `x_from` up to (not including) `x_to`:
/// true exactly when every pixel of that row in that span is sky, sell box
/// or light. None where a missing chunk is read before the answer is known.
pub fn does_gravity_apply_to_entity(x_from: i32, x_to: i32, foot_y: i32, chunk_map: &ChunkMap) -> (r: Option<bool>)
    requires
        forall|x: int| x_from <= x < x_to ==> coord_in_range(x, foot_y as int),
    ensures
        r == floor_free(chunk_map@, x_from as int, x_to as int, foot_y as int),
        r == Some(true) ==> forall|x: int| x_from <= x < x_to ==> #[trigger] passable_at(chunk_map@, x, foot_y as int),
        r == Some(false) ==> exists|x: int| x_from <= x < x_to && #[trigger] blocked_at(chunk_map@, x, foot_y as int),
        forall|x: int| x_from <= x < x_to && #[trigger] blocked_at(chunk_map@, x, foot_y as int)
            && (forall|x2: int| x_from <= x2 < x ==> (#[trigger] pixel_at(chunk_map@, x2, foot_y as int)) is Some)
            ==> r == Some(false),
{
    proof {
        lemma_floor_free_law(chunk_map@, x_from as int, x_to as int, foot_y as int);
    }
    let mut x = x_from;
    while x < x_to
        invariant
            x_from <= x || x >= x_to,
            forall|x2: int| x_from <= x2 < x_to ==> coord_in_range(x2, foot_y as int),
            floor_free(chunk_map@, x as int, x_to as int, foot_y as int)
                == floor_free(chunk_map@, x_from as int, x_to as int, foot_y as int),
        decreases x_to - x,
    {
        proof {
            lemma_floor_free_law(chunk_map@, x_from as int, x_to as int, foot_y as int);
        }
        let p = match chunk_map.pixel(x, foot_y) {
            Some(p) => p,
            None => return None,
        };
        if !is_passable(p) {
            return Some(false);
        }
        x = x + 1;
    }
    proof {
        lemma_floor_free_law(chunk_map@, x_from as int, x_to as int, foot_y as int);
    }
    Some(true)
}

/// The sell box, dropped from (x, y) one row at a time, comes to rest at
/// the first height whose floor is not free. None where a missing chunk is
/// read or the drop leaves the i32 coordinates.
pub open spec fn sell_box_rest(m: Map<(int, int), Seq<u8>>, x: int, y: int) -> Option<int>
    decreases y - i32::MIN,
{
    if y <= i32::MIN + 400 || !sell_box_span_in_range(x, y) {
        None
    } else {
        match floor_free(m, x - 20, x + 20, y - 8) {
            None => None,
            Some(free) => if free {
                sell_box_rest(m, x, y - 1)
            } else {
                Some(y)
            },
        }
    }
}

/// The sell box dropped from (x, y) rests at a height h at or below y
/// whose floor row (h - 8) holds something solid under the box, while at
/// every height above h down which it fell the floor was all passable.
pub proof fn lemma_sell_box_rest_law(m: Map<(int, int), Seq<u8>>, x: int, y: int)
    requires
        sell_box_rest(m, x, y) is Some,
    ensures
        sell_box_rest(m, x, y)->0 <= y,
        exists|xx: int| x - 20 <= xx < x + 20 && #[trigger] blocked_at(m, xx, sell_box_rest(m, x, y)->0 - 8),
        forall|l: int, xx: int| sell_box_rest(m, x, y)->0 < l <= y && x - 20 <= xx < x + 20
            ==> #[trigger] passable_at(m, xx, l - 8),
    decreases y - i32::MIN,
{
    lemma_floor_free_law(m, x - 20, x + 20, y - 8);
    if floor_free(m, x - 20, x + 20, y - 8) == Some(true) {
        lemma_sell_box_rest_law(m, x, y - 1);
        assert forall|l: int, xx: int| sell_box_rest(m, x, y)->0 < l <= y && x - 20 <= xx < x + 20
            implies #[trigger] passable_at(m, xx, l - 8) by {
            if l == y {
                assert(passable_at(m, xx, y - 8));
            }
        }
    }
}

/// The sell box's footprint around (x, y) stays inside the coordinates on
/// which the chunk conversions do not overflow.
pub open spec fn sell_box_span_in_range(x: int, y: int) -> bool {
    &&& i32::MIN + 20 <= x <= i32::MAX - 320
    &&& i32::MIN + 400 <= y <= i32::MAX - 320
}

/// Drops the sell box from (x, y) until gravity no longer applies to it,
/// and returns the height at which it rests; None where the drop reads a
/// missing chunk or leaves the i32 coordinates.
pub fn settle_sell_box(chunk_map: &ChunkMap, x: i32, y: i32) -> (rest_y: Option<i32>)
    ensures
        rest_y is Some <==> sell_box_rest(chunk_map@, x as int, y as int) is Some,
        rest_y is Some ==> rest_y->0 as int == sell_box_rest(chunk_map@, x as int, y as int)->0,
{
    let mut pos_y = y;
    loop
        invariant
            sell_box_rest(chunk_map@, x as int, pos_y as int) == sell_box_rest(chunk_map@, x as int, y as int),
        decreases pos_y - i32::MIN,
    {
        if pos_y <= i32::MIN + 400 || !sell_box_in_range(x, pos_y) {
            return None;
        }
        match does_gravity_apply_to_entity(x - 20, x + 20, pos_y - 8, chunk_map) {
            None => return None,
            Some(false) => return Some(pos_y),
            Some(true) => {},
        }
        pos_y = pos_y - 1;
    }
}

/// Whether the sell box's footprint around (x, y) stays inside the
/// coordinates on which the chunk conversions do not overflow.
pub fn sell_box_in_range(x: i32, y: i32) -> (r: bool)
    ensures
        r == sell_box_span_in_range(x as int, y as int),
{
    i32::MIN + 20 <= x && x <= i32::MAX - 320 && i32::MIN + 400 <= y && y <= i32::MAX - 320
}

// ---------------------------------------------------------------------
// The sell box
// ---------------------------------------------------------------------

/// (x, y) lies in the sell box's footprint around (px, py).
pub open spec fn in_sell_box(px: int, py: int, x: int, y: int) -> bool {
    px - 20 <= x < px + 20 && py - 8 <= y < py + 8
}

/// The sell box's material at (x, y): a refined copper frame, open at the
/// top, around the sell box proper.
pub open spec fn sell_box_pixel(px: int, py: int, x: int, y: int) -> u8 {
    if x < px + 20 - 1 - 2 && y > py - 8 + 2 && x > px - 20 + 2 {
        SELL_BOX
    } else {
        REFINED_COPPER
    }
}

/// (x, y) is in the footprint and comes before row yc, column xc in the
/// order the box is drawn (rows bottom up, each row left to right).
pub open spec fn drawn_before(px: int, py: int, yc: int, xc: int, x: int, y: int) -> bool {
    in_sell_box(px, py, x, y) && (y < yc || (y == yc && x < xc))
}

/// Every pixel of the sell box's footprint around (px, py) lies in a
/// loaded chunk.
pub open spec fn sell_box_area_ready(m: Map<(int, int), Seq<u8>>, px: int, py: int) -> bool {
    forall|x: int, y: int| in_sell_box(px, py, x, y) ==> (#[trigger] pixel_at(m, x, y)) is Some
}

/// Whether every pixel of the sell box's footprint around (px, py) lies in
/// a loaded chunk.
pub fn sell_box_area_loaded(chunk_map: &ChunkMap, px: i32, py: i32) -> (r: bool)
    requires
        sell_box_span_in_range(px as int, py as int),
    ensures
        r == sell_box_area_ready(chunk_map@, px as int, py as int),
{
    let mut y = py - 8;
    while y < py + 8
        invariant
            sell_box_span_in_range(px as int, py as int),
            py - 8 <= y <= py + 8,
            forall|x2: int, y2: int| drawn_before(px as int, py as int, y as int, px - 20, x2, y2)
                ==> (#[trigger] pixel_at(chunk_map@, x2, y2)) is Some,
        decreases py + 8 - y,
    {
        let mut x = px - 20;
        while x < px + 20
            invariant
                sell_box_span_in_range(px as int, py as int),
                py - 8 <= y < py + 8,
                px - 20 <= x <= px + 20,
                forall|x2: int, y2: int| drawn_before(px as int, py as int, y as int, x as int, x2, y2)
                    ==> (#[trigger] pixel_at(chunk_map@, x2, y2)) is Some,
            decreases px + 20 - x,
        {
            if chunk_map.pixel(x, y).is_none() {
                return false;
            }
            x = x + 1;
        }
        assert forall|x2: int, y2: int| drawn_before(px as int, py as int, y + 1, px - 20, x2, y2)
            implies (#[trigger] pixel_at(chunk_map@, x2, y2)) is Some by {
            assert(drawn_before(px as int, py as int, y as int, x as int, x2, y2));
        }
        y = y + 1;
    }
    assert forall|x2: int, y2: int| in_sell_box(px as int, py as int, x2, y2)
        implies (#[trigger] pixel_at(chunk_map@, x2, y2)) is Some by {
        assert(drawn_before(px as int, py as int, y as int, px - 20, x2, y2));
    }
    true
}

/// Draws the sell box around (px, py) into the terrain.
pub fn add_sell_box_to_grid(chunk_map: &mut ChunkMap, px: i32, py: i32)
    requires
        sell_box_span_in_range(px as int, py as int),
        sell_box_area_ready(old(chunk_map)@, px as int, py as int),
    ensures
        final(chunk_map)@.dom() == old(chunk_map)@.dom(),
        forall|c: (int, int)| #[trigger] old(chunk_map)@.contains_key(c) ==> final(chunk_map)@[c].len() == old(chunk_map)@[c].len(),
        forall|x: int, y: int| in_sell_box(px as int, py as int, x, y) ==>
            #[trigger] pixel_at(final(chunk_map)@, x, y) == Some(sell_box_pixel(px as int, py as int, x, y)),
        forall|x: int, y: int| !in_sell_box(px as int, py as int, x, y) ==>
            #[trigger] pixel_at(final(chunk_map)@, x, y) == pixel_at(old(chunk_map)@, x, y),
        forall|c: (int, int), i: int| #[trigger] cell_at(final(chunk_map)@, c, i) != cell_at(old(chunk_map)@, c, i) ==>
            exists|x: int, y: int| in_sell_box(px as int, py as int, x, y)
                && #[trigger] chunk_of(x, y) == c && local_index_of(x, y) == i,
{
    let ghost m0 = chunk_map@;
    let mut y = py - 8;
    while y < py + 8
        invariant
            sell_box_span_in_range(px as int, py as int),
            py - 8 <= y <= py + 8,
            m0 == old(chunk_map)@,
            forall|x: int, y: int| in_sell_box(px as int, py as int, x, y) ==> (#[trigger] pixel_at(m0, x, y)) is Some,
            chunk_map@.dom() == m0.dom(),
            forall|c: (int, int)| #[trigger] m0.contains_key(c) ==> chunk_map@[c].len() == m0[c].len(),
            forall|x: int, y2: int| drawn_before(px as int, py as int, y as int, px - 20, x, y2) ==>
                #[trigger] pixel_at(chunk_map@, x, y2) == Some(sell_box_pixel(px as int, py as int, x, y2)),
            forall|x: int, y2: int| !drawn_before(px as int, py as int, y as int, px - 20, x, y2) ==>
                #[trigger] pixel_at(chunk_map@, x, y2) == pixel_at(m0, x, y2),
            forall|c: (int, int), i: int| #[trigger] cell_at(chunk_map@, c, i) != cell_at(m0, c, i) ==>
                exists|x: int, y2: int| drawn_before(px as int, py as int, y as int, px - 20, x, y2)
                    && #[trigger] chunk_of(x, y2) == c && local_index_of(x, y2) == i,
        decreases py + 8 - y,
    {
        let mut x = px - 20;
        while x < px + 20
            invariant
                sell_box_span_in_range(px as int, py as int),
                py - 8 <= y < py + 8,
                px - 20 <= x <= px + 20,
                m0 == old(chunk_map)@,
                forall|x: int, y: int| in_sell_box(px as int, py as int, x, y) ==> (#[trigger] pixel_at(m0, x, y)) is Some,
                chunk_map@.dom() == m0.dom(),
                forall|c: (int, int)| #[trigger] m0.contains_key(c) ==> chunk_map@[c].len() == m0[c].len(),
                forall|x2: int, y2: int| drawn_before(px as int, py as int, y as int, x as int, x2, y2) ==>
                    #[trigger] pixel_at(chunk_map@, x2, y2) == Some(sell_box_pixel(px as int, py as int, x2, y2)),
                forall|x2: int, y2: int| !drawn_before(px as int, py as int, y as int, x as int, x2, y2) ==>
                    #[trigger] pixel_at(chunk_map@, x2, y2) == pixel_at(m0, x2, y2),
                forall|c: (int, int), i: int| #[trigger] cell_at(chunk_map@, c, i) != cell_at(m0, c, i) ==>
                    exists|x2: int, y2: int| drawn_before(px as int, py as int, y as int, x as int, x2, y2)
                        && #[trigger] chunk_of(x2, y2) == c && local_index_of(x2, y2) == i,
            decreases px + 20 - x,
        {
            let ghost m_before = chunk_map@;
            let v = if x < px + SELL_BOX_WIDTH as i32 / 2 - 1 - 2 && y > py - SELL_BOX_HEIGHT as i32 / 2 + 2
                && x > px - SELL_BOX_WIDTH as i32 / 2 + 2 {
                SELL_BOX
            } else {
                REFINED_COPPER
            };
            assert(pixel_at(m_before, x as int, y as int) == pixel_at(m0, x as int, y as int));
            chunk_map.set_pixel(x, y, v);
            proof {
                let xi = x as int;
                let yi = y as int;
                lemma_with_pixel_same(m_before, xi, yi, v);
                lemma_with_cell_shape(m_before, chunk_of(xi, yi), local_index_of(xi, yi), v);
                assert forall|x2: int, y2: int| (x2 != xi || y2 != yi) implies
                    #[trigger] pixel_at(chunk_map@, x2, y2) == pixel_at(m_before, x2, y2) by {
                    lemma_with_pixel_other(m_before, xi, yi, v, x2, y2);
                }
                assert forall|c: (int, int), i: int| #[trigger] cell_at(chunk_map@, c, i) != cell_at(m0, c, i) implies
                    exists|x2: int, y2: int| drawn_before(px as int, py as int, yi, xi + 1, x2, y2)
                        && #[trigger] chunk_of(x2, y2) == c && local_index_of(x2, y2) == i by {
                    if c == chunk_of(xi, yi) && i == local_index_of(xi, yi) {
                        assert(drawn_before(px as int, py as int, yi, xi + 1, xi, yi));
                    } else {
                        assert(cell_at(chunk_map@, c, i) == cell_at(m_before, c, i));
                        let (x2, y2) = choose|x2: int, y2: int| drawn_before(px as int, py as int, yi, xi, x2, y2)
                            && #[trigger] chunk_of(x2, y2) == c && local_index_of(x2, y2) == i;
                        assert(drawn_before(px as int, py as int, yi, xi + 1, x2, y2));
                    }
                }
            }
            x = x + 1;
        }
        proof {
            assert forall|c: (int, int), i: int| #[trigger] cell_at(chunk_map@, c, i) != cell_at(m0, c, i) implies
                exists|x2: int, y2: int| drawn_before(px as int, py as int, y + 1, px - 20, x2, y2)
                    && #[trigger] chunk_of(x2, y2) == c && local_index_of(x2, y2) == i by {
                let (x2, y2) = choose|x2: int, y2: int| drawn_before(px as int, py as int, y as int, px + 20, x2, y2)
                    && #[trigger] chunk_of(x2, y2) == c && local_index_of(x2, y2) == i;
                assert(drawn_before(px as int, py as int, y + 1, px - 20, x2, y2));
            }
        }
        y = y + 1;
    }
}

// ---------------------------------------------------------------------
// First terrain
// ---------------------------------------------------------------------

/// Material p fits world height gy under the dirt line d and rock line r:
/// sky above the dirt line, dirt down to the rock line, rock below.
pub open spec fn fits_world_layer(p: u8, gy: int, d: int, r: int) -> bool {
    if gy > d {
        p == SKY
    } else if gy > r {
        dirt_variant(p)
    } else {
        p == ROCK
    }
}

/// Generates the chunk at (chunk_x_g, chunk_y_g) of the first world from
/// the dirt and rock lines of every world column, listed from the world's
/// left edge (chunk column -16) onwards. `seed` decides which dirt
/// variants are picked.
pub fn generate_chunk(chunk_x_g: i32, chunk_y_g: i32, dirt_heights: &Vec<i32>, rock_heights: &Vec<i32>, seed: u64) -> (grid: Vec<u8>)
    requires
        0 <= chunk_x_g + 16 <= i32::MAX,
        (chunk_x_g + 16) * 600 + 600 <= dirt_heights@.len(),
        (chunk_x_g + 16) * 600 + 600 <= rock_heights@.len(),
        i32::MIN + 600 <= chunk_y_g * 600 <= i32::MAX - 600,
    ensures
        grid@.len() == 360000,
        forall|i: int| 0 <= i < 360000 ==> fits_world_layer(#[trigger] grid@[i],
            row_height(chunk_y_g as int, i / 600),
            dirt_heights@[(chunk_x_g + 16) * 600 + i % 600] as int,
            rock_heights@[(chunk_x_g + 16) * 600 + i % 600] as int),
{
    let mut grid: Vec<u8> = vec![0; 360000];
    let mut dirt_pmf = dirt_variant_pmf(seed);
    assert(dirt_heights.len() <= usize::MAX);
    let x_tl = (chunk_x_g + CHUNKS_HORIZONTAL / 2) as usize * CHUNK_SIZE as usize;
    let mut x: usize = 0;
    while x < CHUNK_SIZE as usize
        invariant
            0 <= chunk_x_g + 16,
            x_tl == (chunk_x_g + 16) * 600,
            x_tl + 600 <= dirt_heights@.len(),
            x_tl + 600 <= rock_heights@.len(),
            dirt_heights@.len() <= usize::MAX,
            i32::MIN + 600 <= chunk_y_g * 600 <= i32::MAX - 600,
            x <= 600,
            grid@.len() == 360000,
            dirt_pmf.choices() == seq![DIRT1, DIRT1, DIRT1, DIRT2, DIRT2, DIRT3],
            forall|i: int| 0 <= i < 360000 && i % 600 < x ==> fits_world_layer(#[trigger] grid@[i],
                row_height(chunk_y_g as int, i / 600),
                dirt_heights@[x_tl + i % 600] as int,
                rock_heights@[x_tl + i % 600] as int),
        decreases 600 - x,
    {
        let x_g_tl = x_tl + x;
        let mut y: usize = 0;
        while y < CHUNK_SIZE as usize
            invariant
                0 <= chunk_x_g + 16,
                x_tl == (chunk_x_g + 16) * 600,
                x_tl + 600 <= dirt_heights@.len(),
                x_tl + 600 <= rock_heights@.len(),
                x_g_tl == x_tl + x,
                i32::MIN + 600 <= chunk_y_g * 600 <= i32::MAX - 600,
                x < 600,
                y <= 600,
                grid@.len() == 360000,
                dirt_pmf.choices() == seq![DIRT1, DIRT1, DIRT1, DIRT2, DIRT2, DIRT3],
                forall|i: int| 0 <= i < 360000 && (i % 600 < x || (i % 600 == x && i / 600 < y)) ==>
                    fits_world_layer(#[trigger] grid@[i], row_height(chunk_y_g as int, i / 600),
                        dirt_heights@[x_tl + i % 600] as int, rock_heights@[x_tl + i % 600] as int),
            decreases 600 - y,
        {
            let global_y = get_global_y_coordinate(chunk_y_g, y);
            let index = y * CHUNK_SIZE as usize + x;
            proof {
                vstd::arithmetic::div_mod::lemma_fundamental_div_mod_converse(index as int, 600, y as int, x as int);
            }
            let v: u8;
            if global_y > dirt_heights[x_g_tl] {
                v = SKY;
            } else if global_y > rock_heights[x_g_tl] {
                v = dirt_pmf.next();
                proof { lemma_dirt_choices(v); }
            } else {
                v = ROCK;
            }
            let ghost before = grid@;
            grid.set(index, v);
            proof {
                assert forall|i: int| 0 <= i < 360000 && (i % 600 < x || (i % 600 == x && i / 600 < y + 1)) implies
                    fits_world_layer(#[trigger] grid@[i], row_height(chunk_y_g as int, i / 600),
                        dirt_heights@[x_tl + i % 600] as int, rock_heights@[x_tl + i % 600] as int) by {
                    if i != index {
                        assert(grid@[i] == before[i]);
                        assert(i % 600 < x || (i % 600 == x && i / 600 < y));
                    }
                }
            }
            y = y + 1;
        }
        x = x + 1;
    }
    grid
}

// ---------------------------------------------------------------------
// Ore
// ---------------------------------------------------------------------

/// Ore of kind `seed_type` takes world pixel (x, y) if it is ground;
/// anything else there is left alone.
pub fn plant_ore(chunk_map: &mut ChunkMap, x: i32, y: i32, seed_type: u8)
    requires
        coord_in_range(x as int, y as int),
        pixel_at(old(chunk_map)@, x as int, y as int) is Some,
    ensures
        final(chunk_map)@ == if ground(pixel_at(old(chunk_map)@, x as int, y as int)->0) {
            with_pixel(old(chunk_map)@, x as int, y as int, seed_type)
        } else {
            old(chunk_map)@
        },
{
    let p = chunk_map.pixel(x, y).unwrap();
    if is_ground(p) {
        chunk_map.set_pixel(x, y, seed_type);
    }
}

// ---------------------------------------------------------------------
// Laws of gravity
// ---------------------------------------------------------------------

/// A present pixel whose material gravity does not move.
pub open spec fn holds_firm_material(o: Option<u8>) -> bool {
    match o {
        Some(p) => !gravity_affected(p),
        None => false,
    }
}

/// Where none of the remembered pixels holds loose material, a gravity
/// tick changes no pixel, sells nothing and forgets every pixel.
pub proof fn lemma_gravity_without_loose_material(
    m: Map<(int, int), Seq<u8>>,
    coords: Seq<(int, int)>,
    next: Set<(int, int)>,
    sold: Seq<u8>,
)
    requires
        forall|i: int| 0 <= i < coords.len() ==> coord_in_range(coords[i].0, coords[i].1)
            && holds_firm_material(#[trigger] pixel_at(m, coords[i].0, coords[i].1)),
    ensures
        gravity_fold(m, coords, next, sold) == Some((m, next, sold)),
    decreases coords.len(),
{
    if coords.len() > 0 {
        let rest = coords.drop_first();
        assert forall|i: int| 0 <= i < rest.len() implies coord_in_range(rest[i].0, rest[i].1)
            && holds_firm_material(#[trigger] pixel_at(m, rest[i].0, rest[i].1)) by {
            assert(rest[i] == coords[i + 1]);
        }
        assert(pixel_at(m, coords[0].0, coords[0].1) is Some);
        lemma_gravity_without_loose_material(m, rest, next, sold);
    }
}

/// Material that slides down stays in its column: a fall leaves every
/// other column as it was.
pub proof fn lemma_fall_keeps_other_columns(m: Map<(int, int), Seq<u8>>, x: int, y: int, x2: int, y2: int)
    requires
        fall_from(m, x, y) is Some,
        x2 != x,
    ensures
        pixel_at(fall_from(m, x, y)->0, x2, y2) == pixel_at(m, x2, y2),
    decreases i32::MAX - y,
{
    if coord_in_range(x, y + 1) && coord_in_range(x, y) {
        let a = pixel_at(m, x, y + 1)->0;
        if !stops_fall(a) {
            let m1 = with_pixel(with_pixel(m, x, y, a), x, y + 1, SKY);
            lemma_fall_keeps_other_columns(m1, x, y + 1, x2, y2);
            crate::components::lemma_with_pixel_other(with_pixel(m, x, y, a), x, y + 1, SKY, x2, y2);
            crate::components::lemma_with_pixel_other(m, x, y, a, x2, y2);
        }
    }
}

/// `r` is `m` with the pixels of column x from height y + 1 up to
/// y + n moved one row down (to y up to y + n - 1) and sky left at y + n;
/// every other pixel is as it was. With n == 0 nothing moved.
pub open spec fn column_shifted(m: Map<(int, int), Seq<u8>>, r: Map<(int, int), Seq<u8>>, x: int, y: int, n: int) -> bool {
    &&& n >= 0
    &&& forall|y2: int| y <= y2 < y + n ==> #[trigger] pixel_at(r, x, y2) == pixel_at(m, x, y2 + 1)
    &&& n > 0 ==> pixel_at(r, x, y + n) == Some(SKY)
    &&& forall|x2: int, y2: int| x2 != x || y2 < y || y2 > y + n || n == 0 ==>
            #[trigger] pixel_at(r, x2, y2) == pixel_at(m, x2, y2)
}

/// A falling column only slides down one row: the pixels above (x, y) up
/// to the first that stops the fall each move one row down, the pixel at
/// (x, y) is overwritten, sky is left on top, and nothing else changes. So
/// a fall loses no material and makes none; it only replaces the open
/// space it falls into.
pub proof fn lemma_fall_shifts_column(m: Map<(int, int), Seq<u8>>, x: int, y: int)
    requires
        fall_from(m, x, y) is Some,
    ensures
        exists|n: int| #[trigger] column_shifted(m, fall_from(m, x, y)->0, x, y, n),
    decreases i32::MAX - y,
{
    let r = fall_from(m, x, y)->0;
    let a = pixel_at(m, x, y + 1)->0;
    if stops_fall(a) {
        assert(r == m);
        assert(column_shifted(m, r, x, y, 0));
    } else {
        let m0 = with_pixel(m, x, y, a);
        let m1 = with_pixel(m0, x, y + 1, SKY);
        lemma_fall_shifts_column(m1, x, y + 1);
        let y1 = y + 1;
        let n1 = choose|n: int| #[trigger] column_shifted(m1, r, x, y1, n);
        lemma_with_pixel_other(m, x, y, a, x, y + 1);
        lemma_with_pixel_same(m, x, y, a);
        lemma_with_pixel_other(m0, x, y + 1, SKY, x, y);
        lemma_with_pixel_same(m0, x, y + 1, SKY);
        assert forall|y2: int| y <= y2 < y + n1 + 1 implies #[trigger] pixel_at(r, x, y2) == pixel_at(m, x, y2 + 1) by {
            if y2 > y {
                assert(pixel_at(r, x, y2) == pixel_at(m1, x, y2 + 1));
                lemma_with_pixel_other(m0, x, y + 1, SKY, x, y2 + 1);
                lemma_with_pixel_other(m, x, y, a, x, y2 + 1);
            } else {
                assert(pixel_at(r, x, y) == pixel_at(m1, x, y));
            }
        }
        if n1 == 0 {
            assert(pixel_at(r, x, y + 1) == pixel_at(m1, x, y + 1));
        }
        assert forall|x2: int, y2: int| x2 != x || y2 < y || y2 > y + n1 + 1 || n1 + 1 == 0 implies
            #[trigger] pixel_at(r, x2, y2) == pixel_at(m, x2, y2) by {
            assert(pixel_at(r, x2, y2) == pixel_at(m1, x2, y2));
            lemma_with_pixel_other(m0, x, y + 1, SKY, x2, y2);
            lemma_with_pixel_other(m, x, y, a, x2, y2);
        }
        assert(column_shifted(m, r, x, y, n1 + 1));
    }
}

/// The pixels of column x from height y up to y + n - 1, bottom up.
pub open spec fn column_window(m: Map<(int, int), Seq<u8>>, x: int, y: int, n: int) -> Seq<Option<u8>> {
    Seq::new(n as nat, |i: int| pixel_at(m, x, y + i))
}

/// A fall into open space keeps the count of every material other than
/// sky and light: in the part of the column that moved (from y up to the
/// sky left on top) each such material occurs as often as before, and
/// outside it nothing changed (column_shifted).
pub proof fn lemma_fall_keeps_material_counts(m: Map<(int, int), Seq<u8>>, x: int, y: int)
    requires
        fall_from(m, x, y) is Some,
        open_space_at(m, x, y),
    ensures
        exists|n: int| #[trigger] column_shifted(m, fall_from(m, x, y)->0, x, y, n)
            && forall|v: u8| v != SKY && v != LIGHT ==>
                (#[trigger] column_window(fall_from(m, x, y)->0, x, y, n + 1).to_multiset().count(Some(v)))
                    == column_window(m, x, y, n + 1).to_multiset().count(Some(v)),
{
    let r = fall_from(m, x, y)->0;
    lemma_fall_shifts_column(m, x, y);
    let n = choose|n: int| #[trigger] column_shifted(m, r, x, y, n);
    let old_w = column_window(m, x, y, n + 1);
    let new_w = column_window(r, x, y, n + 1);
    if n == 0 {
        assert(new_w =~= old_w);
    } else {
        assert forall|i: int| 0 <= i < n implies #[trigger] new_w[i] == old_w.drop_first()[i] by {
            assert(pixel_at(r, x, y + i) == pixel_at(m, x, y + i + 1));
        }
        assert(new_w =~= old_w.drop_first().push(Some(SKY)));
        assert forall|v: u8| v != SKY && v != LIGHT implies
            (#[trigger] new_w.to_multiset().count(Some(v))) == old_w.to_multiset().count(Some(v)) by {
            lemma_replace_first_keeps_count(old_w, Some(SKY), Some(v));
        }
    }
    assert(column_shifted(m, r, x, y, n));
}

/// Dropping the first element of a sequence and appending `a` keeps the
/// count of every value other than those two.
proof fn lemma_replace_first_keeps_count(s: Seq<Option<u8>>, a: Option<u8>, v: Option<u8>)
    requires
        s.len() > 0,
        s[0] != v,
        a != v,
    ensures
        s.drop_first().push(a).to_multiset().count(v) == s.to_multiset().count(v),
{
    broadcast use vstd::multiset::group_multiset_axioms;
    vstd::seq_lib::to_multiset_build(s.drop_first(), a);
    vstd::seq_lib::to_multiset_remove(s, 0);
    assert(s.remove(0) =~= s.drop_first());
}

/// `r` and `sold1` are `m` and `sold0` after the pixels of column x from
/// height y + 1 up to y + n were sold: they are appended to the sold list
/// bottom up and leave sky behind; every other pixel is as it was.
pub open spec fn column_sold(
    m: Map<(int, int), Seq<u8>>,
    r: Map<(int, int), Seq<u8>>,
    sold0: Seq<u8>,
    sold1: Seq<u8>,
    x: int,
    y: int,
    n: int,
) -> bool {
    &&& n >= 0
    &&& sold1.len() == sold0.len() + n
    &&& sold1.take(sold0.len() as int) == sold0
    &&& forall|y2: int| y < y2 <= y + n ==> #[trigger] pixel_at(r, x, y2) == Some(SKY)
            && pixel_at(m, x, y2) == Some(sold1[sold0.len() + y2 - y - 1])
    &&& forall|x2: int, y2: int| x2 != x || y2 <= y || y2 > y + n ==>
            #[trigger] pixel_at(r, x2, y2) == pixel_at(m, x2, y2)
}

/// Selling a column takes out of the terrain exactly what it appends to
/// the sold list: each sold pixel turns to sky, and nothing else changes.
pub proof fn lemma_sell_moves_column_into_sold(m: Map<(int, int), Seq<u8>>, x: int, y: int, sold: Seq<u8>)
    requires
        sell_from(m, x, y, sold) is Some,
    ensures
        exists|n: int| #[trigger] column_sold(m, (sell_from(m, x, y, sold)->0).0, sold,
            (sell_from(m, x, y, sold)->0).1, x, y, n),
    decreases i32::MAX - y,
{
    let r = (sell_from(m, x, y, sold)->0).0;
    let sold1 = (sell_from(m, x, y, sold)->0).1;
    let a = pixel_at(m, x, y + 1)->0;
    if stops_sale(a) {
        assert(sold.take(sold.len() as int) =~= sold);
        assert(column_sold(m, r, sold, sold1, x, y, 0));
    } else {
        let m1 = with_pixel(m, x, y + 1, SKY);
        let s1 = sold.push(a);
        let y1 = y + 1;
        lemma_sell_moves_column_into_sold(m1, x, y1, s1);
        let n1 = choose|n: int| #[trigger] column_sold(m1, r, s1, sold1, x, y1, n);
        lemma_with_pixel_same(m, x, y + 1, SKY);
        assert(sold1.take(sold.len() as int) =~= sold1.take(s1.len() as int).take(sold.len() as int));
        assert(s1.take(sold.len() as int) =~= sold);
        assert(sold1[sold.len() as int] == sold1.take(s1.len() as int)[sold.len() as int]);
        assert forall|y2: int| y < y2 <= y + n1 + 1 implies #[trigger] pixel_at(r, x, y2) == Some(SKY)
            && pixel_at(m, x, y2) == Some(sold1[sold.len() + y2 - y - 1]) by {
            if y2 > y + 1 {
                assert(pixel_at(r, x, y2) == Some(SKY));
                lemma_with_pixel_other(m, x, y + 1, SKY, x, y2);
            } else {
                assert(pixel_at(r, x, y2) == pixel_at(m1, x, y2));
            }
        }
        assert forall|x2: int, y2: int| x2 != x || y2 <= y || y2 > y + n1 + 1 implies
            #[trigger] pixel_at(r, x2, y2) == pixel_at(m, x2, y2) by {
            assert(pixel_at(r, x2, y2) == pixel_at(m1, x2, y2));
            lemma_with_pixel_other(m, x, y + 1, SKY, x2, y2);
        }
        assert(column_sold(m, r, sold, sold1, x, y, n1 + 1));
    }
}

/// World pixel (x, y) is present and open space.
pub open spec fn open_space_at(m: Map<(int, int), Seq<u8>>, x: int, y: int) -> bool {
    match pixel_at(m, x, y) {
        Some(b) => open_space(b),
        None => false,
    }
}

/// Loose material standing on open space always falls: after the step the
/// pixel just below holds it and is remembered for the next tick, and
/// nothing is sold.
pub proof fn lemma_gravity_step_drops_loose_material(
    m: Map<(int, int), Seq<u8>>,
    x: int,
    y: int,
    next: Set<(int, int)>,
    sold: Seq<u8>,
    p: u8,
)
    requires
        gravity_step(m, x, y, next, sold) is Some,
        pixel_at(m, x, y) == Some(p),
        gravity_affected(p),
        open_space_at(m, x, y - 1),
    ensures
        pixel_at((gravity_step(m, x, y, next, sold)->0).0, x, y - 1) == Some(p),
        (gravity_step(m, x, y, next, sold)->0).1 == next.insert((x, y - 1)),
        (gravity_step(m, x, y, next, sold)->0).2 == sold,
{
    let m0 = with_pixel(m, x, y - 1, p);
    let m1 = with_pixel(m0, x, y, SKY);
    assert(fall_from(m, x, y - 1) == fall_from(m1, x, y));
    lemma_fall_shifts_column(m1, x, y);
    let m2 = fall_from(m1, x, y)->0;
    let n = choose|n: int| #[trigger] column_shifted(m1, m2, x, y, n);
    assert(pixel_at(m2, x, y - 1) == pixel_at(m1, x, y - 1));
    lemma_with_pixel_same(m, x, y - 1, p);
    lemma_with_pixel_other(m0, x, y, SKY, x, y - 1);
}

/// A gravity tick that remembers a single pixel of loose material standing
/// on open space drops it one row and remembers the pixel below.
pub proof fn lemma_gravity_tick_drops_single_pixel(
    m: Map<(int, int), Seq<u8>>,
    s: Seq<(int, int)>,
    x: int,
    y: int,
    p: u8,
)
    requires
        enumerates(s, set![(x, y)]),
        gravity_outcome(m, s) is Some,
        pixel_at(m, x, y) == Some(p),
        gravity_affected(p),
        open_space_at(m, x, y - 1),
    ensures
        pixel_at((gravity_outcome(m, s)->0).0, x, y - 1) == Some(p),
        (gravity_outcome(m, s)->0).1 == set![(x, y - 1)],
        (gravity_outcome(m, s)->0).2.len() == 0,
{
    assert(s.contains((x, y)));
    let i = choose|i: int| 0 <= i < s.len() && s[i] == (x, y);
    if s.len() > 1 {
        let j = if i == 0 { 1int } else { 0int };
        assert(s.contains(s[j]));
        assert(set![(x, y)].contains(s[j]));
    }
    assert(s.len() == 1);
    assert(s[0] == (x, y));
    assert(s.drop_first() =~= Seq::<(int, int)>::empty());
    let st = gravity_step(m, x, y, Set::empty(), Seq::empty());
    assert(st is Some);
    let r = st->0;
    assert(gravity_fold(r.0, s.drop_first(), r.1, r.2) == Some(r));
    assert(gravity_outcome(m, s) == Some(r));
    lemma_gravity_step_drops_loose_material(m, x, y, Set::empty(), Seq::empty(), p);
    assert(Set::<(int, int)>::empty().insert((x, y - 1)) =~= set![(x, y - 1)]);
}

/// Material that does not fall is left where it is: a step at a pixel that
/// is not loose material changes nothing.
pub proof fn lemma_gravity_step_keeps_firm_material(
    m: Map<(int, int), Seq<u8>>,
    x: int,
    y: int,
    next: Set<(int, int)>,
    sold: Seq<u8>,
    p: u8,
)
    requires
        gravity_step(m, x, y, next, sold) is Some,
        pixel_at(m, x, y) == Some(p),
        !gravity_affected(p),
    ensures
        gravity_step(m, x, y, next, sold)->0 == (m, next, sold),
{
}

/// One gravity step either changes nothing, or lets the column standing
/// on open space slide down one row (column_shifted), or sells the column
/// standing on the sell box (column_sold). Only a sale adds to the sold
/// list, and by exactly the material that left the terrain.
pub proof fn lemma_gravity_step_moves_or_sells(
    m: Map<(int, int), Seq<u8>>,
    x: int,
    y: int,
    next: Set<(int, int)>,
    sold: Seq<u8>,
)
    requires
        gravity_step(m, x, y, next, sold) is Some,
    ensures
        ({
            let r = gravity_step(m, x, y, next, sold)->0;
            let yb = y - 1;
            ||| r.0 == m && r.2 == sold
            ||| open_space_at(m, x, yb) && r.2 == sold
                && exists|n: int| #[trigger] column_shifted(m, r.0, x, yb, n)
            ||| pixel_at(m, x, yb) == Some(SELL_BOX)
                && exists|n: int| #[trigger] column_sold(m, r.0, sold, r.2, x, yb, n)
        }),
{
    let p = pixel_at(m, x, y)->0;
    if gravity_affected(p) {
        let b = pixel_at(m, x, y - 1)->0;
        let r = gravity_step(m, x, y, next, sold)->0;
        if open_space(b) {
            lemma_fall_shifts_column(m, x, y - 1);
            assert(r.0 == fall_from(m, x, y - 1)->0);
            let n = choose|n: int| #[trigger] column_shifted(m, fall_from(m, x, y - 1)->0, x, y - 1, n);
            assert(column_shifted(m, r.0, x, y - 1, n));
        } else if b == SELL_BOX {
            lemma_sell_moves_column_into_sold(m, x, y - 1, sold);
            assert(r.0 == (sell_from(m, x, y - 1, sold)->0).0);
            let n = choose|n: int| #[trigger] column_sold(m, (sell_from(m, x, y - 1, sold)->0).0, sold,
                (sell_from(m, x, y - 1, sold)->0).1, x, y - 1, n);
            assert(column_sold(m, r.0, sold, r.2, x, y - 1, n));
        }
    }
}

/// Selling a column leaves every other column as it was.
pub proof fn lemma_sell_keeps_other_columns(m: Map<(int, int), Seq<u8>>, x: int, y: int, sold: Seq<u8>, x2: int, y2: int)
    requires
        sell_from(m, x, y, sold) is Some,
        x2 != x,
    ensures
        pixel_at((sell_from(m, x, y, sold)->0).0, x2, y2) == pixel_at(m, x2, y2),
    decreases i32::MAX - y,
{
    if coord_in_range(x, y + 1) && coord_in_range(x, y) {
        let a = pixel_at(m, x, y + 1)->0;
        if !stops_sale(a) {
            lemma_sell_keeps_other_columns(with_pixel(m, x, y + 1, SKY), x, y + 1, sold.push(a), x2, y2);
            crate::components::lemma_with_pixel_other(m, x, y + 1, SKY, x2, y2);
        }
    }
}

/// A gravity tick changes pixels only in the columns of the remembered
/// pixels: material moves up and down, never sideways.
pub proof fn lemma_gravity_keeps_other_columns(
    m: Map<(int, int), Seq<u8>>,
    coords: Seq<(int, int)>,
    next: Set<(int, int)>,
    sold: Seq<u8>,
    x2: int,
    y2: int,
)
    requires
        gravity_fold(m, coords, next, sold) is Some,
        forall|i: int| 0 <= i < coords.len() ==> (#[trigger] coords[i]).0 != x2,
    ensures
        pixel_at((gravity_fold(m, coords, next, sold)->0).0, x2, y2) == pixel_at(m, x2, y2),
    decreases coords.len(),
{
    if coords.len() > 0 {
        let (x, y) = coords[0];
        assert(coords[0].0 != x2);
        let r = gravity_step(m, x, y, next, sold)->0;
        assert(pixel_at(r.0, x2, y2) == pixel_at(m, x2, y2)) by {
            let p = pixel_at(m, x, y)->0;
            if gravity_affected(p) {
                let b = pixel_at(m, x, y - 1)->0;
                if open_space(b) {
                    lemma_fall_keeps_other_columns(m, x, y - 1, x2, y2);
                } else if b == SELL_BOX {
                    lemma_sell_keeps_other_columns(m, x, y - 1, sold, x2, y2);
                }
            }
        }
        let rest = coords.drop_first();
        assert forall|i: int| 0 <= i < rest.len() implies (#[trigger] rest[i]).0 != x2 by {
            assert(rest[i] == coords[i + 1]);
        }
        lemma_gravity_keeps_other_columns(r.0, rest, r.1, r.2, x2, y2);
    }
}

/// After a gravity tick, every remembered pixel lies just below one of
/// the pixels remembered before it.
pub proof fn lemma_gravity_remembers_pixels_below(
    m: Map<(int, int), Seq<u8>>,
    coords: Seq<(int, int)>,
    next: Set<(int, int)>,
    sold: Seq<u8>,
    c: (int, int),
)
    requires
        gravity_fold(m, coords, next, sold) is Some,
        (gravity_fold(m, coords, next, sold)->0).1.contains(c),
    ensures
        next.contains(c) || coords.contains((c.0, c.1 + 1)),
    decreases coords.len(),
{
    if coords.len() > 0 {
        let (x, y) = coords[0];
        let r = gravity_step(m, x, y, next, sold)->0;
        let rest = coords.drop_first();
        lemma_gravity_remembers_pixels_below(r.0, rest, r.1, r.2, c);
        if rest.contains((c.0, c.1 + 1)) {
            let i = choose|i: int| 0 <= i < rest.len() && rest[i] == (c.0, c.1 + 1);
            assert(coords[i + 1] == (c.0, c.1 + 1));
        }
        if r.1.contains(c) && !next.contains(c) {
            assert(c == (x, y - 1));
            assert(coords[0] == (c.0, c.1 + 1));
        }
    }
}

// ---------------------------------------------------------------------
// Material is kept by a tick that sells nothing
// ---------------------------------------------------------------------

/// World pixel p is present and holds material other than sky and light.
pub open spec fn material_at(m: Map<(int, int), Seq<u8>>, p: (int, int)) -> bool {
    match pixel_at(m, p.0, p.1) {
        Some(v) => v != SKY && v != LIGHT,
        None => false,
    }
}

/// `f` carries every pixel of `m` that holds material (other than sky and
/// light) to a pixel of `r` holding the same material, no two of them to
/// the same pixel, and every pixel of `r` that holds material is reached.
/// So for each such material, `f` is a one-to-one correspondence between
/// the pixels holding it in `m` and those holding it in `r`.
pub open spec fn moved_by(m: Map<(int, int), Seq<u8>>, r: Map<(int, int), Seq<u8>>, f: spec_fn((int, int)) -> (int, int)) -> bool {
    &&& forall|p: (int, int)| #[trigger] material_at(m, p) ==> pixel_at(r, f(p).0, f(p).1) == pixel_at(m, p.0, p.1)
    &&& forall|p: (int, int), q: (int, int)| #[trigger] material_at(m, p) && #[trigger] material_at(m, q) && f(p) == f(q) ==> p == q
    &&& forall|q: (int, int)| #[trigger] material_at(r, q) ==> exists|p: (int, int)| material_at(m, p) && #[trigger] f(p) == q
}

/// The pixels of column x from y + 1 up to y + n each one row lower.
pub open spec fn shift_down(x: int, y: int, n: int) -> spec_fn((int, int)) -> (int, int) {
    |p: (int, int)| if p.0 == x && y + 1 <= p.1 <= y + n { (p.0, p.1 - 1) } else { p }
}

/// Every pixel where it was.
pub open spec fn stay() -> spec_fn((int, int)) -> (int, int) {
    |p: (int, int)| p
}

proof fn lemma_unchanged_moves_nothing(m: Map<(int, int), Seq<u8>>, r: Map<(int, int), Seq<u8>>)
    requires
        forall|x: int, y: int| #[trigger] pixel_at(r, x, y) == pixel_at(m, x, y),
    ensures
        moved_by(m, r, stay()),
{
    assert forall|q: (int, int)| #[trigger] material_at(r, q) implies exists|p: (int, int)| material_at(m, p) && #[trigger] stay()(p) == q by {
        assert(pixel_at(r, q.0, q.1) == pixel_at(m, q.0, q.1));
        assert(stay()(q) == q);
    }
    assert forall|p: (int, int)| #[trigger] material_at(m, p) implies pixel_at(r, stay()(p).0, stay()(p).1) == pixel_at(m, p.0, p.1) by {
        assert(pixel_at(r, p.0, p.1) == pixel_at(m, p.0, p.1));
    }
}

/// A column that slid down one row into open space moves its material by
/// shift_down.
proof fn lemma_shift_moves_material(m: Map<(int, int), Seq<u8>>, r: Map<(int, int), Seq<u8>>, x: int, y: int, n: int)
    requires
        column_shifted(m, r, x, y, n),
        open_space_at(m, x, y),
    ensures
        moved_by(m, r, shift_down(x, y, n)),
{
    let f = shift_down(x, y, n);
    assert(!material_at(m, (x, y)));
    assert forall|p: (int, int)| #[trigger] material_at(m, p) implies pixel_at(r, f(p).0, f(p).1) == pixel_at(m, p.0, p.1) by {
        if p.0 == x && y + 1 <= p.1 <= y + n {
            let y2 = p.1 - 1;
            assert(pixel_at(r, x, y2) == pixel_at(m, x, y2 + 1));
        } else {
            assert(pixel_at(r, p.0, p.1) == pixel_at(m, p.0, p.1));
        }
    }
    assert forall|p: (int, int), q: (int, int)| #[trigger] material_at(m, p) && #[trigger] material_at(m, q) && f(p) == f(q) implies p == q by {
        if p.0 == x && y + 1 <= p.1 <= y + n && !(q.0 == x && y + 1 <= q.1 <= y + n) {
            assert(q == (x, y));
        }
        if q.0 == x && y + 1 <= q.1 <= y + n && !(p.0 == x && y + 1 <= p.1 <= y + n) {
            assert(p == (x, y));
        }
    }
    assert forall|q: (int, int)| #[trigger] material_at(r, q) implies exists|p: (int, int)| material_at(m, p) && #[trigger] f(p) == q by {
        if q.0 == x && y <= q.1 < y + n {
            let p = (x, q.1 + 1);
            let y2 = q.1;
            assert(pixel_at(r, x, y2) == pixel_at(m, x, y2 + 1));
            assert(f(p) == q);
            assert(material_at(m, p));
        } else {
            if q.0 == x && q.1 == y + n && n > 0 {
                assert(pixel_at(r, x, y + n) == Some(SKY));
            }
            assert(pixel_at(r, q.0, q.1) == pixel_at(m, q.0, q.1));
            assert(f(q) == q);
            assert(material_at(m, q));
        }
    }
}

/// Material moved by f and then by g is moved by g after f.
pub proof fn lemma_moved_by_compose(
    m1: Map<(int, int), Seq<u8>>,
    m2: Map<(int, int), Seq<u8>>,
    m3: Map<(int, int), Seq<u8>>,
    f: spec_fn((int, int)) -> (int, int),
    g: spec_fn((int, int)) -> (int, int),
)
    requires
        moved_by(m1, m2, f),
        moved_by(m2, m3, g),
    ensures
        moved_by(m1, m3, |p: (int, int)| g(f(p))),
{
    let h = |p: (int, int)| g(f(p));
    assert forall|p: (int, int)| #[trigger] material_at(m1, p) implies pixel_at(m3, h(p).0, h(p).1) == pixel_at(m1, p.0, p.1) && material_at(m2, f(p)) by {
        assert(pixel_at(m2, f(p).0, f(p).1) == pixel_at(m1, p.0, p.1));
        assert(material_at(m2, f(p)));
    }
    assert forall|p: (int, int), q: (int, int)| #[trigger] material_at(m1, p) && #[trigger] material_at(m1, q) && h(p) == h(q) implies p == q by {
        assert(material_at(m2, f(p)) && material_at(m2, f(q)));
    }
    assert forall|q: (int, int)| #[trigger] material_at(m3, q) implies exists|p: (int, int)| material_at(m1, p) && #[trigger] h(p) == q by {
        let p2 = choose|p2: (int, int)| material_at(m2, p2) && #[trigger] g(p2) == q;
        let p1 = choose|p1: (int, int)| material_at(m1, p1) && #[trigger] f(p1) == p2;
        assert(h(p1) == q);
    }
}

/// One gravity step never shrinks the sold list, and a step that sells
/// nothing moves material one-to-one (moved_by).
pub proof fn lemma_step_moves_material(
    m: Map<(int, int), Seq<u8>>,
    x: int,
    y: int,
    next: Set<(int, int)>,
    sold: Seq<u8>,
)
    requires
        gravity_step(m, x, y, next, sold) is Some,
    ensures
        (gravity_step(m, x, y, next, sold)->0).2.len() >= sold.len(),
        (gravity_step(m, x, y, next, sold)->0).2.len() == sold.len() ==>
            exists|f: spec_fn((int, int)) -> (int, int)| #[trigger] moved_by(m, (gravity_step(m, x, y, next, sold)->0).0, f),
{
    let r = gravity_step(m, x, y, next, sold)->0;
    let yb = y - 1;
    lemma_gravity_step_moves_or_sells(m, x, y, next, sold);
    if r.0 == m && r.2 == sold {
        lemma_unchanged_moves_nothing(m, r.0);
        assert(moved_by(m, r.0, stay()));
    } else if open_space_at(m, x, yb) && r.2 == sold && exists|n: int| #[trigger] column_shifted(m, r.0, x, yb, n) {
        let n = choose|n: int| #[trigger] column_shifted(m, r.0, x, yb, n);
        lemma_shift_moves_material(m, r.0, x, yb, n);
        assert(moved_by(m, r.0, shift_down(x, yb, n)));
    } else {
        let n = choose|n: int| #[trigger] column_sold(m, r.0, sold, r.2, x, yb, n);
        assert(column_sold(m, r.0, sold, r.2, x, yb, n));
        if r.2.len() == sold.len() {
            assert forall|x2: int, y2: int| #[trigger] pixel_at(r.0, x2, y2) == pixel_at(m, x2, y2) by {
                assert(x2 != x || y2 <= yb || y2 > yb + n);
            }
            lemma_unchanged_moves_nothing(m, r.0);
            assert(moved_by(m, r.0, stay()));
        }
    }
}

/// Gravity applied along `coords` never shrinks the sold list, and where
/// it sells nothing it moves material one-to-one.
pub proof fn lemma_fold_moves_material(
    m: Map<(int, int), Seq<u8>>,
    coords: Seq<(int, int)>,
    next: Set<(int, int)>,
    sold: Seq<u8>,
)
    requires
        gravity_fold(m, coords, next, sold) is Some,
    ensures
        (gravity_fold(m, coords, next, sold)->0).2.len() >= sold.len(),
        (gravity_fold(m, coords, next, sold)->0).2.len() == sold.len() ==>
            exists|f: spec_fn((int, int)) -> (int, int)| #[trigger] moved_by(m, (gravity_fold(m, coords, next, sold)->0).0, f),
    decreases coords.len(),
{
    let out = gravity_fold(m, coords, next, sold)->0;
    if coords.len() == 0 {
        lemma_unchanged_moves_nothing(m, m);
        assert(moved_by(m, out.0, stay()));
    } else {
        let r = gravity_step(m, coords[0].0, coords[0].1, next, sold)->0;
        lemma_step_moves_material(m, coords[0].0, coords[0].1, next, sold);
        lemma_fold_moves_material(r.0, coords.drop_first(), r.1, r.2);
        if out.2.len() == sold.len() {
            let f = choose|f: spec_fn((int, int)) -> (int, int)| #[trigger] moved_by(m, r.0, f);
            let g = choose|g: spec_fn((int, int)) -> (int, int)| #[trigger] moved_by(r.0, out.0, g);
            lemma_moved_by_compose(m, r.0, out.0, f, g);
            assert(moved_by(m, out.0, |p: (int, int)| g(f(p))));
        }
    }
}

/// A gravity tick that sells nothing keeps every material other than sky
/// and light: its pixels are carried one-to-one onto the pixels that hold
/// it afterwards (moved_by), so it occurs exactly as often as before, and
/// the money held does not change (what was sold is worth nothing).
pub proof fn lemma_gravity_tick_keeps_material(m: Map<(int, int), Seq<u8>>, s: Seq<(int, int)>)
    requires
        gravity_outcome(m, s) is Some,
        (gravity_outcome(m, s)->0).2.len() == 0,
    ensures
        exists|f: spec_fn((int, int)) -> (int, int)| #[trigger] moved_by(m, (gravity_outcome(m, s)->0).0, f),
        sold_value((gravity_outcome(m, s)->0).2) == 0,
{
    lemma_fold_moves_material(m, s, Set::empty(), Seq::empty());
}

/// The world pixels that hold material v.
pub open spec fn cells_holding(m: Map<(int, int), Seq<u8>>, v: u8) -> Set<(int, int)> {
    Set::new(|p: (int, int)| pixel_at(m, p.0, p.1) == Some(v))
}

/// Material moved one-to-one occurs as often afterwards as before.
pub proof fn lemma_moved_material_counts(
    m: Map<(int, int), Seq<u8>>,
    r: Map<(int, int), Seq<u8>>,
    f: spec_fn((int, int)) -> (int, int),
    v: u8,
)
    requires
        moved_by(m, r, f),
        v != SKY,
        v != LIGHT,
        cells_holding(m, v).finite(),
    ensures
        cells_holding(r, v).finite(),
        cells_holding(r, v).len() == cells_holding(m, v).len(),
{
    let before = cells_holding(m, v);
    let after = cells_holding(r, v);
    assert forall|p: (int, int), q: (int, int)| before.contains(p) && before.contains(q) && #[trigger] f(p) == #[trigger] f(q)
        implies p == q by {
        assert(material_at(m, p) && material_at(m, q));
    }
    assert forall|q: (int, int)| #[trigger] after.contains(q) <==> before.map(f).contains(q) by {
        if after.contains(q) {
            assert(material_at(r, q));
            let p = choose|p: (int, int)| material_at(m, p) && #[trigger] f(p) == q;
            assert(before.contains(p));
        }
        if before.map(f).contains(q) {
            let p = choose|p: (int, int)| before.contains(p) && q == f(p);
            assert(material_at(m, p));
        }
    }
    assert(before.map(f) =~= after);
    vstd::set_lib::lemma_map_size(before, after, f);
}

/// A gravity tick that sells nothing leaves the number of pixels holding
/// each material other than sky and light as it was.
pub proof fn lemma_gravity_tick_keeps_counts(m: Map<(int, int), Seq<u8>>, s: Seq<(int, int)>, v: u8)
    requires
        forall|c: (int, int)| #[trigger] m.contains_key(c) ==> is_i32_pair(c),
        gravity_outcome(m, s) is Some,
        (gravity_outcome(m, s)->0).2.len() == 0,
        v != SKY,
        v != LIGHT,
    ensures
        cells_holding((gravity_outcome(m, s)->0).0, v).len() == cells_holding(m, v).len(),
{
    lemma_cells_holding_finite(m, v);
    lemma_gravity_tick_keeps_material(m, s);
    let f = choose|f: spec_fn((int, int)) -> (int, int)| #[trigger] moved_by(m, (gravity_outcome(m, s)->0).0, f);
    lemma_moved_material_counts(m, (gravity_outcome(m, s)->0).0, f, v);
}

/// The pairs (a, b) with lo <= a < lo + n and lo2 <= b < hi2.
pub open spec fn pair_box(lo: int, n: nat, lo2: int, hi2: int) -> Set<(int, int)> {
    Set::new(|p: (int, int)| lo <= p.0 < lo + n && lo2 <= p.1 < hi2)
}

proof fn lemma_pair_box_finite(lo: int, n: nat, lo2: int, hi2: int)
    requires
        lo2 <= hi2,
    ensures
        pair_box(lo, n, lo2, hi2).finite(),
    decreases n,
{
    if n == 0 {
        assert(pair_box(lo, n, lo2, hi2) =~= Set::<(int, int)>::empty());
    } else {
        let k = (n - 1) as nat;
        lemma_pair_box_finite(lo, k, lo2, hi2);
        let a = lo + k;
        let row = vstd::set_lib::set_int_range(lo2, hi2).map(|b: int| (a, b));
        vstd::set_lib::lemma_int_range(lo2, hi2);
        vstd::set_lib::set_int_range(lo2, hi2).lemma_map_finite(|b: int| (a, b));
        assert forall|p: (int, int)| #[trigger] pair_box(lo, n, lo2, hi2).contains(p)
            <==> pair_box(lo, k, lo2, hi2).union(row).contains(p) by {
            if p.0 == a && lo2 <= p.1 < hi2 {
                assert(vstd::set_lib::set_int_range(lo2, hi2).contains(p.1));
                assert(row.contains(p));
            }
        }
        assert(pair_box(lo, n, lo2, hi2) =~= pair_box(lo, k, lo2, hi2).union(row));
        vstd::set_lib::lemma_set_union_finite_iff(pair_box(lo, k, lo2, hi2), row);
    }
}

/// In a terrain whose chunks are named by pairs of i32 coordinates, as in
/// every ChunkMap, only finitely many pixels hold any given material.
pub proof fn lemma_cells_holding_finite(m: Map<(int, int), Seq<u8>>, v: u8)
    requires
        forall|c: (int, int)| #[trigger] m.contains_key(c) ==> is_i32_pair(c),
    ensures
        cells_holding(m, v).finite(),
{
    let lo: int = 600 * (i32::MIN as int) - 300;
    let n: nat = (600 * (i32::MAX as int - i32::MIN as int + 1)) as nat;
    let bx = pair_box(lo, n, lo, lo + n);
    lemma_pair_box_finite(lo, n, lo, lo + n);
    assert forall|p: (int, int)| #[trigger] cells_holding(m, v).contains(p) implies bx.contains(p) by {
        assert(m.contains_key(chunk_of(p.0, p.1)));
        assert(is_i32_pair(chunk_of(p.0, p.1)));
        assert(i32::MIN <= (p.0 + 300) / 600 <= i32::MAX);
        assert(i32::MIN <= (p.1 + 300) / 600 <= i32::MAX);
    }
    vstd::set_lib::lemma_set_subset_finite(bx, cells_holding(m, v));
}

/// No column of a pixel in `coords` holds the sell box anywhere.
pub open spec fn no_sell_box_in_columns(m: Map<(int, int), Seq<u8>>, coords: Seq<(int, int)>) -> bool {
    forall|i: int, y: int| 0 <= i < coords.len() ==> #[trigger] pixel_at(m, coords[i].0, y) != Some(SELL_BOX)
}

/// Gravity along `coords` whose columns hold no sell box sells nothing.
proof fn lemma_fold_without_sell_box(
    m: Map<(int, int), Seq<u8>>,
    coords: Seq<(int, int)>,
    next: Set<(int, int)>,
    sold: Seq<u8>,
)
    requires
        gravity_fold(m, coords, next, sold) is Some,
        no_sell_box_in_columns(m, coords),
    ensures
        (gravity_fold(m, coords, next, sold)->0).2 == sold,
    decreases coords.len(),
{
    if coords.len() > 0 {
        let x = coords[0].0;
        let y = coords[0].1;
        let yb = y - 1;
        let r = gravity_step(m, x, y, next, sold)->0;
        lemma_gravity_step_moves_or_sells(m, x, y, next, sold);
        assert(pixel_at(m, coords[0].0, yb) != Some(SELL_BOX));
        let rest = coords.drop_first();
        assert forall|i: int, y2: int| 0 <= i < rest.len() implies #[trigger] pixel_at(r.0, rest[i].0, y2) != Some(SELL_BOX) by {
            let xi = rest[i].0;
            assert(rest[i] == coords[i + 1]);
            assert(pixel_at(m, coords[i + 1].0, y2) != Some(SELL_BOX));
            assert(pixel_at(m, coords[i + 1].0, y2 + 1) != Some(SELL_BOX));
            if r.0 != m {
                let n = choose|n: int| #[trigger] column_shifted(m, r.0, x, yb, n);
                if xi == x && yb <= y2 < yb + n {
                    assert(pixel_at(r.0, x, y2) == pixel_at(m, x, y2 + 1));
                } else if xi == x && y2 == yb + n && n > 0 {
                    assert(pixel_at(r.0, x, yb + n) == Some(SKY));
                } else {
                    assert(pixel_at(r.0, xi, y2) == pixel_at(m, xi, y2));
                }
            }
        }
        lemma_fold_without_sell_box(r.0, rest, r.1, r.2);
    }
}

/// A gravity tick whose remembered pixels stand in columns without the
/// sell box sells nothing, so the money held stays as it was, and it
/// keeps every material other than sky and light: moved one-to-one, and
/// in a terrain whose chunks are named by i32 pairs (as in every ChunkMap)
/// each such material occurs as often afterwards as before.
pub proof fn lemma_gravity_tick_without_sell_box(
    m: Map<(int, int), Seq<u8>>,
    g: Set<(int, int)>,
    s: Seq<(int, int)>,
    v: u8,
)
    requires
        enumerates(s, g),
        forall|c: (int, int), y: int| g.contains(c) ==> #[trigger] pixel_at(m, c.0, y) != Some(SELL_BOX),
        gravity_outcome(m, s) is Some,
    ensures
        (gravity_outcome(m, s)->0).2.len() == 0,
        sold_value((gravity_outcome(m, s)->0).2) == 0,
        exists|f: spec_fn((int, int)) -> (int, int)| #[trigger] moved_by(m, (gravity_outcome(m, s)->0).0, f),
        (forall|c: (int, int)| #[trigger] m.contains_key(c) ==> is_i32_pair(c)) && v != SKY && v != LIGHT ==>
            cells_holding((gravity_outcome(m, s)->0).0, v).len() == cells_holding(m, v).len(),
{
    assert forall|i: int, y: int| 0 <= i < s.len() implies #[trigger] pixel_at(m, s[i].0, y) != Some(SELL_BOX) by {
        assert(s.contains(s[i]));
        assert(g.contains(s[i]));
    }
    lemma_fold_without_sell_box(m, s, Set::empty(), Seq::empty());
    lemma_gravity_tick_keeps_material(m, s);
    if (forall|c: (int, int)| #[trigger] m.contains_key(c) ==> is_i32_pair(c)) && v != SKY && v != LIGHT {
        lemma_gravity_tick_keeps_counts(m, s, v);
    }
}

} // verus!
