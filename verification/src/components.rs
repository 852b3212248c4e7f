//! The game's data: the chunked terrain map, the set of pixels waiting
//! for gravity, tool contents and the plain marker components.
use vstd::prelude::*;
use std::collections::HashMap;
use std::collections::HashSet;
use vstd::std_specs::hash::group_hash_axioms;
use vstd::std_specs::hash::spec_hash_keys_iter;
use vstd::std_specs::iter::IteratorSpec;
use vstd::arithmetic::div_mod::lemma_fundamental_div_mod_converse;
use crate::util::{local_x_of, local_y_of, chunk_x_of, chunk_y_of, local_index_of, coord_in_range, get_chunk_x_g, get_chunk_y_g, get_local_x, get_local_y, flatten_index_standard_grid};
use crate::constants::CHUNK_AREA;

verus! {

broadcast use group_hash_axioms;

// ---------------------------------------------------------------------
// Packing a pair of i32 coordinates into one hash key
// ---------------------------------------------------------------------

/// The hash key of coordinate pair (x, y): both shifted to be
/// non-negative, x in the high 32 bits and y in the low 32 bits.
pub open spec fn coord_key(x: int, y: int) -> int {
    (x + 2147483648) * 4294967296 + (y + 2147483648)
}

pub open spec fn is_i32_pair(c: (int, int)) -> bool {
    i32::MIN <= c.0 <= i32::MAX && i32::MIN <= c.1 <= i32::MAX
}

/// The coordinate pair that key k stands for.
pub open spec fn key_coords(k: int) -> (int, int) {
    (k / 4294967296 - 2147483648, k % 4294967296 - 2147483648)
}

pub proof fn lemma_coord_key_bounds(x: int, y: int)
    requires
        is_i32_pair((x, y)),
    ensures
        0 <= coord_key(x, y) <= u64::MAX,
        key_coords(coord_key(x, y)) == (x, y),
{
    let k = coord_key(x, y);
    assert(0 <= (x + 2147483648) * 4294967296 <= 4294967295 * 4294967296) by (nonlinear_arith)
        requires 0 <= x + 2147483648 <= 4294967295;
    lemma_fundamental_div_mod_converse(k, 4294967296, x + 2147483648, y + 2147483648);
}

/// Distinct coordinate pairs have distinct keys.
pub proof fn lemma_coord_key_injective(a: (int, int), b: (int, int))
    requires
        is_i32_pair(a),
        is_i32_pair(b),
        coord_key(a.0, a.1) == coord_key(b.0, b.1),
    ensures
        a == b,
{
    lemma_coord_key_bounds(a.0, a.1);
    lemma_coord_key_bounds(b.0, b.1);
}

/// Every key in u64 stands for exactly one pair of i32 coordinates.
pub proof fn lemma_key_coords_roundtrip(k: int)
    requires
        0 <= k <= u64::MAX,
    ensures
        is_i32_pair(key_coords(k)),
        coord_key(key_coords(k).0, key_coords(k).1) == k,
{
    let q = k / 4294967296;
    let r = k % 4294967296;
    vstd::arithmetic::div_mod::lemma_fundamental_div_mod(k, 4294967296);
    assert(0 <= q < 4294967296) by {
        vstd::arithmetic::div_mod::lemma_div_pos_is_pos(k, 4294967296);
        vstd::arithmetic::div_mod::lemma_div_is_ordered(k, u64::MAX as int, 4294967296);
        assert(u64::MAX as int / 4294967296 == 4294967295);
    }
}

pub fn pack_coords(x: i32, y: i32) -> (k: u64)
    ensures
        k == coord_key(x as int, y as int),
{
    proof { lemma_coord_key_bounds(x as int, y as int); }
    let ux: u64 = (x as i64 + 2147483648) as u64;
    let uy: u64 = (y as i64 + 2147483648) as u64;
    assert(ux * 4294967296 <= 4294967295 * 4294967296) by (nonlinear_arith)
        requires ux <= 4294967295;
    ux * 4294967296 + uy
}

pub fn unpack_coords(k: u64) -> (c: (i32, i32))
    ensures
        c.0 == key_coords(k as int).0,
        c.1 == key_coords(k as int).1,
        coord_key(c.0 as int, c.1 as int) == k,
{
    proof { lemma_key_coords_roundtrip(k as int); }
    let ux: u64 = k / 4294967296;
    let uy: u64 = k % 4294967296;
    ((ux as i64 - 2147483648) as i32, (uy as i64 - 2147483648) as i32)
}

// ---------------------------------------------------------------------
// The chunked terrain map
// ---------------------------------------------------------------------

/// The chunk that holds world pixel (x, y).
pub open spec fn chunk_of(x: int, y: int) -> (int, int) {
    (chunk_x_of(x), chunk_y_of(y))
}

/// The value at index i of chunk c, or None where the chunk is missing
/// or too short to hold index i.
pub open spec fn cell_at(m: Map<(int, int), Seq<u8>>, c: (int, int), i: int) -> Option<u8> {
    if m.contains_key(c) && 0 <= i < m[c].len() {
        Some(m[c][i])
    } else {
        None
    }
}

/// The material at world pixel (x, y), or None where no chunk holds it.
pub open spec fn pixel_at(m: Map<(int, int), Seq<u8>>, x: int, y: int) -> Option<u8> {
    cell_at(m, chunk_of(x, y), local_index_of(x, y))
}

/// The map with index i of chunk c set to p.
pub open spec fn with_cell(m: Map<(int, int), Seq<u8>>, c: (int, int), i: int, p: u8) -> Map<(int, int), Seq<u8>> {
    if m.contains_key(c) && 0 <= i < m[c].len() {
        m.insert(c, m[c].update(i, p))
    } else {
        m
    }
}

/// The map with world pixel (x, y) set to p.
pub open spec fn with_pixel(m: Map<(int, int), Seq<u8>>, x: int, y: int, p: u8) -> Map<(int, int), Seq<u8>> {
    with_cell(m, chunk_of(x, y), local_index_of(x, y), p)
}

/// Distinct world pixels live in distinct cells: different chunks, or
/// different indices of one chunk.
pub proof fn lemma_pixel_cells_distinct(x1: int, y1: int, x2: int, y2: int)
    requires
        chunk_of(x1, y1) == chunk_of(x2, y2),
        local_index_of(x1, y1) == local_index_of(x2, y2),
    ensures
        x1 == x2,
        y1 == y2,
{
    let lx1 = local_x_of(x1);
    let lx2 = local_x_of(x2);
    let ly1 = local_y_of(y1);
    let ly2 = local_y_of(y2);
    vstd::arithmetic::div_mod::lemma_mod_bound(x1 + 300, 600);
    vstd::arithmetic::div_mod::lemma_mod_bound(x2 + 300, 600);
    vstd::arithmetic::div_mod::lemma_mod_bound(299 - y1, 600);
    vstd::arithmetic::div_mod::lemma_mod_bound(299 - y2, 600);
    lemma_fundamental_div_mod_converse(ly1 * 600 + lx1, 600, ly1, lx1);
    lemma_fundamental_div_mod_converse(ly2 * 600 + lx2, 600, ly2, lx2);
    vstd::arithmetic::div_mod::lemma_fundamental_div_mod(x1 + 300, 600);
    vstd::arithmetic::div_mod::lemma_fundamental_div_mod(x2 + 300, 600);
    vstd::arithmetic::div_mod::lemma_fundamental_div_mod(y1 + 300, 600);
    vstd::arithmetic::div_mod::lemma_fundamental_div_mod(y2 + 300, 600);
    let r1 = (y1 + 300) % 600;
    let r2 = (y2 + 300) % 600;
    vstd::arithmetic::div_mod::lemma_mod_bound(y1 + 300, 600);
    vstd::arithmetic::div_mod::lemma_mod_bound(y2 + 300, 600);
    lemma_fundamental_div_mod_converse(299 - y1, 600, -chunk_y_of(y1) , 599 - r1);
    lemma_fundamental_div_mod_converse(299 - y2, 600, -chunk_y_of(y2) , 599 - r2);
}

/// Writing world pixel (x, y) reads back at (x, y).
pub proof fn lemma_with_pixel_same(m: Map<(int, int), Seq<u8>>, x: int, y: int, p: u8)
    requires
        pixel_at(m, x, y) is Some,
    ensures
        pixel_at(with_pixel(m, x, y, p), x, y) == Some(p),
{
}

/// Writing world pixel (x, y) leaves every other world pixel as it was.
pub proof fn lemma_with_pixel_other(m: Map<(int, int), Seq<u8>>, x: int, y: int, p: u8, x2: int, y2: int)
    requires
        x != x2 || y != y2,
    ensures
        pixel_at(with_pixel(m, x, y, p), x2, y2) == pixel_at(m, x2, y2),
{
    if chunk_of(x, y) == chunk_of(x2, y2) && local_index_of(x, y) == local_index_of(x2, y2) {
        lemma_pixel_cells_distinct(x, y, x2, y2);
    }
}

/// Writing a cell keeps the set of chunks and every chunk's length.
pub proof fn lemma_with_cell_shape(m: Map<(int, int), Seq<u8>>, c: (int, int), i: int, p: u8)
    ensures
        with_cell(m, c, i, p).dom() == m.dom(),
        forall|d: (int, int)| #[trigger] m.contains_key(d) ==> with_cell(m, c, i, p)[d].len() == m[d].len(),
{
    assert(with_cell(m, c, i, p).dom() =~= m.dom());
    assert forall|d: (int, int)| #[trigger] m.contains_key(d) implies with_cell(m, c, i, p)[d].len() == m[d].len() by {
        if d == c && 0 <= i < m[c].len() {
            assert(with_cell(m, c, i, p)[d] == m[c].update(i, p));
        }
    }
}

/// Every world pixel's index inside its chunk lies in 0..CHUNK_AREA.
pub proof fn lemma_local_index_bounds(x: int, y: int)
    ensures
        0 <= local_index_of(x, y) < 360000,
{
    vstd::arithmetic::div_mod::lemma_mod_bound(x + 300, 600);
    vstd::arithmetic::div_mod::lemma_mod_bound(299 - y, 600);
    let lx = local_x_of(x);
    let ly = local_y_of(y);
    assert(0 <= ly * 600 + lx < 360000) by (nonlinear_arith)
        requires 0 <= lx < 600, 0 <= ly < 600;
}

/// Chunk c is loaded and holds a full chunk of pixels.
pub open spec fn chunk_ready(m: Map<(int, int), Seq<u8>>, c: (int, int)) -> bool {
    m.contains_key(c) && m[c].len() >= 360000
}

/// Writing a cell keeps every loaded chunk loaded and full.
pub proof fn lemma_with_pixel_keeps_ready(m: Map<(int, int), Seq<u8>>, x: int, y: int, p: u8, c: (int, int))
    requires
        chunk_ready(m, c),
    ensures
        chunk_ready(with_pixel(m, x, y, p), c),
{
    lemma_with_cell_shape(m, chunk_of(x, y), local_index_of(x, y), p);
}

/// The terrain: chunk-sized pixel grids keyed by chunk coordinates.
pub struct ChunkMap {
    map: HashMap<u64, Vec<u8>>,
}

impl View for ChunkMap {
    type V = Map<(int, int), Seq<u8>>;

    closed spec fn view(&self) -> Map<(int, int), Seq<u8>> {
        Map::new(
            |c: (int, int)| is_i32_pair(c) && self.map@.contains_key(coord_key(c.0, c.1) as u64),
            |c: (int, int)| self.map@[coord_key(c.0, c.1) as u64]@,
        )
    }
}

impl ChunkMap {
    /// Only pairs of i32 coordinates can name a chunk.
    pub proof fn lemma_keys_are_i32(&self)
        ensures
            forall|c: (int, int)| #[trigger] self@.contains_key(c) ==> is_i32_pair(c),
    {
    }

    /// An empty map.
    pub fn new() -> (m: ChunkMap)
        ensures
            m@ == Map::<(int, int), Seq<u8>>::empty(),
    {
        let m = ChunkMap { map: HashMap::new() };
        assert(m@ =~= Map::<(int, int), Seq<u8>>::empty());
        m
    }

    /// Whether the chunk at (chunk_x_g, chunk_y_g) has been generated.
    pub fn has_chunk(&self, chunk_x_g: i32, chunk_y_g: i32) -> (r: bool)
        ensures
            r == self@.contains_key((chunk_x_g as int, chunk_y_g as int)),
    {
        let k = pack_coords(chunk_x_g, chunk_y_g);
        self.map.contains_key(&k)
    }

    /// Stores `grid` as the chunk at (chunk_x_g, chunk_y_g), replacing any chunk there.
    pub fn insert_chunk(&mut self, chunk_x_g: i32, chunk_y_g: i32, grid: Vec<u8>)
        ensures
            final(self)@ == old(self)@.insert((chunk_x_g as int, chunk_y_g as int), grid@),
    {
        let k = pack_coords(chunk_x_g, chunk_y_g);
        let ghost g = grid@;
        self.map.insert(k, grid);
        proof {
            let c = (chunk_x_g as int, chunk_y_g as int);
            assert forall|d: (int, int)| is_i32_pair(d) && d != c implies
                coord_key(d.0, d.1) as u64 != k by {
                lemma_coord_key_bounds(d.0, d.1);
                if coord_key(d.0, d.1) as u64 == k {
                    lemma_coord_key_injective(d, c);
                }
            }
            assert(final(self)@ =~= old(self)@.insert(c, g));
        }
    }

    /// A copy of the chunk at (chunk_x_g, chunk_y_g), if there is one.
    pub fn chunk_copy(&self, chunk_x_g: i32, chunk_y_g: i32) -> (r: Option<Vec<u8>>)
        ensures
            match r {
                Some(v) => self@.contains_key((chunk_x_g as int, chunk_y_g as int))
                    && v@ == self@[(chunk_x_g as int, chunk_y_g as int)],
                None => !self@.contains_key((chunk_x_g as int, chunk_y_g as int)),
            },
    {
        let k = pack_coords(chunk_x_g, chunk_y_g);
        match self.map.get(&k) {
            Some(v) => {
                let c = v.clone();
                assert(c@ =~= v@);
                Some(c)
            },
            None => None,
        }
    }

    /// The value at `index` of the chunk at (chunk_x_g, chunk_y_g).
    pub fn get_cell(&self, chunk_x_g: i32, chunk_y_g: i32, index: usize) -> (r: Option<u8>)
        ensures
            r == cell_at(self@, (chunk_x_g as int, chunk_y_g as int), index as int),
    {
        let k = pack_coords(chunk_x_g, chunk_y_g);
        match self.map.get(&k) {
            Some(v) => {
                if index < v.len() {
                    Some(v[index])
                } else {
                    None
                }
            },
            None => None,
        }
    }

    /// Sets the value at `index` of the chunk at (chunk_x_g, chunk_y_g).
    pub fn set_cell(&mut self, chunk_x_g: i32, chunk_y_g: i32, index: usize, p: u8)
        requires
            cell_at(old(self)@, (chunk_x_g as int, chunk_y_g as int), index as int) is Some,
        ensures
            final(self)@ == with_cell(old(self)@, (chunk_x_g as int, chunk_y_g as int), index as int, p),
    {
        let k = pack_coords(chunk_x_g, chunk_y_g);
        let ghost c = (chunk_x_g as int, chunk_y_g as int);
        let removed = self.map.remove(&k);
        assert(removed is Some);
        match removed {
            Some(mut v) => {
                v.set(index, p);
                let ghost nv = v@;
                self.map.insert(k, v);
                proof {
                    assert forall|d: (int, int)| is_i32_pair(d) && d != c implies
                        coord_key(d.0, d.1) as u64 != k by {
                        lemma_coord_key_bounds(d.0, d.1);
                        if coord_key(d.0, d.1) as u64 == k {
                            lemma_coord_key_injective(d, c);
                        }
                    }
                    assert(final(self)@ =~= with_cell(old(self)@, c, index as int, p));
                }
            },
            None => {},
        }
    }

    /// The material at world pixel (x, y), if its chunk exists.
    pub fn pixel(&self, x: i32, y: i32) -> (r: Option<u8>)
        requires
            coord_in_range(x as int, y as int),
        ensures
            r == pixel_at(self@, x as int, y as int),
    {
        let (chunk_x_g, chunk_y_g) = (get_chunk_x_g(x), get_chunk_y_g(y));
        let local_index = flatten_index_standard_grid(&get_local_x(x), &get_local_y(y), 600);
        self.get_cell(chunk_x_g, chunk_y_g, local_index)
    }

    /// Sets the material at world pixel (x, y), whose chunk exists.
    pub fn set_pixel(&mut self, x: i32, y: i32, p: u8)
        requires
            coord_in_range(x as int, y as int),
            pixel_at(old(self)@, x as int, y as int) is Some,
        ensures
            final(self)@ == with_pixel(old(self)@, x as int, y as int, p),
    {
        let (chunk_x_g, chunk_y_g) = (get_chunk_x_g(x), get_chunk_y_g(y));
        let local_index = flatten_index_standard_grid(&get_local_x(x), &get_local_y(y), 600);
        self.set_cell(chunk_x_g, chunk_y_g, local_index, p);
    }
}

// ---------------------------------------------------------------------
// World pixels that gravity still has to look at
// ---------------------------------------------------------------------

/// The set of world pixels on which gravity acts at the next tick.
pub struct GravityCoords {
    coords: HashSet<u64>,
}

impl View for GravityCoords {
    type V = Set<(int, int)>;

    closed spec fn view(&self) -> Set<(int, int)> {
        Set::new(|c: (int, int)| is_i32_pair(c) && self.coords@.contains(coord_key(c.0, c.1) as u64))
    }
}

impl GravityCoords {
    /// An empty set.
    pub fn new() -> (s: GravityCoords)
        ensures
            s@ == Set::<(int, int)>::empty(),
    {
        let s = GravityCoords { coords: HashSet::new() };
        assert(s@ =~= Set::<(int, int)>::empty());
        s
    }

    /// Adds world pixel (x, y).
    pub fn insert(&mut self, x: i32, y: i32)
        ensures
            final(self)@ == old(self)@.insert((x as int, y as int)),
    {
        let k = pack_coords(x, y);
        self.coords.insert(k);
        proof {
            let c = (x as int, y as int);
            assert forall|d: (int, int)| is_i32_pair(d) && d != c implies
                coord_key(d.0, d.1) as u64 != k by {
                lemma_coord_key_bounds(d.0, d.1);
                if coord_key(d.0, d.1) as u64 == k {
                    lemma_coord_key_injective(d, c);
                }
            }
            assert(final(self)@ =~= old(self)@.insert(c));
        }
    }

    /// Whether world pixel (x, y) is in the set.
    pub fn contains(&self, x: i32, y: i32) -> (r: bool)
        ensures
            r == self@.contains((x as int, y as int)),
    {
        let k = pack_coords(x, y);
        self.coords.contains(&k)
    }

    /// The pixels of the set, each once, in the order the set yields them.
    pub fn to_vec(&self) -> (v: Vec<(i32, i32)>)
        ensures
            v@.no_duplicates(),
            forall|c: (int, int)| #[trigger] self@.contains(c) <==> exists|i: int|
                0 <= i < v@.len() && v@[i].0 == c.0 && v@[i].1 == c.1,
    {
        let mut v: Vec<(i32, i32)> = Vec::new();
        let ghost s = spec_hash_keys_iter(&self.coords).remaining();
        for k in it: self.coords.iter()
            invariant
                it.seq() == s,
                v@.len() == it.index(),
                forall|i: int| 0 <= i < it.index() ==>
                    (#[trigger] v@[i]).0 == key_coords(*it.seq()[i] as int).0
                    && v@[i].1 == key_coords(*it.seq()[i] as int).1,
        {
            let c = unpack_coords(*k);
            v.push(c);
        }
        proof {
            assert(s.unref().to_set() == self.coords@);
            assert(v@.len() == s.len());
            assert forall|i: int, j: int| 0 <= i < v@.len() && 0 <= j < v@.len() && i != j
                implies v@[i] != v@[j] by {
                lemma_key_coords_roundtrip(*s[i] as int);
                lemma_key_coords_roundtrip(*s[j] as int);
                assert(s.unref()[i] == *s[i]);
                assert(s.unref()[j] == *s[j]);
            }
            assert forall|c: (int, int)| #[trigger] self@.contains(c) implies exists|i: int|
                0 <= i < v@.len() && v@[i].0 == c.0 && v@[i].1 == c.1 by {
                let k = coord_key(c.0, c.1) as u64;
                lemma_coord_key_bounds(c.0, c.1);
                assert(s.unref().to_set().contains(k));
                assert(s.unref().contains(k));
                let i = s.unref().index_of(k);
                assert(0 <= i < s.len());
                assert(s.unref()[i] == k);
                assert(*s[i] == k);
                assert(k as int == coord_key(c.0, c.1));
                assert(v@[i].0 == key_coords(*s[i] as int).0);
            }
            assert forall|c: (int, int)| (exists|i: int|
                0 <= i < v@.len() && v@[i].0 == c.0 && v@[i].1 == c.1) implies #[trigger] self@.contains(c) by {
                let i = choose|i: int| 0 <= i < v@.len() && v@[i].0 == c.0 && v@[i].1 == c.1;
                lemma_key_coords_roundtrip(*s[i] as int);
                assert(s.unref()[i] == *s[i]);
                assert(s.unref().contains(*s[i]));
                assert(s.unref().to_set().contains(*s[i]));
            }
        }
        v
    }
}

// ---------------------------------------------------------------------
// Plain components
// ---------------------------------------------------------------------

/// Tag of the player entity's fog image.
pub struct FogImageTag;

/// Tag of the sell box entity.
pub struct SellBoxTag;

/// Tag of the sun entity.
pub struct SunTag;

/// Tag of the terrain image entities.
pub struct TerrainImageTag;

/// Tag of the chunk map entity.
pub struct ChunkMapTag;

/// Tag of the money text entity.
pub struct MoneyTextTag;

/// A boolean flag, such as whether the hoe is locked.
pub struct Bool {
    pub bool: bool,
}

/// A grid of values, row-major.
pub struct Grid<T> {
    pub data: Vec<T>,
}

/// Raw image bytes.
pub struct ImageBuffer {
    pub data: Vec<u8>,
}

/// The material a tool or machine is carrying, oldest first.
pub struct ContentList {
    pub contents: Vec<u8>,
}

/// Indices of fog pixels still to be uncovered.
pub struct FogIndicesToUncover {
    pub indices: HashSet<usize>,
}

/// The three dirt variants.
#[derive(Clone, Debug, PartialEq, Eq, Structural)]
pub enum DirtVariant {
    Dirt1,
    Dirt2,
    Dirt3,
}

/// The three gravel variants.
#[derive(Clone, Debug, PartialEq, Eq, Structural)]
pub enum GravelVariant {
    Gravel1,
    Gravel2,
    Gravel3,
}

/// A rock and the vertical force on it.
#[derive(Clone, Debug, PartialEq, Eq, Structural)]
pub struct Rock {
    pub vertical_force: usize,
}

/// Grid cells where erosion still has to be applied.
pub struct ErosionCoords {
    pub coords: HashSet<(usize, usize)>,
}

/// A counter, such as how deep a drill has gone.
pub struct USize {
    pub usize: usize,
}

} // verus!
