//! Material codes of terrain pixels, the material classes the game
//! rules use, and random picks among material variants.
use vstd::prelude::*;
use rand::rngs::SmallRng;
use rand::SeedableRng;
use rand::distr::Distribution;
use rand::distr::slice::Choose;

verus! {

pub const SKY: u8 = 0;
pub const DIRT1: u8 = 1;
pub const DIRT2: u8 = 2;
pub const DIRT3: u8 = 3;
pub const COPPER: u8 = 4;
pub const ROCK: u8 = 5;
pub const GRAVEL1: u8 = 6;
pub const GRAVEL2: u8 = 7;
pub const GRAVEL3: u8 = 8;
pub const LIGHT: u8 = 9;
pub const REFINED_COPPER: u8 = 10;
pub const SELL_BOX: u8 = 11;
pub const TRANSLUCENT_GREY: u8 = 12;
pub const CLEAR: u8 = 13;
pub const WHITE: u8 = 14;
pub const RED: u8 = 15;
pub const STEEL: u8 = 16;
pub const PLAYER_SKIN: u8 = 17;
pub const BLACK: u8 = 18;
pub const DRILL_BLACK: u8 = 19;
pub const DRILL_GREY: u8 = 20;
pub const SILVER: u8 = 21;
pub const GRASS1: u8 = 22;
pub const GRASS2: u8 = 23;

/// Materials that fall when nothing holds them up.
pub open spec fn gravity_affected(p: u8) -> bool {
    p == DIRT1 || p == DIRT2 || p == DIRT3 || p == GRAVEL1 || p == GRAVEL2 || p == GRAVEL3
        || p == GRASS1 || p == GRASS2
}

/// Materials that count as solid ground, in which ore may grow.
pub open spec fn ground(p: u8) -> bool {
    p == DIRT1 || p == DIRT2 || p == DIRT3 || p == GRAVEL1 || p == GRAVEL2 || p == GRAVEL3
        || p == COPPER || p == SILVER || p == ROCK || p == GRASS1 || p == GRASS2
}

/// Materials the shovel can pick up.
pub open spec fn shovel_able(p: u8) -> bool {
    p == DIRT1 || p == DIRT2 || p == DIRT3 || p == GRAVEL1 || p == GRAVEL2 || p == GRAVEL3
        || p == COPPER || p == SILVER || p == GRASS1 || p == GRASS2
}

/// Materials an entity can move through or stand in.
pub open spec fn passable(p: u8) -> bool {
    p == SKY || p == SELL_BOX || p == LIGHT
}

/// Empty space into which material can be put or fall.
pub open spec fn open_space(p: u8) -> bool {
    p == SKY || p == LIGHT
}

pub open spec fn dirt_variant(p: u8) -> bool {
    p == DIRT1 || p == DIRT2 || p == DIRT3
}

pub open spec fn gravel_variant(p: u8) -> bool {
    p == GRAVEL1 || p == GRAVEL2 || p == GRAVEL3
}

pub open spec fn grass_variant(p: u8) -> bool {
    p == GRASS1 || p == GRASS2
}

/// What one pixel fetches at the sell box, in hundredths of a dollar.
pub open spec fn sell_value_cents_spec(p: u8) -> u32 {
    if p == COPPER {
        50
    } else if p == SILVER {
        100
    } else if dirt_variant(p) || gravel_variant(p) {
        1
    } else {
        0
    }
}

pub fn is_gravity_affected(p: u8) -> (r: bool)
    ensures
        r == gravity_affected(p),
{
    p == DIRT1 || p == DIRT2 || p == DIRT3 || p == GRAVEL1 || p == GRAVEL2 || p == GRAVEL3
        || p == GRASS1 || p == GRASS2
}

pub fn is_ground(p: u8) -> (r: bool)
    ensures
        r == ground(p),
{
    p == DIRT1 || p == DIRT2 || p == DIRT3 || p == GRAVEL1 || p == GRAVEL2 || p == GRAVEL3
        || p == COPPER || p == SILVER || p == ROCK || p == GRASS1 || p == GRASS2
}

pub fn is_shovel_able(p: u8) -> (r: bool)
    ensures
        r == shovel_able(p),
{
    p == DIRT1 || p == DIRT2 || p == DIRT3 || p == GRAVEL1 || p == GRAVEL2 || p == GRAVEL3
        || p == COPPER || p == SILVER || p == GRASS1 || p == GRASS2
}

pub fn is_passable(p: u8) -> (r: bool)
    ensures
        r == passable(p),
{
    p == SKY || p == SELL_BOX || p == LIGHT
}

pub fn is_open_space(p: u8) -> (r: bool)
    ensures
        r == open_space(p),
{
    p == SKY || p == LIGHT
}

/// What one pixel fetches at the sell box, in hundredths of a dollar.
pub fn sell_value_cents(p: u8) -> (cents: u32)
    ensures
        cents == sell_value_cents_spec(p),
{
    if p == COPPER {
        50
    } else if p == SILVER {
        100
    } else if p == DIRT1 || p == DIRT2 || p == DIRT3 || p == GRAVEL1 || p == GRAVEL2 || p == GRAVEL3 {
        1
    } else {
        0
    }
}

// ---------------------------------------------------------------------
// Random variants
// ---------------------------------------------------------------------

/// rand's `SmallRng`, a small fast pseudo-random generator, carried as an
/// opaque value.
#[verifier::external_type_specification]
#[verifier::external_body]
pub struct ExSmallRng(SmallRng);

/// `SmallRng::seed_from_u64` of rand: a small fast generator whose state
/// is derived from `seed` by wrapping arithmetic alone. Nothing is stated
/// of that state, which only decides which random picks come out.
#[verifier::external_body]
fn small_rng_from_seed(seed: u64) -> SmallRng {
    SmallRng::seed_from_u64(seed)
}

/// `Choose::new(choices)` of rand followed by its `sample`: one element
/// of `choices`, each position equally likely. Stated: the result is an
/// element of `choices` (the source samples an index below the slice's
/// length). The probabilities are not stated.
#[verifier::external_body]
fn choose_sample(choices: &[u8], rng: &mut SmallRng) -> (r: u8)
    requires
        choices@.len() > 0,
    ensures
        choices@.contains(r),
{
    *Choose::new(choices).unwrap().sample(rng)
}

/// An endless source of random picks among a fixed list of material
/// variants; a variant listed several times is picked more often.
pub struct VariantPmf {
    rng: SmallRng,
    choices: Vec<u8>,
}

impl VariantPmf {
    /// The weighted list the picks are drawn from.
    pub closed spec fn choices(&self) -> Seq<u8> {
        self.choices@
    }

    /// The next random pick.
    pub fn next(&mut self) -> (r: u8)
        requires
            old(self).choices().len() > 0,
        ensures
            final(self).choices() == old(self).choices(),
            old(self).choices().contains(r),
    {
        choose_sample(self.choices.as_slice(), &mut self.rng)
    }
}

/// Gravel variants: the first four times as likely as each of the others.
/// `seed` decides the sequence of picks.
pub fn gravel_variant_pmf(seed: u64) -> (pmf: VariantPmf)
    ensures
        pmf.choices() == seq![GRAVEL1, GRAVEL1, GRAVEL1, GRAVEL1, GRAVEL2, GRAVEL3],
{
    VariantPmf { rng: small_rng_from_seed(seed), choices: vec![GRAVEL1, GRAVEL1, GRAVEL1, GRAVEL1, GRAVEL2, GRAVEL3] }
}

/// Dirt variants in the proportions three, two and one, picked in the
/// sequence that `seed` decides.
pub fn dirt_variant_pmf(seed: u64) -> (pmf: VariantPmf)
    ensures
        pmf.choices() == seq![DIRT1, DIRT1, DIRT1, DIRT2, DIRT2, DIRT3],
{
    VariantPmf { rng: small_rng_from_seed(seed), choices: vec![DIRT1, DIRT1, DIRT1, DIRT2, DIRT2, DIRT3] }
}

/// The two grass variants, equally likely, picked in the sequence that
/// `seed` decides.
pub fn grass_variant_pmf(seed: u64) -> (pmf: VariantPmf)
    ensures
        pmf.choices() == seq![GRASS1, GRASS2],
{
    VariantPmf { rng: small_rng_from_seed(seed), choices: vec![GRASS1, GRASS2] }
}

/// A pick from the gravel list is a gravel variant.
pub proof fn lemma_gravel_choices(r: u8)
    requires
        seq![GRAVEL1, GRAVEL1, GRAVEL1, GRAVEL1, GRAVEL2, GRAVEL3].contains(r),
    ensures
        gravel_variant(r),
{
    let s = seq![GRAVEL1, GRAVEL1, GRAVEL1, GRAVEL1, GRAVEL2, GRAVEL3];
    let i = choose|i: int| 0 <= i < s.len() && s[i] == r;
}

/// A pick from the dirt list is a dirt variant.
pub proof fn lemma_dirt_choices(r: u8)
    requires
        seq![DIRT1, DIRT1, DIRT1, DIRT2, DIRT2, DIRT3].contains(r),
    ensures
        dirt_variant(r),
{
    let s = seq![DIRT1, DIRT1, DIRT1, DIRT2, DIRT2, DIRT3];
    let i = choose|i: int| 0 <= i < s.len() && s[i] == r;
}

/// A pick from the grass list is a grass variant.
pub proof fn lemma_grass_choices(r: u8)
    requires
        seq![GRASS1, GRASS2].contains(r),
    ensures
        grass_variant(r),
{
    let s = seq![GRASS1, GRASS2];
    let i = choose|i: int| 0 <= i < s.len() && s[i] == r;
}

} // verus!
