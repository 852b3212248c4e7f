use pixel_terrain::color_map::{
    is_gravity_affected, is_ground, is_open_space, is_passable, is_shovel_able, sell_value_cents,
    gravel_variant_pmf, dirt_variant_pmf, grass_variant_pmf, SKY, DIRT1, DIRT2, DIRT3, COPPER, ROCK,
    GRAVEL1, GRAVEL2, GRAVEL3, LIGHT, REFINED_COPPER, SELL_BOX, TRANSLUCENT_GREY, SILVER, GRASS1, GRASS2,
};

#[test]
fn material_classes() {
    for p in [DIRT1, DIRT2, DIRT3, GRAVEL1, GRAVEL2, GRAVEL3, GRASS1, GRASS2] {
        assert!(is_gravity_affected(p));
        assert!(is_shovel_able(p));
        assert!(is_ground(p));
    }
    assert!(!is_gravity_affected(COPPER));
    assert!(is_shovel_able(COPPER));
    assert!(is_shovel_able(SILVER));
    assert!(is_ground(ROCK));
    assert!(!is_shovel_able(ROCK));
    assert!(!is_ground(SKY));
    assert!(is_passable(SKY) && is_passable(SELL_BOX) && is_passable(LIGHT));
    assert!(!is_passable(ROCK));
    assert!(is_open_space(SKY) && is_open_space(LIGHT) && !is_open_space(SELL_BOX));
    assert!(!is_shovel_able(TRANSLUCENT_GREY));
}

#[test]
fn sell_values_in_cents() {
    assert_eq!(sell_value_cents(COPPER), 50);
    assert_eq!(sell_value_cents(SILVER), 100);
    for p in [DIRT1, DIRT2, DIRT3, GRAVEL1, GRAVEL2, GRAVEL3] {
        assert_eq!(sell_value_cents(p), 1);
    }
    for p in [SKY, ROCK, GRASS1, GRASS2, SELL_BOX, REFINED_COPPER, LIGHT] {
        assert_eq!(sell_value_cents(p), 0);
    }
}

#[test]
fn variant_picks_stay_in_their_family() {
    let mut gravel = gravel_variant_pmf(11);
    let mut dirt = dirt_variant_pmf(22);
    let mut grass = grass_variant_pmf(33);
    let mut seen_gravel = [false; 3];
    for _ in 0..500 {
        let g = gravel.next();
        assert!(g == GRAVEL1 || g == GRAVEL2 || g == GRAVEL3);
        seen_gravel[(g - GRAVEL1) as usize] = true;
        let d = dirt.next();
        assert!(d == DIRT1 || d == DIRT2 || d == DIRT3);
        let s = grass.next();
        assert!(s == GRASS1 || s == GRASS2);
    }
    assert!(seen_gravel.iter().all(|b| *b));
}

#[test]
fn one_seed_gives_one_sequence_of_picks() {
    let mut a = gravel_variant_pmf(42);
    let mut b = gravel_variant_pmf(42);
    let picks_a: Vec<u8> = (0..50).map(|_| a.next()).collect();
    let picks_b: Vec<u8> = (0..50).map(|_| b.next()).collect();
    assert_eq!(picks_a, picks_b);
    assert!(picks_a.iter().all(|p| *p == GRAVEL1 || *p == GRAVEL2 || *p == GRAVEL3));
}
