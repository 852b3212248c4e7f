use pixel_terrain::drill::{drill_tick, DrillState};
use pixel_terrain::color_map::REFINED_COPPER;
use pixel_terrain::color_map::{DIRT1, DRILL_BLACK, DRILL_GREY, GRAVEL1, GRAVEL3, ROCK, SKY};
use pixel_terrain::drill::{drill_step, flush_buffer};
use pixel_terrain::util::flatten_index;

#[test]
fn idle_drill_extends_its_pipe() {
    let mut grid = vec![SKY; 360000];
    let mut depth: usize = 0;
    let mut contents: Vec<u8> = Vec::new();
    assert!(drill_step(&mut grid, 0, 0, &mut depth, &mut contents, 5));
    assert_eq!(depth, 1);
    let colours: Vec<u8> = (1..7).map(|x| grid[flatten_index(x, -24)]).collect();
    assert_eq!(colours, vec![DRILL_BLACK, DRILL_BLACK, DRILL_GREY, DRILL_GREY, DRILL_BLACK, DRILL_BLACK]);
    assert!(contents.is_empty());
}

#[test]
fn drill_digs_and_empties_into_its_pipe() {
    let mut grid = vec![SKY; 360000];
    grid[flatten_index(1, -24)] = DIRT1;
    grid[flatten_index(2, -24)] = ROCK;
    let mut depth: usize = 0;
    let mut contents: Vec<u8> = Vec::new();
    assert!(drill_step(&mut grid, 0, 0, &mut depth, &mut contents, 5));
    assert_eq!(depth, 0);
    assert_eq!(grid[flatten_index(1, -24)], SKY);
    let g = grid[flatten_index(2, -24)];
    assert!(g >= GRAVEL1 && g <= GRAVEL3);
    assert_eq!(grid[flatten_index(-21, 16)], DIRT1);
    assert!(contents.is_empty());
}

#[test]
fn drill_at_the_floor_does_nothing() {
    let mut grid = vec![SKY; 360000];
    let mut depth: usize = 300;
    let mut contents: Vec<u8> = vec![DIRT1];
    assert!(drill_step(&mut grid, 0, 0, &mut depth, &mut contents, 5));
    assert_eq!(depth, 300);
    assert_eq!(contents, vec![DIRT1]);
    assert!(grid.iter().all(|p| *p == SKY));
}

#[test]
fn flush_fills_only_sky_oldest_first() {
    let mut grid = vec![SKY; 360000];
    grid[flatten_index(-20, 16)] = ROCK;
    let mut contents = vec![1, 2, 3];
    assert!(flush_buffer(&mut contents, &mut grid, 0, 0));
    assert_eq!(grid[flatten_index(-21, 16)], 1);
    assert_eq!(grid[flatten_index(-20, 16)], ROCK);
    assert_eq!(grid[flatten_index(-19, 16)], 2);
    assert_eq!(grid[flatten_index(-18, 16)], 3);
    assert!(contents.is_empty());
}

#[test]
fn drill_stops_at_material_it_cannot_handle() {
    let mut grid = vec![SKY; 360000];
    grid[flatten_index(3, -24)] = REFINED_COPPER;
    let mut depth: usize = 0;
    let mut contents: Vec<u8> = Vec::new();
    assert!(!drill_step(&mut grid, 0, 0, &mut depth, &mut contents, 1));
}

#[test]
fn drill_stops_outside_a_short_grid() {
    let mut grid = vec![SKY; 1000];
    let mut depth: usize = 0;
    let mut contents: Vec<u8> = Vec::new();
    assert!(!drill_step(&mut grid, 0, 0, &mut depth, &mut contents, 1));
}

#[test]
fn a_nearly_full_drill_takes_one_more_and_empties() {
    let mut grid = vec![SKY; 360000];
    for x in 1..7 {
        grid[flatten_index(x, -24)] = DIRT1;
    }
    let mut depth: usize = 0;
    let mut contents: Vec<u8> = vec![ROCK; 19];
    assert!(drill_step(&mut grid, 0, 0, &mut depth, &mut contents, 2));
    assert_eq!(grid[flatten_index(1, -24)], SKY);
    assert_eq!(grid[flatten_index(2, -24)], DIRT1);
    assert_eq!(contents.len(), 14);
    assert!(contents.len() <= 20);
    assert_eq!(depth, 0);
    assert_eq!(grid[flatten_index(-21, 16)], ROCK);
}

#[test]
fn flush_stops_outside_a_short_grid() {
    let mut grid = vec![SKY; 1000];
    let mut contents = vec![1];
    assert!(!flush_buffer(&mut contents, &mut grid, 0, 0));
}

#[test]
fn drills_wait_for_their_timer() {
    let mut grid = vec![SKY; 360000];
    grid[flatten_index(1, -24)] = DIRT1;
    let drills = vec![DrillState { x: 0, y: 0, depth: 0, contents: vec![ROCK] }];
    let (after, went_on) = drill_tick(false, &mut grid, drills, &vec![1]);
    assert!(went_on);
    assert_eq!(after.len(), 1);
    assert_eq!(after[0].depth, 0);
    assert_eq!(after[0].contents, vec![ROCK]);
    assert_eq!(grid[flatten_index(1, -24)], DIRT1);
    assert_eq!(grid[flatten_index(-21, 16)], SKY);
}

#[test]
fn drills_step_in_turn_once_the_timer_finishes() {
    let mut grid = vec![SKY; 360000];
    grid[flatten_index(1, -24)] = DIRT1;
    let drills = vec![
        DrillState { x: 0, y: 0, depth: 0, contents: Vec::new() },
        DrillState { x: 100, y: 0, depth: 0, contents: Vec::new() },
    ];
    let (after, went_on) = drill_tick(true, &mut grid, drills, &vec![1, 2]);
    assert!(went_on);
    assert_eq!(after.len(), 2);
    assert_eq!((after[0].x, after[0].y, after[0].depth), (0, 0, 0));
    assert!(after[0].contents.is_empty());
    assert_eq!(grid[flatten_index(1, -24)], SKY);
    assert_eq!(grid[flatten_index(-21, 16)], DIRT1);
    assert_eq!((after[1].x, after[1].y, after[1].depth), (100, 0, 1));
    assert_eq!(grid[flatten_index(101, -24)], DRILL_BLACK);
}

#[test]
fn drills_stop_at_the_first_that_cannot_go_on() {
    let mut grid = vec![SKY; 1000];
    let drills = vec![DrillState { x: 0, y: 0, depth: 0, contents: Vec::new() }];
    let (after, went_on) = drill_tick(true, &mut grid, drills, &vec![1]);
    assert!(!went_on);
    assert!(after.is_empty());
}
