use rlifesrc::cells::{SetReason, State};
use rlifesrc::rule::Rule;
use rlifesrc::search::Search;
use rlifesrc::world::{Symmetry, World};

fn rule(text: &str) -> Rule {
    Rule::parse_rule(text).ok().unwrap()
}

fn alive(world: &World, x: isize, y: isize, t: isize) -> bool {
    match world.get_cell((x, y, t)) {
        Ok((state, _)) => state == Some(State::Alive),
        Err(_) => false,
    }
}

/// Checks the transition law of a totalistic rule at every cell of the
/// stored grid, with everything outside the grid dead.
fn obeys(world: &World, births: &[usize], survivals: &[usize], dx: isize, dy: isize) -> bool {
    let (w, h, p) = (world.width(), world.height(), world.period());
    for t in 0..p {
        for x in -1..=w {
            for y in -1..=h {
                let mut count = 0;
                for (ox, oy) in [(-1, -1), (-1, 0), (-1, 1), (0, -1), (0, 1), (1, -1), (1, 0), (1, 1)] {
                    if alive(world, x + ox, y + oy, t) {
                        count += 1;
                    }
                }
                let next = if alive(world, x, y, t) {
                    survivals.contains(&count)
                } else {
                    births.contains(&count)
                };
                let found = if t == p - 1 {
                    alive(world, x + dx, y + dy, 0)
                } else {
                    alive(world, x, y, t + 1)
                };
                if next != found {
                    return false;
                }
            }
        }
    }
    true
}

fn population(world: &World, t: isize) -> usize {
    let mut count = 0;
    for x in 0..world.width() {
        for y in 0..world.height() {
            if alive(world, x, y, t) {
                count += 1;
            }
        }
    }
    count
}

#[test]
fn still_life_with_full_symmetry() {
    let world = World::new(5, 5, 1, 0, 0, Symmetry::D8, rule("B3/S23"), None);
    let mut search = Search::new(world, false);
    assert!(search.search().is_ok());
    let world = search.world();
    println!("{}", world.display_gen(0));
    assert!(world.get_unknown().is_none());
    assert!(world.nontrivial());
    assert!(obeys(world, &[3], &[2, 3], 0, 0));
    for x in 0..5 {
        for y in 0..5 {
            let here = alive(world, x, y, 0);
            assert_eq!(here, alive(world, y, x, 0));
            assert_eq!(here, alive(world, 4 - x, y, 0));
            assert_eq!(here, alive(world, x, 4 - y, 0));
        }
    }
}

#[test]
fn blinker_is_found() {
    let world = World::new(3, 3, 2, 0, 0, Symmetry::C1, rule("B3/S23"), None);
    let mut search = Search::new(world, false);
    assert!(search.search().is_ok());
    let world = search.world();
    println!("{}{}", world.display_gen(0), world.display_gen(1));
    assert!(world.nontrivial());
    assert!(obeys(world, &[3], &[2, 3], 0, 0));
    assert_eq!(population(world, 0), 3);
    assert_eq!(population(world, 1), 3);
    assert!(alive(world, 1, 1, 0) && alive(world, 1, 1, 1));
    let upright = alive(world, 1, 0, 0) && alive(world, 1, 2, 0);
    let level = alive(world, 0, 1, 0) && alive(world, 2, 1, 0);
    assert!(upright != level);
    assert_eq!(upright, alive(world, 0, 1, 1) && alive(world, 2, 1, 1));
    assert_eq!(level, alive(world, 1, 0, 1) && alive(world, 1, 2, 1));
}

#[test]
fn shifted_pattern_is_sound_when_reported() {
    let world = World::new(5, 4, 4, 0, 1, Symmetry::D2Row, rule("B3/S23"), None);
    let mut search = Search::new(world, false);
    let res = search.search();
    let world = search.world();
    println!("{:?}\n{}", res, world.display_gen(0));
    if res.is_ok() {
        assert!(world.nontrivial());
        assert!(obeys(world, &[3], &[2, 3], 0, 1));
        for t in 0..4 {
            for x in 0..5 {
                for y in 0..4 {
                    assert_eq!(alive(world, x, y, t), alive(world, 4 - x, y, t));
                }
            }
        }
    } else {
        assert!(world.get_unknown().is_some());
    }
}

#[test]
fn still_life_with_rotation_symmetry() {
    let world = World::new(6, 6, 1, 0, 0, Symmetry::C4, rule("B36/S23"), None);
    let mut search = Search::new(world, false);
    assert!(search.search().is_ok());
    let world = search.world();
    println!("{}", world.display_gen(0));
    assert!(world.nontrivial());
    assert!(obeys(world, &[3, 6], &[2, 3], 0, 0));
    for x in 0..6 {
        for y in 0..6 {
            assert_eq!(alive(world, x, y, 0), alive(world, y, 5 - x, 0));
        }
    }
}

#[test]
fn one_cell_world_is_exhausted() {
    let world = World::new(1, 1, 1, 0, 0, Symmetry::C1, rule("B3/S23"), None);
    let mut search = Search::new(world, false);
    assert!(search.search().is_err());
    assert_eq!(search.world().get_cell((0, 0, 0)), Ok((None, false)));
}

#[test]
fn all_dead_is_not_a_pattern() {
    let world = World::new(3, 3, 1, 0, 0, Symmetry::C1, rule("B3/S23"), None);
    let mut search = Search::new(world, false);
    for x in 0..3 {
        for y in 0..3 {
            let cell = search.world().find_cell((x, y, 0)).unwrap();
            assert!(search.set_cell(cell, State::Dead, SetReason::Guess).is_ok());
        }
    }
    assert!(search.world().get_unknown().is_none());
    assert!(!search.world().nontrivial());
    assert!(search.search().is_err());
    assert!(search.world().get_unknown().is_some());
}
