use rlifesrc::cells::{ConflReason, SetReason, State};
use rlifesrc::desc::Desc;
use rlifesrc::rule::Rule;
use rlifesrc::search::Search;
use rlifesrc::world::{Symmetry, World};

fn life() -> Rule {
    Rule::parse_rule("B3/S23").ok().unwrap()
}

fn snapshot(world: &World) -> Vec<(Option<State>, bool, Desc)> {
    (0..=world.size())
        .map(|c| {
            let cell = world.cell(c);
            (cell.state, cell.free, cell.desc)
        })
        .collect()
}

fn is_alive(world: &World, x: isize, y: isize) -> bool {
    matches!(world.get_cell((x, y, 0)), Ok((Some(State::Alive), _)))
}

/// Whether the first generation is a still life of Life, the border
/// included.
fn still(world: &World) -> bool {
    for x in -1..=world.width() {
        for y in -1..=world.height() {
            let mut count = 0;
            for ox in -1..=1 {
                for oy in -1..=1 {
                    if (ox, oy) != (0, 0) && is_alive(world, x + ox, y + oy) {
                        count += 1;
                    }
                }
            }
            let here = is_alive(world, x, y);
            let next = count == 3 || (here && count == 2);
            if next != here {
                return false;
            }
        }
    }
    true
}

#[test]
fn taking_back_restores_the_cells_exactly() {
    let world = World::new(4, 3, 2, 1, 0, Symmetry::C1, life(), None);
    let mut search = Search::new(world, false);
    let before = snapshot(search.world());
    let cell = search.world().find_cell((1, 1, 0)).unwrap();
    assert_eq!(search.set_cell(cell, State::Alive, SetReason::Guess), Ok(()));
    let other = search.world().find_cell((2, 1, 1)).unwrap();
    assert_eq!(search.set_cell(other, State::Dead, SetReason::Guess), Ok(()));
    assert_ne!(snapshot(search.world()), before);
    assert_eq!(search.world().cell(cell).state, Some(State::Alive));
    // Nothing on the trail is a guess of the search: backing up takes
    // everything back and says that the search is exhausted.
    assert!(!search.backup());
    assert_eq!(snapshot(search.world()), before);
}

#[test]
fn taking_back_after_propagation_restores_the_cells_exactly() {
    let world = World::new(4, 4, 2, 0, 0, Symmetry::C2, life(), None);
    let mut search = Search::new(world, false);
    let before = snapshot(search.world());
    for (x, y) in [(1, 1), (2, 1), (1, 2)] {
        let cell = search.world().find_cell((x, y, 0)).unwrap();
        let _ = search.set_cell(cell, State::Alive, SetReason::Guess);
    }
    let _ = search.proceed();
    assert_ne!(snapshot(search.world()), before);
    assert!(!search.backup());
    assert_eq!(snapshot(search.world()), before);
}

#[test]
fn set_cell_leaves_a_known_cell_alone() {
    let world = World::new(3, 3, 1, 0, 0, Symmetry::C1, life(), None);
    let mut search = Search::new(world, false);
    let cell = search.world().find_cell((1, 1, 0)).unwrap();
    assert_eq!(search.set_cell(cell, State::Alive, SetReason::Guess), Ok(()));
    let after = snapshot(search.world());
    assert_eq!(search.set_cell(cell, State::Alive, SetReason::Rule(3)), Ok(()));
    assert_eq!(snapshot(search.world()), after);
    assert_eq!(
        search.set_cell(cell, State::Dead, SetReason::Rule(3)),
        Err(ConflReason::Rule(3))
    );
    assert_eq!(
        search.set_cell(cell, State::Dead, SetReason::Sym(4)),
        Err(ConflReason::Sym(cell, 4))
    );
    assert_eq!(search.set_cell(cell, State::Dead, SetReason::Guess), Err(ConflReason::Guess));
    assert_eq!(snapshot(search.world()), after);
    // The border and the sentinel are known to be dead.
    let border = search.world().find_cell((-1, 0, 0)).unwrap();
    assert_eq!(search.set_cell(border, State::Dead, SetReason::Guess), Ok(()));
    assert_eq!(search.set_cell(border, State::Alive, SetReason::Rule(0)), Err(ConflReason::Rule(0)));
    let sentinel = search.world().size();
    assert_eq!(search.set_cell(sentinel, State::Dead, SetReason::Guess), Ok(()));
    assert_eq!(snapshot(search.world()), after);
}

#[test]
fn set_cell_sets_the_twins() {
    let world = World::new(3, 3, 1, 0, 0, Symmetry::D8, life(), None);
    let mut search = Search::new(world, false);
    let corner = search.world().find_cell((0, 0, 0)).unwrap();
    assert_eq!(search.set_cell(corner, State::Alive, SetReason::Guess), Ok(()));
    let world = search.world();
    for (x, y) in [(0, 0), (2, 0), (0, 2), (2, 2)] {
        assert_eq!(world.get_cell((x, y, 0)), Ok((Some(State::Alive), false)));
    }
    for (x, y) in [(1, 0), (0, 1), (1, 1), (2, 1), (1, 2)] {
        assert_eq!(world.get_cell((x, y, 0)), Ok((None, false)));
    }
}

#[test]
fn twin_with_the_other_state_is_a_conflict() {
    let mut world = World::new(2, 1, 1, 0, 0, Symmetry::C2, life(), None);
    world.set_cell((1, 0, 0), Some(State::Dead)).unwrap();
    let mut search = Search::new(world, false);
    let cell = search.world().find_cell((0, 0, 0)).unwrap();
    let twin = search.world().find_cell((1, 0, 0)).unwrap();
    assert_eq!(
        search.set_cell(cell, State::Alive, SetReason::Guess),
        Err(ConflReason::Sym(twin, cell))
    );
    assert_eq!(search.world().cell(cell).state, Some(State::Alive));
    assert!(!search.backup());
    assert_eq!(search.world().cell(cell).state, None);
}

#[test]
fn consistify_gives_the_implied_states() {
    let mut world = World::new(3, 3, 2, 0, 0, Symmetry::C1, life(), None);
    for (x, y) in [(0, 0), (1, 0), (2, 0)] {
        world.set_cell((x, y, 0), Some(State::Alive)).unwrap();
    }
    for (x, y) in [(0, 1), (2, 1), (0, 2), (1, 2), (2, 2)] {
        world.set_cell((x, y, 0), Some(State::Dead)).unwrap();
    }
    let mut search = Search::new(world, false);
    let centre = search.world().find_cell((1, 1, 0)).unwrap();
    let next = search.world().find_cell((1, 1, 1)).unwrap();
    // Three living neighbours: whatever the cell is, its successor lives.
    assert_eq!(search.consistify(centre), Ok(()));
    assert_eq!(search.world().cell(next).state, Some(State::Alive));
    assert_eq!(search.world().cell(centre).state, None);
    assert!(!search.world().cell(next).free);
    // The cell above the middle of the row has three living neighbours and
    // lies in the border, which is dead in the next generation too.
    let above = search.world().find_cell((1, -1, 0)).unwrap();
    assert_eq!(search.consistify(above), Err(ConflReason::Rule(above)));
}

#[test]
fn consistify_deduces_neighbours_and_the_cell() {
    let mut world = World::new(3, 3, 2, 0, 0, Symmetry::C1, life(), None);
    // The cell at (1, 1) is dead and lives in the next generation: with two
    // living neighbours known and one unknown, the unknown one is alive.
    world.set_cell((1, 1, 0), Some(State::Dead)).unwrap();
    world.set_cell((1, 1, 1), Some(State::Alive)).unwrap();
    world.set_cell((0, 0, 0), Some(State::Alive)).unwrap();
    world.set_cell((1, 0, 0), Some(State::Alive)).unwrap();
    for (x, y) in [(0, 1), (2, 1), (0, 2), (1, 2), (2, 2)] {
        world.set_cell((x, y, 0), Some(State::Dead)).unwrap();
    }
    let mut search = Search::new(world, false);
    let centre = search.world().find_cell((1, 1, 0)).unwrap();
    assert_eq!(search.consistify(centre), Ok(()));
    assert_eq!(search.world().get_cell((2, 0, 0)), Ok((Some(State::Alive), false)));

    let mut world = World::new(3, 3, 2, 0, 0, Symmetry::C1, life(), None);
    // Two living neighbours and a living successor: the cell is alive.
    world.set_cell((1, 1, 1), Some(State::Alive)).unwrap();
    world.set_cell((0, 0, 0), Some(State::Alive)).unwrap();
    world.set_cell((1, 0, 0), Some(State::Alive)).unwrap();
    for (x, y) in [(2, 0), (0, 1), (2, 1), (0, 2), (1, 2), (2, 2)] {
        world.set_cell((x, y, 0), Some(State::Dead)).unwrap();
    }
    let mut search = Search::new(world, false);
    let centre = search.world().find_cell((1, 1, 0)).unwrap();
    assert_eq!(search.consistify(centre), Ok(()));
    assert_eq!(search.world().get_cell((1, 1, 0)), Ok((Some(State::Alive), false)));
}

#[test]
fn backup_flips_the_last_guess() {
    let world = World::new(2, 2, 1, 0, 0, Symmetry::C1, life(), Some(true));
    let mut search = Search::new(world, false);
    // The first go guesses nothing; the search guesses the first cell dead,
    // and the block cannot be completed.
    assert!(search.search().is_ok());
    assert_eq!(search.world().display_gen(0), "OO\nOO\n");
    // The first cell was guessed dead first, and flipped: it is not free.
    assert_eq!(search.world().get_cell((0, 0, 0)), Ok((Some(State::Alive), false)));
    // There is no other pattern: the next search is exhausted, and the cells
    // are unknown again.
    assert!(search.search().is_err());
    assert_eq!(search.world().display_gen(0), "??\n??\n");
}

#[test]
fn guess_is_dead_first() {
    let world = World::new(3, 3, 1, 0, 0, Symmetry::C1, life(), Some(true));
    let mut search = Search::new(world, false);
    assert!(search.go());
    assert!(search.world().get_unknown().is_some());
    assert!(search.search().is_ok());
    // The first pattern in the order of search has its first cell dead.
    assert_eq!(search.world().get_cell((0, 0, 0)).unwrap().0, Some(State::Dead));
}

#[test]
fn every_still_life_is_found_once() {
    let mut expected = Vec::new();
    for bits in 1..512u32 {
        let mut world = World::new(3, 3, 1, 0, 0, Symmetry::C1, life(), Some(true));
        for i in 0..9 {
            let state = if bits >> i & 1 == 1 { State::Alive } else { State::Dead };
            world.set_cell((i / 3, i % 3, 0), Some(state)).unwrap();
        }
        if still(&world) {
            expected.push(world.display_gen(0));
        }
    }
    let world = World::new(3, 3, 1, 0, 0, Symmetry::C1, life(), Some(true));
    let mut search = Search::new(world, false);
    let mut found = Vec::new();
    while search.search().is_ok() {
        assert!(still(search.world()));
        assert!(search.world().nontrivial());
        found.push(search.world().display_gen(0));
        assert!(found.len() <= 512);
    }
    assert!(!expected.is_empty());
    found.sort();
    expected.sort();
    assert_eq!(found, expected);
    assert_eq!(search.world().display_gen(0), "???\n???\n???\n");
}

#[test]
fn consistent_pattern_propagates_without_change() {
    let world = World::new(4, 4, 1, 0, 0, Symmetry::C1, life(), None);
    let mut search = Search::new(world, false);
    for x in 0..4 {
        for y in 0..4 {
            let inside = (1..3).contains(&x) && (1..3).contains(&y);
            let state = if inside { State::Alive } else { State::Dead };
            let cell = search.world().find_cell((x, y, 0)).unwrap();
            assert_eq!(search.set_cell(cell, state, SetReason::Guess), Ok(()));
        }
    }
    let before = snapshot(search.world());
    assert_eq!(search.proceed(), Ok(()));
    assert_eq!(snapshot(search.world()), before);
    assert!(search.go());
    assert_eq!(snapshot(search.world()), before);
    assert!(search.world().nontrivial());
}

#[test]
fn inconsistent_pattern_is_a_conflict() {
    let world = World::new(3, 3, 1, 0, 0, Symmetry::C1, life(), None);
    let mut search = Search::new(world, false);
    for x in 0..3 {
        for y in 0..3 {
            let state = if y == 1 { State::Alive } else { State::Dead };
            let cell = search.world().find_cell((x, y, 0)).unwrap();
            assert_eq!(search.set_cell(cell, state, SetReason::Guess), Ok(()));
        }
    }
    assert!(matches!(search.proceed(), Err(ConflReason::Rule(_))));
    assert!(!search.go());
    assert_eq!(search.world().display_gen(0), "???\n???\n???\n");
}

#[test]
fn reasons_name_the_known_cells() {
    let mut world = World::new(3, 3, 2, 0, 0, Symmetry::C1, life(), Some(true));
    world.set_cell((1, 1, 0), Some(State::Dead)).unwrap();
    world.set_cell((0, 0, 0), Some(State::Alive)).unwrap();
    world.set_cell((2, 2, 0), Some(State::Dead)).unwrap();
    world.set_cell((1, 1, 1), Some(State::Alive)).unwrap();
    let at = |x, y, t| world.find_cell((x, y, t)).unwrap();
    let centre = at(1, 1, 0);
    assert_eq!(
        ConflReason::Rule(centre).cells(&world),
        vec![centre, at(1, 1, 1), at(0, 0, 0), at(2, 2, 0)]
    );
    assert_eq!(
        SetReason::Rule(centre).cells(&world, at(0, 0, 0)),
        vec![centre, at(1, 1, 1), at(2, 2, 0)]
    );
    assert_eq!(
        SetReason::Rule(centre).cells(&world, centre),
        vec![at(1, 1, 1), at(0, 0, 0), at(2, 2, 0)]
    );
    assert_eq!(SetReason::Sym(7).cells(&world, 3), vec![7]);
    assert_eq!(SetReason::Guess.cells(&world, 3), Vec::<usize>::new());
    assert_eq!(ConflReason::Sym(3, 7).cells(&world), vec![3, 7]);
    assert_eq!(ConflReason::Guess.cells(&world), Vec::<usize>::new());
    // A corner of the border: its neighbours outside the grid are left out,
    // those in the border are dead.
    let corner = at(-1, -1, 0);
    assert_eq!(
        ConflReason::Rule(corner).cells(&world),
        vec![corner, at(-1, -1, 1), at(-1, 0, 0), at(0, -1, 0), at(0, 0, 0)]
    );
}

#[test]
fn time_is_taken_when_asked() {
    let world = World::new(2, 2, 1, 0, 0, Symmetry::C1, life(), None);
    let mut timed = Search::new(world, true);
    assert!(timed.search().is_ok());
    assert!(matches!(timed.elapsed_ms(), Some(ms) if ms >= 0));
    let world = World::new(2, 2, 1, 0, 0, Symmetry::C1, life(), None);
    let mut plain = Search::new(world, false);
    assert!(plain.search().is_ok());
    assert_eq!(plain.elapsed_ms(), None);
}

#[test]
fn glider_is_found() {
    let world = World::new(5, 5, 4, 1, 1, Symmetry::C1, life(), None);
    let mut search = Search::new(world, false);
    assert!(search.search().is_ok());
    let world = search.world();
    assert!(world.nontrivial());
    for t in 0..4 {
        let text = world.display_gen(t);
        assert_eq!(text.chars().filter(|ch| *ch == 'O').count(), 5);
        assert!(!text.contains('?'));
    }
}

/// The next generation of a pattern in a 3 by 3 box under the rule of Life,
/// or nothing where a cell of the border would be born.
fn step(cells: [[bool; 3]; 3]) -> Option<[[bool; 3]; 3]> {
    let at = |x: isize, y: isize| {
        (0..3).contains(&x) && (0..3).contains(&y) && cells[x as usize][y as usize]
    };
    let mut next = [[false; 3]; 3];
    for x in -1..=3isize {
        for y in -1..=3isize {
            let mut count = 0;
            for ox in -1..=1 {
                for oy in -1..=1 {
                    if (ox, oy) != (0, 0) && at(x + ox, y + oy) {
                        count += 1;
                    }
                }
            }
            let alive = count == 3 || (at(x, y) && count == 2);
            if (0..3).contains(&x) && (0..3).contains(&y) {
                next[x as usize][y as usize] = alive;
            } else if alive {
                return None;
            }
        }
    }
    Some(next)
}

fn text(cells: [[bool; 3]; 3]) -> String {
    let mut out = String::new();
    for y in 0..3 {
        for x in 0..3 {
            out.push(if cells[x][y] { 'O' } else { '.' });
        }
        out.push('\n');
    }
    out
}

#[test]
fn every_oscillator_of_period_two_is_found_once() {
    let mut expected = Vec::new();
    for bits in 1..512u32 {
        let mut first = [[false; 3]; 3];
        for i in 0..9 {
            first[i / 3][i % 3] = bits >> i & 1 == 1;
        }
        if let Some(second) = step(first) {
            if second != first && step(second) == Some(first) {
                expected.push(format!("{}{}", text(first), text(second)));
            }
        }
    }
    let world = World::new(3, 3, 2, 0, 0, Symmetry::C1, life(), None);
    let mut search = Search::new(world, false);
    let mut found = Vec::new();
    while search.search().is_ok() {
        let world = search.world();
        found.push(format!("{}{}", world.display_gen(0), world.display_gen(1)));
        assert!(found.len() <= 512);
    }
    found.sort();
    expected.sort();
    assert_eq!(expected.len(), 2);
    assert_eq!(found, expected);
}

#[test]
fn every_symmetric_still_life_is_found_once() {
    let mut expected = Vec::new();
    for bits in 1..(1u32 << 16) {
        let alive = |x: isize, y: isize| {
            (0..4).contains(&x) && (0..4).contains(&y) && bits >> (x * 4 + y) & 1 == 1
        };
        let mut fine = true;
        for x in -1..=4isize {
            for y in -1..=4isize {
                let mut count = 0;
                for ox in -1..=1 {
                    for oy in -1..=1 {
                        if (ox, oy) != (0, 0) && alive(x + ox, y + oy) {
                            count += 1;
                        }
                    }
                }
                let next = count == 3 || (alive(x, y) && count == 2);
                fine &= next == alive(x, y);
                fine &= alive(x, y) == alive(y, 3 - x);
            }
        }
        if fine {
            let mut out = String::new();
            for y in 0..4 {
                for x in 0..4 {
                    out.push(if alive(x, y) { 'O' } else { '.' });
                }
                out.push('\n');
            }
            expected.push(out);
        }
    }
    let world = World::new(4, 4, 1, 0, 0, Symmetry::C4, life(), None);
    let mut search = Search::new(world, false);
    let mut found = Vec::new();
    while search.search().is_ok() {
        found.push(search.world().display_gen(0));
        assert!(found.len() <= 1000);
    }
    found.sort();
    expected.sort();
    assert!(expected.len() >= 2);
    assert_eq!(found, expected);
}

#[test]
fn implied_neighbour_that_a_twin_has_set_is_a_conflict_of_the_rule() {
    // A dead cell is born only when its western neighbour alone is alive.
    let rule = Rule::new(vec![0x02], vec![]);
    let mut world = World::new(3, 3, 2, 0, 0, Symmetry::D2Row, rule, Some(true));
    world.set_cell((1, 1, 0), Some(State::Dead)).unwrap();
    world.set_cell((1, 1, 1), Some(State::Alive)).unwrap();
    let mut search = Search::new(world, false);
    let centre = search.world().find_cell((1, 1, 0)).unwrap();
    // The west is alive and the east is dead, says the rule; the mirror says
    // that they are the same.
    assert_eq!(search.consistify(centre), Err(ConflReason::Rule(centre)));
    let world = search.world();
    assert_eq!(world.get_cell((0, 0, 0)), Ok((Some(State::Dead), false)));
    assert_eq!(world.get_cell((2, 0, 0)), Ok((Some(State::Dead), false)));
    assert_eq!(world.get_cell((0, 1, 0)), Ok((Some(State::Alive), false)));
    assert_eq!(world.get_cell((2, 1, 0)), Ok((Some(State::Alive), false)));
    assert_eq!(world.get_cell((1, 0, 0)), Ok((Some(State::Dead), false)));
    assert_eq!(world.get_cell((0, 2, 0)), Ok((Some(State::Dead), false)));
    assert_eq!(world.get_cell((1, 2, 0)), Ok((Some(State::Dead), false)));
    assert_eq!(world.get_cell((2, 2, 0)), Ok((Some(State::Dead), false)));
    assert!(!search.backup());
    assert_eq!(search.world().get_cell((0, 1, 0)), Ok((None, false)));
}

#[test]
fn consistify_hands_on_the_conflict_of_symmetry() {
    let mut world = World::new(4, 3, 2, 0, 0, Symmetry::C2, life(), Some(true));
    for (x, y) in [(0, 0), (1, 0), (2, 0)] {
        world.set_cell((x, y, 0), Some(State::Alive)).unwrap();
    }
    for (x, y) in [(0, 1), (2, 1), (0, 2), (1, 2), (2, 2)] {
        world.set_cell((x, y, 0), Some(State::Dead)).unwrap();
    }
    // The half turn maps (1, 1) to (2, 1).
    world.set_cell((2, 1, 1), Some(State::Dead)).unwrap();
    let mut search = Search::new(world, false);
    let cell = search.world().find_cell((1, 1, 0)).unwrap();
    let next = search.world().find_cell((1, 1, 1)).unwrap();
    let twin = search.world().find_cell((2, 1, 1)).unwrap();
    // Three living neighbours: the successor lives, and its twin is dead.
    assert_eq!(search.consistify(cell), Err(ConflReason::Sym(twin, next)));
    assert_eq!(search.world().cell(next).state, Some(State::Alive));
    assert_eq!(search.world().cell(twin).state, Some(State::Dead));
    assert_eq!(search.world().cell(cell).state, None);
    assert_eq!(
        search.proceed(),
        Err(ConflReason::Sym(twin, next))
    );
    assert!(!search.backup());
    assert_eq!(search.world().cell(next).state, None);
}
