use rlifesrc::cells::State;
use rlifesrc::error::Error;
use rlifesrc::rule::Rule;
use rlifesrc::world::{Symmetry, World};
use std::str::FromStr;

fn life() -> Rule {
    Rule::parse_rule("B3/S23").ok().unwrap()
}

fn code(state: Option<State>) -> u32 {
    match state {
        Some(State::Dead) => 2,
        Some(State::Alive) => 1,
        None => 0,
    }
}

fn pane(state: Option<State>) -> u32 {
    match state {
        Some(State::Dead) => 0x100,
        Some(State::Alive) => 0x001,
        None => 0,
    }
}

/// Checks that every descriptor is the function of the states around it.
fn descriptors_in_step(world: &World) {
    for c in 0..=world.size() {
        let cell = world.cell(c);
        let mut expected = code(cell.state) | code(world.cell(cell.succ).state) << 2;
        for k in 0..8 {
            expected |= pane(world.cell(cell.nbhd[k]).state) << (4 + k);
        }
        assert_eq!(cell.desc.0, expected, "cell {}", c);
    }
}

#[test]
fn symmetry_names_are_read() {
    assert_eq!(Symmetry::from_str("C1"), Ok(Symmetry::C1));
    assert_eq!(Symmetry::from_str("C2"), Ok(Symmetry::C2));
    assert_eq!(Symmetry::from_str("C4"), Ok(Symmetry::C4));
    assert_eq!(Symmetry::from_str("D2|"), Ok(Symmetry::D2Row));
    assert_eq!(Symmetry::from_str("D2-"), Ok(Symmetry::D2Column));
    assert_eq!(Symmetry::from_str("D2\\"), Ok(Symmetry::D2Diag));
    assert_eq!(Symmetry::from_str("D2/"), Ok(Symmetry::D2Antidiag));
    assert_eq!(Symmetry::from_str("D4+"), Ok(Symmetry::D4Ortho));
    assert_eq!(Symmetry::from_str("D4X"), Ok(Symmetry::D4Diag));
    assert_eq!(Symmetry::from_str("D8"), Ok(Symmetry::D8));
    assert_eq!(Symmetry::from_str("D9"), Err(String::from("invalid symmetry")));
    assert_eq!(Symmetry::from_str("c1"), Err(String::from("invalid symmetry")));
    assert_eq!("D4+".parse::<Symmetry>(), Ok(Symmetry::D4Ortho));
}

#[test]
fn fresh_world_is_unknown_inside_and_dead_outside() {
    let world = World::new(3, 2, 2, 0, 0, Symmetry::C1, life(), None);
    assert_eq!(world.size(), 5 * 4 * 2);
    for t in 0..2 {
        for x in -1..=3 {
            for y in -1..=2 {
                let inside = 0 <= x && x < 3 && 0 <= y && y < 2;
                let expected = if inside { None } else { Some(State::Dead) };
                assert_eq!(world.get_cell((x, y, t)), Ok((expected, false)));
            }
        }
    }
    descriptors_in_step(&world);
}

#[test]
fn positions_follow_the_order_of_search() {
    let columns = World::new(3, 2, 2, 0, 0, Symmetry::C1, life(), Some(true));
    assert_eq!(columns.find_cell((-1, -1, 0)), Some(0));
    assert_eq!(columns.find_cell((-1, -1, 1)), Some(1));
    assert_eq!(columns.find_cell((-1, 0, 0)), Some(2));
    assert_eq!(columns.find_cell((0, -1, 0)), Some(8));
    assert_eq!(columns.find_cell((3, 2, 1)), Some(39));
    let rows = World::new(3, 2, 2, 0, 0, Symmetry::C1, life(), Some(false));
    assert_eq!(rows.find_cell((0, -1, 0)), Some(2));
    assert_eq!(rows.find_cell((-1, 0, 0)), Some(10));
    assert_eq!(rows.find_cell((3, 2, 1)), Some(39));
    for world in [&columns, &rows] {
        assert_eq!(world.find_cell((4, 0, 0)), None);
        assert_eq!(world.find_cell((0, 3, 0)), None);
        assert_eq!(world.find_cell((-2, 0, 0)), None);
        assert_eq!(world.find_cell((0, 0, 2)), None);
        assert_eq!(world.find_cell((0, 0, -1)), None);
    }
}

#[test]
fn order_of_search_follows_the_longer_side() {
    let first = |world: World| world.get_unknown().unwrap();
    // Wider than high: column by column.
    let world = World::new(4, 2, 1, 0, 0, Symmetry::C1, life(), None);
    assert_eq!(world.find_cell((0, -1, 0)), Some(4));
    assert_eq!(first(world), 5);
    // Higher than wide: row by row.
    let world = World::new(2, 4, 1, 0, 0, Symmetry::C1, life(), None);
    assert_eq!(world.find_cell((-1, 0, 0)), Some(4));
    // A mirror halves the width that counts: 4 by 3 behaves as 2 by 3.
    let world = World::new(4, 3, 1, 0, 0, Symmetry::D2Row, life(), None);
    assert_eq!(world.find_cell((-1, 0, 0)), Some(6));
    let world = World::new(3, 4, 1, 0, 0, Symmetry::D2Column, life(), None);
    assert_eq!(world.find_cell((0, -1, 0)), Some(6));
    // Square: by the direction of the displacement, columns on a tie.
    let world = World::new(3, 3, 1, 0, 0, Symmetry::C1, life(), None);
    assert_eq!(world.find_cell((0, -1, 0)), Some(5));
    let world = World::new(3, 3, 2, 0, -2, Symmetry::C1, life(), None);
    assert_eq!(world.find_cell((-1, 0, 0)), Some(10));
    let world = World::new(3, 3, 2, -2, 1, Symmetry::C1, life(), None);
    assert_eq!(world.find_cell((0, -1, 0)), Some(10));
}

#[test]
fn invalid_coordinate_cannot_be_read() {
    let world = World::new(3, 3, 1, 0, 0, Symmetry::C1, life(), None);
    assert_eq!(world.get_cell((4, 0, 0)), Err(Error::GetCellError((4, 0, 0))));
    assert_eq!(world.get_cell((0, 0, 1)), Err(Error::GetCellError((0, 0, 1))));
    assert_eq!(world.get_cell((3, 3, 0)), Ok((Some(State::Dead), false)));
}

#[test]
fn border_cannot_be_set() {
    let mut world = World::new(3, 3, 1, 0, 0, Symmetry::C1, life(), None);
    assert_eq!(
        world.set_cell((-1, 0, 0), Some(State::Alive)),
        Err(Error::SetCellError((-1, 0, 0)))
    );
    assert_eq!(world.set_cell((0, 3, 0), None), Err(Error::SetCellError((0, 3, 0))));
    assert_eq!(world.set_cell((0, 0, 1), None), Err(Error::SetCellError((0, 0, 1))));
    assert_eq!(world.set_cell((9, 9, 0), None), Err(Error::SetCellError((9, 9, 0))));
    assert_eq!(world.get_cell((-1, 0, 0)), Ok((Some(State::Dead), false)));
    descriptors_in_step(&world);
}

#[test]
fn descriptors_follow_every_change() {
    let mut world = World::new(3, 3, 2, 1, 0, Symmetry::C1, life(), None);
    descriptors_in_step(&world);
    assert_eq!(world.set_cell((1, 1, 0), Some(State::Alive)), Ok(()));
    descriptors_in_step(&world);
    assert_eq!(world.set_cell((0, 1, 1), Some(State::Dead)), Ok(()));
    descriptors_in_step(&world);
    assert_eq!(world.set_cell((1, 1, 0), Some(State::Dead)), Ok(()));
    descriptors_in_step(&world);
    assert_eq!(world.set_cell((1, 1, 0), None), Ok(()));
    assert_eq!(world.set_cell((0, 1, 1), None), Ok(()));
    descriptors_in_step(&world);
    let fresh = World::new(3, 3, 2, 1, 0, Symmetry::C1, life(), None);
    for c in 0..=world.size() {
        assert_eq!(world.cell(c).desc, fresh.cell(c).desc);
        assert_eq!(world.cell(c).state, fresh.cell(c).state);
    }
}

#[test]
fn descriptor_of_a_changed_neighbour() {
    let mut world = World::new(3, 3, 1, 0, 0, Symmetry::C1, life(), Some(true));
    let centre = world.find_cell((1, 1, 0)).unwrap();
    // All eight neighbours, the cell and its successor (itself) are unknown.
    assert_eq!(world.cell(centre).desc.0, 0);
    // Neighbour 0 is the one at (-1, -1).
    world.set_cell((0, 0, 0), Some(State::Alive)).unwrap();
    assert_eq!(world.cell(centre).desc.0, 0x001 << 4);
    world.set_cell((2, 2, 0), Some(State::Dead)).unwrap();
    assert_eq!(world.cell(centre).desc.0, 0x001 << 4 | 0x100 << 11);
    world.set_cell((1, 1, 0), Some(State::Alive)).unwrap();
    assert_eq!(world.cell(centre).desc.0, 0x001 << 4 | 0x100 << 11 | 1 << 2 | 1);
    world.set_cell((0, 0, 0), Some(State::Dead)).unwrap();
    assert_eq!(world.cell(centre).desc.0, 0x100 << 4 | 0x100 << 11 | 1 << 2 | 1);
}

#[test]
fn neighbours_are_mutual() {
    let world = World::new(3, 2, 3, 1, -1, Symmetry::C1, life(), None);
    let sentinel = world.size();
    for c in 0..sentinel {
        let cell = world.cell(c);
        for k in 0..8 {
            let other = cell.nbhd[k];
            if other != sentinel {
                assert_eq!(world.cell(other).nbhd[7 - k], c);
            }
        }
        if let Some(pred) = cell.pred {
            assert_eq!(world.cell(pred).succ, c);
        }
        if cell.succ != sentinel {
            assert_eq!(world.cell(cell.succ).pred, Some(c));
        }
    }
    let last = world.cell(sentinel);
    assert_eq!(last.nbhd, [sentinel; 8]);
    assert_eq!(last.succ, sentinel);
    assert_eq!(last.pred, None);
    assert_eq!(last.state, Some(State::Dead));
}

#[test]
fn links_follow_the_geometry() {
    let world = World::new(4, 3, 2, 1, 0, Symmetry::C1, life(), None);
    let at = |x, y, t| world.find_cell((x, y, t)).unwrap();
    let cell = world.cell(at(1, 1, 0));
    let offsets = [(-1, -1), (-1, 0), (-1, 1), (0, -1), (0, 1), (1, -1), (1, 0), (1, 1)];
    for (k, (ox, oy)) in offsets.iter().enumerate() {
        assert_eq!(cell.nbhd[k], at(1 + ox, 1 + oy, 0));
    }
    assert_eq!(cell.succ, at(1, 1, 1));
    assert_eq!(cell.pred, Some(at(0, 1, 1)));
    assert_eq!(world.cell(at(1, 1, 1)).succ, at(2, 1, 0));
    assert_eq!(world.cell(at(1, 1, 1)).pred, Some(at(1, 1, 0)));
    // The corner has neighbours outside the grid.
    let corner = world.cell(at(-1, -1, 0));
    assert_eq!(corner.nbhd[0], world.size());
    assert_eq!(corner.nbhd[7], at(0, 0, 0));
    // The successor of the last column lies outside the grid.
    assert_eq!(world.cell(at(4, 0, 1)).succ, world.size());
    assert_eq!(world.cell(at(-1, 0, 0)).pred, None);
}

#[test]
fn cell_without_predecessor_is_held_to_its_default() {
    let world = World::new(3, 3, 1, 2, 0, Symmetry::C1, life(), None);
    // The predecessor of column 0 would lie at column -2.
    for y in 0..3 {
        assert_eq!(world.get_cell((0, y, 0)), Ok((Some(State::Dead), false)));
        assert_eq!(world.get_cell((1, y, 0)), Ok((None, false)));
        assert_eq!(world.get_cell((2, y, 0)), Ok((None, false)));
    }
    descriptors_in_step(&world);
}

#[test]
fn default_alternates_under_b0() {
    let rule = Rule::parse_rule("B0123478/S01234678").ok().unwrap();
    assert!(rule.has_b0());
    let world = World::new(2, 2, 4, 0, 0, Symmetry::C1, rule, None);
    for t in 0..4 {
        let expected = if t % 2 == 1 { State::Alive } else { State::Dead };
        for x in -1..=2 {
            for y in -1..=2 {
                let inside = 0 <= x && x < 2 && 0 <= y && y < 2;
                let state = world.get_cell((x, y, t)).unwrap().0;
                if inside {
                    assert_eq!(state, None);
                } else {
                    assert_eq!(state, Some(expected));
                }
            }
        }
    }
    assert_eq!(world.cell(world.size()).state, Some(State::Dead));
    descriptors_in_step(&world);
    // A cell that is held to its default has the default of its generation.
    let rule = Rule::parse_rule("B0123478/S01234678").ok().unwrap();
    let world = World::new(3, 2, 2, 0, 0, Symmetry::D2Diag, rule, None);
    assert_eq!(world.get_cell((2, 0, 0)), Ok((Some(State::Dead), false)));
    assert_eq!(world.get_cell((2, 0, 1)), Ok((Some(State::Alive), false)));
    assert_eq!(world.get_cell((0, 0, 1)), Ok((None, false)));
}

#[test]
fn twins_follow_the_symmetry() {
    let world = World::new(3, 3, 1, 0, 0, Symmetry::D8, life(), None);
    let at = |x, y| world.find_cell((x, y, 0)).unwrap();
    assert_eq!(
        world.cell(at(0, 1)).sym,
        vec![at(1, 2), at(1, 0), at(2, 1), at(0, 1), at(1, 0), at(1, 2), at(2, 1)]
    );
    let world = World::new(3, 3, 1, 0, 0, Symmetry::C4, life(), None);
    let at = |x, y| world.find_cell((x, y, 0)).unwrap();
    assert_eq!(world.cell(at(0, 0)).sym, vec![at(0, 2), at(2, 2), at(2, 0)]);
    let world = World::new(4, 2, 1, 0, 0, Symmetry::C2, life(), None);
    let at = |x, y| world.find_cell((x, y, 0)).unwrap();
    assert_eq!(world.cell(at(0, 0)).sym, vec![at(3, 1)]);
    let world = World::new(4, 2, 1, 0, 0, Symmetry::C1, life(), None);
    assert!(world.cell(world.find_cell((0, 0, 0)).unwrap()).sym.is_empty());
    assert!(world.cell(world.find_cell((-1, 0, 0)).unwrap()).sym.is_empty());
}

#[test]
fn full_symmetry_degrades_on_an_oblong_world() {
    let world = World::new(4, 2, 1, 0, 0, Symmetry::D8, life(), None);
    let at = |x, y| world.find_cell((x, y, 0)).unwrap();
    // Columns 2 and 3 are mapped to rows 2 and 3, outside the box: the
    // cells there are held dead, and so are their mirror images.
    for x in 0..4 {
        for y in 0..2 {
            assert_eq!(world.get_cell((x, y, 0)), Ok((Some(State::Dead), false)));
        }
    }
    // The twins that lie in the box are kept, in the order of the symmetry
    // group, and the others are left out.
    assert_eq!(
        world.cell(at(3, 0)).sym,
        vec![at(0, 0), at(0, 0), at(3, 1), at(1, 0), at(0, 1)]
    );
    assert_eq!(
        world.cell(at(0, 0)).sym,
        vec![at(1, 0), at(3, 0), at(0, 1), at(0, 0), at(3, 1)]
    );
    descriptors_in_step(&world);
}

#[test]
fn generation_is_shown_row_by_row() {
    let mut world = World::new(3, 2, 2, 0, 0, Symmetry::C1, life(), None);
    assert_eq!(world.display_gen(0), "???\n???\n");
    world.set_cell((0, 0, 0), Some(State::Alive)).unwrap();
    world.set_cell((2, 0, 0), Some(State::Dead)).unwrap();
    world.set_cell((1, 1, 0), Some(State::Alive)).unwrap();
    world.set_cell((0, 1, 1), Some(State::Dead)).unwrap();
    assert_eq!(world.display_gen(0), "O?.\n?O?\n");
    assert_eq!(world.display_gen(1), "???\n.??\n");
    assert_eq!(world.display_gen(2), "O?.\n?O?\n");
    assert_eq!(world.display_gen(5), "???\n.??\n");
    let empty = World::new(0, 0, 1, 0, 0, Symmetry::C1, life(), None);
    assert_eq!(empty.display_gen(0), "");
    let thin = World::new(0, 2, 1, 0, 0, Symmetry::C1, life(), None);
    assert_eq!(thin.display_gen(0), "\n\n");
}

#[test]
fn first_unknown_cell_is_found_in_order() {
    let mut world = World::new(2, 2, 2, 0, 0, Symmetry::C1, life(), Some(true));
    assert_eq!(world.get_unknown(), world.find_cell((0, 0, 0)));
    world.set_cell((0, 0, 0), Some(State::Dead)).unwrap();
    assert_eq!(world.get_unknown(), world.find_cell((0, 0, 1)));
    world.set_cell((0, 0, 1), Some(State::Dead)).unwrap();
    assert_eq!(world.get_unknown(), world.find_cell((0, 1, 0)));
    for x in 0..2 {
        for y in 0..2 {
            for t in 0..2 {
                world.set_cell((x, y, t), Some(State::Alive)).unwrap();
            }
        }
    }
    assert_eq!(world.get_unknown(), None);
    world.set_cell((1, 0, 1), None).unwrap();
    assert_eq!(world.get_unknown(), world.find_cell((1, 0, 1)));
}

fn filled(width: isize, height: isize, period: isize, rows: &[&[&str]]) -> World {
    let mut world = World::new(width, height, period, 0, 0, Symmetry::C1, life(), None);
    for (t, generation) in rows.iter().enumerate() {
        for (y, row) in generation.iter().enumerate() {
            for (x, ch) in row.chars().enumerate() {
                let state = if ch == 'O' { State::Alive } else { State::Dead };
                world.set_cell((x as isize, y as isize, t as isize), Some(state)).unwrap();
            }
        }
    }
    world
}

#[test]
fn empty_pattern_is_trivial() {
    assert!(!filled(2, 2, 1, &[&["..", ".."]]).nontrivial());
    assert!(filled(2, 2, 1, &[&["OO", "OO"]]).nontrivial());
    // Only the first generation counts for being empty.
    assert!(!filled(2, 1, 2, &[&[".."], &["O."]]).nontrivial());
    // An unknown cell is not a living cell.
    let world = World::new(2, 2, 1, 0, 0, Symmetry::C1, life(), None);
    assert!(!world.nontrivial());
}

#[test]
fn shorter_period_is_trivial() {
    assert!(!filled(2, 1, 2, &[&["O."], &["O."]]).nontrivial());
    assert!(filled(2, 1, 2, &[&["O."], &[".O"]]).nontrivial());
    // Period 4: generations 1 and 2 must both differ from generation 0;
    // generation 3 need not, because 3 does not divide 4.
    assert!(!filled(2, 1, 4, &[&["O."], &[".O"], &["O."], &[".O"]]).nontrivial());
    assert!(!filled(2, 1, 4, &[&["O."], &["O."], &[".O"], &[".O"]]).nontrivial());
    assert!(filled(2, 1, 4, &[&["O."], &[".O"], &["OO"], &["O."]]).nontrivial());
    // Period 3 has no proper divisor but 1.
    assert!(filled(2, 1, 3, &[&["O."], &[".O"], &["O."]]).nontrivial());
    assert!(!filled(2, 1, 3, &[&["O."], &["O."], &[".O"]]).nontrivial());
}
