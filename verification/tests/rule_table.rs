use rlifesrc::cells::State;
use rlifesrc::desc::Desc;
use rlifesrc::error::Error;
use rlifesrc::rule::Rule;

const CONFLICT: u32 = 0x01;
const SUCC_ALIVE: u32 = 0x04;
const SUCC_DEAD: u32 = 0x08;
const SELF_ALIVE: u32 = 0x10;
const SELF_DEAD: u32 = 0x20;

const UNKNOWN: u32 = 0;
const ALIVE: u32 = 1;
const DEAD: u32 = 2;

fn counted(counts: &[u32]) -> Vec<u8> {
    (0..=255u8).filter(|n| counts.contains(&n.count_ones())).collect()
}

fn life() -> Rule {
    Rule::new(counted(&[3]), counted(&[2, 3]))
}

fn desc(own: u32, succ: u32, alive: u32, dead: u32) -> Desc {
    Desc(dead << 12 | alive << 4 | succ << 2 | own)
}

/// Whether some completion of the fields obeys the rule of Life.
fn feasible(own: u32, succ: u32, alive: u32, dead: u32) -> bool {
    for full in 0..256u32 {
        if full & alive != alive || full & dead != 0 {
            continue;
        }
        for own_alive in [false, true] {
            if own != UNKNOWN && (own == ALIVE) != own_alive {
                continue;
            }
            let count = full.count_ones();
            let next = if own_alive { count == 2 || count == 3 } else { count == 3 };
            if succ == UNKNOWN || (succ == ALIVE) == next {
                return true;
            }
        }
    }
    false
}

#[test]
fn parse_rule_accepts_life() {
    assert!(Rule::parse_rule("B3/S23").is_ok());
}

#[test]
fn parse_rule_refuses_junk() {
    assert!(matches!(Rule::parse_rule("B3/S23junk"), Err(Error::ParseRuleError(_))));
    assert!(matches!(Rule::parse_rule(""), Err(Error::ParseRuleError(_))));
}

#[test]
fn parsed_rule_is_built_from_the_parsed_data() {
    let parsed = Rule::parse_rule("B3/S23").ok().unwrap();
    let built = life();
    let mut d: u32 = 12345;
    for _ in 0..20000 {
        d = d.wrapping_mul(1664525).wrapping_add(1013904223);
        let index = Desc(d >> 12);
        assert_eq!(parsed.implication(index), built.implication(index));
    }
    let other = Rule::parse_rule("B36/S23").ok().unwrap();
    let six = desc(DEAD, UNKNOWN, 0x3f, 0xc0);
    assert_eq!(built.implication(six), SUCC_DEAD);
    assert_eq!(other.implication(six), SUCC_ALIVE);
}

#[test]
fn table_is_a_function_of_the_data() {
    let first = life();
    let second = life();
    for d in (0..0x100000u32).step_by(37) {
        assert_eq!(first.implication(Desc(d)), second.implication(Desc(d)));
    }
    assert_eq!(first.has_b0(), second.has_b0());
}

#[test]
fn dead_cell_with_three_living_neighbours_is_born() {
    let rule = life();
    assert_eq!(rule.implication(desc(DEAD, UNKNOWN, 0x07, 0xf8)), SUCC_ALIVE);
    assert_eq!(rule.implication(desc(DEAD, UNKNOWN, 0x03, 0xfc)), SUCC_DEAD);
    assert_eq!(rule.implication(desc(ALIVE, UNKNOWN, 0x03, 0xfc)), SUCC_ALIVE);
    assert_eq!(rule.implication(desc(UNKNOWN, UNKNOWN, 0x03, 0xfc)), 0);
    assert_eq!(rule.implication(desc(UNKNOWN, UNKNOWN, 0x07, 0xf8)), SUCC_ALIVE);
    assert_eq!(rule.implication(desc(UNKNOWN, UNKNOWN, 0x0f, 0xf0)), SUCC_DEAD);
}

#[test]
fn successor_is_forced_with_unknown_neighbours() {
    let rule = life();
    // Five living neighbours already: dead whatever the other three are.
    assert_eq!(rule.implication(desc(UNKNOWN, UNKNOWN, 0x1f, 0x00)), SUCC_DEAD);
    // Seven dead neighbours: at most one alive.
    assert_eq!(rule.implication(desc(ALIVE, UNKNOWN, 0x00, 0x7f)), SUCC_DEAD);
    // Two alive and the rest unknown: open.
    assert_eq!(rule.implication(desc(ALIVE, UNKNOWN, 0x03, 0x00)), 0);
}

#[test]
fn known_transition_is_a_conflict_or_nothing() {
    let rule = life();
    assert_eq!(rule.implication(desc(DEAD, DEAD, 0x07, 0xf8)), CONFLICT);
    assert_eq!(rule.implication(desc(DEAD, ALIVE, 0x07, 0xf8)), 0);
    assert_eq!(rule.implication(desc(ALIVE, ALIVE, 0x01, 0xfe)), CONFLICT);
    assert_eq!(rule.implication(desc(ALIVE, DEAD, 0x01, 0xfe)), 0);
}

#[test]
fn own_state_is_deduced() {
    let rule = life();
    assert_eq!(rule.implication(desc(UNKNOWN, ALIVE, 0x03, 0xfc)), SELF_ALIVE);
    assert_eq!(rule.implication(desc(UNKNOWN, DEAD, 0x03, 0xfc)), SELF_DEAD);
    assert_eq!(rule.implication(desc(UNKNOWN, ALIVE, 0x07, 0xf8)), 0);
    assert_eq!(rule.implication(desc(UNKNOWN, DEAD, 0x07, 0xf8)), CONFLICT);
}

#[test]
fn neighbour_state_is_deduced() {
    let rule = life();
    for i in 0..8u32 {
        let unknown = 1u32 << i;
        let others = 0xff & !unknown;
        // Two of the known neighbours alive.
        let mut alive = 0;
        let mut picked = 0;
        for j in 0..8 {
            if j != i && picked < 2 {
                alive |= 1 << j;
                picked += 1;
            }
        }
        let dead = others & !alive;
        let must_live = 1u32 << (2 * i + 6);
        let must_die = 1u32 << (2 * i + 7);
        assert_eq!(rule.implication(desc(DEAD, ALIVE, alive, dead)), must_live);
        assert_eq!(rule.implication(desc(DEAD, DEAD, alive, dead)), must_die);
        assert_eq!(rule.implication(desc(ALIVE, ALIVE, alive, dead)), 0);
        assert_eq!(rule.implication(desc(ALIVE, DEAD, alive, dead)), CONFLICT);
    }
}

#[test]
fn several_deductions_share_an_entry() {
    let rule = life();
    // The cell is dead and its successor alive; one neighbour is alive and
    // two are unknown: both must be alive. The own state is known.
    let flags = rule.implication(desc(DEAD, ALIVE, 0x01, 0xf8));
    assert_eq!(flags, 1 << (2 * 1 + 6) | 1 << (2 * 2 + 6));
    // The same with the own state unknown: a living cell would survive
    // on two or three, so nothing is forced on the neighbours or the cell.
    let flags = rule.implication(desc(UNKNOWN, ALIVE, 0x01, 0xf8));
    assert_eq!(flags, 0);
    // Successor dead, three neighbours alive, one unknown: the cell cannot be
    // dead unless the unknown neighbour is alive too.
    let flags = rule.implication(desc(UNKNOWN, DEAD, 0x07, 0xf0));
    assert_eq!(flags, 1 << (2 * 3 + 6));
}

#[test]
fn impossible_descriptors_have_no_flags() {
    let rule = life();
    assert_eq!(rule.implication(Desc(3)), 0);
    assert_eq!(rule.implication(Desc(3 << 2)), 0);
    assert_eq!(rule.implication(desc(DEAD, DEAD, 0x01, 0x01)), 0);
    assert_eq!(rule.implication(Desc(0xfffff)), 0);
}

#[test]
fn conflict_means_no_completion() {
    let rule = life();
    let mut seed: u32 = 2024;
    let mut seen_conflict = false;
    let mut seen_fine = false;
    for _ in 0..3000 {
        seed = seed.wrapping_mul(1664525).wrapping_add(1013904223);
        let alive = (seed >> 8) & 0xff;
        let dead = (seed >> 16) & 0xff & !alive;
        let own = (seed >> 24) % 3;
        let succ = (seed >> 26) % 3;
        let flags = rule.implication(desc(own, succ, alive, dead));
        let conflict = flags & CONFLICT != 0;
        assert_eq!(conflict, !feasible(own, succ, alive, dead));
        seen_conflict |= conflict;
        seen_fine |= !conflict;
    }
    assert!(seen_conflict && seen_fine);
}

#[test]
fn deductions_hold_in_every_completion() {
    let rule = life();
    let mut seed: u32 = 77;
    for _ in 0..3000 {
        seed = seed.wrapping_mul(1664525).wrapping_add(1013904223);
        let alive = (seed >> 8) & 0xff;
        let dead = (seed >> 16) & 0xff & !alive;
        let own = (seed >> 24) % 3;
        let succ = 1 + (seed >> 26) % 2;
        let flags = rule.implication(desc(own, succ, alive, dead));
        if flags & CONFLICT != 0 {
            assert_eq!(flags, CONFLICT);
            continue;
        }
        if own == UNKNOWN {
            assert_eq!(flags & SELF_ALIVE != 0, !feasible(DEAD, succ, alive, dead));
            assert_eq!(flags & SELF_DEAD != 0, !feasible(ALIVE, succ, alive, dead));
        } else {
            assert_eq!(flags & (SELF_ALIVE | SELF_DEAD), 0);
        }
        for i in 0..8 {
            let bit = 1u32 << i;
            let live = flags & 1 << (2 * i + 6) != 0;
            let die = flags & 1 << (2 * i + 7) != 0;
            if (alive | dead) & bit != 0 {
                assert!(!live && !die);
            } else {
                assert_eq!(live, !feasible(own, succ, alive, dead | bit));
                assert_eq!(die, !feasible(own, succ, alive | bit, dead));
            }
        }
    }
}

#[test]
fn rule_with_b0_is_recognised() {
    assert!(!life().has_b0());
    assert!(Rule::new(counted(&[0, 3]), counted(&[2, 3])).has_b0());
    assert!(Rule::parse_rule("B03/S23").ok().unwrap().has_b0());
}

#[test]
fn new_descriptor_holds_uniform_neighbours() {
    assert_eq!(Desc::new(State::Dead, State::Dead), Desc(0xff00a));
    assert_eq!(Desc::new(State::Dead, State::Alive), Desc(0xff006));
    assert_eq!(Desc::new(State::Alive, State::Dead), Desc(0x00ff9));
    assert_eq!(Desc::new(State::Alive, State::Alive), Desc(0x00ff5));
    assert_eq!(Desc::default(), Desc(0));
}
