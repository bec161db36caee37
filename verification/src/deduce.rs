//! What a rule forces: the meaning of every entry of the implication table.
//!
//! A descriptor records what is known of a cell, its successor and its eight
//! neighbours. A *completion* fills in everything unknown. The rule admits a
//! completion when the successor is what the rule makes of the cell and its
//! neighbours. The table entry of a descriptor says what all admitted
//! completions have in common.

use crate::bits::{
    lemma_completion_bit, lemma_completion_cases, lemma_completion_exists, lemma_completion_known,
    lemma_flag_bits, lemma_known_bit, lemma_or_mask, lemma_settle_neighbour,
};
use crate::cells::State;
use vstd::prelude::*;

verus! {

/// A conflict is detected.
pub const CONFLICT: u32 = 0x01;

/// The successor must be alive.
pub const SUCC_ALIVE: u32 = 0x04;

/// The successor must be dead.
pub const SUCC_DEAD: u32 = 0x08;

/// The state of the successor is implied.
pub const SUCC: u32 = 0x0c;

/// The cell itself must be alive.
pub const SELF_ALIVE: u32 = 0x10;

/// The cell itself must be dead.
pub const SELF_DEAD: u32 = 0x20;

/// The state of the cell itself is implied.
pub const SELF: u32 = 0x30;

/// The state of at least one unknown neighbour is implied.
pub const NBHD: u32 = 0xffff << 6;

/// The code of an unknown state.
pub const UNKNOWN: u32 = 0b00;

/// The code of the alive state.
pub const ALIVE: u32 = 0b01;

/// The code of the dead state.
pub const DEAD: u32 = 0b10;

/// The number of descriptors.
pub const TABLE_SIZE: usize = 0x100000;

/// The own-state field of a descriptor.
pub open spec fn own_of(d: u32) -> u32 {
    d & 3
}

/// The successor-state field of a descriptor.
pub open spec fn succ_of(d: u32) -> u32 {
    (d >> 2) & 3
}

/// The pane of neighbours known to be alive.
pub open spec fn alive_of(d: u32) -> u32 {
    (d >> 4) & 0xff
}

/// The pane of neighbours known to be dead.
pub open spec fn dead_of(d: u32) -> u32 {
    (d >> 12) & 0xff
}

/// The descriptor with the given fields.
pub open spec fn pack_spec(own: u32, succ: u32, alive: u32, dead: u32) -> u32 {
    dead << 12 | alive << 4 | succ << 2 | own
}

/// The neighbours that neither pane mentions.
pub open spec fn unknown_of(alive: u32, dead: u32) -> u32 {
    0xff & !(alive | dead)
}

/// Whether the four fields describe a possible state of knowledge: no state
/// code is `0b11`, and no neighbour is both alive and dead.
pub open spec fn fields_valid(own: u32, succ: u32, alive: u32, dead: u32) -> bool {
    &&& own < 3
    &&& succ < 3
    &&& alive < 256
    &&& dead < 256
    &&& alive & dead == 0
}

/// Whether a descriptor describes a possible state of knowledge.
pub open spec fn desc_valid(d: u32) -> bool {
    d < 0x100000 && fields_valid(own_of(d), succ_of(d), alive_of(d), dead_of(d))
}

/// The transition law: whether a cell with the given state and set of living
/// neighbours is alive in the next generation.
pub open spec fn lives_on(b: Seq<u8>, s: Seq<u8>, alive: bool, nbhd: u32) -> bool {
    if alive {
        s.contains(nbhd as u8)
    } else {
        b.contains(nbhd as u8)
    }
}

/// Whether a state field allows the given definite state.
pub open spec fn admits(field: u32, alive: bool) -> bool {
    field == UNKNOWN || (alive && field == ALIVE) || (!alive && field == DEAD)
}

/// Whether `full`, a set of living neighbours, agrees with both panes.
pub open spec fn completes(full: u32, alive: u32, dead: u32) -> bool {
    full < 256 && full & alive == alive && full & dead == 0
}

/// Whether a completion agrees with the fields and obeys the rule.
pub open spec fn consistent(
    b: Seq<u8>,
    s: Seq<u8>,
    own: u32,
    succ: u32,
    alive: u32,
    dead: u32,
    own_alive: bool,
    full: u32,
    succ_alive: bool,
) -> bool {
    &&& admits(own, own_alive)
    &&& admits(succ, succ_alive)
    &&& completes(full, alive, dead)
    &&& lives_on(b, s, own_alive, full) == succ_alive
}

/// Whether some completion of the fields obeys the rule.
pub open spec fn feasible(b: Seq<u8>, s: Seq<u8>, own: u32, succ: u32, alive: u32,
    dead: u32) -> bool {
    exists|own_alive: bool, full: u32, succ_alive: bool| #[trigger]
        consistent(b, s, own, succ, alive, dead, own_alive, full, succ_alive)
}

/// The state that a pair of flags implies: dead when the flag for dead is
/// set, alive otherwise.
pub open spec fn flag_state(flags: u32, dead_flag: u32) -> State {
    if flags & dead_flag != 0 {
        State::Dead
    } else {
        State::Alive
    }
}

/// What is forced on the successor: it must be alive when no completion
/// leaves it dead, and dead when none leaves it alive.
pub open spec fn succ_flags(b: Seq<u8>, s: Seq<u8>, own: u32, alive: u32, dead: u32) -> u32 {
    if !feasible(b, s, own, DEAD, alive, dead) {
        SUCC_ALIVE
    } else if !feasible(b, s, own, ALIVE, alive, dead) {
        SUCC_DEAD
    } else {
        0
    }
}

/// What is forced on the cell itself, when its state is unknown.
pub open spec fn self_flags(b: Seq<u8>, s: Seq<u8>, own: u32, succ: u32, alive: u32,
    dead: u32) -> u32 {
    if own != UNKNOWN {
        0
    } else if !feasible(b, s, DEAD, succ, alive, dead) {
        SELF_ALIVE
    } else if !feasible(b, s, ALIVE, succ, alive, dead) {
        SELF_DEAD
    } else {
        0
    }
}

/// The flag that says that neighbour `i` must be alive.
pub open spec fn nbhd_alive_flag(i: u32) -> u32 {
    1u32 << (2 * i + 6)
}

/// The flag that says that neighbour `i` must be dead.
pub open spec fn nbhd_dead_flag(i: u32) -> u32 {
    1u32 << (2 * i + 7)
}

/// What is forced on neighbour `i`, when its state is unknown.
pub open spec fn nbhd_flag(
    b: Seq<u8>,
    s: Seq<u8>,
    own: u32,
    succ: u32,
    alive: u32,
    dead: u32,
    i: u32,
) -> u32 {
    if (alive | dead) & (1u32 << i) != 0 {
        0
    } else if !feasible(b, s, own, succ, alive, dead | (1u32 << i)) {
        nbhd_alive_flag(i)
    } else if !feasible(b, s, own, succ, alive | (1u32 << i), dead) {
        nbhd_dead_flag(i)
    } else {
        0
    }
}

/// What is forced on the cell itself and on the neighbours before position
/// `m`, for fields that some completion satisfies.
pub open spec fn forced_upto(
    b: Seq<u8>,
    s: Seq<u8>,
    own: u32,
    succ: u32,
    alive: u32,
    dead: u32,
    m: nat,
) -> u32
    decreases m,
{
    if m == 0 {
        self_flags(b, s, own, succ, alive, dead)
    } else {
        forced_upto(b, s, own, succ, alive, dead, (m - 1) as nat) | nbhd_flag(
            b,
            s,
            own,
            succ,
            alive,
            dead,
            (m - 1) as u32,
        )
    }
}

/// The implication flags of the fields, with the neighbours before position
/// `m` taken into account.
pub open spec fn implied_upto(
    b: Seq<u8>,
    s: Seq<u8>,
    own: u32,
    succ: u32,
    alive: u32,
    dead: u32,
    m: nat,
) -> u32 {
    if !fields_valid(own, succ, alive, dead) {
        0
    } else if succ == UNKNOWN {
        succ_flags(b, s, own, alive, dead)
    } else if !feasible(b, s, own, succ, alive, dead) {
        CONFLICT
    } else {
        forced_upto(b, s, own, succ, alive, dead, m)
    }
}

/// The implication flags of a descriptor under the rule `b` / `s`.
///
/// A descriptor that is no possible state of knowledge has no flags. One with
/// an unknown successor says what the successor must be. One with a known
/// successor is a conflict when no completion obeys the rule; otherwise it
/// says what the cell itself and each unknown neighbour must be.
pub open spec fn table_entry(b: Seq<u8>, s: Seq<u8>, d: u32) -> u32 {
    implied_upto(b, s, own_of(d), succ_of(d), alive_of(d), dead_of(d), 8)
}

/// An unknown own state can be settled either way.
pub proof fn lemma_split_own(b: Seq<u8>, s: Seq<u8>, succ: u32, alive: u32, dead: u32)
    ensures
        feasible(b, s, UNKNOWN, succ, alive, dead) <==> feasible(b, s, DEAD, succ, alive, dead)
            || feasible(b, s, ALIVE, succ, alive, dead),
{
    if feasible(b, s, UNKNOWN, succ, alive, dead) {
        let (o, f, v) = choose|o: bool, f: u32, v: bool|
            consistent(b, s, UNKNOWN, succ, alive, dead, o, f, v);
        if o {
            assert(consistent(b, s, ALIVE, succ, alive, dead, o, f, v));
        } else {
            assert(consistent(b, s, DEAD, succ, alive, dead, o, f, v));
        }
    }
    if feasible(b, s, DEAD, succ, alive, dead) {
        let (o, f, v) = choose|o: bool, f: u32, v: bool|
            consistent(b, s, DEAD, succ, alive, dead, o, f, v);
        assert(consistent(b, s, UNKNOWN, succ, alive, dead, o, f, v));
    }
    if feasible(b, s, ALIVE, succ, alive, dead) {
        let (o, f, v) = choose|o: bool, f: u32, v: bool|
            consistent(b, s, ALIVE, succ, alive, dead, o, f, v);
        assert(consistent(b, s, UNKNOWN, succ, alive, dead, o, f, v));
    }
}

/// An unknown successor can be settled either way.
pub proof fn lemma_split_succ(b: Seq<u8>, s: Seq<u8>, own: u32, alive: u32, dead: u32)
    ensures
        feasible(b, s, own, UNKNOWN, alive, dead) <==> feasible(b, s, own, DEAD, alive, dead)
            || feasible(b, s, own, ALIVE, alive, dead),
{
    if feasible(b, s, own, UNKNOWN, alive, dead) {
        let (o, f, v) = choose|o: bool, f: u32, v: bool|
            consistent(b, s, own, UNKNOWN, alive, dead, o, f, v);
        if v {
            assert(consistent(b, s, own, ALIVE, alive, dead, o, f, v));
        } else {
            assert(consistent(b, s, own, DEAD, alive, dead, o, f, v));
        }
    }
    if feasible(b, s, own, DEAD, alive, dead) {
        let (o, f, v) = choose|o: bool, f: u32, v: bool|
            consistent(b, s, own, DEAD, alive, dead, o, f, v);
        assert(consistent(b, s, own, UNKNOWN, alive, dead, o, f, v));
    }
    if feasible(b, s, own, ALIVE, alive, dead) {
        let (o, f, v) = choose|o: bool, f: u32, v: bool|
            consistent(b, s, own, ALIVE, alive, dead, o, f, v);
        assert(consistent(b, s, own, UNKNOWN, alive, dead, o, f, v));
    }
}

/// An unknown neighbour can be settled either way.
pub proof fn lemma_split_neighbour(
    b: Seq<u8>,
    s: Seq<u8>,
    own: u32,
    succ: u32,
    alive: u32,
    dead: u32,
    i: u32,
)
    requires
        i < 8,
        (alive | dead) & (1u32 << i) == 0,
    ensures
        feasible(b, s, own, succ, alive, dead) <==> feasible(
            b,
            s,
            own,
            succ,
            alive,
            dead | (1u32 << i),
        ) || feasible(b, s, own, succ, alive | (1u32 << i), dead),
{
    let n = 1u32 << i;
    if feasible(b, s, own, succ, alive, dead) {
        let (o, f, v) = choose|o: bool, f: u32, v: bool|
            consistent(b, s, own, succ, alive, dead, o, f, v);
        lemma_completion_cases(f, alive, dead, i);
        if completes(f, alive | n, dead) {
            assert(consistent(b, s, own, succ, alive | n, dead, o, f, v));
        } else {
            assert(consistent(b, s, own, succ, alive, dead | n, o, f, v));
        }
    }
    if feasible(b, s, own, succ, alive, dead | n) {
        let (o, f, v) = choose|o: bool, f: u32, v: bool|
            consistent(b, s, own, succ, alive, dead | n, o, f, v);
        lemma_completion_cases(f, alive, dead, i);
        assert(consistent(b, s, own, succ, alive, dead, o, f, v));
    }
    if feasible(b, s, own, succ, alive | n, dead) {
        let (o, f, v) = choose|o: bool, f: u32, v: bool|
            consistent(b, s, own, succ, alive | n, dead, o, f, v);
        lemma_completion_cases(f, alive, dead, i);
        assert(consistent(b, s, own, succ, alive, dead, o, f, v));
    }
}

/// While the successor is unknown, some completion obeys the rule.
pub proof fn lemma_feasible_unknown_succ(b: Seq<u8>, s: Seq<u8>, own: u32, alive: u32, dead: u32)
    requires
        fields_valid(own, UNKNOWN, alive, dead),
    ensures
        feasible(b, s, own, UNKNOWN, alive, dead),
{
    lemma_completion_exists(alive, dead);
    let o = own == ALIVE;
    assert(consistent(b, s, own, UNKNOWN, alive, dead, o, alive, lives_on(b, s, o, alive)));
}

/// With every neighbour, the cell and the successor known, the fields are
/// feasible exactly when the transition law holds.
pub proof fn lemma_feasible_known(
    b: Seq<u8>,
    s: Seq<u8>,
    own_alive: bool,
    succ_alive: bool,
    alive: u32,
    dead: u32,
)
    requires
        alive < 256,
        dead < 256,
        alive & dead == 0,
        unknown_of(alive, dead) == 0,
    ensures
        feasible(
            b,
            s,
            if own_alive { ALIVE } else { DEAD },
            if succ_alive { ALIVE } else { DEAD },
            alive,
            dead,
        ) <==> lives_on(b, s, own_alive, alive) == succ_alive,
{
    let own = if own_alive { ALIVE } else { DEAD };
    let succ = if succ_alive { ALIVE } else { DEAD };
    if feasible(b, s, own, succ, alive, dead) {
        let (o, f, v) = choose|o: bool, f: u32, v: bool|
            consistent(b, s, own, succ, alive, dead, o, f, v);
        lemma_completion_known(f, alive, dead);
    }
    if lives_on(b, s, own_alive, alive) == succ_alive {
        lemma_completion_known(alive, alive, dead);
        assert(consistent(b, s, own, succ, alive, dead, own_alive, alive, succ_alive));
    }
}

/// The table after the first pass: what is forced on an unknown successor.
pub open spec fn after_trans(b: Seq<u8>, s: Seq<u8>, d: u32) -> u32 {
    if desc_valid(d) && succ_of(d) == UNKNOWN {
        succ_flags(b, s, own_of(d), alive_of(d), dead_of(d))
    } else {
        0
    }
}

/// The table after the conflicts are marked.
pub open spec fn after_conflict(b: Seq<u8>, s: Seq<u8>, d: u32) -> u32 {
    if !desc_valid(d) {
        0
    } else if succ_of(d) == UNKNOWN {
        succ_flags(b, s, own_of(d), alive_of(d), dead_of(d))
    } else if !feasible(b, s, own_of(d), succ_of(d), alive_of(d), dead_of(d)) {
        CONFLICT
    } else {
        0
    }
}

/// What is forced on the successor when every neighbour is known.
pub proof fn lemma_succ_flags_known(b: Seq<u8>, s: Seq<u8>, alive: u32, dead: u32)
    requires
        alive < 256,
        dead < 256,
        alive & dead == 0,
        unknown_of(alive, dead) == 0,
    ensures
        succ_flags(b, s, DEAD, alive, dead) == if b.contains(alive as u8) {
            SUCC_ALIVE
        } else {
            SUCC_DEAD
        },
        succ_flags(b, s, ALIVE, alive, dead) == if s.contains(alive as u8) {
            SUCC_ALIVE
        } else {
            SUCC_DEAD
        },
        succ_flags(b, s, UNKNOWN, alive, dead) == if b.contains(alive as u8) && s.contains(
            alive as u8,
        ) {
            SUCC_ALIVE
        } else if !b.contains(alive as u8) && !s.contains(alive as u8) {
            SUCC_DEAD
        } else {
            0
        },
{
    lemma_feasible_known(b, s, false, false, alive, dead);
    lemma_feasible_known(b, s, false, true, alive, dead);
    lemma_feasible_known(b, s, true, false, alive, dead);
    lemma_feasible_known(b, s, true, true, alive, dead);
    lemma_split_own(b, s, DEAD, alive, dead);
    lemma_split_own(b, s, ALIVE, alive, dead);
}

/// What is forced on the successor is what both ways of settling an unknown
/// neighbour agree on.
pub proof fn lemma_succ_flags_split(
    b: Seq<u8>,
    s: Seq<u8>,
    own: u32,
    alive: u32,
    dead: u32,
    i: u32,
)
    requires
        fields_valid(own, UNKNOWN, alive, dead),
        i < 8,
        (alive | dead) & (1u32 << i) == 0,
    ensures
        succ_flags(b, s, own, alive, dead) == if succ_flags(b, s, own, alive, dead | (1u32 << i))
            == succ_flags(b, s, own, alive | (1u32 << i), dead) {
            succ_flags(b, s, own, alive, dead | (1u32 << i))
        } else {
            0
        },
{
    let n = 1u32 << i;
    lemma_settle_neighbour(alive, dead, i);
    lemma_split_neighbour(b, s, own, DEAD, alive, dead, i);
    lemma_split_neighbour(b, s, own, ALIVE, alive, dead, i);
    lemma_feasible_unknown_succ(b, s, own, alive, dead | n);
    lemma_feasible_unknown_succ(b, s, own, alive | n, dead);
    lemma_split_succ(b, s, own, alive, dead | n);
    lemma_split_succ(b, s, own, alive | n, dead);
}

/// What the flags of an unknown successor mean.
pub proof fn lemma_succ_flags_meaning(b: Seq<u8>, s: Seq<u8>, own: u32, alive: u32, dead: u32)
    requires
        fields_valid(own, UNKNOWN, alive, dead),
    ensures
        succ_flags(b, s, own, alive, dead) == SUCC_ALIVE <==> !feasible(
            b,
            s,
            own,
            DEAD,
            alive,
            dead,
        ),
        succ_flags(b, s, own, alive, dead) == SUCC_DEAD <==> !feasible(
            b,
            s,
            own,
            ALIVE,
            alive,
            dead,
        ),
        succ_flags(b, s, own, alive, dead) == 0 || succ_flags(b, s, own, alive, dead)
            == SUCC_ALIVE || succ_flags(b, s, own, alive, dead) == SUCC_DEAD,
{
    lemma_feasible_unknown_succ(b, s, own, alive, dead);
    lemma_split_succ(b, s, own, alive, dead);
}

/// A neighbour that is not unknown adds nothing to what is forced.
pub proof fn lemma_forced_known_neighbour(
    b: Seq<u8>,
    s: Seq<u8>,
    own: u32,
    succ: u32,
    alive: u32,
    dead: u32,
    i: u32,
)
    requires
        i < 8,
        unknown_of(alive, dead) & (1u32 << i) == 0,
    ensures
        forced_upto(b, s, own, succ, alive, dead, (i + 1) as nat) == forced_upto(
            b,
            s,
            own,
            succ,
            alive,
            dead,
            i as nat,
        ),
{
    lemma_known_bit(alive, dead, i);
    let x = forced_upto(b, s, own, succ, alive, dead, i as nat);
    assert(x | 0u32 == x) by (bit_vector);
}

/// With no neighbour unknown, nothing is forced on the neighbours.
pub proof fn lemma_forced_all_known(
    b: Seq<u8>,
    s: Seq<u8>,
    own: u32,
    succ: u32,
    alive: u32,
    dead: u32,
    m: nat,
)
    requires
        m <= 8,
        unknown_of(alive, dead) == 0,
    ensures
        forced_upto(b, s, own, succ, alive, dead, m) == self_flags(b, s, own, succ, alive, dead),
    decreases m,
{
    if m > 0 {
        let i = (m - 1) as u32;
        lemma_forced_all_known(b, s, own, succ, alive, dead, (m - 1) as nat);
        assert(0u32 & (1u32 << i) == 0) by (bit_vector);
        lemma_forced_known_neighbour(b, s, own, succ, alive, dead, i);
    }
}

/// Nothing that is forced on a cell or a neighbour looks like a conflict.
pub proof fn lemma_forced_no_conflict(
    b: Seq<u8>,
    s: Seq<u8>,
    own: u32,
    succ: u32,
    alive: u32,
    dead: u32,
    m: nat,
)
    requires
        m <= 8,
    ensures
        forced_upto(b, s, own, succ, alive, dead, m) & CONFLICT == 0,
    decreases m,
{
    if m == 0 {
        assert(0u32 & 1 == 0 && 0x10u32 & 1 == 0 && 0x20u32 & 1 == 0) by (bit_vector);
    } else {
        let i = (m - 1) as u32;
        lemma_forced_no_conflict(b, s, own, succ, alive, dead, (m - 1) as nat);
        let x = forced_upto(b, s, own, succ, alive, dead, (m - 1) as nat);
        let y = nbhd_flag(b, s, own, succ, alive, dead, i);
        assert((1u32 << (2 * i + 6)) & 1 == 0 && (1u32 << (2 * i + 7)) & 1 == 0) by (bit_vector)
            requires
                i < 8,
        ;
        assert(0u32 & 1 == 0) by (bit_vector);
        assert((x | y) & 1 == 0) by (bit_vector)
            requires
                x & 1 == 0,
                y & 1 == 0,
        ;
    }
}

/// The entry of a descriptor holds the conflict flag exactly when no
/// completion of what the descriptor leaves unknown obeys the rule.
///
/// This is stated of descriptors that are a possible state of knowledge. Any
/// other descriptor, one with a state code `0b11` or with a neighbour in both
/// panes, is never looked up and has an empty entry.
pub proof fn lemma_conflict_iff_infeasible(b: Seq<u8>, s: Seq<u8>, d: u32)
    requires
        desc_valid(d),
    ensures
        table_entry(b, s, d) & CONFLICT != 0 <==> !feasible(
            b,
            s,
            own_of(d),
            succ_of(d),
            alive_of(d),
            dead_of(d),
        ),
{
    let own = own_of(d);
    let succ = succ_of(d);
    let alive = alive_of(d);
    let dead = dead_of(d);
    assert(0u32 & 1 == 0 && 4u32 & 1 == 0 && 8u32 & 1 == 0 && 1u32 & 1 != 0) by (bit_vector);
    if succ == UNKNOWN {
        lemma_feasible_unknown_succ(b, s, own, alive, dead);
    } else {
        lemma_forced_no_conflict(b, s, own, succ, alive, dead, 8);
    }
}

/// The entry of a descriptor in which everything is known: empty when the
/// successor is what the rule makes of the cell and its living neighbours,
/// and a conflict otherwise.
pub proof fn lemma_known_entry(b: Seq<u8>, s: Seq<u8>, d: u32, own_alive: bool, succ_alive: bool)
    requires
        d < 0x100000,
        own_of(d) == if own_alive { ALIVE } else { DEAD },
        succ_of(d) == if succ_alive { ALIVE } else { DEAD },
        alive_of(d) & dead_of(d) == 0,
        unknown_of(alive_of(d), dead_of(d)) == 0,
    ensures
        table_entry(b, s, d) == if lives_on(b, s, own_alive, alive_of(d)) == succ_alive {
            0
        } else {
            CONFLICT
        },
{
    let alive = alive_of(d);
    let dead = dead_of(d);
    crate::bits::lemma_field_ranges(d);
    lemma_feasible_known(b, s, own_alive, succ_alive, alive, dead);
    lemma_forced_all_known(b, s, own_of(d), succ_of(d), alive, dead, 8);
}

/// Which flags stand in what is forced on the cell itself and on the
/// neighbours before position `m`: none for the successor, those for the
/// cell itself as `self_flags` has them, and those for neighbour `i` as
/// `nbhd_flag` has them.
pub proof fn lemma_forced_bits(
    b: Seq<u8>,
    s: Seq<u8>,
    own: u32,
    succ: u32,
    alive: u32,
    dead: u32,
    m: nat,
    i: u32,
)
    requires
        m <= 8,
        i < 8,
    ensures
        ({
            let forced = forced_upto(b, s, own, succ, alive, dead, m);
            let own_flags = self_flags(b, s, own, succ, alive, dead);
            let flag = nbhd_flag(b, s, own, succ, alive, dead, i);
            &&& forced & SUCC == 0
            &&& (forced & SELF != 0) == (own_flags != 0)
            &&& (forced & SELF_DEAD != 0) == (own_flags == SELF_DEAD)
            &&& (forced & (nbhd_alive_flag(i) | nbhd_dead_flag(i)) != 0) == (i < m && flag != 0)
            &&& (forced & nbhd_dead_flag(i) != 0) == (i < m && flag == nbhd_dead_flag(i))
        }),
    decreases m,
{
    lemma_flag_bits(i, i);
    let pair = nbhd_alive_flag(i) | nbhd_dead_flag(i);
    if m == 0 {
        let own_flags = self_flags(b, s, own, succ, alive, dead);
        lemma_or_mask(own_flags, 0, SUCC);
        lemma_or_mask(own_flags, 0, SELF);
        lemma_or_mask(own_flags, 0, SELF_DEAD);
        lemma_or_mask(own_flags, 0, pair);
        lemma_or_mask(own_flags, 0, nbhd_dead_flag(i));
        assert(0x10u32 & 0x0c == 0 && 0x20u32 & 0x0c == 0) by (bit_vector);
    } else {
        let j = (m - 1) as u32;
        lemma_forced_bits(b, s, own, succ, alive, dead, (m - 1) as nat, i);
        lemma_flag_bits(i, j);
        lemma_flag_bits(j, j);
        let x = forced_upto(b, s, own, succ, alive, dead, (m - 1) as nat);
        let y = nbhd_flag(b, s, own, succ, alive, dead, j);
        lemma_or_mask(x, y, SUCC);
        lemma_or_mask(x, y, SELF);
        lemma_or_mask(x, y, SELF_DEAD);
        lemma_or_mask(x, y, pair);
        lemma_or_mask(x, y, nbhd_dead_flag(i));
        assert((1u32 << (2 * j + 6)) & 0x0c == 0 && (1u32 << (2 * j + 7)) & 0x0c == 0 && (1u32 << (
        2 * j + 6)) & 0x30 == 0 && (1u32 << (2 * j + 7)) & 0x30 == 0 && (1u32 << (2 * j + 6))
            & 0x20 == 0 && (1u32 << (2 * j + 7)) & 0x20 == 0) by (bit_vector)
            requires
                j < 8,
        ;
    }
}

/// What the entry of a descriptor means for a completion that obeys the
/// rule: the entry is no conflict, and every state that it implies is the
/// state that the completion has.
pub proof fn lemma_entry_meaning(
    b: Seq<u8>,
    s: Seq<u8>,
    d: u32,
    own_alive: bool,
    full: u32,
    succ_alive: bool,
    i: u32,
)
    requires
        desc_valid(d),
        i < 8,
        consistent(
            b,
            s,
            own_of(d),
            succ_of(d),
            alive_of(d),
            dead_of(d),
            own_alive,
            full,
            succ_alive,
        ),
    ensures
        ({
            let flags = table_entry(b, s, d);
            &&& flags & CONFLICT == 0
            &&& flags & SUCC != 0 ==> succ_alive == (flags & SUCC_DEAD == 0)
            &&& flags & SUCC == 0 && flags & SELF != 0
                ==> own_alive == (flags & SELF_DEAD == 0)
            &&& flags & SUCC == 0 && flags & (nbhd_alive_flag(i)
                | nbhd_dead_flag(i)) != 0 ==> (full & (1u32 << i) != 0)
                    == (flags & nbhd_dead_flag(i)
                == 0)
        }),
{
    let own = own_of(d);
    let succ = succ_of(d);
    let alive = alive_of(d);
    let dead = dead_of(d);
    let flags = table_entry(b, s, d);
    let n = 1u32 << i;
    lemma_flag_bits(i, i);
    lemma_or_mask(flags, 0, CONFLICT);
    lemma_or_mask(flags, 0, SUCC);
    lemma_or_mask(flags, 0, SELF);
    lemma_or_mask(flags, 0, nbhd_alive_flag(i) | nbhd_dead_flag(i));
    lemma_or_mask(flags, 0, SUCC_DEAD);
    if succ == UNKNOWN {
        if !succ_alive {
            assert(consistent(b, s, own, DEAD, alive, dead, own_alive, full, succ_alive));
        } else {
            assert(consistent(b, s, own, ALIVE, alive, dead, own_alive, full, succ_alive));
        }
        assert(0x04u32 & 0x30 == 0 && 0x08u32 & 0x30 == 0 && 0x04u32 & 0x01 == 0 && 0x08u32 & 0x01
            == 0) by (bit_vector);
    } else {
        lemma_forced_no_conflict(b, s, own, succ, alive, dead, 8);
        lemma_forced_bits(b, s, own, succ, alive, dead, 8, i);
        if own == UNKNOWN {
            if own_alive {
                assert(consistent(b, s, ALIVE, succ, alive, dead, own_alive, full, succ_alive));
            } else {
                assert(consistent(b, s, DEAD, succ, alive, dead, own_alive, full, succ_alive));
            }
        }
        if (alive | dead) & n == 0 {
            lemma_completion_cases(full, alive, dead, i);
            lemma_completion_bit(full, alive, dead, i);
            if full & n != 0 {
                assert(consistent(b, s, own, succ, alive | n, dead, own_alive, full, succ_alive));
            } else {
                assert(consistent(b, s, own, succ, alive, dead | n, own_alive, full, succ_alive));
            }
        }
    }
}

/// A flag speaks only of what the descriptor does not know: a flag for the
/// successor stands only while the successor is unknown, a flag for the
/// cell itself only while the cell is unknown, and a flag for neighbour `i`
/// only while that neighbour stands in neither pane.
pub proof fn lemma_flags_only_unknown(b: Seq<u8>, s: Seq<u8>, d: u32, i: u32)
    requires
        desc_valid(d),
        i < 8,
    ensures
        ({
            let flags = table_entry(b, s, d);
            &&& flags & CONFLICT == 0 && flags & SUCC != 0 ==> succ_of(d) == UNKNOWN
            &&& flags & CONFLICT == 0 && flags & SUCC == 0 && flags & SELF != 0 ==> own_of(d)
                == UNKNOWN
            &&& flags & CONFLICT == 0 && flags & SUCC == 0 && flags & (nbhd_alive_flag(i)
                | nbhd_dead_flag(i)) != 0 ==> (alive_of(d) | dead_of(d)) & (1u32 << i) == 0
        }),
{
    let own = own_of(d);
    let succ = succ_of(d);
    let alive = alive_of(d);
    let dead = dead_of(d);
    let flags = table_entry(b, s, d);
    lemma_flag_bits(i, i);
    lemma_or_mask(flags, 0, SUCC);
    lemma_or_mask(flags, 0, SELF);
    lemma_or_mask(flags, 0, nbhd_alive_flag(i) | nbhd_dead_flag(i));
    lemma_conflict_iff_infeasible(b, s, d);
    if succ != UNKNOWN && feasible(b, s, own, succ, alive, dead) {
        lemma_forced_bits(b, s, own, succ, alive, dead, 8, i);
    }
}

} // verus!
