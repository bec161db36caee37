//! Neighbourhood descriptors.

use crate::cells::{code_of, state_code, State};
use vstd::prelude::*;

verus! {

/// The neighbourhood descriptor.
///
/// It is a 20-bit integer of the form `0b_abcdefgh_ijklmnop_qr_st`,
/// where:
///
/// * `0b_ai`, `0b_bj`, ..., `0b_hp` are the states of the eight neighbours,
///   the last neighbour first,
/// * `0b_qr` is the state of the successor,
/// * `0b_st` is the state of the cell itself,
/// * `0b_10` means dead,
/// * `0b_01` means alive,
/// * `0b_00` means unknown.
#[derive(Clone, Copy, Debug, PartialEq, Eq, Structural)]
pub struct Desc(pub u32);

/// What a neighbour in the given state adds to a descriptor, before it is
/// shifted to the neighbour's position: one bit in the alive pane, or one in
/// the dead pane eight bits above, or nothing.
pub open spec fn pane_code(state: Option<State>) -> u32 {
    match state {
        Some(State::Dead) => 0x0100,
        Some(State::Alive) => 0x0001,
        None => 0x0000,
    }
}

/// The descriptor of a cell with the given state, successor state and
/// neighbour states.
#[verifier::opaque]
pub open spec fn desc_bits(
    own: Option<State>,
    succ: Option<State>,
    nbhd: Seq<Option<State>>,
) -> u32 {
    state_code(own) | state_code(succ) << 2 | pane_code(nbhd[0]) << 4 | pane_code(nbhd[1]) << 5
        | pane_code(nbhd[2]) << 6 | pane_code(nbhd[3]) << 7 | pane_code(nbhd[4]) << 8 | pane_code(
        nbhd[5],
    ) << 9 | pane_code(nbhd[6]) << 10 | pane_code(nbhd[7]) << 11
}

/// What changes in a two-bit state field when the state changes.
pub open spec fn state_delta(old_state: Option<State>, state: Option<State>) -> u32 {
    state_code(old_state) ^ state_code(state)
}

/// What changes in the two panes when the state of a neighbour changes.
pub open spec fn pane_delta(old_state: Option<State>, state: Option<State>) -> u32 {
    pane_code(old_state) ^ pane_code(state)
}

/// Changing one field of a descriptor is an exclusive or with the change of
/// that field at its place: a neighbour for `j` below 8, the successor for
/// 8, the cell itself for 9.
proof fn lemma_xor_field(
    x: u32,
    own: u32,
    succ: u32,
    c0: u32,
    c1: u32,
    c2: u32,
    c3: u32,
    c4: u32,
    c5: u32,
    c6: u32,
    c7: u32,
    j: u32,
    q: u32,
)
    by (bit_vector)
    requires
        x == own | succ << 2 | c0 << 4 | c1 << 5 | c2 << 6 | c3 << 7 | c4 << 8 | c5 << 9 | c6 << 10
            | c7 << 11,
        own == 0 || own == 1 || own == 2,
        succ == 0 || succ == 1 || succ == 2,
        q == 0 || q == 1 || q == 2 || q == 0x100,
        c0 == 0 || c0 == 1 || c0 == 0x100,
        c1 == 0 || c1 == 1 || c1 == 0x100,
        c2 == 0 || c2 == 1 || c2 == 0x100,
        c3 == 0 || c3 == 1 || c3 == 0x100,
        c4 == 0 || c4 == 1 || c4 == 0x100,
        c5 == 0 || c5 == 1 || c5 == 0x100,
        c6 == 0 || c6 == 1 || c6 == 0x100,
        c7 == 0 || c7 == 1 || c7 == 0x100,
        j < 10,
    ensures
        x < 0x100000,
        j == 0 && q != 2 ==> x ^ ((c0 ^ q) << 4) == own | succ << 2 | q << 4 | c1 << 5 | c2 << 6
            | c3 << 7 | c4 << 8 | c5 << 9 | c6 << 10 | c7 << 11,
        j == 1 && q != 2 ==> x ^ ((c1 ^ q) << 5) == own | succ << 2 | c0 << 4 | q << 5 | c2 << 6
            | c3 << 7 | c4 << 8 | c5 << 9 | c6 << 10 | c7 << 11,
        j == 2 && q != 2 ==> x ^ ((c2 ^ q) << 6) == own | succ << 2 | c0 << 4 | c1 << 5 | q << 6
            | c3 << 7 | c4 << 8 | c5 << 9 | c6 << 10 | c7 << 11,
        j == 3 && q != 2 ==> x ^ ((c3 ^ q) << 7) == own | succ << 2 | c0 << 4 | c1 << 5 | c2 << 6
            | q << 7 | c4 << 8 | c5 << 9 | c6 << 10 | c7 << 11,
        j == 4 && q != 2 ==> x ^ ((c4 ^ q) << 8) == own | succ << 2 | c0 << 4 | c1 << 5 | c2 << 6
            | c3 << 7 | q << 8 | c5 << 9 | c6 << 10 | c7 << 11,
        j == 5 && q != 2 ==> x ^ ((c5 ^ q) << 9) == own | succ << 2 | c0 << 4 | c1 << 5 | c2 << 6
            | c3 << 7 | c4 << 8 | q << 9 | c6 << 10 | c7 << 11,
        j == 6 && q != 2 ==> x ^ ((c6 ^ q) << 10) == own | succ << 2 | c0 << 4 | c1 << 5 | c2
            << 6 | c3 << 7 | c4 << 8 | c5 << 9 | q << 10 | c7 << 11,
        j == 7 && q != 2 ==> x ^ ((c7 ^ q) << 11) == own | succ << 2 | c0 << 4 | c1 << 5 | c2
            << 6 | c3 << 7 | c4 << 8 | c5 << 9 | c6 << 10 | q << 11,
        j == 8 && q != 0x100 ==> x ^ ((succ ^ q) << 2) == own | q << 2 | c0 << 4 | c1 << 5 | c2
            << 6 | c3 << 7 | c4 << 8 | c5 << 9 | c6 << 10 | c7 << 11,
        j == 9 && q != 0x100 ==> x ^ (own ^ q) == q | succ << 2 | c0 << 4 | c1 << 5 | c2 << 6 | c3
            << 7 | c4 << 8 | c5 << 9 | c6 << 10 | c7 << 11,
{
}

/// The fields of a descriptor can be read back from its bits.
proof fn lemma_read_field(
    x: u32,
    own: u32,
    succ: u32,
    c0: u32,
    c1: u32,
    c2: u32,
    c3: u32,
    c4: u32,
    c5: u32,
    c6: u32,
    c7: u32,
    j: u32,
)
    by (bit_vector)
    requires
        x == own | succ << 2 | c0 << 4 | c1 << 5 | c2 << 6 | c3 << 7 | c4 << 8 | c5 << 9 | c6 << 10
            | c7 << 11,
        own == 0 || own == 1 || own == 2,
        succ == 0 || succ == 1 || succ == 2,
        c0 == 0 || c0 == 1 || c0 == 0x100,
        c1 == 0 || c1 == 1 || c1 == 0x100,
        c2 == 0 || c2 == 1 || c2 == 0x100,
        c3 == 0 || c3 == 1 || c3 == 0x100,
        c4 == 0 || c4 == 1 || c4 == 0x100,
        c5 == 0 || c5 == 1 || c5 == 0x100,
        c6 == 0 || c6 == 1 || c6 == 0x100,
        c7 == 0 || c7 == 1 || c7 == 0x100,
        j < 8,
    ensures
        x & 3 == own,
        (x >> 2) & 3 == succ,
        (x & 3 != 0) == (own != 0),
        (x & (3u32 << 2) != 0) == (succ != 0),
        ({
            let p = if j == 0 {
                c0
            } else if j == 1 {
                c1
            } else if j == 2 {
                c2
            } else if j == 3 {
                c3
            } else if j == 4 {
                c4
            } else if j == 5 {
                c5
            } else if j == 6 {
                c6
            } else {
                c7
            };
            &&& (x & ((0x0101u32 << j) << 4) != 0) == (p != 0)
            &&& (((x >> 4) & 0xff) & (1u32 << j) != 0) == (p == 1)
            &&& (((x >> 12) & 0xff) & (1u32 << j) != 0) == (p == 0x100)
        }),
        ((x >> 4) & 0xff) & ((x >> 12) & 0xff) == 0,
        c0 != 0 && c1 != 0 && c2 != 0 && c3 != 0 && c4 != 0 && c5 != 0 && c6 != 0 && c7 != 0
            ==> 0xff & !(((x >> 4) & 0xff) | ((x >> 12) & 0xff)) == 0,
        c0 != 1 && c1 != 1 && c2 != 1 && c3 != 1 && c4 != 1 && c5 != 1 && c6 != 1 && c7 != 1
            ==> (x >> 4) & 0xff == 0,
{
}

/// What the fields of a descriptor say of the states that it was made from:
/// the two state fields hold the codes of the cell's state and of its
/// successor's, and neighbour `j` stands in the alive pane exactly when it
/// is alive, in the dead pane exactly when it is dead.
pub proof fn lemma_desc_fields(
    own: Option<State>,
    succ: Option<State>,
    nbhd: Seq<Option<State>>,
    j: u32,
)
    requires
        nbhd.len() == 8,
        j < 8,
    ensures
        ({
            let d = desc_bits(own, succ, nbhd);
            &&& d & 3 == state_code(own)
            &&& (d >> 2) & 3 == state_code(succ)
            &&& (d & 3 != 0) == (own is Some)
            &&& (d & (3u32 << 2) != 0) == (succ is Some)
            &&& (d & ((0x0101u32 << j) << 4) != 0) == (nbhd[j as int] is Some)
            &&& (((d >> 4) & 0xff) & (1u32 << j) != 0) == (nbhd[j as int] == Some(State::Alive))
            &&& (((d >> 12) & 0xff) & (1u32 << j) != 0) == (nbhd[j as int] == Some(State::Dead))
            &&& ((d >> 4) & 0xff) & ((d >> 12) & 0xff) == 0
            &&& (forall|i: int| 0 <= i < 8 ==> (#[trigger] nbhd[i]) is Some) ==> 0xff & !(((d >> 4)
                & 0xff) | ((d >> 12) & 0xff)) == 0
            &&& (forall|i: int| 0 <= i < 8 ==> (#[trigger] nbhd[i]) != Some(State::Alive)) ==> (d
                >> 4) & 0xff == 0
        }),
{
    if forall|i: int| 0 <= i < 8 ==> (#[trigger] nbhd[i]) != Some(State::Alive) {
        assert(nbhd[0] != Some(State::Alive) && nbhd[1] != Some(State::Alive));
        assert(nbhd[2] != Some(State::Alive) && nbhd[3] != Some(State::Alive));
        assert(nbhd[4] != Some(State::Alive) && nbhd[5] != Some(State::Alive));
        assert(nbhd[6] != Some(State::Alive) && nbhd[7] != Some(State::Alive));
    }
    if forall|i: int| 0 <= i < 8 ==> (#[trigger] nbhd[i]) is Some {
        assert(nbhd[0] is Some && nbhd[1] is Some && nbhd[2] is Some && nbhd[3] is Some);
        assert(nbhd[4] is Some && nbhd[5] is Some && nbhd[6] is Some && nbhd[7] is Some);
    }
    reveal(desc_bits);
    lemma_read_field(
        desc_bits(own, succ, nbhd),
        state_code(own),
        state_code(succ),
        pane_code(nbhd[0]),
        pane_code(nbhd[1]),
        pane_code(nbhd[2]),
        pane_code(nbhd[3]),
        pane_code(nbhd[4]),
        pane_code(nbhd[5]),
        pane_code(nbhd[6]),
        pane_code(nbhd[7]),
        j,
    );
}

/// The alive pane of a descriptor in which everything is known holds the
/// alive pane of every descriptor that knows less, and nothing of its dead
/// pane.
proof fn lemma_read_pair(
    x: u32,
    own: u32,
    succ: u32,
    c0: u32,
    c1: u32,
    c2: u32,
    c3: u32,
    c4: u32,
    c5: u32,
    c6: u32,
    c7: u32,
    y: u32,
    full_own: u32,
    full_succ: u32,
    f0: u32,
    f1: u32,
    f2: u32,
    f3: u32,
    f4: u32,
    f5: u32,
    f6: u32,
    f7: u32,
)
    by (bit_vector)
    requires
        x == own | succ << 2 | c0 << 4 | c1 << 5 | c2 << 6 | c3 << 7 | c4 << 8 | c5 << 9 | c6 << 10
            | c7 << 11,
        y == full_own | full_succ << 2 | f0 << 4 | f1 << 5 | f2 << 6 | f3 << 7 | f4 << 8 | f5 << 9
            | f6 << 10 | f7 << 11,
        full_own == 1 || full_own == 2,
        full_succ == 1 || full_succ == 2,
        own == 0 || own == full_own,
        succ == 0 || succ == full_succ,
        f0 == 1 || f0 == 0x100,
        f1 == 1 || f1 == 0x100,
        f2 == 1 || f2 == 0x100,
        f3 == 1 || f3 == 0x100,
        f4 == 1 || f4 == 0x100,
        f5 == 1 || f5 == 0x100,
        f6 == 1 || f6 == 0x100,
        f7 == 1 || f7 == 0x100,
        c0 == 0 || c0 == f0,
        c1 == 0 || c1 == f1,
        c2 == 0 || c2 == f2,
        c3 == 0 || c3 == f3,
        c4 == 0 || c4 == f4,
        c5 == 0 || c5 == f5,
        c6 == 0 || c6 == f6,
        c7 == 0 || c7 == f7,
    ensures
        ((y >> 4) & 0xff) < 256,
        ((y >> 4) & 0xff) & ((x >> 4) & 0xff) == (x >> 4) & 0xff,
        ((y >> 4) & 0xff) & ((x >> 12) & 0xff) == 0,
{
}

/// The descriptor of a complete assignment completes the descriptor of
/// every partial assignment that it agrees with: its alive pane holds every
/// neighbour of the alive pane of the other and none of its dead pane.
pub proof fn lemma_desc_completion(
    own: Option<State>,
    succ: Option<State>,
    nbhd: Seq<Option<State>>,
    full_own: State,
    full_succ: State,
    full_nbhd: Seq<Option<State>>,
)
    requires
        nbhd.len() == 8,
        full_nbhd.len() == 8,
        own is Some ==> own == Some(full_own),
        succ is Some ==> succ == Some(full_succ),
        forall|i: int| 0 <= i < 8 ==> (#[trigger] full_nbhd[i]) is Some,
        forall|i: int| 0 <= i < 8 && (#[trigger] nbhd[i]) is Some ==> nbhd[i] == full_nbhd[i],
    ensures
        ({
            let d = desc_bits(own, succ, nbhd);
            let full = desc_bits(Some(full_own), Some(full_succ), full_nbhd);
            &&& ((full >> 4) & 0xff) < 256
            &&& ((full >> 4) & 0xff) & ((d >> 4) & 0xff) == (d >> 4) & 0xff
            &&& ((full >> 4) & 0xff) & ((d >> 12) & 0xff) == 0
        }),
{
    reveal(desc_bits);
    assert(full_nbhd[0] is Some && full_nbhd[1] is Some && full_nbhd[2] is Some && full_nbhd[3]
        is Some);
    assert(full_nbhd[4] is Some && full_nbhd[5] is Some && full_nbhd[6] is Some && full_nbhd[7]
        is Some);
    assert(nbhd[0] is Some ==> nbhd[0] == full_nbhd[0]);
    assert(nbhd[1] is Some ==> nbhd[1] == full_nbhd[1]);
    assert(nbhd[2] is Some ==> nbhd[2] == full_nbhd[2]);
    assert(nbhd[3] is Some ==> nbhd[3] == full_nbhd[3]);
    assert(nbhd[4] is Some ==> nbhd[4] == full_nbhd[4]);
    assert(nbhd[5] is Some ==> nbhd[5] == full_nbhd[5]);
    assert(nbhd[6] is Some ==> nbhd[6] == full_nbhd[6]);
    assert(nbhd[7] is Some ==> nbhd[7] == full_nbhd[7]);
    lemma_read_pair(
        desc_bits(own, succ, nbhd),
        state_code(own),
        state_code(succ),
        pane_code(nbhd[0]),
        pane_code(nbhd[1]),
        pane_code(nbhd[2]),
        pane_code(nbhd[3]),
        pane_code(nbhd[4]),
        pane_code(nbhd[5]),
        pane_code(nbhd[6]),
        pane_code(nbhd[7]),
        desc_bits(Some(full_own), Some(full_succ), full_nbhd),
        state_code(Some(full_own)),
        state_code(Some(full_succ)),
        pane_code(full_nbhd[0]),
        pane_code(full_nbhd[1]),
        pane_code(full_nbhd[2]),
        pane_code(full_nbhd[3]),
        pane_code(full_nbhd[4]),
        pane_code(full_nbhd[5]),
        pane_code(full_nbhd[6]),
        pane_code(full_nbhd[7]),
    );
}

/// A descriptor has twenty bits.
pub proof fn lemma_desc_range(own: Option<State>, succ: Option<State>, nbhd: Seq<Option<State>>)
    ensures
        desc_bits(own, succ, nbhd) < 0x100000,
{
    reveal(desc_bits);
    lemma_xor_field(
        desc_bits(own, succ, nbhd),
        state_code(own),
        state_code(succ),
        pane_code(nbhd[0]),
        pane_code(nbhd[1]),
        pane_code(nbhd[2]),
        pane_code(nbhd[3]),
        pane_code(nbhd[4]),
        pane_code(nbhd[5]),
        pane_code(nbhd[6]),
        pane_code(nbhd[7]),
        0,
        0,
    );
}

/// When neighbour `j` changes its state, the descriptor changes by the pane
/// delta at that neighbour's position.
pub proof fn lemma_neighbour_change(
    own: Option<State>,
    succ: Option<State>,
    nbhd: Seq<Option<State>>,
    j: u32,
    state: Option<State>,
)
    requires
        nbhd.len() == 8,
        j < 8,
    ensures
        desc_bits(own, succ, nbhd.update(j as int, state)) == desc_bits(own, succ, nbhd) ^ (
        pane_delta(nbhd[j as int], state) << (j + 4)),
{
    let after = nbhd.update(j as int, state);
    reveal(desc_bits);
    lemma_xor_field(
        desc_bits(own, succ, nbhd),
        state_code(own),
        state_code(succ),
        pane_code(nbhd[0]),
        pane_code(nbhd[1]),
        pane_code(nbhd[2]),
        pane_code(nbhd[3]),
        pane_code(nbhd[4]),
        pane_code(nbhd[5]),
        pane_code(nbhd[6]),
        pane_code(nbhd[7]),
        j,
        pane_code(state),
    );
    if j == 0 {
        assert(after[0] == state);
        assert(after[1] == nbhd[1]);
        assert(after[2] == nbhd[2]);
        assert(after[3] == nbhd[3]);
        assert(after[4] == nbhd[4]);
        assert(after[5] == nbhd[5]);
        assert(after[6] == nbhd[6]);
        assert(after[7] == nbhd[7]);
    } else if j == 1 {
        assert(after[1] == state);
        assert(after[0] == nbhd[0]);
        assert(after[2] == nbhd[2]);
        assert(after[3] == nbhd[3]);
        assert(after[4] == nbhd[4]);
        assert(after[5] == nbhd[5]);
        assert(after[6] == nbhd[6]);
        assert(after[7] == nbhd[7]);
    } else if j == 2 {
        assert(after[2] == state);
        assert(after[0] == nbhd[0]);
        assert(after[1] == nbhd[1]);
        assert(after[3] == nbhd[3]);
        assert(after[4] == nbhd[4]);
        assert(after[5] == nbhd[5]);
        assert(after[6] == nbhd[6]);
        assert(after[7] == nbhd[7]);
    } else if j == 3 {
        assert(after[3] == state);
        assert(after[0] == nbhd[0]);
        assert(after[1] == nbhd[1]);
        assert(after[2] == nbhd[2]);
        assert(after[4] == nbhd[4]);
        assert(after[5] == nbhd[5]);
        assert(after[6] == nbhd[6]);
        assert(after[7] == nbhd[7]);
    } else if j == 4 {
        assert(after[4] == state);
        assert(after[0] == nbhd[0]);
        assert(after[1] == nbhd[1]);
        assert(after[2] == nbhd[2]);
        assert(after[3] == nbhd[3]);
        assert(after[5] == nbhd[5]);
        assert(after[6] == nbhd[6]);
        assert(after[7] == nbhd[7]);
    } else if j == 5 {
        assert(after[5] == state);
        assert(after[0] == nbhd[0]);
        assert(after[1] == nbhd[1]);
        assert(after[2] == nbhd[2]);
        assert(after[3] == nbhd[3]);
        assert(after[4] == nbhd[4]);
        assert(after[6] == nbhd[6]);
        assert(after[7] == nbhd[7]);
    } else if j == 6 {
        assert(after[6] == state);
        assert(after[0] == nbhd[0]);
        assert(after[1] == nbhd[1]);
        assert(after[2] == nbhd[2]);
        assert(after[3] == nbhd[3]);
        assert(after[4] == nbhd[4]);
        assert(after[5] == nbhd[5]);
        assert(after[7] == nbhd[7]);
    } else if j == 7 {
        assert(after[7] == state);
        assert(after[0] == nbhd[0]);
        assert(after[1] == nbhd[1]);
        assert(after[2] == nbhd[2]);
        assert(after[3] == nbhd[3]);
        assert(after[4] == nbhd[4]);
        assert(after[5] == nbhd[5]);
        assert(after[6] == nbhd[6]);
    }
}

/// When the successor changes its state, the descriptor changes by the state
/// delta in the successor field.
pub proof fn lemma_succ_change(
    own: Option<State>,
    succ: Option<State>,
    nbhd: Seq<Option<State>>,
    state: Option<State>,
)
    ensures
        desc_bits(own, state, nbhd) == desc_bits(own, succ, nbhd) ^ (state_delta(succ, state)
            << 2),
{
    reveal(desc_bits);
    lemma_xor_field(
        desc_bits(own, succ, nbhd),
        state_code(own),
        state_code(succ),
        pane_code(nbhd[0]),
        pane_code(nbhd[1]),
        pane_code(nbhd[2]),
        pane_code(nbhd[3]),
        pane_code(nbhd[4]),
        pane_code(nbhd[5]),
        pane_code(nbhd[6]),
        pane_code(nbhd[7]),
        8,
        state_code(state),
    );
}

/// When the cell itself changes its state, the descriptor changes by the
/// state delta in the own field.
pub proof fn lemma_own_change(
    own: Option<State>,
    succ: Option<State>,
    nbhd: Seq<Option<State>>,
    state: Option<State>,
)
    ensures
        desc_bits(state, succ, nbhd) == desc_bits(own, succ, nbhd) ^ state_delta(own, state),
{
    reveal(desc_bits);
    lemma_xor_field(
        desc_bits(own, succ, nbhd),
        state_code(own),
        state_code(succ),
        pane_code(nbhd[0]),
        pane_code(nbhd[1]),
        pane_code(nbhd[2]),
        pane_code(nbhd[3]),
        pane_code(nbhd[4]),
        pane_code(nbhd[5]),
        pane_code(nbhd[6]),
        pane_code(nbhd[7]),
        9,
        state_code(state),
    );
}

impl Desc {
    /// The descriptor as an integer.
    pub open spec fn bits(self) -> u32 {
        self.0
    }

    /// The descriptor of a cell in state `state` whose neighbours are all in
    /// that state too, and whose successor is in state `succ_state`.
    pub fn new(state: State, succ_state: State) -> (desc: Desc)
        ensures
            desc.bits() == desc_bits(
                Some(state),
                Some(succ_state),
                Seq::new(8, |i: int| Some(state)),
            ),
    {
        let nbhd_state: u32 = match state {
            State::Dead => 0xff00,
            State::Alive => 0x00ff,
        };
        proof {
            reveal(desc_bits);
        }
        let succ_code = code_of(Some(succ_state));
        let own_code = code_of(Some(state));
        assert(0xff00u32 << 4 | succ_code << 2 | own_code == own_code | succ_code << 2 | 0x100u32
            << 4 | 0x100u32 << 5 | 0x100u32 << 6 | 0x100u32 << 7 | 0x100u32 << 8 | 0x100u32 << 9
            | 0x100u32 << 10 | 0x100u32 << 11 && 0x00ffu32 << 4 | succ_code << 2 | own_code
            == own_code | succ_code << 2 | 1u32 << 4 | 1u32 << 5 | 1u32 << 6 | 1u32 << 7 | 1u32
            << 8 | 1u32 << 9 | 1u32 << 10 | 1u32 << 11) by (bit_vector);
        Desc(nbhd_state << 4 | succ_code << 2 | own_code)
    }
}

impl Default for Desc {
    /// The descriptor in which nothing is known.
    fn default() -> (desc: Desc)
        ensures
            desc.bits() == 0,
    {
        Desc(0)
    }
}

} // verus!
