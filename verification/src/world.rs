//! The world: the cell graph and its descriptors.

use crate::cells::{state_code, Coord, LifeCell, State};
use crate::error::Error;
use crate::desc::{
    desc_bits, lemma_neighbour_change, lemma_own_change, lemma_succ_change, pane_delta, state_delta,
    Desc,
};
use crate::grid::{
    cell_index, coord_at, coord_of, dims_ok, grid_size, in_box, in_grid, index_of,
    lemma_coord_of_index, lemma_dims_bounds, lemma_index_in_range, lemma_index_of_coord, link_to,
};
use crate::rule::Rule;
use vstd::prelude::*;
use vstd::string::StringExecFns;

verus! {

/// The states of all cells.
pub open spec fn states_of(cells: Seq<LifeCell>) -> Seq<Option<State>> {
    Seq::new(cells.len(), |x: int| cells[x].state)
}

/// The states of the eight neighbours of cell `x`, by position.
pub open spec fn nbhd_states(
    cells: Seq<LifeCell>,
    states: Seq<Option<State>>,
    x: int,
) -> Seq<Option<State>> {
    Seq::new(8, |k: int| states[cells[x].nbhd@[k] as int])
}

/// The descriptor that cell `x` must have when the cells have the given
/// states: the function of its own state, its successor's and its eight
/// neighbours'.
pub open spec fn desc_for(cells: Seq<LifeCell>, states: Seq<Option<State>>, x: int) -> u32 {
    desc_bits(states[x], states[cells[x].succ as int], nbhd_states(cells, states, x))
}

/// The descriptor of cell `x` is the one that goes with the given states.
pub open spec fn desc_ok_at(cells: Seq<LifeCell>, states: Seq<Option<State>>, x: int) -> bool {
    cells[x].desc.bits() == desc_for(cells, states, x)
}

/// Every descriptor is the one that goes with the given states.
pub open spec fn descs_ok(cells: Seq<LifeCell>, states: Seq<Option<State>>) -> bool {
    forall|x: int| 0 <= x < cells.len() ==> #[trigger] desc_ok_at(cells, states, x)
}

/// The position of the sentinel: the last cell.
pub open spec fn sentinel(cells: Seq<LifeCell>) -> int {
    cells.len() - 1
}

/// Every link of cell `c` stays inside the array, and its predecessor and
/// its symmetry twins are cells of the grid.
pub open spec fn links_in_range(cells: Seq<LifeCell>, c: int) -> bool {
    &&& forall|k: int| 0 <= k < 8 ==> 0 <= #[trigger] cells[c].nbhd@[k] < cells.len()
    &&& 0 <= cells[c].succ < cells.len()
    &&& cells[c].pred is Some ==> cells[c].pred->0 < sentinel(cells)
    &&& forall|j: int|
        0 <= j < cells[c].sym@.len() ==> 0 <= #[trigger] cells[c].sym@[j] < sentinel(cells)
}

/// When `x` is neighbour `k` of cell `c`, then `c` is neighbour `7 - k` of
/// `x`.
pub open spec fn nbhd_mutual(cells: Seq<LifeCell>, c: int, k: int) -> bool {
    cells[c].nbhd@[k] != sentinel(cells) ==> cells[cells[c].nbhd@[k] as int].nbhd@[7 - k] == c
}

/// Cell `c` is the successor of its predecessor and the predecessor of its
/// successor.
pub open spec fn pred_succ_mutual(cells: Seq<LifeCell>, c: int) -> bool {
    &&& cells[c].pred is Some ==> cells[cells[c].pred->0 as int].succ == c
    &&& cells[c].succ != sentinel(cells) ==> cells[cells[c].succ as int].pred == Some(
        c as usize,
    )
}

/// The links between the cells are sound.
///
/// Every link stays inside the array. The sentinel links to itself only.
/// Neighbours are mutual, and so are predecessor and successor.
pub open spec fn links_ok(cells: Seq<LifeCell>) -> bool {
    let s = sentinel(cells);
    &&& cells.len() >= 1
    &&& forall|c: int| 0 <= c < cells.len() ==> #[trigger] links_in_range(cells, c)
    &&& forall|k: int| 0 <= k < 8 ==> #[trigger] cells[s].nbhd@[k] == s
    &&& cells[s].succ == s
    &&& cells[s].pred is None
    &&& cells[s].sym@.len() == 0
    &&& forall|c: int, k: int| 0 <= c < s && 0 <= k < 8 ==> #[trigger] nbhd_mutual(cells, c, k)
    &&& forall|c: int| 0 <= c < s ==> #[trigger] pred_succ_mutual(cells, c)
}

/// The cell graph is sound: the links are, every descriptor goes with the
/// states of the cells, the sentinel is dead, and no unknown cell is free.
pub open spec fn graph_wf(cells: Seq<LifeCell>) -> bool {
    &&& links_ok(cells)
    &&& descs_ok(cells, states_of(cells))
    &&& cells[sentinel(cells)].state == Some(State::Dead)
    &&& !cells[sentinel(cells)].free
    &&& forall|c: int| 0 <= c < cells.len() && (#[trigger] cells[c]).state is None
        ==> !cells[c].free
}

/// The cells after cell `c` has been given a state and a free flag, and
/// every descriptor has followed.
pub open spec fn with_state(
    cells: Seq<LifeCell>,
    c: int,
    state: Option<State>,
    free: bool,
) -> Seq<LifeCell> {
    Seq::new(
        cells.len(),
        |x: int|
            LifeCell {
                state: if x == c {
                    state
                } else {
                    cells[x].state
                },
                free: if x == c {
                    free
                } else {
                    cells[x].free
                },
                desc: Desc(desc_for(cells, states_of(cells).update(c, state), x)),
                nbhd: cells[x].nbhd,
                pred: cells[x].pred,
                succ: cells[x].succ,
                sym: cells[x].sym,
            },
    )
}

/// The descriptor of cell `x` while a change of cell `c` from `old_state` to
/// `state` has reached the neighbour positions before `k`.
pub open spec fn partial_desc(
    cells: Seq<LifeCell>,
    before: Seq<Option<State>>,
    c: int,
    state: Option<State>,
    x: int,
    k: int,
) -> u32 {
    desc_bits(before[x], before[cells[x].succ as int], seen_states(cells, before, c, state, x, k))
}

/// The neighbour states that the descriptor of cell `x` reflects while a
/// change of cell `c` to `state` has reached the positions before `k`.
pub open spec fn seen_states(
    cells: Seq<LifeCell>,
    before: Seq<Option<State>>,
    c: int,
    state: Option<State>,
    x: int,
    k: int,
) -> Seq<Option<State>> {
    Seq::new(
        8,
        |j: int|
            if cells[x].nbhd@[j] == c && j < k {
                state
            } else {
                before[cells[x].nbhd@[j] as int]
            },
    )
}

/// Whether two arrays of cells differ in descriptors only.
pub open spec fn same_but_descs(a: Seq<LifeCell>, b: Seq<LifeCell>) -> bool {
    &&& a.len() == b.len()
    &&& forall|x: int|
        0 <= x < a.len() ==> {
            &&& (#[trigger] a[x]).state == b[x].state
            &&& a[x].free == b[x].free
            &&& a[x].nbhd == b[x].nbhd
            &&& a[x].pred == b[x].pred
            &&& a[x].succ == b[x].succ
            &&& a[x].sym == b[x].sym
        }
}

/// Computes the change of a two-bit state field.
fn state_change(old_state: Option<State>, state: Option<State>) -> (delta: u32)
    ensures
        delta == state_delta(old_state, state),
        delta < 4,
{
    assert(0u32 ^ 0 == 0 && 1u32 ^ 1 == 0 && 2u32 ^ 2 == 0 && 0u32 ^ 1 == 1 && 1u32 ^ 0 == 1 && 0u32
        ^ 2 == 2 && 2u32 ^ 0 == 2 && 1u32 ^ 2 == 3 && 2u32 ^ 1 == 3) by (bit_vector);
    match (state, old_state) {
        (Some(State::Dead), Some(State::Alive)) | (Some(State::Alive), Some(State::Dead)) => 0b11,
        (Some(State::Dead), None) | (None, Some(State::Dead)) => 0b10,
        (Some(State::Alive), None) | (None, Some(State::Alive)) => 0b01,
        _ => 0,
    }
}

/// Computes the change of the two panes at a neighbour's position.
fn pane_change(old_state: Option<State>, state: Option<State>) -> (delta: u32)
    ensures
        delta == pane_delta(old_state, state),
        delta <= 0x0101,
{
    assert(0u32 ^ 0 == 0 && 1u32 ^ 1 == 0 && 0x100u32 ^ 0x100 == 0 && 0u32 ^ 1 == 1 && 1u32 ^ 0 == 1
        && 0u32 ^ 0x100 == 0x100 && 0x100u32 ^ 0 == 0x100 && 1u32 ^ 0x100 == 0x101 && 0x100u32 ^ 1
        == 0x101) by (bit_vector);
    match (state, old_state) {
        (Some(State::Dead), Some(State::Alive)) | (Some(State::Alive), Some(State::Dead)) => 0x0101,
        (Some(State::Dead), None) | (None, Some(State::Dead)) => 0x0100,
        (Some(State::Alive), None) | (None, Some(State::Alive)) => 0x0001,
        _ => 0x0000,
    }
}

/// The descriptor of cell `x` follows a change that has reached the
/// neighbour positions before `k`.
pub open spec fn partial_ok_at(
    now: Seq<LifeCell>,
    cells: Seq<LifeCell>,
    before: Seq<Option<State>>,
    c: int,
    state: Option<State>,
    x: int,
    k: int,
) -> bool {
    now[x].desc.bits() == partial_desc(cells, before, c, state, x, k)
}

/// One step of the update: the descriptor of cell `x` follows the change at
/// neighbour position `k` if the changed cell stands there, and stays as it
/// is otherwise.
proof fn lemma_partial_step(
    prev: Seq<LifeCell>,
    now: Seq<LifeCell>,
    start: Seq<LifeCell>,
    c: int,
    old_state: Option<State>,
    state: Option<State>,
    k: int,
    x: int,
)
    requires
        links_ok(start),
        0 <= c < sentinel(start),
        0 <= k < 8,
        0 <= x < start.len(),
        prev.len() == start.len(),
        now.len() == start.len(),
        partial_ok_at(prev, start, states_of(start).update(c, old_state), c, state, x, k),
        ({
            let neigh = start[c].nbhd@[7 - k] as int;
            now[x].desc.bits() == if x == neigh && neigh != sentinel(start) {
                prev[x].desc.bits() ^ (pane_delta(old_state, state) << ((k + 4) as u32))
            } else {
                prev[x].desc.bits()
            }
        }),
    ensures
        partial_ok_at(now, start, states_of(start).update(c, old_state), c, state, x, k + 1),
{
    let before = states_of(start).update(c, old_state);
    let neigh = start[c].nbhd@[7 - k] as int;
    let sent = sentinel(start);
    let seen = seen_states(start, before, c, state, x, k);
    let seen_next = seen_states(start, before, c, state, x, k + 1);
    assert(links_in_range(start, c));
    assert(links_in_range(start, x));
    if start[x].nbhd@[k] == c {
        assert(x != sent);
        assert(nbhd_mutual(start, x, k));
        assert(x == neigh);
        lemma_neighbour_change(before[x], before[start[x].succ as int], seen, k as u32, state);
        assert(seen.update(k, state) =~= seen_next);
    } else {
        if neigh != sent {
            assert(nbhd_mutual(start, c, 7 - k));
        }
        assert(seen =~= seen_next);
    }
}

/// The end of the update: once the change has reached every neighbour
/// position, the successor field of the predecessor and the own field of the
/// changed cell, every descriptor goes with the new states.
proof fn lemma_partial_done(
    mid: Seq<LifeCell>,
    now: Seq<LifeCell>,
    start: Seq<LifeCell>,
    c: int,
    old_state: Option<State>,
    state: Option<State>,
    x: int,
)
    requires
        links_ok(start),
        0 <= c < sentinel(start),
        0 <= x < start.len(),
        start[c].state == state,
        same_but_descs(now, start),
        mid.len() == start.len(),
        partial_ok_at(mid, start, states_of(start).update(c, old_state), c, state, x, 8),
        ({
            let to_succ = if start[c].pred == Some(x as usize) {
                state_delta(old_state, state) << 2
            } else {
                0
            };
            let to_own = if x == c {
                state_delta(old_state, state)
            } else {
                0
            };
            now[x].desc.bits() == (mid[x].desc.bits() ^ to_succ) ^ to_own
        }),
    ensures
        desc_ok_at(now, states_of(now), x),
{
    let before = states_of(start).update(c, old_state);
    let after = states_of(start);
    let sent = sentinel(start);
    let seen = seen_states(start, before, c, state, x, 8);
    assert(links_in_range(start, c));
    assert(links_in_range(start, x));
    assert(seen =~= nbhd_states(start, after, x));
    assert(states_of(now) =~= after);
    assert(nbhd_states(now, after, x) =~= nbhd_states(start, after, x));
    let own0 = before[x];
    let succ0 = before[start[x].succ as int];
    let succ1 = after[start[x].succ as int];
    lemma_succ_change(own0, succ0, seen, succ1);
    lemma_own_change(own0, succ1, seen, after[x]);
    if start[x].succ == c {
        assert(x != sent);
        assert(pred_succ_mutual(start, x));
    }
    if start[c].pred == Some(x as usize) {
        assert(pred_succ_mutual(start, c));
    }
    let v = state_code(own0);
    assert(v ^ v == 0) by (bit_vector);
    let w = state_code(succ0);
    assert(w ^ w == 0 && 0u32 << 2 == 0) by (bit_vector);
    let d = mid[x].desc.bits();
    assert(d ^ 0 == d) by (bit_vector);
    let e = d ^ (state_delta(old_state, state) << 2);
    assert(e ^ 0 == e) by (bit_vector);
}

/// Updates the descriptors of the neighbours, of the predecessor and of the
/// cell itself, after cell `c` has changed from `old_state` to `state`.
///
/// Before the call the new state is stored in the cell and the descriptors
/// still go with the old one. After it they go with the new one, and nothing
/// else has changed.
pub fn update_desc(
    cells: &mut Vec<LifeCell>,
    c: usize,
    old_state: Option<State>,
    state: Option<State>,
)
    requires
        links_ok(old(cells)@),
        c < old(cells)@.len() - 1,
        old(cells)@[c as int].state == state,
        descs_ok(old(cells)@, states_of(old(cells)@).update(c as int, old_state)),
    ensures
        same_but_descs(final(cells)@, old(cells)@),
        descs_ok(final(cells)@, states_of(final(cells)@)),
{
    let ghost start = cells@;
    let ghost before = states_of(start).update(c as int, old_state);
    let sent = cells.len() - 1;
    let nbhd_change = pane_change(old_state, state);
    proof {
        assert forall|x: int| 0 <= x < start.len() implies #[trigger] partial_ok_at(
            cells@,
            start,
            before,
            c as int,
            state,
            x,
            0,
        ) by {
            assert(desc_ok_at(start, before, x));
            assert(nbhd_states(start, before, x) =~= seen_states(
                start,
                before,
                c as int,
                state,
                x,
                0,
            ));
        }
    }
    let mut k: usize = 0;
    while k < 8
        invariant
            k <= 8,
            links_ok(start),
            c < sent,
            sent == start.len() - 1,
            same_but_descs(cells@, start),
            nbhd_change == pane_delta(old_state, state),
            nbhd_change <= 0x0101,
            before == states_of(start).update(c as int, old_state),
            forall|x: int|
                0 <= x < start.len() ==> #[trigger] partial_ok_at(
                    cells@,
                    start,
                    before,
                    c as int,
                    state,
                    x,
                    k as int,
                ),
        decreases 8 - k,
    {
        assert(links_in_range(start, c as int));
        let neigh = cells[c].nbhd[7 - k];
        let ghost prev = cells@;
        if neigh != sent {
            let desc = cells[neigh].desc;
            cells[neigh].desc = Desc(desc.0 ^ (nbhd_change << (k as u32 + 4)));
        }
        proof {
            assert forall|x: int| 0 <= x < start.len() implies #[trigger] partial_ok_at(
                cells@,
                start,
                before,
                c as int,
                state,
                x,
                k + 1,
            ) by {
                assert(partial_ok_at(prev, start, before, c as int, state, x, k as int));
                lemma_partial_step(prev, cells@, start, c as int, old_state, state, k as int, x);
            }
        }
        k += 1;
    }
    let change = state_change(old_state, state);
    let ghost mid = cells@;
    assert(links_in_range(start, c as int));
    match cells[c].pred {
        Some(pred) => {
            let desc = cells[pred].desc;
            cells[pred].desc = Desc(desc.0 ^ (change << 2));
        },
        None => {},
    }
    let desc = cells[c].desc;
    cells[c].desc = Desc(desc.0 ^ change);
    proof {
        assert forall|x: int| 0 <= x < cells@.len() implies #[trigger] desc_ok_at(
            cells@,
            states_of(cells@),
            x,
        ) by {
            assert(partial_ok_at(mid, start, before, c as int, state, x, 8));
            let d = mid[x].desc.bits();
            assert(d ^ 0 == d) by (bit_vector);
            let e = d ^ (state_delta(old_state, state) << 2);
            assert(e ^ 0 == e) by (bit_vector);
            lemma_partial_done(mid, cells@, start, c as int, old_state, state, x);
        }
    }
}

/// The symmetry group that a pattern is invariant under.
#[derive(Clone, Copy, Debug, PartialEq, Eq, Structural)]
pub enum Symmetry {
    C1,
    C2,
    C4,
    D2Row,
    D2Column,
    D2Diag,
    D2Antidiag,
    D4Ortho,
    D4Diag,
    D8,
}

/// Whether two string slices hold the same characters.
fn str_eq(a: &str, b: &str) -> (r: bool)
    ensures
        r == (a@ == b@),
{
    let left = a.to_owned();
    let right = b.to_owned();
    left == right
}

/// The symmetry that a name denotes.
pub open spec fn symmetry_named(name: Seq<char>) -> Option<Symmetry> {
    if name == "C1"@ {
        Some(Symmetry::C1)
    } else if name == "C2"@ {
        Some(Symmetry::C2)
    } else if name == "C4"@ {
        Some(Symmetry::C4)
    } else if name == "D2|"@ {
        Some(Symmetry::D2Row)
    } else if name == "D2-"@ {
        Some(Symmetry::D2Column)
    } else if name == "D2\\"@ {
        Some(Symmetry::D2Diag)
    } else if name == "D2/"@ {
        Some(Symmetry::D2Antidiag)
    } else if name == "D4+"@ {
        Some(Symmetry::D4Ortho)
    } else if name == "D4X"@ {
        Some(Symmetry::D4Diag)
    } else if name == "D8"@ {
        Some(Symmetry::D8)
    } else {
        None
    }
}

impl Symmetry {
    /// Reads the name of a symmetry.
    pub fn from_str(s: &str) -> (res: Result<Symmetry, String>)
        ensures
            match symmetry_named(s@) {
                Some(symmetry) => res == Ok::<Symmetry, String>(symmetry),
                None => res is Err && res->Err_0@ == "invalid symmetry"@,
            },
    {
        if str_eq(s, "C1") {
            Ok(Symmetry::C1)
        } else if str_eq(s, "C2") {
            Ok(Symmetry::C2)
        } else if str_eq(s, "C4") {
            Ok(Symmetry::C4)
        } else if str_eq(s, "D2|") {
            Ok(Symmetry::D2Row)
        } else if str_eq(s, "D2-") {
            Ok(Symmetry::D2Column)
        } else if str_eq(s, "D2\\") {
            Ok(Symmetry::D2Diag)
        } else if str_eq(s, "D2/") {
            Ok(Symmetry::D2Antidiag)
        } else if str_eq(s, "D4+") {
            Ok(Symmetry::D4Ortho)
        } else if str_eq(s, "D4X") {
            Ok(Symmetry::D4Diag)
        } else if str_eq(s, "D8") {
            Ok(Symmetry::D8)
        } else {
            Err(String::from_str("invalid symmetry"))
        }
    }
}

impl core::str::FromStr for Symmetry {
    type Err = String;

    /// Reads the name of a symmetry: the symmetry that the name denotes, or
    /// the message `invalid symmetry` where it denotes none.
    fn from_str(s: &str) -> (res: Result<Self, String>)
        ensures
            match symmetry_named(s@) {
                Some(symmetry) => res == Ok::<Symmetry, String>(symmetry),
                None => res is Err && res->Err_0@ == "invalid symmetry"@,
            },
    {
        Symmetry::from_str(s)
    }
}

/// What a world is built from, besides the rule.
pub struct Layout {
    pub width: int,
    pub height: int,
    pub period: int,
    pub dx: int,
    pub dy: int,
    pub symmetry: Symmetry,
    pub column_first: bool,
}

/// The column offset of neighbour `k`.
pub open spec fn offset_x(k: int) -> int {
    if k < 3 {
        -1
    } else if k < 5 {
        0
    } else {
        1
    }
}

/// The row offset of neighbour `k`.
pub open spec fn offset_y(k: int) -> int {
    if k == 0 || k == 3 || k == 5 {
        -1
    } else if k == 1 || k == 6 {
        0
    } else {
        1
    }
}

/// The coordinate of the predecessor: the same place one generation
/// earlier, or, from generation 0, the place moved back by the displacement
/// in the last generation.
pub open spec fn pred_coord(l: Layout, x: int, y: int, t: int) -> (int, int, int) {
    if t != 0 {
        (x, y, t - 1)
    } else {
        (x - l.dx, y - l.dy, l.period - 1)
    }
}

/// The coordinate of the successor: the same place one generation later,
/// or, from the last generation, the place moved on by the displacement in
/// generation 0.
pub open spec fn succ_coord(l: Layout, x: int, y: int, t: int) -> (int, int, int) {
    if t != l.period - 1 {
        (x, y, t + 1)
    } else {
        (x + l.dx, y + l.dy, 0)
    }
}

/// The places that the symmetry maps a place to.
pub open spec fn twins(symmetry: Symmetry, w: int, h: int, x: int, y: int) -> Seq<(int, int)> {
    let mx = w - 1 - x;
    let my = h - 1 - y;
    match symmetry {
        Symmetry::C1 => seq![],
        Symmetry::C2 => seq![(mx, my)],
        Symmetry::C4 => seq![(y, mx), (mx, my), (my, x)],
        Symmetry::D2Row => seq![(mx, y)],
        Symmetry::D2Column => seq![(x, my)],
        Symmetry::D2Diag => seq![(y, x)],
        Symmetry::D2Antidiag => seq![(my, mx)],
        Symmetry::D4Ortho => seq![(mx, y), (x, my), (mx, my)],
        Symmetry::D4Diag => seq![(y, x), (my, mx), (mx, my)],
        Symmetry::D8 => seq![(y, mx), (my, x), (mx, y), (x, my), (y, x), (my, mx), (mx, my)],
    }
}

/// The positions of the first `n` of the given places that lie in the box,
/// in generation `t`.
pub open spec fn twin_links(l: Layout, places: Seq<(int, int)>, t: int, n: nat) -> Seq<usize>
    decreases n,
{
    if n == 0 {
        Seq::empty()
    } else {
        let rest = twin_links(l, places, t, (n - 1) as nat);
        let (x, y) = places[n - 1];
        if in_box(l.width, l.height, x, y) {
            rest.push(cell_index(l.width, l.height, l.period, l.column_first, x, y, t) as usize)
        } else {
            rest
        }
    }
}

/// Whether all of the given places lie in the box.
pub open spec fn all_in_box(l: Layout, places: Seq<(int, int)>) -> bool {
    forall|j: int|
        0 <= j < places.len() ==> in_box(l.width, l.height, (#[trigger] places[j]).0, places[j].1)
}

/// The state that a cell has outside the pattern: dead, or, under a rule
/// with `B0`, alive in the odd generations.
pub open spec fn default_state(b0: bool, t: int) -> State {
    if b0 && t % 2 == 1 {
        State::Alive
    } else {
        State::Dead
    }
}

/// Whether a cell of the box is held to its default state: its predecessor
/// would lie outside the grid, or the symmetry maps it outside the box.
pub open spec fn forced(l: Layout, x: int, y: int, t: int) -> bool {
    let (px, py, pt) = pred_coord(l, x, y, t);
    ||| t == 0 && !in_grid(l.width, l.height, l.period, px, py, pt)
    ||| !all_in_box(l, twins(l.symmetry, l.width, l.height, x, y))
}

/// The state in which a cell starts: unknown inside the box unless it is
/// held to its default, and the default everywhere else.
pub open spec fn initial_state(l: Layout, b0: bool, x: int, y: int, t: int) -> Option<State> {
    if in_box(l.width, l.height, x, y) && !forced(l, x, y, t) {
        None
    } else {
        Some(default_state(b0, t))
    }
}

/// Whether the cell at position `c` has the links that the layout gives it.
pub open spec fn cell_linked(cell: LifeCell, l: Layout, c: int) -> bool {
    let (x, y, t) = coord_of(l.width, l.height, l.period, l.column_first, c);
    let (px, py, pt) = pred_coord(l, x, y, t);
    let (sx, sy, st) = succ_coord(l, x, y, t);
    let places = twins(l.symmetry, l.width, l.height, x, y);
    &&& forall|k: int|
        0 <= k < 8 ==> #[trigger] cell.nbhd@[k] == link_to(
            l.width,
            l.height,
            l.period,
            l.column_first,
            x + offset_x(k),
            y + offset_y(k),
            t,
        )
    &&& cell.pred == if in_grid(l.width, l.height, l.period, px, py, pt) {
        Some(cell_index(l.width, l.height, l.period, l.column_first, px, py, pt) as usize)
    } else {
        None
    }
    &&& cell.succ == link_to(l.width, l.height, l.period, l.column_first, sx, sy, st)
    &&& cell.sym@ == twin_links(l, places, t, places.len())
}

/// Whether the order of search goes column by column: as asked, or else by
/// the longer side of the part of the box that the symmetry leaves free,
/// and for a square part by the direction of the displacement.
pub open spec fn column_order(
    w: int,
    h: int,
    dx: int,
    dy: int,
    symmetry: Symmetry,
    column_first: Option<bool>,
) -> bool {
    match column_first {
        Some(c) => c,
        None => {
            let (ew, eh) = match symmetry {
                Symmetry::D2Row => ((w + 1) / 2, h),
                Symmetry::D2Column => (w, (h + 1) / 2),
                _ => (w, h),
            };
            if ew == eh {
                vstd::math::abs(dx) >= vstd::math::abs(dy)
            } else {
                ew > eh
            }
        },
    }
}

/// The offset of neighbour `k`.
fn offset(k: usize) -> (d: (isize, isize))
    requires
        k < 8,
    ensures
        d.0 == offset_x(k as int),
        d.1 == offset_y(k as int),
{
    match k {
        0 => (-1, -1),
        1 => (-1, 0),
        2 => (-1, 1),
        3 => (0, -1),
        4 => (0, 1),
        5 => (1, -1),
        6 => (1, 0),
        _ => (1, 1),
    }
}

/// Moves a column or row by a distance, where the result stays in the grid.
fn shifted(x: isize, d: isize, limit: isize, forward: bool) -> (r: Option<isize>)
    requires
        -1 <= x <= limit,
        limit < isize::MAX,
    ensures
        ({
            let moved = if forward {
                x + d
            } else {
                x - d
            };
            r == if -1 <= moved <= limit {
                Some(moved as isize)
            } else {
                None
            }
        }),
{
    if forward {
        if -1 - x <= d && d <= limit - x {
            Some(x + d)
        } else {
            None
        }
    } else {
        if x - limit <= d && d <= x + 1 {
            Some(x - d)
        } else {
            None
        }
    }
}

/// Whether one distance is at least as long as another.
fn abs_ge(a: isize, b: isize) -> (r: bool)
    ensures
        r == (vstd::math::abs(a as int) >= vstd::math::abs(b as int)),
{
    if a >= 0 {
        if b >= 0 {
            a >= b
        } else {
            -a <= b
        }
    } else {
        if b >= 0 {
            a <= -b
        } else {
            a <= b
        }
    }
}

/// Lists the places that the symmetry maps a place of the grid to.
fn twin_coords(symmetry: Symmetry, width: isize, height: isize, x: isize, y: isize) -> (places: Vec<
    (isize, isize),
>)
    requires
        0 <= width < isize::MAX,
        0 <= height < isize::MAX,
        -1 <= x <= width,
        -1 <= y <= height,
    ensures
        places@.len() == twins(symmetry, width as int, height as int, x as int, y as int).len(),
        forall|j: int|
            0 <= j < places@.len() ==> (places@[j].0 as int, places@[j].1 as int)
                == #[trigger] twins(
                symmetry,
                width as int,
                height as int,
                x as int,
                y as int,
            )[j],
{
    let mx = width - 1 - x;
    let my = height - 1 - y;
    match symmetry {
        Symmetry::C1 => vec![],
        Symmetry::C2 => vec![(mx, my)],
        Symmetry::C4 => vec![(y, mx), (mx, my), (my, x)],
        Symmetry::D2Row => vec![(mx, y)],
        Symmetry::D2Column => vec![(x, my)],
        Symmetry::D2Diag => vec![(y, x)],
        Symmetry::D2Antidiag => vec![(my, mx)],
        Symmetry::D4Ortho => vec![(mx, y), (x, my), (mx, my)],
        Symmetry::D4Diag => vec![(y, x), (my, mx), (mx, my)],
        Symmetry::D8 => vec![(y, mx), (my, x), (mx, y), (x, my), (y, x), (my, mx), (mx, my)],
    }
}

/// The layout that the arguments of the world builder describe.
pub open spec fn layout_of(
    width: isize,
    height: isize,
    period: isize,
    dx: isize,
    dy: isize,
    symmetry: Symmetry,
    column_first: bool,
) -> Layout {
    Layout {
        width: width as int,
        height: height as int,
        period: period as int,
        dx: dx as int,
        dy: dy as int,
        symmetry,
        column_first,
    }
}

/// The descriptor of a dead cell among dead cells.
pub open spec fn dead_desc() -> u32 {
    desc_bits(Some(State::Dead), Some(State::Dead), Seq::new(8, |i: int| Some(State::Dead)))
}

/// The number of cells of the grid.
fn grid_len(width: isize, height: isize, period: isize) -> (size: usize)
    requires
        dims_ok(width as int, height as int, period as int),
    ensures
        size == grid_size(width as int, height as int, period as int),
{
    proof {
        lemma_dims_bounds(width as int, height as int, period as int);
    }
    ((width + 2) * (height + 2) * period) as usize
}

/// The position that a link to a coordinate holds.
fn link_at(width: isize, height: isize, period: isize, column_first: bool, coord: Coord) -> (link:
    usize)
    requires
        dims_ok(width as int, height as int, period as int),
    ensures
        link == link_to(
            width as int,
            height as int,
            period as int,
            column_first,
            coord.0 as int,
            coord.1 as int,
            coord.2 as int,
        ),
        link <= grid_size(width as int, height as int, period as int),
{
    proof {
        if in_grid(
            width as int,
            height as int,
            period as int,
            coord.0 as int,
            coord.1 as int,
            coord.2 as int,
        ) {
            lemma_index_in_range(
                width as int,
                height as int,
                period as int,
                column_first,
                coord.0 as int,
                coord.1 as int,
                coord.2 as int,
            );
        }
    }
    match index_of(width, height, period, column_first, coord) {
        Some(index) => index,
        None => grid_len(width, height, period),
    }
}

/// Makes the cell at a position of the array: dead, with the links that the
/// layout gives it.
fn make_cell(
    width: isize,
    height: isize,
    period: isize,
    dx: isize,
    dy: isize,
    symmetry: Symmetry,
    column_first: bool,
    index: usize,
) -> (cell: LifeCell)
    requires
        dims_ok(width as int, height as int, period as int),
        index < grid_size(width as int, height as int, period as int),
    ensures
        cell_linked(
            cell,
            layout_of(width, height, period, dx, dy, symmetry, column_first),
            index as int,
        ),
        cell.state == Some(State::Dead),
        !cell.free,
        cell.desc.bits() == dead_desc(),
{
    let ghost l = layout_of(width, height, period, dx, dy, symmetry, column_first);
    proof {
        lemma_dims_bounds(width as int, height as int, period as int);
    }
    let size = grid_len(width, height, period);
    let (x, y, t) = coord_at(width, height, period, column_first, index);
    let mut nbhd: [usize; 8] = [size; 8];
    let mut k: usize = 0;
    while k < 8
        invariant
            k <= 8,
            dims_ok(width as int, height as int, period as int),
            width + 2 < isize::MAX,
            height + 2 < isize::MAX,
            in_grid(width as int, height as int, period as int, x as int, y as int, t as int),
            forall|j: int|
                0 <= j < k ==> #[trigger] nbhd@[j] == link_to(
                    width as int,
                    height as int,
                    period as int,
                    column_first,
                    x + offset_x(j),
                    y + offset_y(j),
                    t as int,
                ),
        decreases 8 - k,
    {
        let (ox, oy) = offset(k);
        nbhd[k] = link_at(width, height, period, column_first, (x + ox, y + oy, t));
        k += 1;
    }
    let pred = if t != 0 {
        index_of(width, height, period, column_first, (x, y, t - 1))
    } else {
        match (shifted(x, dx, width, false), shifted(y, dy, height, false)) {
            (Some(px), Some(py)) => index_of(
                width,
                height,
                period,
                column_first,
                (px, py, period - 1),
            ),
            _ => None,
        }
    };
    let succ = if t != period - 1 {
        link_at(width, height, period, column_first, (x, y, t + 1))
    } else {
        match (shifted(x, dx, width, true), shifted(y, dy, height, true)) {
            (Some(sx), Some(sy)) => link_at(width, height, period, column_first, (sx, sy, 0)),
            _ => size,
        }
    };
    let places = twin_coords(symmetry, width, height, x, y);
    let ghost spots = twins(symmetry, width as int, height as int, x as int, y as int);
    let mut sym: Vec<usize> = Vec::new();
    let mut j: usize = 0;
    while j < places.len()
        invariant
            j <= places@.len(),
            dims_ok(width as int, height as int, period as int),
            in_grid(width as int, height as int, period as int, x as int, y as int, t as int),
            l == layout_of(width, height, period, dx, dy, symmetry, column_first),
            spots == twins(symmetry, width as int, height as int, x as int, y as int),
            places@.len() == spots.len(),
            forall|i: int|
                0 <= i < places@.len() ==> (places@[i].0 as int, places@[i].1 as int)
                    == #[trigger] spots[i],
            sym@ == twin_links(l, spots, t as int, j as nat),
        decreases places@.len() - j,
    {
        let (qx, qy) = places[j];
        assert((qx as int, qy as int) == spots[j as int]);
        if 0 <= qx && qx < width && 0 <= qy && qy < height {
            match index_of(width, height, period, column_first, (qx, qy, t)) {
                Some(twin) => {
                    sym.push(twin);
                },
                None => {},
            }
        }
        j += 1;
    }
    LifeCell {
        state: Some(State::Dead),
        free: false,
        desc: Desc::new(State::Dead, State::Dead),
        nbhd,
        pred,
        succ,
        sym,
    }
}

/// The world: the grid of cells, with the rule that governs them.
pub struct World {
    width: isize,
    height: isize,
    period: isize,
    rule: Rule,
    /// Whether the order of search goes column by column rather than row by
    /// row.
    column_first: bool,
    /// The cells of the grid in the order of search, and after them the
    /// sentinel: a dead cell that never changes and stands for every cell
    /// outside the grid.
    cells: Vec<LifeCell>,
}

impl View for World {
    type V = Seq<LifeCell>;

    closed spec fn view(&self) -> Seq<LifeCell> {
        self.cells@
    }
}

impl World {
    /// The width of the box.
    pub closed spec fn w(&self) -> int {
        self.width as int
    }

    /// The height of the box.
    pub closed spec fn h(&self) -> int {
        self.height as int
    }

    /// The period.
    pub closed spec fn p(&self) -> int {
        self.period as int
    }

    /// Whether the cells are laid out column by column.
    pub closed spec fn column_major(&self) -> bool {
        self.column_first
    }

    /// The rule.
    pub closed spec fn rule_of(&self) -> Rule {
        self.rule
    }

    /// The world is sound: the array holds the grid and the sentinel, the
    /// cell graph is sound, and so is the rule.
    pub open spec fn wf(&self) -> bool {
        &&& dims_ok(self.w(), self.h(), self.p())
        &&& self@.len() == grid_size(self.w(), self.h(), self.p()) + 1
        &&& graph_wf(self@)
        &&& self.rule_of().wf()
    }

    /// Whether two worlds differ in their cells at most.
    pub open spec fn same_frame(&self, other: &World) -> bool {
        &&& self.w() == other.w()
        &&& self.h() == other.h()
        &&& self.p() == other.p()
        &&& self.column_major() == other.column_major()
        &&& self.rule_of() == other.rule_of()
    }

    /// The descriptor of every cell is the function of the state of the
    /// cell, of its successor and of its eight neighbours.
    pub proof fn lemma_desc_in_step(&self, c: int)
        requires
            self.wf(),
            0 <= c < self@.len(),
        ensures
            self@[c].desc.bits() == desc_bits(
                self@[c].state,
                self@[self@[c].succ as int].state,
                Seq::new(8, |k: int| self@[self@[c].nbhd@[k] as int].state),
            ),
    {
        assert(desc_ok_at(self@, states_of(self@), c));
        assert(links_in_range(self@, c));
        assert(nbhd_states(self@, states_of(self@), c) =~= Seq::new(
            8,
            |k: int| self@[self@[c].nbhd@[k] as int].state,
        ));
    }

    /// Gives a cell of the grid a state and a free flag, and lets the
    /// descriptors follow.
    pub(crate) fn set_state(&mut self, c: usize, state: Option<State>, free: bool)
        requires
            old(self).wf(),
            c < old(self)@.len() - 1,
            state is None ==> !free,
        ensures
            final(self).wf(),
            final(self)@ == with_state(old(self)@, c as int, state, free),
            final(self).same_frame(old(self)),
    {
        let ghost start = self.cells@;
        let old_state = self.cells[c].state;
        self.cells[c].state = state;
        self.cells[c].free = free;
        proof {
            let now = self.cells@;
            assert(states_of(now).update(c as int, old_state) =~= states_of(start));
            lemma_links_carry(start, now);
            assert forall|x: int| 0 <= x < now.len() implies #[trigger] desc_ok_at(
                now,
                states_of(start),
                x,
            ) by {
                assert(desc_ok_at(start, states_of(start), x));
                assert(nbhd_states(now, states_of(start), x) =~= nbhd_states(
                    start,
                    states_of(start),
                    x,
                ));
            }
        }
        let ghost mid = self.cells@;
        update_desc(&mut self.cells, c, old_state, state);
        proof {
            let now = self.cells@;
            lemma_links_carry(mid, now);
            let goal = with_state(start, c as int, state, free);
            assert(states_of(now) =~= states_of(start).update(c as int, state));
            assert forall|x: int| 0 <= x < now.len() implies now[x] == goal[x] by {
                assert(desc_ok_at(now, states_of(now), x));
                assert(nbhd_states(now, states_of(now), x) =~= nbhd_states(
                    start,
                    states_of(now),
                    x,
                ));
            }
            assert(now =~= goal);
        }
    }
}

/// Links that are sound stay sound while only states, free flags and
/// descriptors change.
pub proof fn lemma_links_carry(a: Seq<LifeCell>, b: Seq<LifeCell>)
    requires
        links_ok(a),
        a.len() == b.len(),
        forall|x: int|
            0 <= x < a.len() ==> {
                &&& (#[trigger] a[x]).nbhd == b[x].nbhd
                &&& a[x].pred == b[x].pred
                &&& a[x].succ == b[x].succ
                &&& a[x].sym == b[x].sym
            },
    ensures
        links_ok(b),
{
    let s = sentinel(a);
    assert(a[s].nbhd == b[s].nbhd);
    assert forall|c: int| 0 <= c < b.len() implies #[trigger] links_in_range(b, c) by {
        assert(links_in_range(a, c));
        assert(a[c].nbhd == b[c].nbhd);
    }
    assert forall|c: int, k: int| 0 <= c < s && 0 <= k < 8 implies #[trigger] nbhd_mutual(
        b,
        c,
        k,
    ) by {
        assert(nbhd_mutual(a, c, k));
        assert(links_in_range(a, c));
        assert(a[c].nbhd == b[c].nbhd);
        let x = a[c].nbhd@[k] as int;
        assert(a[x].nbhd == b[x].nbhd);
    }
    assert forall|c: int| 0 <= c < s implies #[trigger] pred_succ_mutual(b, c) by {
        assert(pred_succ_mutual(a, c));
        assert(links_in_range(a, c));
        assert(a[c].pred == b[c].pred);
        let x = a[c].succ as int;
        assert(a[x].pred == b[x].pred);
        if a[c].pred is Some {
            let q = a[c].pred->0 as int;
            assert(a[q].succ == b[q].succ);
        }
    }
}

/// The positions of places in the box are positions of cells of the grid.
proof fn lemma_twin_links_range(l: Layout, places: Seq<(int, int)>, t: int, n: nat, j: int)
    requires
        0 <= l.width,
        0 <= l.height,
        1 <= l.period,
        0 <= t < l.period,
        n <= places.len(),
        0 <= j < twin_links(l, places, t, n).len(),
        grid_size(l.width, l.height, l.period) < isize::MAX,
    ensures
        twin_links(l, places, t, n)[j] < grid_size(l.width, l.height, l.period),
    decreases n,
{
    if n > 0 {
        let rest = twin_links(l, places, t, (n - 1) as nat);
        let (x, y) = places[n - 1];
        if j < rest.len() {
            lemma_twin_links_range(l, places, t, (n - 1) as nat, j);
        } else {
            lemma_index_in_range(l.width, l.height, l.period, l.column_first, x, y, t);
        }
    }
}

/// Whether every cell of the grid has the links that the layout gives it,
/// and the sentinel links to itself.
pub open spec fn all_linked(cells: Seq<LifeCell>, l: Layout) -> bool {
    let size = grid_size(l.width, l.height, l.period);
    &&& cells.len() == size + 1
    &&& forall|c: int| 0 <= c < size ==> #[trigger] cell_linked(cells[c], l, c)
    &&& forall|k: int| 0 <= k < 8 ==> #[trigger] cells[size].nbhd@[k] == size
    &&& cells[size].succ == size
    &&& cells[size].pred is None
    &&& cells[size].sym@.len() == 0
}

/// The links that a layout gives a cell stay inside the array.
proof fn lemma_built_in_range(cells: Seq<LifeCell>, l: Layout, c: int)
    requires
        dims_ok(l.width, l.height, l.period),
        all_linked(cells, l),
        0 <= c < cells.len(),
    ensures
        links_in_range(cells, c),
{
    let (w, h, p, cf) = (l.width, l.height, l.period, l.column_first);
    let size = grid_size(w, h, p);
    if c < size {
        assert(cell_linked(cells[c], l, c));
        lemma_index_of_coord(w, h, p, cf, c);
        let (x, y, t) = coord_of(w, h, p, cf, c);
        assert forall|k: int| 0 <= k < 8 implies 0 <= #[trigger] cells[c].nbhd@[k]
            < cells.len() by {
            if in_grid(w, h, p, x + offset_x(k), y + offset_y(k), t) {
                lemma_index_in_range(w, h, p, cf, x + offset_x(k), y + offset_y(k), t);
            }
        }
        let (px, py, pt) = pred_coord(l, x, y, t);
        if in_grid(w, h, p, px, py, pt) {
            lemma_index_in_range(w, h, p, cf, px, py, pt);
        }
        let (sx, sy, st) = succ_coord(l, x, y, t);
        if in_grid(w, h, p, sx, sy, st) {
            lemma_index_in_range(w, h, p, cf, sx, sy, st);
        }
        let places = twins(l.symmetry, w, h, x, y);
        assert forall|j: int| 0 <= j < cells[c].sym@.len() implies 0
            <= #[trigger] cells[c].sym@[j] < sentinel(cells) by {
            lemma_twin_links_range(l, places, t, places.len(), j);
        }
    }
}

/// The neighbours that a layout gives are mutual.
proof fn lemma_built_nbhd(cells: Seq<LifeCell>, l: Layout, c: int, k: int)
    requires
        dims_ok(l.width, l.height, l.period),
        all_linked(cells, l),
        0 <= c < grid_size(l.width, l.height, l.period),
        0 <= k < 8,
    ensures
        nbhd_mutual(cells, c, k),
{
    let (w, h, p, cf) = (l.width, l.height, l.period, l.column_first);
    let size = grid_size(w, h, p);
    assert(cell_linked(cells[c], l, c));
    lemma_index_of_coord(w, h, p, cf, c);
    let (x, y, t) = coord_of(w, h, p, cf, c);
    let (nx, ny) = (x + offset_x(k), y + offset_y(k));
    assert(cells[c].nbhd@[k] == link_to(w, h, p, cf, nx, ny, t));
    if cells[c].nbhd@[k] != size {
        lemma_index_in_range(w, h, p, cf, nx, ny, t);
        lemma_coord_of_index(w, h, p, cf, nx, ny, t);
        let n = cell_index(w, h, p, cf, nx, ny, t);
        assert(cell_linked(cells[n], l, n));
        assert(cells[n].nbhd@[7 - k] == link_to(
            w,
            h,
            p,
            cf,
            nx + offset_x(7 - k),
            ny + offset_y(7 - k),
            t,
        ));
        assert(nx + offset_x(7 - k) == x);
        assert(ny + offset_y(7 - k) == y);
    }
}

/// The predecessors and successors that a layout gives are mutual.
proof fn lemma_built_pred_succ(cells: Seq<LifeCell>, l: Layout, c: int)
    requires
        dims_ok(l.width, l.height, l.period),
        all_linked(cells, l),
        0 <= c < grid_size(l.width, l.height, l.period),
    ensures
        pred_succ_mutual(cells, c),
{
    let (w, h, p, cf) = (l.width, l.height, l.period, l.column_first);
    assert(cell_linked(cells[c], l, c));
    lemma_index_of_coord(w, h, p, cf, c);
    let (x, y, t) = coord_of(w, h, p, cf, c);
    let (px, py, pt) = pred_coord(l, x, y, t);
    if in_grid(w, h, p, px, py, pt) {
        lemma_index_in_range(w, h, p, cf, px, py, pt);
        lemma_coord_of_index(w, h, p, cf, px, py, pt);
        let q = cell_index(w, h, p, cf, px, py, pt);
        assert(cell_linked(cells[q], l, q));
        assert(succ_coord(l, px, py, pt) == (x, y, t));
    }
    let (sx, sy, st) = succ_coord(l, x, y, t);
    if in_grid(w, h, p, sx, sy, st) {
        lemma_index_in_range(w, h, p, cf, sx, sy, st);
        lemma_coord_of_index(w, h, p, cf, sx, sy, st);
        let q = cell_index(w, h, p, cf, sx, sy, st);
        assert(cell_linked(cells[q], l, q));
        assert(pred_coord(l, sx, sy, st) == (x, y, t));
    }
}

/// The links that a layout gives are sound.
pub proof fn lemma_built_links(cells: Seq<LifeCell>, l: Layout)
    requires
        dims_ok(l.width, l.height, l.period),
        all_linked(cells, l),
    ensures
        links_ok(cells),
{
    let size = grid_size(l.width, l.height, l.period);
    assert forall|c: int| 0 <= c < cells.len() implies #[trigger] links_in_range(cells, c) by {
        lemma_built_in_range(cells, l, c);
    }
    assert forall|c: int, k: int| 0 <= c < size && 0 <= k < 8 implies #[trigger] nbhd_mutual(
        cells,
        c,
        k,
    ) by {
        lemma_built_nbhd(cells, l, c, k);
    }
    assert forall|c: int| 0 <= c < size implies #[trigger] pred_succ_mutual(cells, c) by {
        lemma_built_pred_succ(cells, l, c);
    }
}

/// Whether the cells are those of a freshly built world: linked as the
/// layout says, none of them free, and each in its initial state.
pub open spec fn built(cells: Seq<LifeCell>, l: Layout, b0: bool) -> bool {
    let size = grid_size(l.width, l.height, l.period);
    &&& all_linked(cells, l)
    &&& forall|c: int|
        0 <= c < size ==> {
            let (x, y, t) = coord_of(l.width, l.height, l.period, l.column_first, c);
            &&& (#[trigger] cells[c]).state == initial_state(l, b0, x, y, t)
            &&& !cells[c].free
        }
}

/// In a freshly built world under a rule without `B0`, every cell that is
/// known is dead.
pub proof fn lemma_built_dead(cells: Seq<LifeCell>, l: Layout)
    requires
        dims_ok(l.width, l.height, l.period),
        built(cells, l, false),
        cells[sentinel(cells)].state == Some(State::Dead),
    ensures
        forall|c: int|
            0 <= c < cells.len() && (#[trigger] cells[c]).state is Some ==> cells[c].state == Some(
                State::Dead,
            ),
{
}

/// Whether a cell of the box is held to its default state.
fn is_forced(
    width: isize,
    height: isize,
    period: isize,
    dx: isize,
    dy: isize,
    symmetry: Symmetry,
    column_first: bool,
    coord: Coord,
) -> (r: bool)
    requires
        dims_ok(width as int, height as int, period as int),
        in_grid(
            width as int,
            height as int,
            period as int,
            coord.0 as int,
            coord.1 as int,
            coord.2 as int,
        ),
    ensures
        r == forced(
            layout_of(width, height, period, dx, dy, symmetry, column_first),
            coord.0 as int,
            coord.1 as int,
            coord.2 as int,
        ),
{
    let ghost l = layout_of(width, height, period, dx, dy, symmetry, column_first);
    proof {
        lemma_dims_bounds(width as int, height as int, period as int);
    }
    let (x, y, t) = coord;
    if t == 0 {
        match (shifted(x, dx, width, false), shifted(y, dy, height, false)) {
            (Some(_), Some(_)) => {},
            _ => {
                return true;
            },
        }
    }
    let places = twin_coords(symmetry, width, height, x, y);
    let ghost spots = twins(symmetry, width as int, height as int, x as int, y as int);
    let mut j: usize = 0;
    while j < places.len()
        invariant
            j <= places@.len(),
            coord == (x, y, t),
            l == layout_of(width, height, period, dx, dy, symmetry, column_first),
            spots == twins(symmetry, width as int, height as int, x as int, y as int),
            places@.len() == spots.len(),
            forall|i: int|
                0 <= i < places@.len() ==> (places@[i].0 as int, places@[i].1 as int)
                    == #[trigger] spots[i],
            forall|i: int|
                0 <= i < j ==> in_box(l.width, l.height, (#[trigger] spots[i]).0, spots[i].1),
        decreases places@.len() - j,
    {
        let (qx, qy) = places[j];
        assert((qx as int, qy as int) == spots[j as int]);
        if !(0 <= qx && qx < width && 0 <= qy && qy < height) {
            return true;
        }
        j += 1;
    }
    false
}

impl World {
    /// Builds the world: the grid of cells with its links, every cell in its
    /// initial state and every descriptor in step.
    ///
    /// The cells of the box start unknown. A cell of the box whose
    /// predecessor would lie outside the grid, or that the symmetry maps
    /// outside the box, is held to its default state, and so is every cell
    /// of the border.
    pub fn new(
        width: isize,
        height: isize,
        period: isize,
        dx: isize,
        dy: isize,
        symmetry: Symmetry,
        rule: Rule,
        column_first: Option<bool>,
    ) -> (world: World)
        requires
            dims_ok(width as int, height as int, period as int),
            rule.wf(),
        ensures
            world.wf(),
            world.w() == width,
            world.h() == height,
            world.p() == period,
            world.rule_of() == rule,
            world.column_major() == column_order(
                width as int,
                height as int,
                dx as int,
                dy as int,
                symmetry,
                column_first,
            ),
            built(
                world@,
                layout_of(width, height, period, dx, dy, symmetry, world.column_major()),
                rule.birth().contains(0u8),
            ),
    {
        proof {
            lemma_dims_bounds(width as int, height as int, period as int);
        }
        // Decides the order of search.
        let column_first = match column_first {
            Some(c) => c,
            None => {
                let (ew, eh) = match symmetry {
                    Symmetry::D2Row => ((width + 1) / 2, height),
                    Symmetry::D2Column => (width, (height + 1) / 2),
                    _ => (width, height),
                };
                if ew == eh {
                    abs_ge(dx, dy)
                } else {
                    ew > eh
                }
            },
        };
        let ghost l = layout_of(width, height, period, dx, dy, symmetry, column_first);
        let b0 = rule.has_b0();
        let size = grid_len(width, height, period);
        let mut cells: Vec<LifeCell> = Vec::with_capacity(size + 1);

        // Fills the grid with dead cells, each with its links.
        let mut c: usize = 0;
        while c < size
            invariant
                c <= size,
                dims_ok(width as int, height as int, period as int),
                size == grid_size(width as int, height as int, period as int),
                l == layout_of(width, height, period, dx, dy, symmetry, column_first),
                cells@.len() == c,
                forall|i: int|
                    0 <= i < c ==> {
                        &&& #[trigger] cell_linked(cells@[i], l, i)
                        &&& cells@[i].state == Some(State::Dead)
                        &&& !cells@[i].free
                        &&& cells@[i].desc.bits() == dead_desc()
                    },
            decreases size - c,
        {
            let cell = make_cell(width, height, period, dx, dy, symmetry, column_first, c);
            cells.push(cell);
            c += 1;
        }
        cells.push(
            LifeCell {
                state: Some(State::Dead),
                free: false,
                desc: Desc::new(State::Dead, State::Dead),
                nbhd: [size; 8],
                pred: None,
                succ: size,
                sym: Vec::new(),
            },
        );
        proof {
            assert(all_linked(cells@, l));
            lemma_built_links(cells@, l);
            assert forall|i: int| 0 <= i < cells@.len() implies (#[trigger] cells@[i]).state
                == Some(State::Dead) && cells@[i].desc.bits() == dead_desc()
                && !cells@[i].free by {
                if i < size {
                    assert(cell_linked(cells@[i], l, i));
                }
            }
            lemma_all_dead(cells@);
        }
        let mut world = World { width, height, period, rule, column_first, cells };

        // Gives every cell its initial state.
        let mut c: usize = 0;
        while c < size
            invariant
                c <= size,
                world.wf(),
                world.w() == width,
                world.h() == height,
                world.p() == period,
                world.rule_of() == rule,
                world.column_major() == column_first,
                size == grid_size(width as int, height as int, period as int),
                l == layout_of(width, height, period, dx, dy, symmetry, column_first),
                b0 == rule.birth().contains(0u8),
                all_linked(world@, l),
                forall|i: int| 0 <= i < size ==> !(#[trigger] world@[i]).free,
                forall|i: int|
                    0 <= i < c ==> {
                        let (x, y, t) = coord_of(
                            width as int,
                            height as int,
                            period as int,
                            column_first,
                            i,
                        );
                        (#[trigger] world@[i]).state == initial_state(l, b0, x, y, t)
                    },
                forall|i: int| c <= i < size ==> (#[trigger] world@[i]).state == Some(State::Dead),
            decreases size - c,
        {
            let coord = coord_at(width, height, period, column_first, c);
            let (x, y, t) = coord;
            let inside = 0 <= x && x < width && 0 <= y && y < height;
            let state = if inside && !is_forced(
                width,
                height,
                period,
                dx,
                dy,
                symmetry,
                column_first,
                coord,
            ) {
                None
            } else if b0 && t % 2 == 1 {
                Some(State::Alive)
            } else {
                Some(State::Dead)
            };
            let ghost before = world@;
            match state {
                Some(State::Dead) => {},
                _ => {
                    world.set_state(c, state, false);
                    proof {
                        assert forall|i: int| 0 <= i < size implies #[trigger] cell_linked(
                            world@[i],
                            l,
                            i,
                        ) by {
                            assert(cell_linked(before[i], l, i));
                        }
                        assert(before[size as int].nbhd == world@[size as int].nbhd);
                    }
                },
            }
            c += 1;
        }
        world
    }
}

/// Among dead cells, every cell with the descriptor of a dead cell among
/// dead cells has the descriptor that goes with the states.
proof fn lemma_all_dead(cells: Seq<LifeCell>)
    requires
        links_ok(cells),
        forall|i: int|
            0 <= i < cells.len() ==> (#[trigger] cells[i]).state == Some(State::Dead)
                && cells[i].desc.bits() == dead_desc(),
    ensures
        descs_ok(cells, states_of(cells)),
{
    assert forall|x: int| 0 <= x < cells.len() implies #[trigger] desc_ok_at(
        cells,
        states_of(cells),
        x,
    ) by {
        assert(links_in_range(cells, x));
        assert(nbhd_states(cells, states_of(cells), x) =~= Seq::new(
            8,
            |i: int| Some(State::Dead),
        ));
    }
}

/// The character that shows a state: `.` for dead, `O` for alive, `?` for
/// unknown.
pub open spec fn state_char(state: Option<State>) -> char {
    match state {
        Some(State::Dead) => '.',
        Some(State::Alive) => 'O',
        None => '?',
    }
}

/// The place of a generation-0 cell in the array stands for all generations
/// of that place: they follow it directly.
pub proof fn lemma_place_index(places: int, p: int, q: int, t: int)
    by (nonlinear_arith)
    requires
        0 <= q < places,
        0 <= t < p,
    ensures
        0 <= q * p + t < places * p,
        0 <= q * p,
{
}

impl World {
    /// The number of places of the grid: its cells in one generation.
    pub open spec fn places(&self) -> int {
        (self.w() + 2) * (self.h() + 2)
    }

    /// The first `n` characters of row `y` in generation `t`.
    pub open spec fn row_text(&self, y: int, t: int, n: nat) -> Seq<char>
        decreases n,
    {
        if n == 0 {
            Seq::empty()
        } else {
            self.row_text(y, t, (n - 1) as nat).push(
                state_char(
                    self@[cell_index(
                        self.w(),
                        self.h(),
                        self.p(),
                        self.column_major(),
                        n - 1,
                        y,
                        t,
                    )].state,
                ),
            )
        }
    }

    /// The first `m` rows of generation `t`, each closed by a line feed.
    pub open spec fn gen_text(&self, t: int, m: nat) -> Seq<char>
        decreases m,
    {
        if m == 0 {
            Seq::empty()
        } else {
            self.gen_text(t, (m - 1) as nat) + self.row_text(m - 1, t, self.w() as nat).push(
                '\n',
            )
        }
    }

    /// Whether some cell of generation 0 is alive.
    pub open spec fn some_alive(&self) -> bool {
        exists|q: int|
            0 <= q < self.places() && (#[trigger] self@[q * self.p()]).state == Some(State::Alive)
    }

    /// Whether generation `t` differs from generation 0 in some place.
    pub open spec fn differs_at(&self, t: int) -> bool {
        exists|q: int|
            0 <= q < self.places() && (#[trigger] self@[q * self.p()]).state != self@[q * self.p()
                + t].state
    }

    /// Whether the pattern is not empty and has no period shorter than the
    /// period of the world: some cell of generation 0 is alive, and every
    /// generation whose number divides the period differs from generation 0.
    pub open spec fn is_nontrivial(&self) -> bool {
        &&& self.some_alive()
        &&& forall|t: int|
            1 <= t < self.p() && self.p() % t == 0 ==> #[trigger] self.differs_at(t)
    }

    /// The width of the box.
    pub fn width(&self) -> (width: isize)
        ensures
            width == self.w(),
    {
        self.width
    }

    /// The height of the box.
    pub fn height(&self) -> (height: isize)
        ensures
            height == self.h(),
    {
        self.height
    }

    /// The period.
    pub fn period(&self) -> (period: isize)
        ensures
            period == self.p(),
    {
        self.period
    }

    /// The rule.
    pub fn rule(&self) -> (rule: &Rule)
        ensures
            *rule == self.rule_of(),
    {
        &self.rule
    }

    /// The number of cells of the grid; the sentinel stands at this position.
    pub fn size(&self) -> (size: usize)
        requires
            self.wf(),
        ensures
            size == self@.len() - 1,
            size == grid_size(self.w(), self.h(), self.p()),
    {
        self.cells.len() - 1
    }

    /// The cell at a position of the array.
    pub fn cell(&self, c: usize) -> (cell: &LifeCell)
        requires
            c < self@.len(),
        ensures
            *cell == self@[c as int],
    {
        &self.cells[c]
    }

    /// Finds the position of the cell at a coordinate, where the grid holds
    /// one.
    pub fn find_cell(&self, coord: Coord) -> (found: Option<usize>)
        requires
            self.wf(),
        ensures
            found == if in_grid(
                self.w(),
                self.h(),
                self.p(),
                coord.0 as int,
                coord.1 as int,
                coord.2 as int,
            ) {
                Some(
                    cell_index(
                        self.w(),
                        self.h(),
                        self.p(),
                        self.column_major(),
                        coord.0 as int,
                        coord.1 as int,
                        coord.2 as int,
                    ) as usize,
                )
            } else {
                None
            },
            found is Some ==> found->0 < self@.len() - 1,
    {
        index_of(self.width, self.height, self.period, self.column_first, coord)
    }

    /// Reads the state and the free flag of the cell at a coordinate.
    pub fn get_cell(&self, coord: Coord) -> (res: Result<(Option<State>, bool), Error>)
        requires
            self.wf(),
        ensures
            match res {
                Ok((state, free)) => {
                    let c = cell_index(
                        self.w(),
                        self.h(),
                        self.p(),
                        self.column_major(),
                        coord.0 as int,
                        coord.1 as int,
                        coord.2 as int,
                    );
                    &&& in_grid(
                        self.w(),
                        self.h(),
                        self.p(),
                        coord.0 as int,
                        coord.1 as int,
                        coord.2 as int,
                    )
                    &&& state == self@[c].state
                    &&& free == self@[c].free
                },
                Err(e) => {
                    &&& !in_grid(
                        self.w(),
                        self.h(),
                        self.p(),
                        coord.0 as int,
                        coord.1 as int,
                        coord.2 as int,
                    )
                    &&& e == Error::GetCellError(coord)
                },
            },
    {
        match self.find_cell(coord) {
            Some(c) => {
                proof {
                    lemma_index_in_range(
                        self.w(),
                        self.h(),
                        self.p(),
                        self.column_major(),
                        coord.0 as int,
                        coord.1 as int,
                        coord.2 as int,
                    );
                }
                Ok((self.cells[c].state, self.cells[c].free))
            },
            None => Err(Error::GetCellError(coord)),
        }
    }

    /// Shows the box in one generation: a line for each row, a character for
    /// each cell.
    pub fn display_gen(&self, t: isize) -> (text: String)
        requires
            self.wf(),
            0 <= t,
        ensures
            text@ == self.gen_text(t as int % self.p(), self.h() as nat),
    {
        let mut text = String::new();
        let t = t % self.period;
        let mut y: isize = 0;
        while y < self.height
            invariant
                0 <= y <= self.height,
                0 <= t < self.period,
                self.wf(),
                text@ == self.gen_text(t as int, y as nat),
            decreases self.height - y,
        {
            let mut x: isize = 0;
            while x < self.width
                invariant
                    0 <= x <= self.width,
                    0 <= y < self.height,
                    0 <= t < self.period,
                    self.wf(),
                    text@ == self.gen_text(t as int, y as nat) + self.row_text(
                        y as int,
                        t as int,
                        x as nat,
                    ),
                decreases self.width - x,
            {
                let ghost before = text@;
                let c = match self.find_cell((x, y, t)) {
                    Some(c) => c,
                    None => self.size(),
                };
                proof {
                    lemma_index_in_range(
                        self.w(),
                        self.h(),
                        self.p(),
                        self.column_major(),
                        x as int,
                        y as int,
                        t as int,
                    );
                    reveal_strlit(".");
                    reveal_strlit("O");
                    reveal_strlit("?");
                }
                match self.cells[c].state {
                    Some(State::Dead) => text.append("."),
                    Some(State::Alive) => text.append("O"),
                    None => text.append("?"),
                }
                proof {
                    let shown = state_char(self@[c as int].state);
                    assert(text@ =~= before.push(shown));
                    assert(before.push(shown) =~= self.gen_text(t as int, y as nat)
                        + self.row_text(y as int, t as int, (x + 1) as nat));
                }
                x += 1;
            }
            let ghost before = text@;
            proof {
                reveal_strlit("\n");
            }
            text.append("\n");
            proof {
                assert(text@ =~= before.push('\n'));
                assert(before.push('\n') =~= self.gen_text(t as int, (y + 1) as nat));
            }
            y += 1;
        }
        text
    }

    /// Gives the cell at a coordinate of the box a state, or makes it
    /// unknown again. The cell is not free afterwards.
    ///
    /// Only the cells of the box can be set: the border, and whatever lies
    /// outside the grid, is refused.
    pub fn set_cell(&mut self, coord: Coord, state: Option<State>) -> (res: Result<(), Error>)
        requires
            old(self).wf(),
        ensures
            final(self).wf(),
            final(self).same_frame(old(self)),
            match res {
                Ok(()) => {
                    &&& in_box(old(self).w(), old(self).h(), coord.0 as int, coord.1 as int)
                    &&& 0 <= coord.2 < old(self).p()
                    &&& final(self)@ == with_state(
                        old(self)@,
                        cell_index(
                            old(self).w(),
                            old(self).h(),
                            old(self).p(),
                            old(self).column_major(),
                            coord.0 as int,
                            coord.1 as int,
                            coord.2 as int,
                        ),
                        state,
                        false,
                    )
                },
                Err(e) => {
                    &&& !(in_box(old(self).w(), old(self).h(), coord.0 as int, coord.1 as int) && 0
                        <= coord.2 < old(self).p())
                    &&& e == Error::SetCellError(coord)
                    &&& final(self)@ == old(self)@
                },
            },
    {
        let (x, y, t) = coord;
        if 0 <= x && x < self.width && 0 <= y && y < self.height {
            match self.find_cell(coord) {
                Some(c) => {
                    proof {
                        lemma_index_in_range(
                            self.w(),
                            self.h(),
                            self.p(),
                            self.column_major(),
                            coord.0 as int,
                            coord.1 as int,
                            coord.2 as int,
                        );
                    }
                    self.set_state(c, state, false);
                    Ok(())
                },
                None => Err(Error::SetCellError(coord)),
            }
        } else {
            Err(Error::SetCellError(coord))
        }
    }

    /// Finds the first unknown cell in the order of search.
    pub fn get_unknown(&self) -> (found: Option<usize>)
        requires
            self.wf(),
        ensures
            match found {
                Some(c) => {
                    &&& c < self@.len() - 1
                    &&& self@[c as int].state is None
                    &&& forall|i: int| 0 <= i < c ==> (#[trigger] self@[i]).state is Some
                },
                None => forall|i: int| 0 <= i < self@.len() ==> (#[trigger] self@[i]).state is Some,
            },
    {
        let mut c: usize = 0;
        while c < self.cells.len()
            invariant
                c <= self@.len(),
                self.wf(),
                forall|i: int| 0 <= i < c ==> (#[trigger] self@[i]).state is Some,
            decreases self@.len() - c,
        {
            if self.cells[c].state.is_none() {
                return Some(c);
            }
            c += 1;
        }
        None
    }

    /// Whether generation `t` differs from generation 0 in some place.
    fn differs(&self, t: usize) -> (r: bool)
        requires
            self.wf(),
            t < self.p(),
        ensures
            r == self.differs_at(t as int),
    {
        proof {
            lemma_dims_bounds(self.w(), self.h(), self.p());
        }
        let period = self.period as usize;
        let places = self.size() / period;
        proof {
            lemma_places(self.places(), self.p());
        }
        let mut q: usize = 0;
        while q < places
            invariant
                q <= places,
                places == self.places(),
                period == self.p(),
                t < period,
                self.wf(),
                forall|i: int|
                    0 <= i < q ==> (#[trigger] self@[i * self.p()]).state == self@[i * self.p()
                        + t].state,
            decreases places - q,
        {
            proof {
                lemma_place_index(places as int, period as int, q as int, t as int);
                lemma_place_index(places as int, period as int, q as int, 0);
            }
            if !same_state(self.cells[q * period].state, self.cells[q * period + t].state) {
                return true;
            }
            q += 1;
        }
        false
    }

    /// Whether the pattern is not empty and has no period shorter than the
    /// period of the world.
    pub fn nontrivial(&self) -> (r: bool)
        requires
            self.wf(),
        ensures
            r == self.is_nontrivial(),
    {
        proof {
            lemma_dims_bounds(self.w(), self.h(), self.p());
        }
        let period = self.period as usize;
        let places = self.size() / period;
        proof {
            lemma_places(self.places(), self.p());
        }
        let mut nonzero = false;
        let mut q: usize = 0;
        while q < places && !nonzero
            invariant
                q <= places,
                places == self.places(),
                period == self.p(),
                self.wf(),
                nonzero ==> self.some_alive(),
                !nonzero ==> forall|i: int|
                    0 <= i < q ==> (#[trigger] self@[i * self.p()]).state != Some(State::Alive),
            decreases places - q + if nonzero { 0int } else { 1int },
        {
            proof {
                lemma_place_index(places as int, period as int, q as int, 0);
            }
            match self.cells[q * period].state {
                Some(State::Alive) => {
                    nonzero = true;
                },
                _ => {
                    q += 1;
                },
            }
        }
        if !nonzero {
            return false;
        }
        let mut t: usize = 1;
        while t < period
            invariant
                1 <= t,
                period == self.p(),
                self.wf(),
                self.some_alive(),
                forall|u: int| 1 <= u < t && self.p() % u == 0 ==> #[trigger] self.differs_at(u),
            decreases period - t,
        {
            if period % t == 0 && !self.differs(t) {
                return false;
            }
            t += 1;
        }
        true
    }
}

/// The grid holds as many cells as it has places, times the period.
proof fn lemma_places(places: int, p: int)
    by (nonlinear_arith)
    requires
        1 <= p,
        0 <= places,
    ensures
        (places * p) / p == places,
{
}

/// Whether two states are the same.
fn same_state(a: Option<State>, b: Option<State>) -> (r: bool)
    ensures
        r == (a == b),
{
    match (a, b) {
        (None, None) => true,
        (Some(State::Dead), Some(State::Dead)) => true,
        (Some(State::Alive), Some(State::Alive)) => true,
        _ => false,
    }
}

} // verus!
