//! The trail: the cells that the search has given a state, in the order in
//! which it did, and what it means to take them back.

use crate::cells::{LifeCell, State};
use crate::world::{
    desc_ok_at, graph_wf, lemma_links_carry, nbhd_states, sentinel, states_of, with_state,
};
use vstd::prelude::*;
use vstd::set_lib::{lemma_int_range, lemma_len_subset, set_int_range};

verus! {

/// Whether a cell stands on the trail.
pub open spec fn on_trail(trail: Seq<usize>, c: int) -> bool {
    exists|i: int| 0 <= i < trail.len() && #[trigger] trail[i] == c
}

/// The trail goes with the cells: every entry is a cell of the grid whose
/// state is known, no cell stands on it twice, and every free cell stands on
/// it.
pub open spec fn trail_ok(cells: Seq<LifeCell>, trail: Seq<usize>) -> bool {
    &&& forall|i: int|
        0 <= i < trail.len() ==> (#[trigger] trail[i]) < sentinel(cells)
            && cells[trail[i] as int].state is Some
    &&& forall|i: int, j: int| 0 <= i < j < trail.len() ==> trail[i] != trail[j]
    &&& forall|c: int| 0 <= c < cells.len() && (#[trigger] cells[c]).free ==> on_trail(trail, c)
}

/// The cells after every entry of the trail, the last one first, has been
/// made unknown again.
pub open spec fn rewind(cells: Seq<LifeCell>, trail: Seq<usize>) -> Seq<LifeCell>
    decreases trail.len(),
{
    if trail.len() == 0 {
        cells
    } else {
        rewind(with_state(cells, trail.last() as int, None, false), trail.drop_last())
    }
}

/// Giving a cell of the grid a state leaves the cell graph sound.
pub proof fn lemma_with_state_wf(cells: Seq<LifeCell>, c: int, state: Option<State>, free: bool)
    requires
        graph_wf(cells),
        0 <= c < sentinel(cells),
        state is None ==> !free,
    ensures
        graph_wf(with_state(cells, c, state, free)),
        with_state(cells, c, state, free).len() == cells.len(),
{
    let after = with_state(cells, c, state, free);
    lemma_links_carry(cells, after);
    assert(states_of(after) =~= states_of(cells).update(c, state));
    assert forall|x: int| 0 <= x < after.len() implies #[trigger] desc_ok_at(
        after,
        states_of(after),
        x,
    ) by {
        assert(nbhd_states(after, states_of(after), x) =~= nbhd_states(
            cells,
            states_of(after),
            x,
        ));
    }
}

/// Of two states given to a cell in turn, the second one stands.
pub proof fn lemma_override(
    cells: Seq<LifeCell>,
    c: int,
    first: Option<State>,
    first_free: bool,
    state: Option<State>,
    free: bool,
)
    requires
        0 <= c < cells.len(),
    ensures
        with_state(with_state(cells, c, first, first_free), c, state, free) == with_state(
            cells,
            c,
            state,
            free,
        ),
{
    let mid = with_state(cells, c, first, first_free);
    let a = with_state(mid, c, state, free);
    let b = with_state(cells, c, state, free);
    assert(states_of(mid).update(c, state) =~= states_of(cells).update(c, state));
    assert forall|x: int| 0 <= x < a.len() implies a[x] == b[x] by {
        assert(nbhd_states(mid, states_of(cells).update(c, state), x) =~= nbhd_states(
            cells,
            states_of(cells).update(c, state),
            x,
        ));
    }
    assert(a =~= b);
}

/// Giving a cell the state and the free flag that it has changes nothing.
pub proof fn lemma_identity(cells: Seq<LifeCell>, c: int)
    requires
        graph_wf(cells),
        0 <= c < cells.len(),
    ensures
        with_state(cells, c, cells[c].state, cells[c].free) == cells,
{
    let a = with_state(cells, c, cells[c].state, cells[c].free);
    assert(states_of(cells).update(c, cells[c].state) =~= states_of(cells));
    assert forall|x: int| 0 <= x < a.len() implies a[x] == cells[x] by {
        assert(desc_ok_at(cells, states_of(cells), x));
    }
    assert(a =~= cells);
}

/// Making a cell unknown again, after an unknown cell was given a state,
/// restores the cell graph exactly: states, free flags and descriptors.
pub proof fn lemma_unset_restores(cells: Seq<LifeCell>, c: int, state: Option<State>, free: bool)
    requires
        graph_wf(cells),
        0 <= c < cells.len(),
        cells[c].state is None,
    ensures
        with_state(with_state(cells, c, state, free), c, None, false) == cells,
{
    lemma_override(cells, c, state, free, None, false);
    lemma_identity(cells, c);
}

/// Taking back a trail in two parts is taking back the later part first.
pub proof fn lemma_rewind_concat(cells: Seq<LifeCell>, a: Seq<usize>, b: Seq<usize>)
    ensures
        rewind(cells, a + b) == rewind(rewind(cells, b), a),
    decreases b.len(),
{
    if b.len() == 0 {
        assert(a + b =~= a);
    } else {
        let next = with_state(cells, b.last() as int, None, false);
        assert((a + b).drop_last() =~= a + b.drop_last());
        assert((a + b).last() == b.last());
        lemma_rewind_concat(next, a, b.drop_last());
    }
}

/// Taking back a trail of one more entry.
pub proof fn lemma_rewind_push(cells: Seq<LifeCell>, trail: Seq<usize>, c: usize)
    ensures
        rewind(cells, trail.push(c)) == rewind(with_state(cells, c as int, None, false), trail),
{
    assert(trail.push(c).drop_last() =~= trail);
}

/// What taking back a trail changes: the cells on it become unknown and not
/// free, every other cell keeps its state and its free flag, no link
/// changes, and the cell graph stays sound.
pub proof fn lemma_rewind_props(cells: Seq<LifeCell>, trail: Seq<usize>)
    requires
        graph_wf(cells),
        forall|i: int| 0 <= i < trail.len() ==> (#[trigger] trail[i]) < sentinel(cells),
    ensures
        graph_wf(rewind(cells, trail)),
        rewind(cells, trail).len() == cells.len(),
        forall|c: int|
            0 <= c < cells.len() ==> {
                let r = #[trigger] rewind(cells, trail)[c];
                &&& r.nbhd == cells[c].nbhd
                &&& r.pred == cells[c].pred
                &&& r.succ == cells[c].succ
                &&& r.sym == cells[c].sym
                &&& on_trail(trail, c) ==> r.state is None && !r.free
                &&& !on_trail(trail, c) ==> r.state == cells[c].state && r.free == cells[c].free
            },
    decreases trail.len(),
{
    if trail.len() > 0 {
        let last = trail.last() as int;
        let next = with_state(cells, last, None, false);
        let rest = trail.drop_last();
        assert(trail[trail.len() - 1] < sentinel(cells));
        lemma_with_state_wf(cells, last, None, false);
        assert forall|i: int| 0 <= i < rest.len() implies (#[trigger] rest[i]) < sentinel(
            next,
        ) by {
            assert(rest[i] == trail[i]);
        }
        lemma_rewind_props(next, rest);
        assert forall|c: int| 0 <= c < cells.len() implies {
            let r = #[trigger] rewind(cells, trail)[c];
            &&& r.nbhd == cells[c].nbhd
            &&& r.pred == cells[c].pred
            &&& r.succ == cells[c].succ
            &&& r.sym == cells[c].sym
            &&& on_trail(trail, c) ==> r.state is None && !r.free
            &&& !on_trail(trail, c) ==> r.state == cells[c].state && r.free == cells[c].free
        } by {
            let r = rewind(next, rest)[c];
            if on_trail(rest, c) {
                let i = choose|i: int| 0 <= i < rest.len() && #[trigger] rest[i] == c;
                assert(trail[i] == c);
            } else if c == last {
                assert(trail[trail.len() - 1] == c);
            } else {
                if on_trail(trail, c) {
                    let i = choose|i: int| 0 <= i < trail.len() && #[trigger] trail[i] == c;
                    assert(rest[i] == c);
                }
            }
        }
    }
}

/// Three to the power of `n`.
pub open spec fn pow3(n: nat) -> nat
    decreases n,
{
    if n == 0 {
        1
    } else {
        3 * pow3((n - 1) as nat)
    }
}

/// The digit of a trail entry: 1 while the cell is free, that is while its
/// other state is still to be tried, and 2 otherwise.
pub open spec fn digit(cell: LifeCell) -> nat {
    if cell.free {
        1
    } else {
        2
    }
}

/// How far the search has come: the trail read as a number in base three
/// with `n` digits, the first entry the most significant.
///
/// Every step of the search that changes the trail makes this number
/// larger, and it stays below three to the power of `n`.
pub open spec fn weight(cells: Seq<LifeCell>, trail: Seq<usize>, n: int) -> nat
    decreases trail.len(),
{
    if trail.len() == 0 {
        0
    } else {
        weight(cells, trail.drop_last(), n) + digit(cells[trail.last() as int]) * pow3(
            (n - trail.len()) as nat,
        )
    }
}

/// The weight depends on the free flags of the cells on the trail only.
pub proof fn lemma_weight_frame(a: Seq<LifeCell>, b: Seq<LifeCell>, trail: Seq<usize>, n: int)
    requires
        forall|i: int|
            0 <= i < trail.len() ==> a[(#[trigger] trail[i]) as int].free
                == b[trail[i] as int].free,
    ensures
        weight(a, trail, n) == weight(b, trail, n),
    decreases trail.len(),
{
    if trail.len() > 0 {
        let rest = trail.drop_last();
        assert forall|i: int| 0 <= i < rest.len() implies a[(#[trigger] rest[i]) as int].free
            == b[rest[i] as int].free by {
            assert(rest[i] == trail[i]);
        }
        lemma_weight_frame(a, b, rest, n);
        assert(trail[trail.len() - 1] == trail.last());
    }
}

/// A longer trail weighs at least as much as its beginning.
pub proof fn lemma_weight_prefix(cells: Seq<LifeCell>, trail: Seq<usize>, m: int, n: int)
    requires
        0 <= m <= trail.len(),
    ensures
        weight(cells, trail.take(m), n) <= weight(cells, trail, n),
        m < trail.len() && trail.len() <= n ==> weight(cells, trail.take(m), n) < weight(
            cells,
            trail,
            n,
        ),
    decreases trail.len() - m,
{
    if m == trail.len() {
        assert(trail.take(m) =~= trail);
    } else {
        let rest = trail.drop_last();
        assert(rest.take(m) =~= trail.take(m));
        lemma_weight_prefix(cells, rest, m, n);
        lemma_pow3_positive((n - trail.len()) as nat);
        assert(digit(cells[trail.last() as int]) * pow3((n - trail.len()) as nat) >= pow3(
            (n - trail.len()) as nat,
        )) by (nonlinear_arith)
            requires
                digit(cells[trail.last() as int]) >= 1,
        ;
    }
}

/// A power of three is positive.
pub proof fn lemma_pow3_positive(n: nat)
    ensures
        pow3(n) >= 1,
    decreases n,
{
    if n > 0 {
        lemma_pow3_positive((n - 1) as nat);
    }
}

/// A trail of at most `n` entries weighs less than three to the power of
/// `n`, by at least the place value of its next entry.
pub proof fn lemma_weight_bound(cells: Seq<LifeCell>, trail: Seq<usize>, n: int)
    requires
        trail.len() <= n,
    ensures
        weight(cells, trail, n) + pow3((n - trail.len()) as nat) <= pow3(n as nat),
    decreases trail.len(),
{
    if trail.len() > 0 {
        let rest = trail.drop_last();
        lemma_weight_bound(cells, rest, n);
        let unit = pow3((n - trail.len()) as nat);
        assert(pow3((n - rest.len()) as nat) == 3 * unit);
        assert(digit(cells[trail.last() as int]) * unit <= 2 * unit) by (nonlinear_arith)
            requires
                digit(cells[trail.last() as int]) <= 2,
                unit >= 0,
        ;
    }
}

/// A trail on which no cell stands twice has no more entries than there are
/// cells.
pub proof fn lemma_trail_fits(trail: Seq<usize>, n: int)
    requires
        0 <= n,
        forall|i: int| 0 <= i < trail.len() ==> (#[trigger] trail[i]) < n,
        forall|i: int, j: int| 0 <= i < j < trail.len() ==> trail[i] != trail[j],
    ensures
        trail.len() <= n,
{
    let ints = Seq::new(trail.len(), |i: int| trail[i] as int);
    assert(ints.no_duplicates()) by {
        assert forall|i: int, j: int| 0 <= i < ints.len() && 0 <= j < ints.len() && i
            != j implies ints[i] != ints[j] by {
            if i < j {
                assert(trail[i] != trail[j]);
            } else {
                assert(trail[j] != trail[i]);
            }
        }
    }
    ints.unique_seq_to_set();
    lemma_int_range(0, n);
    assert(ints.to_set().subset_of(set_int_range(0, n))) by {
        assert forall|v: int| ints.to_set().contains(v) implies set_int_range(0, n).contains(
            v,
        ) by {
            let i = choose|i: int| 0 <= i < ints.len() && ints[i] == v;
            assert(trail[i] < n);
        }
    }
    lemma_len_subset(ints.to_set(), set_int_range(0, n));
}

} // verus!
