//! Solutions, and why the search misses none.
//!
//! A solution gives every cell a state such that the transition law holds
//! at every cell of the grid, the symmetry is respected and the pattern is
//! not trivial. The search keeps to this: every cell that it gave a state
//! without guessing has that state in every solution that agrees with the
//! guesses made before.

use crate::cells::{LifeCell, State};
use crate::deduce::{
    alive_of, consistent, dead_of, desc_valid, flag_state, lemma_entry_meaning, lives_on,
    nbhd_alive_flag, nbhd_dead_flag, own_of, succ_of, CONFLICT, SELF, SELF_DEAD, SUCC, SUCC_DEAD,
};
use crate::desc::{lemma_desc_completion, lemma_desc_fields, lemma_desc_range};
use crate::propagation::{flags_of, later_than, same_links};
use crate::trail::{
    lemma_override, lemma_rewind_concat, lemma_rewind_props, lemma_rewind_push,
    lemma_unset_restores, lemma_with_state_wf, on_trail, rewind, trail_ok,
};
use crate::world::{
    desc_for, desc_ok_at, graph_wf, links_in_range, nbhd_states, sentinel, states_of, with_state,
};
use vstd::prelude::*;

verus! {

/// Whether an assignment gives every known cell the state that it has.
pub open spec fn agrees(cells: Seq<LifeCell>, sol: Seq<State>) -> bool {
    &&& sol.len() == cells.len()
    &&& forall|c: int|
        0 <= c < cells.len() && (#[trigger] cells[c]).state is Some ==> cells[c].state == Some(
            sol[c],
        )
}

/// An assignment as states of cells.
pub open spec fn sol_states(sol: Seq<State>) -> Seq<Option<State>> {
    Seq::new(sol.len(), |c: int| Some(sol[c]))
}

/// Whether the transition law holds at cell `x` under an assignment.
pub open spec fn sol_obeys(
    b: Seq<u8>,
    s: Seq<u8>,
    cells: Seq<LifeCell>,
    sol: Seq<State>,
    x: int,
) -> bool {
    lives_on(
        b,
        s,
        sol[x] == State::Alive,
        alive_of(desc_for(cells, sol_states(sol), x)),
    ) == (sol[cells[x].succ as int] == State::Alive)
}

/// Whether the symmetry twins of cell `c` have its state under an
/// assignment.
pub open spec fn sol_symmetric(cells: Seq<LifeCell>, sol: Seq<State>, c: int) -> bool {
    forall|j: int| 0 <= j < cells[c].sym@.len() ==> sol[(#[trigger] cells[c].sym@[j]) as int]
        == sol[c]
}

/// Whether some cell of generation 0 is alive under an assignment.
pub open spec fn sol_some_alive(sol: Seq<State>, places: int, p: int) -> bool {
    exists|q: int| 0 <= q < places && #[trigger] sol[q * p] == State::Alive
}

/// Whether generation `t` differs from generation 0 under an assignment.
pub open spec fn sol_differs(sol: Seq<State>, places: int, p: int, t: int) -> bool {
    exists|q: int| 0 <= q < places && #[trigger] sol[q * p] != sol[q * p + t]
}

/// Whether an assignment is a solution: the transition law holds at every
/// cell of the grid, every cell of the grid has the state of its symmetry
/// twins, and the pattern is not trivial.
pub open spec fn is_solution(
    b: Seq<u8>,
    s: Seq<u8>,
    cells: Seq<LifeCell>,
    places: int,
    p: int,
    sol: Seq<State>,
) -> bool {
    &&& sol.len() == cells.len()
    &&& forall|x: int| 0 <= x < sentinel(cells) ==> #[trigger] sol_obeys(b, s, cells, sol, x)
    &&& forall|c: int| 0 <= c < sentinel(cells) ==> #[trigger] sol_symmetric(cells, sol, c)
    &&& sol_some_alive(sol, places, p)
    &&& forall|t: int| 1 <= t < p && p % t == 0 ==> #[trigger] sol_differs(sol, places, p, t)
}

/// Whether an assignment has the state of every guess among the first `n`
/// cells of the trail.
pub open spec fn follows(cells: Seq<LifeCell>, trail: Seq<usize>, sol: Seq<State>, n: int) -> bool {
    forall|j: int|
        0 <= j < n && cells[(#[trigger] trail[j]) as int].free ==> cells[trail[j] as int].state
            == Some(sol[trail[j] as int])
}

/// Whether place `i` of the trail is forced for an assignment: it is no
/// guess, and the assignment has the state of every guess before it.
pub open spec fn forced_at(cells: Seq<LifeCell>, trail: Seq<usize>, sol: Seq<State>,
    i: int) -> bool {
    0 <= i < trail.len() && !cells[trail[i] as int].free && follows(cells, trail, sol, i)
}

/// Whether the search has missed no solution: every cell of the trail that
/// is no guess has, in every solution that agrees with the state from which
/// the search set out and with the guesses before that cell, the state that
/// the search gave it.
pub open spec fn covers(
    b: Seq<u8>,
    s: Seq<u8>,
    places: int,
    p: int,
    cells: Seq<LifeCell>,
    trail: Seq<usize>,
) -> bool {
    forall|sol: Seq<State>, i: int|
        is_solution(b, s, cells, places, p, sol) && agrees(rewind(cells, trail), sol)
            && #[trigger] forced_at(cells, trail, sol, i) ==> cells[trail[i] as int].state == Some(
            sol[trail[i] as int],
        )
}

/// Whether no solution agrees with the cells.
pub open spec fn dead_end(b: Seq<u8>, s: Seq<u8>, places: int, p: int,
    cells: Seq<LifeCell>) -> bool {
    forall|sol: Seq<State>| #[trigger] is_solution(b, s, cells, places, p, sol) ==> !agrees(cells,
        sol)
}

/// Whether every solution that agrees with the cells `a` agrees with the
/// cells `c`.
pub open spec fn forced_growth(
    b: Seq<u8>,
    s: Seq<u8>,
    places: int,
    p: int,
    a: Seq<LifeCell>,
    c: Seq<LifeCell>,
) -> bool {
    forall|sol: Seq<State>|
        #[trigger] is_solution(b, s, a, places, p, sol) && agrees(a, sol) ==> agrees(c, sol)
}

/// Being a solution depends on the links of the cells only.
pub proof fn lemma_solution_links(
    b: Seq<u8>,
    s: Seq<u8>,
    places: int,
    p: int,
    a: Seq<LifeCell>,
    c: Seq<LifeCell>,
    sol: Seq<State>,
)
    requires
        same_links(a, c),
        is_solution(b, s, a, places, p, sol),
    ensures
        is_solution(b, s, c, places, p, sol),
{
    assert forall|x: int| 0 <= x < sentinel(c) implies #[trigger] sol_obeys(b, s, c, sol, x) by {
        assert(sol_obeys(b, s, a, sol, x));
        assert(a[x].nbhd == c[x].nbhd);
        assert(nbhd_states(a, sol_states(sol), x) =~= nbhd_states(c, sol_states(sol), x));
    }
    assert forall|x: int| 0 <= x < sentinel(c) implies #[trigger] sol_symmetric(c, sol, x) by {
        assert(sol_symmetric(a, sol, x));
        assert(a[x].sym == c[x].sym);
    }
}

/// What the rule implies at a cell holds in every solution that agrees with
/// the cells: the descriptor of the cell is no conflict, and each state
/// that its flags imply is the state that the solution has.
pub proof fn lemma_deduction(
    b: Seq<u8>,
    s: Seq<u8>,
    cells: Seq<LifeCell>,
    sol: Seq<State>,
    x: int,
    i: int,
)
    requires
        graph_wf(cells),
        0 <= x < cells.len(),
        0 <= i < 8,
        agrees(cells, sol),
        sol_obeys(b, s, cells, sol, x),
    ensures
        ({
            let flags = flags_of(b, s, cells, x);
            &&& flags & CONFLICT == 0
            &&& flags & SUCC != 0 ==> sol[cells[x].succ as int] == flag_state(flags, SUCC_DEAD)
            &&& flags & SUCC == 0 && flags & SELF != 0 ==> sol[x] == flag_state(flags, SELF_DEAD)
            &&& flags & SUCC == 0 && flags & (nbhd_alive_flag(i as u32) | nbhd_dead_flag(i as u32))
                != 0 ==> sol[cells[x].nbhd@[i] as int] == flag_state(
                flags,
                nbhd_dead_flag(i as u32),
            )
        }),
{
    let states = states_of(cells);
    let full = sol_states(sol);
    let around = nbhd_states(cells, states, x);
    let full_around = nbhd_states(cells, full, x);
    let succ = cells[x].succ as int;
    let d = cells[x].desc.bits();
    let d2 = desc_for(cells, full, x);
    assert(desc_ok_at(cells, states, x));
    assert(links_in_range(cells, x));
    assert forall|k: int| 0 <= k < 8 && (#[trigger] around[k]) is Some implies around[k]
        == full_around[k] by {
        assert(cells[cells[x].nbhd@[k] as int].state is Some);
    }
    lemma_desc_completion(states[x], states[succ], around, sol[x], sol[succ], full_around);
    lemma_desc_range(states[x], states[succ], around);
    lemma_desc_fields(states[x], states[succ], around, i as u32);
    lemma_desc_fields(full[x], full[succ], full_around, i as u32);
    crate::bits::lemma_field_ranges(d);
    assert(desc_valid(d));
    assert(consistent(
        b,
        s,
        own_of(d),
        succ_of(d),
        alive_of(d),
        dead_of(d),
        sol[x] == State::Alive,
        alive_of(d2),
        sol[succ] == State::Alive,
    ));
    lemma_entry_meaning(
        b,
        s,
        d,
        sol[x] == State::Alive,
        alive_of(d2),
        sol[succ] == State::Alive,
        i as u32,
    );
}

/// An assignment that follows every guess of a trail that has missed no
/// solution agrees with all cells.
pub proof fn lemma_covers_agrees(
    b: Seq<u8>,
    s: Seq<u8>,
    places: int,
    p: int,
    cells: Seq<LifeCell>,
    trail: Seq<usize>,
    sol: Seq<State>,
)
    requires
        graph_wf(cells),
        trail_ok(cells, trail),
        covers(b, s, places, p, cells, trail),
        is_solution(b, s, cells, places, p, sol),
        agrees(rewind(cells, trail), sol),
        follows(cells, trail, sol, trail.len() as int),
    ensures
        agrees(cells, sol),
{
    lemma_rewind_props(cells, trail);
    assert forall|c: int| 0 <= c < cells.len() && (#[trigger] cells[c]).state is Some
        implies cells[c].state
        == Some(sol[c]) by {
        let r = rewind(cells, trail)[c];
        if on_trail(trail, c) {
            let i = choose|i: int| 0 <= i < trail.len() && #[trigger] trail[i] == c;
            if !cells[c].free {
                assert(forced_at(cells, trail, sol, i));
            }
        }
    }
}

/// A trail that has missed no solution still has missed none after it has
/// grown by cells that every solution agrees with.
pub proof fn lemma_covers_grows(
    b: Seq<u8>,
    s: Seq<u8>,
    places: int,
    p: int,
    a: Seq<LifeCell>,
    trail: Seq<usize>,
    c: Seq<LifeCell>,
    longer: Seq<usize>,
)
    requires
        graph_wf(a),
        graph_wf(c),
        trail_ok(a, trail),
        trail_ok(c, longer),
        trail.len() <= longer.len(),
        longer.take(trail.len() as int) == trail,
        rewind(c, longer.skip(trail.len() as int)) == a,
        forall|i: int|
            trail.len() <= i < longer.len() ==> !c[(#[trigger] longer[i]) as int].free,
        covers(b, s, places, p, a, trail),
        forced_growth(b, s, places, p, a, c),
    ensures
        covers(b, s, places, p, c, longer),
{
    let n = trail.len() as int;
    let fresh = longer.skip(n);
    assert forall|i: int| 0 <= i < fresh.len() implies (#[trigger] fresh[i]) < sentinel(c) by {
        assert(fresh[i] == longer[n + i]);
    }
    lemma_rewind_props(c, fresh);
    assert(same_links(c, a)) by {
        assert forall|x: int| 0 <= x < c.len() implies {
            &&& (#[trigger] c[x]).nbhd == a[x].nbhd
            &&& c[x].pred == a[x].pred
            &&& c[x].succ == a[x].succ
            &&& c[x].sym == a[x].sym
        } by {
            let r = rewind(c, fresh)[x];
        }
    }
    assert(longer =~= trail + fresh) by {
        assert forall|i: int| 0 <= i < n implies longer[i] == trail[i] by {
            assert(longer.take(n)[i] == trail[i]);
        }
    }
    lemma_rewind_concat(c, trail, fresh);
    assert forall|j: int| 0 <= j < n implies c[(#[trigger] trail[j]) as int].free
        == a[trail[j] as int].free && c[trail[j] as int].state == a[trail[j] as int].state by {
        let y = trail[j] as int;
        let r = rewind(c, fresh)[y];
        assert(a[y].state is Some);
    }
    assert forall|sol: Seq<State>, i: int|
        is_solution(b, s, c, places, p, sol) && agrees(rewind(c, longer), sol)
            && #[trigger] forced_at(c, longer, sol, i) implies c[longer[i] as int].state == Some(
        sol[longer[i] as int],
    ) by {
        lemma_solution_links(b, s, places, p, c, a, sol);
        if i < n {
            assert(longer[i] == trail[i]);
            assert forall|j: int| 0 <= j < i && a[(#[trigger] trail[j]) as int].free
                implies a[trail[j] as int].state
                == Some(sol[trail[j] as int]) by {
                assert(longer[j] == trail[j]);
            }
            assert(forced_at(a, trail, sol, i));
        } else {
            assert forall|j: int| 0 <= j < n && a[(#[trigger] trail[j]) as int].free
                implies a[trail[j] as int].state
                == Some(sol[trail[j] as int]) by {
                assert(longer[j] == trail[j]);
            }
            lemma_covers_agrees(b, s, places, p, a, trail, sol);
            assert(agrees(c, sol));
        }
    }
}

/// A trail that has missed no solution has missed none after a guess.
pub proof fn lemma_covers_guess(
    b: Seq<u8>,
    s: Seq<u8>,
    places: int,
    p: int,
    a: Seq<LifeCell>,
    trail: Seq<usize>,
    cell: usize,
    state: State,
)
    requires
        graph_wf(a),
        trail_ok(a, trail),
        cell < sentinel(a),
        a[cell as int].state is None,
        covers(b, s, places, p, a, trail),
    ensures
        covers(
            b,
            s,
            places,
            p,
            with_state(a, cell as int, Some(state), true),
            trail.push(cell),
        ),
{
    let n = trail.len() as int;
    let c = with_state(a, cell as int, Some(state), true);
    let longer = trail.push(cell);
    lemma_unset_restores(a, cell as int, Some(state), true);
    lemma_rewind_push(c, trail, cell);
    assert(same_links(c, a));
    assert forall|sol: Seq<State>, i: int|
        is_solution(b, s, c, places, p, sol) && agrees(rewind(c, longer), sol)
            && #[trigger] forced_at(c, longer, sol, i) implies c[longer[i] as int].state == Some(
        sol[longer[i] as int],
    ) by {
        lemma_solution_links(b, s, places, p, c, a, sol);
        assert(i < n);
        assert(longer[i] == trail[i]);
        assert(a[trail[i] as int].state is Some);
        assert forall|j: int| 0 <= j < i && a[(#[trigger] trail[j]) as int].free
            implies a[trail[j] as int].state
            == Some(sol[trail[j] as int]) by {
            assert(longer[j] == trail[j]);
            assert(a[trail[j] as int].state is Some);
        }
        assert(forced_at(a, trail, sol, i));
    }
}

/// A trail that has missed no solution, and that no solution agrees with,
/// has missed none after the search has backed up to its last guess and
/// flipped it.
pub proof fn lemma_covers_backup(
    b: Seq<u8>,
    s: Seq<u8>,
    places: int,
    p: int,
    a: Seq<LifeCell>,
    trail: Seq<usize>,
    j: int,
)
    requires
        graph_wf(a),
        trail_ok(a, trail),
        0 <= j < trail.len(),
        a[trail[j] as int].free,
        forall|m: int| j < m < trail.len() ==> !a[(#[trigger] trail[m]) as int].free,
        covers(b, s, places, p, a, trail),
        dead_end(b, s, places, p, a),
    ensures
        covers(
            b,
            s,
            places,
            p,
            with_state(
                rewind(a, trail.skip(j + 1)),
                trail[j] as int,
                Some(a[trail[j] as int].state->0.opposite()),
                false,
            ),
            trail.take(j + 1),
        ),
{
    let cell = trail[j] as int;
    let later = trail.skip(j + 1);
    let v = rewind(a, later);
    let state = a[cell].state->0.opposite();
    let c = with_state(v, cell, Some(state), false);
    let cut = trail.take(j + 1);
    let single = Seq::<usize>::empty().push(trail[j]);
    assert forall|i: int| 0 <= i < later.len() implies (#[trigger] later[i]) < sentinel(a) by {
        assert(later[i] == trail[j + 1 + i]);
    }
    lemma_rewind_props(a, later);
    lemma_with_state_wf(v, cell, Some(state), false);
    assert(same_links(c, a)) by {
        assert forall|x: int| 0 <= x < c.len() implies {
            &&& (#[trigger] c[x]).nbhd == a[x].nbhd
            &&& c[x].pred == a[x].pred
            &&& c[x].succ == a[x].succ
            &&& c[x].sym == a[x].sym
        } by {
            let r = rewind(a, later)[x];
        }
    }
    // Both trails rewind to the same state.
    assert(cut =~= trail.take(j) + single);
    assert(trail =~= trail.take(j) + (single + later));
    lemma_rewind_concat(c, trail.take(j), single);
    lemma_rewind_push(c, Seq::<usize>::empty(), trail[j]);
    lemma_override(v, cell, Some(state), false, None, false);
    lemma_rewind_concat(a, trail.take(j), single + later);
    lemma_rewind_concat(a, single, later);
    lemma_rewind_push(v, Seq::<usize>::empty(), trail[j]);
    assert(rewind(c, cut) == rewind(a, trail));
    assert forall|m: int| 0 <= m < j implies c[(#[trigger] trail[m]) as int].free
        == a[trail[m] as int].free && c[trail[m] as int].state == a[trail[m] as int].state by {
        let y = trail[m] as int;
        assert(y != cell);
        if on_trail(later, y) {
            let q = choose|q: int| 0 <= q < later.len() && #[trigger] later[q] == y;
            assert(later[q] == trail[j + 1 + q]);
        }
        let r = rewind(a, later)[y];
    }
    assert forall|sol: Seq<State>, i: int|
        is_solution(b, s, c, places, p, sol) && agrees(rewind(c, cut), sol)
            && #[trigger] forced_at(c, cut, sol, i) implies c[cut[i] as int].state == Some(
        sol[cut[i] as int],
    ) by {
        lemma_solution_links(b, s, places, p, c, a, sol);
        assert(cut[i] == trail[i]);
        assert forall|m: int| 0 <= m < i && a[(#[trigger] trail[m]) as int].free
            implies a[trail[m] as int].state
            == Some(sol[trail[m] as int]) by {
            assert(cut[m] == trail[m]);
        }
        if i < j {
            assert(forced_at(a, trail, sol, i));
        } else {
            if sol[cell] != state {
                assert(a[cell].state is Some);
                assert(a[cell].state == Some(sol[cell]));
                assert forall|m: int|
                    0 <= m < trail.len() && a[(#[trigger] trail[m]) as int].free
                        implies a[trail[m] as int].state
                    == Some(sol[trail[m] as int]) by {
                    if m < j {
                        assert(cut[m] == trail[m]);
                    }
                }
                lemma_covers_agrees(b, s, places, p, a, trail, sol);
            }
        }
    }
}

/// When no cell of the trail is a guess, the trail has missed no solution
/// and no solution agrees with the cells, then no solution agrees with the
/// state from which the search set out.
pub proof fn lemma_exhausted(
    b: Seq<u8>,
    s: Seq<u8>,
    places: int,
    p: int,
    a: Seq<LifeCell>,
    trail: Seq<usize>,
)
    requires
        graph_wf(a),
        trail_ok(a, trail),
        forall|m: int| 0 <= m < trail.len() ==> !a[(#[trigger] trail[m]) as int].free,
        covers(b, s, places, p, a, trail),
        dead_end(b, s, places, p, a),
    ensures
        dead_end(b, s, places, p, rewind(a, trail)),
{
    lemma_rewind_props(a, trail);
    let base = rewind(a, trail);
    assert(same_links(base, a)) by {
        assert forall|x: int| 0 <= x < base.len() implies {
            &&& (#[trigger] base[x]).nbhd == a[x].nbhd
            &&& base[x].pred == a[x].pred
            &&& base[x].succ == a[x].succ
            &&& base[x].sym == a[x].sym
        } by {
            let r = rewind(a, trail)[x];
        }
    }
    assert forall|sol: Seq<State>| #[trigger]
        is_solution(b, s, base, places, p, sol) implies !agrees(base, sol) by {
        lemma_solution_links(b, s, places, p, base, a, sol);
        if agrees(base, sol) {
            lemma_covers_agrees(b, s, places, p, a, trail, sol);
        }
    }
}

/// With an empty trail no solution has been missed.
pub proof fn lemma_covers_empty(b: Seq<u8>, s: Seq<u8>, places: int, p: int, cells: Seq<LifeCell>)
    ensures
        covers(b, s, places, p, cells, Seq::<usize>::empty()),
{
}

/// Growth that every solution agrees with is transitive.
pub proof fn lemma_forced_trans(
    b: Seq<u8>,
    s: Seq<u8>,
    places: int,
    p: int,
    a: Seq<LifeCell>,
    m: Seq<LifeCell>,
    c: Seq<LifeCell>,
)
    requires
        same_links(a, m),
        forced_growth(b, s, places, p, a, m),
        forced_growth(b, s, places, p, m, c),
    ensures
        forced_growth(b, s, places, p, a, c),
{
    assert forall|sol: Seq<State>| #[trigger]
        is_solution(b, s, a, places, p, sol) && agrees(a, sol) implies agrees(c, sol) by {
        lemma_solution_links(b, s, places, p, a, m, sol);
    }
}

/// When no solution agrees with cells that every solution agreeing with
/// the cells `a` agrees with, no solution agrees with the cells `a`.
pub proof fn lemma_dead_end_back(
    b: Seq<u8>,
    s: Seq<u8>,
    places: int,
    p: int,
    a: Seq<LifeCell>,
    c: Seq<LifeCell>,
)
    requires
        same_links(a, c),
        forced_growth(b, s, places, p, a, c),
        dead_end(b, s, places, p, c),
    ensures
        dead_end(b, s, places, p, a),
{
    assert forall|sol: Seq<State>| #[trigger]
        is_solution(b, s, a, places, p, sol) implies !agrees(a, sol) by {
        lemma_solution_links(b, s, places, p, a, c, sol);
    }
}

/// Whether every solution that agrees with the cells gives the cell `cell`
/// the state `state`.
pub open spec fn justified(
    b: Seq<u8>,
    s: Seq<u8>,
    places: int,
    p: int,
    cells: Seq<LifeCell>,
    cell: int,
    state: State,
) -> bool {
    forall|sol: Seq<State>|
        #[trigger] is_solution(b, s, cells, places, p, sol) && agrees(cells, sol) ==> sol[cell]
            == state
}

/// A solution that agrees with cells agrees with the cells that they have
/// grown out of.
pub proof fn lemma_agrees_earlier(a: Seq<LifeCell>, c: Seq<LifeCell>, sol: Seq<State>)
    requires
        later_than(c, a),
        agrees(c, sol),
    ensures
        agrees(a, sol),
{
    assert forall|x: int| 0 <= x < a.len() && (#[trigger] a[x]).state is Some implies a[x].state
        == Some(sol[x]) by {
        assert(c[x].state == a[x].state);
    }
}

/// A dead end stays a dead end while the cells grow.
pub proof fn lemma_dead_end_later(
    b: Seq<u8>,
    s: Seq<u8>,
    places: int,
    p: int,
    a: Seq<LifeCell>,
    c: Seq<LifeCell>,
)
    requires
        later_than(c, a),
        dead_end(b, s, places, p, a),
    ensures
        dead_end(b, s, places, p, c),
{
    assert forall|sol: Seq<State>| #[trigger]
        is_solution(b, s, c, places, p, sol) implies !agrees(c, sol) by {
        lemma_solution_links(b, s, places, p, c, a, sol);
        if agrees(c, sol) {
            lemma_agrees_earlier(a, c, sol);
        }
    }
}

/// What is justified stays justified while the cells grow.
pub proof fn lemma_justified_later(
    b: Seq<u8>,
    s: Seq<u8>,
    places: int,
    p: int,
    a: Seq<LifeCell>,
    c: Seq<LifeCell>,
    cell: int,
    state: State,
)
    requires
        later_than(c, a),
        justified(b, s, places, p, a, cell, state),
    ensures
        justified(b, s, places, p, c, cell, state),
{
    assert forall|sol: Seq<State>| #[trigger]
        is_solution(b, s, c, places, p, sol) && agrees(c, sol) implies sol[cell] == state by {
        lemma_solution_links(b, s, places, p, c, a, sol);
        lemma_agrees_earlier(a, c, sol);
    }
}

/// A justified state on a cell that has the other state is a dead end.
pub proof fn lemma_justified_conflict(
    b: Seq<u8>,
    s: Seq<u8>,
    places: int,
    p: int,
    cells: Seq<LifeCell>,
    cell: int,
    state: State,
)
    requires
        0 <= cell < cells.len(),
        cells[cell].state == Some(state.opposite()),
        justified(b, s, places, p, cells, cell, state),
    ensures
        dead_end(b, s, places, p, cells),
{
    assert forall|sol: Seq<State>| #[trigger]
        is_solution(b, s, cells, places, p, sol) implies !agrees(cells, sol) by {
        if agrees(cells, sol) {
            assert(cells[cell].state == Some(sol[cell]));
        }
    }
}

/// Giving an unknown cell a justified state is growth that every solution
/// agrees with.
pub proof fn lemma_justified_set(
    b: Seq<u8>,
    s: Seq<u8>,
    places: int,
    p: int,
    cells: Seq<LifeCell>,
    cell: int,
    state: State,
    free: bool,
)
    requires
        0 <= cell < cells.len(),
        justified(b, s, places, p, cells, cell, state),
    ensures
        forced_growth(b, s, places, p, cells, with_state(cells, cell, Some(state), free)),
{
}

/// The state of a known cell of the grid is justified for its symmetry
/// twins.
pub proof fn lemma_twin_justified(
    b: Seq<u8>,
    s: Seq<u8>,
    places: int,
    p: int,
    cells: Seq<LifeCell>,
    cell: int,
    state: State,
    j: int,
)
    requires
        0 <= cell < sentinel(cells),
        cells[cell].state == Some(state),
        0 <= j < cells[cell].sym@.len(),
    ensures
        justified(b, s, places, p, cells, cells[cell].sym@[j] as int, state),
{
    assert forall|sol: Seq<State>| #[trigger]
        is_solution(b, s, cells, places, p, sol) && agrees(cells, sol)
            implies sol[cells[cell].sym@[j] as int]
        == state by {
        assert(sol_symmetric(cells, sol, cell));
        assert(cells[cell].state == Some(sol[cell]));
    }
}

/// What the rule implies at a cell of the grid is justified: a conflict is a
/// dead end, and each state that the flags imply is justified for the cell
/// that they speak of.
pub proof fn lemma_flags_justified(
    b: Seq<u8>,
    s: Seq<u8>,
    places: int,
    p: int,
    cells: Seq<LifeCell>,
    x: int,
    i: int,
)
    requires
        graph_wf(cells),
        0 <= x < sentinel(cells),
        0 <= i < 8,
    ensures
        ({
            let flags = flags_of(b, s, cells, x);
            &&& flags & CONFLICT != 0 ==> dead_end(b, s, places, p, cells)
            &&& flags & SUCC != 0 ==> justified(
                b,
                s,
                places,
                p,
                cells,
                cells[x].succ as int,
                flag_state(flags, SUCC_DEAD),
            )
            &&& flags & SUCC == 0 && flags & SELF != 0 ==> justified(
                b,
                s,
                places,
                p,
                cells,
                x,
                flag_state(flags, SELF_DEAD),
            )
            &&& flags & SUCC == 0 && flags & (nbhd_alive_flag(i as u32) | nbhd_dead_flag(i as u32))
                != 0 ==> justified(
                b,
                s,
                places,
                p,
                cells,
                cells[x].nbhd@[i] as int,
                flag_state(flags, nbhd_dead_flag(i as u32)),
            )
        }),
{
    let flags = flags_of(b, s, cells, x);
    assert forall|sol: Seq<State>| #[trigger]
        is_solution(b, s, cells, places, p, sol) && agrees(cells, sol) implies {
        &&& flags & CONFLICT == 0
        &&& flags & SUCC != 0 ==> sol[cells[x].succ as int] == flag_state(flags, SUCC_DEAD)
        &&& flags & SUCC == 0 && flags & SELF != 0 ==> sol[x] == flag_state(flags, SELF_DEAD)
        &&& flags & SUCC == 0 && flags & (nbhd_alive_flag(i as u32) | nbhd_dead_flag(i as u32)) != 0
            ==> sol[cells[x].nbhd@[i] as int] == flag_state(flags, nbhd_dead_flag(i as u32))
    } by {
        assert(sol_obeys(b, s, cells, sol, x));
        lemma_deduction(b, s, cells, sol, x, i);
    }
}

} // verus!
