//! What propagation has achieved: which cells are known to admit a
//! completion under the rule, and why that knowledge survives every step of
//! the search.
//!
//! The descriptor of a cell depends on the cell itself, its successor and
//! its eight neighbours. Once the consequences of all of them that stand on
//! the trail have been drawn, the descriptor has been looked up in the table
//! since it last changed, and it was no conflict.

use crate::cells::{LifeCell, State};
use crate::bits::{lemma_field_ranges, lemma_or_mask};
use crate::deduce::{
    alive_of, dead_of, desc_valid, lemma_flags_only_unknown, nbhd_alive_flag, nbhd_dead_flag,
    table_entry, CONFLICT, SELF, SUCC,
};
use crate::desc::{lemma_desc_fields, lemma_desc_range};
use crate::trail::{
    lemma_override, lemma_rewind_concat, lemma_rewind_props, lemma_rewind_push,
    lemma_unset_restores, lemma_with_state_wf, on_trail, rewind, trail_ok,
};
use crate::world::{
    desc_ok_at, graph_wf, links_in_range, links_ok, nbhd_mutual, nbhd_states, pred_succ_mutual,
    sentinel, states_of, with_state,
};
use vstd::prelude::*;

verus! {

/// The implication flags that the rule gives the descriptor of cell `x`.
pub open spec fn flags_of(b: Seq<u8>, s: Seq<u8>, cells: Seq<LifeCell>, x: int) -> u32 {
    table_entry(b, s, cells[x].desc.bits())
}

/// Whether the descriptor of cell `x` is no conflict: some completion of
/// what it leaves unknown obeys the rule.
pub open spec fn admissible(b: Seq<u8>, s: Seq<u8>, cells: Seq<LifeCell>, x: int) -> bool {
    flags_of(b, s, cells, x) & CONFLICT == 0
}

/// Whether every symmetry twin of cell `c` has the given state.
pub open spec fn twins_have(cells: Seq<LifeCell>, c: int, state: State) -> bool {
    forall|j: int|
        0 <= j < cells[c].sym@.len() ==> cells[(#[trigger] cells[c].sym@[j]) as int].state == Some(
            state,
        )
}

/// Whether the descriptor of cell `x` depends on a cell of the given part
/// of the trail: whether the cell itself, its successor or one of its
/// neighbours stands there.
pub open spec fn near(cells: Seq<LifeCell>, x: int, part: Seq<usize>) -> bool {
    ||| on_trail(part, x)
    ||| on_trail(part, cells[x].succ as int)
    ||| exists|k: int| 0 <= k < 8 && on_trail(part, (#[trigger] cells[x].nbhd@[k]) as int)
}

/// Whether cell `x`, its successor and its neighbours have the same states
/// in both arrays of cells.
pub open spec fn same_view(a: Seq<LifeCell>, b: Seq<LifeCell>, x: int) -> bool {
    &&& a[x].state == b[x].state
    &&& a[a[x].succ as int].state == b[a[x].succ as int].state
    &&& forall|k: int|
        0 <= k < 8 ==> a[(#[trigger] a[x].nbhd@[k]) as int].state == b[a[x].nbhd@[k] as int].state
}

/// Whether two arrays of cells have the same links.
pub open spec fn same_links(a: Seq<LifeCell>, b: Seq<LifeCell>) -> bool {
    &&& a.len() == b.len()
    &&& forall|x: int|
        0 <= x < a.len() ==> {
            &&& (#[trigger] a[x]).nbhd == b[x].nbhd
            &&& a[x].pred == b[x].pred
            &&& a[x].succ == b[x].succ
            &&& a[x].sym == b[x].sym
        }
}

/// Whether the consequences of the first `k` cells of the trail have been
/// drawn: every cell of the grid whose descriptor depends on one of them,
/// and on no later cell of the trail, is admissible; and the symmetry twins
/// of each of them have its state.
pub open spec fn drawn(
    b: Seq<u8>,
    s: Seq<u8>,
    cells: Seq<LifeCell>,
    trail: Seq<usize>,
    k: int,
) -> bool {
    &&& forall|x: int|
        0 <= x < sentinel(cells) && near(cells, x, trail.take(k)) && !near(
            cells,
            x,
            trail.skip(k),
        ) ==> #[trigger] admissible(b, s, cells, x)
    &&& forall|i: int|
        0 <= i < k ==> twins_have(
            cells,
            (#[trigger] trail[i]) as int,
            cells[trail[i] as int].state->0,
        )
}

/// Whether the search can rely on its past: the consequences of the trail
/// up to the cursor have been drawn, and before every guess that still
/// stands the consequences of everything before it had been drawn.
pub open spec fn sound(
    b: Seq<u8>,
    s: Seq<u8>,
    cells: Seq<LifeCell>,
    trail: Seq<usize>,
    k: int,
) -> bool {
    &&& drawn(b, s, cells, trail, k)
    &&& forall|j: int|
        0 <= j < trail.len() && cells[(#[trigger] trail[j]) as int].free ==> drawn(
            b,
            s,
            rewind(cells, trail.skip(j)),
            trail.take(j),
            j,
        )
}

/// A cell whose view is the same in two sound arrays of cells has the same
/// descriptor in both.
pub proof fn lemma_same_view_flags(
    b: Seq<u8>,
    s: Seq<u8>,
    a: Seq<LifeCell>,
    c: Seq<LifeCell>,
    x: int,
)
    requires
        graph_wf(a),
        graph_wf(c),
        same_links(a, c),
        0 <= x < a.len(),
        same_view(a, c, x),
    ensures
        a[x].desc == c[x].desc,
        flags_of(b, s, a, x) == flags_of(b, s, c, x),
        admissible(b, s, a, x) == admissible(b, s, c, x),
{
    assert(desc_ok_at(a, states_of(a), x));
    assert(desc_ok_at(c, states_of(c), x));
    assert(links_in_range(a, x));
    assert(a[x].nbhd == c[x].nbhd);
    assert(nbhd_states(a, states_of(a), x) =~= nbhd_states(c, states_of(c), x)) by {
        assert forall|k: int| 0 <= k < 8 implies nbhd_states(a, states_of(a), x)[k]
            == nbhd_states(c, states_of(c), x)[k] by {
            assert(a[a[x].nbhd@[k] as int].state == c[a[x].nbhd@[k] as int].state);
        }
    }
}

/// A cell on whose view a part of the trail bears not has the same view
/// before and after the cells of that part were set.
pub proof fn lemma_far_same_view(
    a: Seq<LifeCell>,
    c: Seq<LifeCell>,
    part: Seq<usize>,
    x: int,
)
    requires
        links_ok(a),
        same_links(a, c),
        0 <= x < a.len(),
        !near(a, x, part),
        forall|y: int| 0 <= y < a.len() && !on_trail(part, y) ==> (#[trigger] a[y]).state
            == c[y].state,
    ensures
        same_view(a, c, x),
{
    assert(links_in_range(a, x));
    assert forall|k: int| 0 <= k < 8 implies a[(#[trigger] a[x].nbhd@[k]) as int].state
        == c[a[x].nbhd@[k] as int].state by {
        let y = a[x].nbhd@[k] as int;
        assert(!on_trail(part, y));
        assert(a[y].state == c[y].state);
    }
    let y = a[x].succ as int;
    assert(a[y].state == c[y].state);
    assert(a[x].state == c[x].state);
}

/// Being near a part of the trail depends on the links only.
pub proof fn lemma_near_links(a: Seq<LifeCell>, c: Seq<LifeCell>, x: int, part: Seq<usize>)
    requires
        same_links(a, c),
        0 <= x < a.len(),
    ensures
        near(a, x, part) == near(c, x, part),
{
    assert(a[x].nbhd == c[x].nbhd);
    if near(a, x, part) {
        if !on_trail(part, x) && !on_trail(part, a[x].succ as int) {
            let k = choose|k: int| 0 <= k < 8 && on_trail(part, (#[trigger] a[x].nbhd@[k]) as int);
            assert(on_trail(part, c[x].nbhd@[k] as int));
        }
    }
    if near(c, x, part) {
        if !on_trail(part, x) && !on_trail(part, c[x].succ as int) {
            let k = choose|k: int| 0 <= k < 8 && on_trail(part, (#[trigger] c[x].nbhd@[k]) as int);
            assert(on_trail(part, a[x].nbhd@[k] as int));
        }
    }
}

/// A cell near a part of the trail is near every part that holds the same
/// cells and more.
pub proof fn lemma_near_more(cells: Seq<LifeCell>, x: int, part: Seq<usize>, more: Seq<usize>)
    requires
        near(cells, x, part),
        forall|y: int| on_trail(part, y) ==> on_trail(more, y),
    ensures
        near(cells, x, more),
{
    if !on_trail(part, x) && !on_trail(part, cells[x].succ as int) {
        let k = choose|k: int| 0 <= k < 8 && on_trail(part, (#[trigger] cells[x].nbhd@[k]) as int);
        assert(on_trail(more, cells[x].nbhd@[k] as int));
    }
}

/// What was drawn stays drawn while the trail grows behind the cursor.
///
/// The cells `c` and the trail `longer` have grown out of the cells `a` and
/// the trail `trail`: the links are the same, the trail has the same
/// beginning, and only the cells of its new part, which were unknown, have
/// changed their state.
pub proof fn lemma_drawn_grows(
    b: Seq<u8>,
    s: Seq<u8>,
    a: Seq<LifeCell>,
    trail: Seq<usize>,
    c: Seq<LifeCell>,
    longer: Seq<usize>,
    k: int,
)
    requires
        graph_wf(a),
        graph_wf(c),
        same_links(a, c),
        0 <= k <= trail.len() <= longer.len(),
        longer.take(trail.len() as int) == trail,
        forall|i: int|
            0 <= i < trail.len() ==> (#[trigger] trail[i]) < a.len()
                && a[trail[i] as int].state is Some,
        forall|y: int|
            0 <= y < a.len() && !on_trail(longer.skip(trail.len() as int), y) ==> (
            #[trigger] a[y]).state == c[y].state,
        forall|y: int|
            0 <= y < a.len() && on_trail(longer.skip(trail.len() as int), y) ==> (
            #[trigger] a[y]).state is None,
        drawn(b, s, a, trail, k),
    ensures
        drawn(b, s, c, longer, k),
{
    let n = trail.len() as int;
    let fresh = longer.skip(n);
    assert(longer.take(k) =~= trail.take(k)) by {
        assert forall|i: int| 0 <= i < k implies longer.take(k)[i] == trail.take(k)[i] by {
            assert(longer.take(n)[i] == trail[i]);
        }
    }
    assert forall|y: int| on_trail(trail.skip(k), y) implies on_trail(longer.skip(k), y) by {
        let i = choose|i: int| 0 <= i < trail.skip(k).len() && #[trigger] trail.skip(k)[i] == y;
        assert(longer.take(n)[k + i] == trail[k + i]);
        assert(longer.skip(k)[i] == y);
    }
    assert forall|y: int| on_trail(fresh, y) implies on_trail(longer.skip(k), y) by {
        let i = choose|i: int| 0 <= i < fresh.len() && #[trigger] fresh[i] == y;
        assert(longer.skip(k)[n - k + i] == y);
    }
    assert forall|x: int|
        0 <= x < sentinel(c) && near(c, x, longer.take(k)) && !near(
            c,
            x,
            longer.skip(k),
        ) implies #[trigger] admissible(b, s, c, x) by {
        lemma_near_links(a, c, x, trail.take(k));
        lemma_near_links(a, c, x, longer.skip(k));
        if near(a, x, trail.skip(k)) {
            lemma_near_more(a, x, trail.skip(k), longer.skip(k));
        }
        if near(a, x, fresh) {
            lemma_near_more(a, x, fresh, longer.skip(k));
        }
        assert(admissible(b, s, a, x));
        lemma_far_same_view(a, c, fresh, x);
        lemma_same_view_flags(b, s, a, c, x);
    }
    assert forall|i: int| 0 <= i < k implies twins_have(
        c,
        (#[trigger] longer[i]) as int,
        c[longer[i] as int].state->0,
    ) by {
        assert(longer.take(n)[i] == trail[i]);
        let t = trail[i] as int;
        lemma_twins_keep(a, c, fresh, t);
    }
}

/// The twins of a known cell that have its state keep having it while only
/// unknown cells are given a state.
pub proof fn lemma_twins_keep(a: Seq<LifeCell>, c: Seq<LifeCell>, fresh: Seq<usize>, t: int)
    requires
        links_ok(a),
        same_links(a, c),
        0 <= t < a.len(),
        a[t].state is Some,
        twins_have(a, t, a[t].state->0),
        forall|y: int| 0 <= y < a.len() && !on_trail(fresh, y) ==> (#[trigger] a[y]).state
            == c[y].state,
        forall|y: int| 0 <= y < a.len() && on_trail(fresh, y) ==> (#[trigger] a[y]).state is None,
    ensures
        c[t].state == a[t].state,
        twins_have(c, t, c[t].state->0),
{
    assert(links_in_range(a, t));
    assert(a[t].sym == c[t].sym);
    assert(a[t].state == c[t].state);
    assert forall|j: int| 0 <= j < c[t].sym@.len() implies c[(#[trigger] c[t].sym@[j]) as int].state
        == Some(c[t].state->0) by {
        let u = a[t].sym@[j] as int;
        assert(a[u].state == Some(a[t].state->0));
        assert(a[u].state == c[u].state);
    }
}

/// A search that can rely on its past still can after the trail has grown
/// behind the cursor.
pub proof fn lemma_sound_grows(
    b: Seq<u8>,
    s: Seq<u8>,
    a: Seq<LifeCell>,
    trail: Seq<usize>,
    c: Seq<LifeCell>,
    longer: Seq<usize>,
    k: int,
)
    requires
        graph_wf(a),
        graph_wf(c),
        trail_ok(a, trail),
        trail_ok(c, longer),
        0 <= k <= trail.len() <= longer.len(),
        longer.take(trail.len() as int) == trail,
        rewind(c, longer.skip(trail.len() as int)) == a,
        forall|i: int|
            trail.len() <= i < longer.len() ==> !c[(#[trigger] longer[i]) as int].free,
        sound(b, s, a, trail, k),
    ensures
        sound(b, s, c, longer, k),
        same_links(a, c),
        forall|y: int|
            0 <= y < a.len() && !on_trail(longer.skip(trail.len() as int), y) ==> (
            #[trigger] a[y]).state == c[y].state && a[y].free == c[y].free,
        forall|y: int|
            0 <= y < a.len() && on_trail(longer.skip(trail.len() as int), y) ==> (
            #[trigger] a[y]).state is None,
{
    let n = trail.len() as int;
    let fresh = longer.skip(n);
    assert forall|i: int| 0 <= i < fresh.len() implies (#[trigger] fresh[i]) < sentinel(c) by {
        assert(fresh[i] == longer[n + i]);
    }
    lemma_rewind_props(c, fresh);
    assert(same_links(a, c)) by {
        assert forall|x: int| 0 <= x < a.len() implies {
            &&& (#[trigger] a[x]).nbhd == c[x].nbhd
            &&& a[x].pred == c[x].pred
            &&& a[x].succ == c[x].succ
            &&& a[x].sym == c[x].sym
        } by {
            let r = rewind(c, fresh)[x];
        }
    }
    assert forall|y: int| 0 <= y < a.len() implies (!on_trail(fresh, y) ==> (#[trigger] a[y]).state
        == c[y].state && a[y].free == c[y].free) && (on_trail(fresh, y) ==> a[y].state is None) by {
        let r = rewind(c, fresh)[y];
    }
    lemma_drawn_grows(b, s, a, trail, c, longer, k);
    assert forall|j: int|
        0 <= j < longer.len() && c[(#[trigger] longer[j]) as int].free implies drawn(
        b,
        s,
        rewind(c, longer.skip(j)),
        longer.take(j),
        j,
    ) by {
        assert(j < n);
        assert(longer.take(n)[j] == trail[j]);
        assert(a[trail[j] as int].state is Some);
        assert(!on_trail(fresh, trail[j] as int));
        assert(a[trail[j] as int].free);
        assert(longer.skip(j) =~= trail.skip(j) + fresh) by {
            assert forall|i: int| 0 <= i < n - j implies longer.skip(j)[i] == trail.skip(j)[i] by {
                assert(longer.take(n)[j + i] == trail[j + i]);
            }
        }
        assert(longer.take(j) =~= trail.take(j)) by {
            assert forall|i: int| 0 <= i < j implies longer.take(j)[i] == trail.take(j)[i] by {
                assert(longer.take(n)[i] == trail[i]);
            }
        }
        lemma_rewind_concat(c, trail.skip(j), fresh);
    }
}

/// Whether the cells whose own descriptor holds the state of the cell
/// `cell`, that is the cell itself, its predecessor and its neighbours in
/// the grid, are admissible in the cells `c` as far as their view is still
/// what it was in the cells `a`.
pub open spec fn checked(
    b: Seq<u8>,
    s: Seq<u8>,
    a: Seq<LifeCell>,
    c: Seq<LifeCell>,
    cell: int,
) -> bool {
    &&& same_view(a, c, cell) ==> admissible(b, s, c, cell)
    &&& a[cell].pred is Some && same_view(a, c, a[cell].pred->0 as int) ==> admissible(
        b,
        s,
        c,
        a[cell].pred->0 as int,
    )
    &&& forall|k: int|
        0 <= k < 8 && (#[trigger] a[cell].nbhd@[k]) != sentinel(a) && same_view(
            a,
            c,
            a[cell].nbhd@[k] as int,
        ) ==> admissible(b, s, c, a[cell].nbhd@[k] as int)
}

/// The cursor can pass a cell of the trail once its twins have its state
/// and the cells around it have been checked.
pub proof fn lemma_drawn_step(
    b: Seq<u8>,
    s: Seq<u8>,
    a: Seq<LifeCell>,
    trail: Seq<usize>,
    c: Seq<LifeCell>,
    longer: Seq<usize>,
    k: int,
)
    requires
        graph_wf(a),
        graph_wf(c),
        same_links(a, c),
        0 <= k < trail.len() <= longer.len(),
        longer.take(trail.len() as int) == trail,
        forall|i: int|
            0 <= i < trail.len() ==> (#[trigger] trail[i]) < sentinel(a)
                && a[trail[i] as int].state is Some,
        forall|y: int|
            0 <= y < a.len() && !on_trail(longer.skip(trail.len() as int), y) ==> (
            #[trigger] a[y]).state == c[y].state,
        forall|y: int|
            0 <= y < a.len() && on_trail(longer.skip(trail.len() as int), y) ==> (
            #[trigger] a[y]).state is None,
        drawn(b, s, a, trail, k),
        twins_have(c, trail[k] as int, c[trail[k] as int].state->0),
        checked(b, s, a, c, trail[k] as int),
    ensures
        drawn(b, s, c, longer, k + 1),
{
    let n = trail.len() as int;
    let fresh = longer.skip(n);
    let cell = trail[k] as int;
    lemma_drawn_grows(b, s, a, trail, c, longer, k);
    assert(longer.take(n)[k] == trail[k]);
    assert forall|y: int| on_trail(fresh, y) implies on_trail(longer.skip(k + 1), y) by {
        let i = choose|i: int| 0 <= i < fresh.len() && #[trigger] fresh[i] == y;
        assert(longer.skip(k + 1)[n - k - 1 + i] == y);
    }
    assert forall|y: int| on_trail(longer.take(k + 1), y) implies on_trail(longer.take(k), y)
        || y == cell by {
        let i = choose|i: int|
            0 <= i < longer.take(k + 1).len() && #[trigger] longer.take(k + 1)[i] == y;
        if i < k {
            assert(longer.take(k)[i] == y);
        }
    }
    assert forall|y: int| on_trail(longer.skip(k), y) implies on_trail(longer.skip(k + 1), y)
        || y == cell by {
        let i = choose|i: int| 0 <= i < longer.skip(k).len() && #[trigger] longer.skip(k)[i] == y;
        if i > 0 {
            assert(longer.skip(k + 1)[i - 1] == y);
        }
    }
    assert forall|x: int|
        0 <= x < sentinel(c) && near(c, x, longer.take(k + 1)) && !near(
            c,
            x,
            longer.skip(k + 1),
        ) implies #[trigger] admissible(b, s, c, x) by {
        lemma_near_links(a, c, x, fresh);
        if near(a, x, fresh) {
            lemma_near_more(a, x, fresh, longer.skip(k + 1));
            lemma_near_links(a, c, x, longer.skip(k + 1));
        }
        lemma_far_same_view(a, c, fresh, x);
        assert(links_in_range(a, x));
        assert(a[x].nbhd == c[x].nbhd);
        let by_succ = a[x].succ == cell;
        let by_nbhd = exists|j: int| 0 <= j < 8 && (#[trigger] a[x].nbhd@[j]) == cell;
        if x == cell {
        } else if by_succ {
            assert(pred_succ_mutual(a, x));
        } else if by_nbhd {
            let j = choose|j: int| 0 <= j < 8 && (#[trigger] a[x].nbhd@[j]) == cell;
            assert(nbhd_mutual(a, x, j));
            assert(a[cell].nbhd@[7 - j] == x);
        } else {
            assert(near(c, x, longer.take(k))) by {
                if on_trail(longer.take(k + 1), x) {
                } else if on_trail(longer.take(k + 1), c[x].succ as int) {
                } else {
                    let j = choose|j: int|
                        0 <= j < 8 && on_trail(
                            longer.take(k + 1),
                            (#[trigger] c[x].nbhd@[j]) as int,
                        );
                    assert(a[x].nbhd@[j] != cell);
                    assert(on_trail(longer.take(k), c[x].nbhd@[j] as int));
                }
            }
            assert(!near(c, x, longer.skip(k))) by {
                if near(c, x, longer.skip(k)) {
                    if on_trail(longer.skip(k), x) {
                    } else if on_trail(longer.skip(k), c[x].succ as int) {
                    } else {
                        let j = choose|j: int|
                            0 <= j < 8 && on_trail(
                                longer.skip(k),
                                (#[trigger] c[x].nbhd@[j]) as int,
                            );
                        assert(a[x].nbhd@[j] != cell);
                        assert(on_trail(longer.skip(k + 1), c[x].nbhd@[j] as int));
                    }
                }
            }
        }
    }
    assert forall|i: int| 0 <= i < k + 1 implies twins_have(
        c,
        (#[trigger] longer[i]) as int,
        c[longer[i] as int].state->0,
    ) by {
        if i == k {
        }
    }
}

/// A search that has drawn all consequences can rely on its past after a
/// guess.
pub proof fn lemma_sound_guess(
    b: Seq<u8>,
    s: Seq<u8>,
    a: Seq<LifeCell>,
    trail: Seq<usize>,
    cell: usize,
    state: State,
)
    requires
        graph_wf(a),
        trail_ok(a, trail),
        cell < sentinel(a),
        a[cell as int].state is None,
        sound(b, s, a, trail, trail.len() as int),
    ensures
        sound(
            b,
            s,
            with_state(a, cell as int, Some(state), true),
            trail.push(cell),
            trail.len() as int,
        ),
{
    let n = trail.len() as int;
    let c = with_state(a, cell as int, Some(state), true);
    let longer = trail.push(cell);
    let fresh = longer.skip(n);
    lemma_with_state_wf(a, cell as int, Some(state), true);
    lemma_unset_restores(a, cell as int, Some(state), true);
    assert(longer.take(n) =~= trail);
    assert(fresh =~= Seq::<usize>::empty().push(cell));
    assert(fresh[0] == cell);
    assert forall|y: int| 0 <= y < a.len() implies (!on_trail(fresh, y) ==> (#[trigger] a[y]).state
        == c[y].state) && (on_trail(fresh, y) ==> a[y].state is None) by {
        if on_trail(fresh, y) {
            let i = choose|i: int| 0 <= i < fresh.len() && #[trigger] fresh[i] == y;
        }
    }
    lemma_drawn_grows(b, s, a, trail, c, longer, n);
    assert forall|j: int|
        0 <= j < longer.len() && c[(#[trigger] longer[j]) as int].free implies drawn(
        b,
        s,
        rewind(c, longer.skip(j)),
        longer.take(j),
        j,
    ) by {
        assert(longer.skip(j) =~= trail.skip(j).push(cell));
        lemma_rewind_push(c, trail.skip(j), cell);
        assert(longer.take(j) =~= trail.take(j));
        if j < n {
            assert(a[trail[j] as int].state is Some);
            assert(a[trail[j] as int].free);
        } else {
            assert(trail.skip(n) =~= Seq::<usize>::empty());
            assert(trail.take(n) =~= trail);
        }
    }
}

/// A search can rely on its past after it has backed up to its last guess
/// and flipped it.
///
/// The trail is cut behind the guess at place `j`, the cells behind it are
/// unknown again, the guessed cell has the state `state` and is not free,
/// and the cursor stands on it.
pub proof fn lemma_sound_backup(
    b: Seq<u8>,
    s: Seq<u8>,
    a: Seq<LifeCell>,
    trail: Seq<usize>,
    k: int,
    j: int,
    state: State,
)
    requires
        graph_wf(a),
        trail_ok(a, trail),
        0 <= j < trail.len(),
        a[trail[j] as int].free,
        sound(b, s, a, trail, k),
    ensures
        sound(
            b,
            s,
            with_state(rewind(a, trail.skip(j + 1)), trail[j] as int, Some(state), false),
            trail.take(j + 1),
            j,
        ),
{
    let cell = trail[j] as int;
    let later = trail.skip(j + 1);
    let v = rewind(a, later);
    let c = with_state(v, cell, Some(state), false);
    let cut = trail.take(j + 1);
    let single = Seq::<usize>::empty().push(trail[j]);
    assert forall|i: int| 0 <= i < later.len() implies (#[trigger] later[i]) < sentinel(a) by {
        assert(later[i] == trail[j + 1 + i]);
    }
    lemma_rewind_props(a, later);
    lemma_with_state_wf(v, cell, Some(state), false);
    lemma_with_state_wf(v, cell, None, false);
    let v0 = with_state(v, cell, None, false);
    assert(trail.skip(j) =~= single + later);
    lemma_rewind_concat(a, single, later);
    lemma_rewind_push(v, Seq::<usize>::empty(), trail[j]);
    assert(rewind(a, trail.skip(j)) == v0);
    assert(drawn(b, s, v0, trail.take(j), j));
    lemma_override(v, cell, Some(state), false, None, false);
    assert(with_state(c, cell, None, false) == v0);
    assert(cut.take(j) =~= trail.take(j));
    assert(cut.skip(j) =~= single);
    assert(trail.take(j).take(j) =~= trail.take(j));
    assert(trail.take(j).skip(j) =~= Seq::<usize>::empty());
    assert(single[0] == trail[j]);
    assert forall|y: int| 0 <= y < v0.len() implies (!on_trail(single, y) ==> (
    #[trigger] v0[y]).state == c[y].state) && (on_trail(single, y) ==> v0[y].state is None) by {
        if on_trail(single, y) {
            let i = choose|i: int| 0 <= i < single.len() && #[trigger] single[i] == y;
        }
    }
    assert(same_links(v0, c));
    assert forall|i: int| 0 <= i < j implies (#[trigger] trail.take(j)[i]) < v0.len()
        && v0[trail.take(j)[i] as int].state is Some by {
        let y = trail[i] as int;
        assert(a[y].state is Some);
        if on_trail(later, y) {
            let m = choose|m: int| 0 <= m < later.len() && #[trigger] later[m] == y;
            assert(later[m] == trail[j + 1 + m]);
        }
        assert(y != cell);
    }
    assert forall|x: int|
        0 <= x < sentinel(c) && near(c, x, cut.take(j)) && !near(
            c,
            x,
            cut.skip(j),
        ) implies #[trigger] admissible(b, s, c, x) by {
        lemma_near_links(v0, c, x, trail.take(j));
        lemma_near_links(v0, c, x, single);
        assert(!near(v0, x, Seq::<usize>::empty())) by {
            if near(v0, x, Seq::<usize>::empty()) {
                if on_trail(Seq::<usize>::empty(), x) {
                } else if on_trail(Seq::<usize>::empty(), v0[x].succ as int) {
                } else {
                    let m = choose|m: int|
                        0 <= m < 8 && on_trail(
                            Seq::<usize>::empty(),
                            (#[trigger] v0[x].nbhd@[m]) as int,
                        );
                }
            }
        }
        assert(admissible(b, s, v0, x));
        lemma_far_same_view(v0, c, single, x);
        lemma_same_view_flags(b, s, v0, c, x);
    }
    assert forall|i: int| 0 <= i < j implies twins_have(
        c,
        (#[trigger] cut[i]) as int,
        c[cut[i] as int].state->0,
    ) by {
        assert(trail.take(j)[i] == cut[i]);
        let t = cut[i] as int;
        assert(twins_have(v0, t, v0[t].state->0));
        lemma_twins_keep(v0, c, single, t);
    }
    assert forall|m: int|
        0 <= m < cut.len() && c[(#[trigger] cut[m]) as int].free implies drawn(
        b,
        s,
        rewind(c, cut.skip(m)),
        cut.take(m),
        m,
    ) by {
        assert(m < j);
        let y = trail[m] as int;
        assert(y != cell);
        if on_trail(later, y) {
            let q = choose|q: int| 0 <= q < later.len() && #[trigger] later[q] == y;
            assert(later[q] == trail[j + 1 + q]);
        }
        assert(a[y].free);
        let between = trail.subrange(m, j);
        assert(cut.skip(m) =~= between + single);
        assert(trail.skip(m) =~= between + trail.skip(j));
        lemma_rewind_concat(c, between, single);
        lemma_rewind_push(c, Seq::<usize>::empty(), trail[j]);
        lemma_rewind_concat(a, between, trail.skip(j));
        assert(cut.take(m) =~= trail.take(m));
    }
}

/// With an empty trail there is no past to rely on.
pub proof fn lemma_sound_empty(b: Seq<u8>, s: Seq<u8>, cells: Seq<LifeCell>)
    ensures
        sound(b, s, cells, Seq::<usize>::empty(), 0),
{
    let none = Seq::<usize>::empty();
    assert(none.take(0) =~= none);
    assert forall|x: int| 0 <= x < sentinel(cells) implies !near(cells, x, none.take(0)) by {
        if near(cells, x, none) {
            if on_trail(none, x) {
            } else if on_trail(none, cells[x].succ as int) {
            } else {
                let m = choose|m: int|
                    0 <= m < 8 && on_trail(none, (#[trigger] cells[x].nbhd@[m]) as int);
            }
        }
    }
}

/// Whether the cells `c` have grown out of the cells `a`: the links are the
/// same and every state that was known still stands.
pub open spec fn later_than(c: Seq<LifeCell>, a: Seq<LifeCell>) -> bool {
    &&& same_links(a, c)
    &&& forall|y: int| 0 <= y < a.len() && (#[trigger] a[y]).state is Some ==> c[y].state
        == a[y].state
}

/// A view that is the same at the start and at the end was the same all the
/// time between.
pub proof fn lemma_view_between(
    start: Seq<LifeCell>,
    mid: Seq<LifeCell>,
    now: Seq<LifeCell>,
    x: int,
)
    requires
        links_ok(start),
        later_than(mid, start),
        later_than(now, mid),
        0 <= x < start.len(),
        same_view(start, now, x),
    ensures
        same_view(start, mid, x),
        same_view(mid, now, x),
{
    assert(links_in_range(start, x));
    assert(start[x].nbhd == mid[x].nbhd);
    assert forall|k: int| 0 <= k < 8 implies start[(#[trigger] start[x].nbhd@[k]) as int].state
        == mid[start[x].nbhd@[k] as int].state && mid[(mid[x].nbhd@[k]) as int].state
        == now[mid[x].nbhd@[k] as int].state by {
        let y = start[x].nbhd@[k] as int;
        assert(start[y].state == now[y].state);
        if start[y].state is None && mid[y].state is Some {
            assert(now[y].state == mid[y].state);
        }
    }
    let y = start[x].succ as int;
    if start[y].state is None && mid[y].state is Some {
        assert(now[y].state == mid[y].state);
    }
    if start[x].state is None && mid[x].state is Some {
        assert(now[x].state == mid[x].state);
    }
}

/// A check of cell `x` that was good at some time stays good for as long as
/// the view of the cell is what it was at the start.
pub proof fn lemma_check_stands(
    b: Seq<u8>,
    s: Seq<u8>,
    start: Seq<LifeCell>,
    mid: Seq<LifeCell>,
    now: Seq<LifeCell>,
    x: int,
)
    requires
        graph_wf(start),
        graph_wf(mid),
        graph_wf(now),
        later_than(mid, start),
        later_than(now, mid),
        0 <= x < start.len(),
        same_view(start, mid, x) ==> admissible(b, s, mid, x),
    ensures
        same_view(start, now, x) ==> admissible(b, s, now, x),
{
    if same_view(start, now, x) {
        assert(links_in_range(start, x));
        assert(start[x].nbhd == mid[x].nbhd);
        assert forall|k: int| 0 <= k < 8 implies start[(#[trigger] start[x].nbhd@[k]) as int].state
            == mid[start[x].nbhd@[k] as int].state && mid[(mid[x].nbhd@[k]) as int].state
            == now[mid[x].nbhd@[k] as int].state by {
            let y = start[x].nbhd@[k] as int;
            assert(start[y].state == now[y].state);
            if start[y].state is None && mid[y].state is Some {
                assert(now[y].state == mid[y].state);
            }
        }
        let y = start[x].succ as int;
        if start[y].state is None && mid[y].state is Some {
            assert(now[y].state == mid[y].state);
        }
        if start[x].state is None && mid[x].state is Some {
            assert(now[x].state == mid[x].state);
        }
        assert(same_view(start, mid, x));
        assert(same_view(mid, now, x));
        lemma_same_view_flags(b, s, mid, now, x);
    }
}

/// The rule implies a state only for a cell that is unknown: the successor
/// where the flags speak of it, and otherwise the cell itself and each
/// neighbour that they speak of.
pub proof fn lemma_flagged_unknown(b: Seq<u8>, s: Seq<u8>, cells: Seq<LifeCell>, x: int, i: int)
    requires
        graph_wf(cells),
        0 <= x < cells.len(),
        0 <= i < 8,
    ensures
        ({
            let flags = flags_of(b, s, cells, x);
            &&& flags & CONFLICT == 0 && flags & SUCC != 0 ==> cells[cells[x].succ as int].state
                is None
            &&& flags & CONFLICT == 0 && flags & SUCC == 0 && flags & SELF != 0 ==> cells[x].state
                is None
            &&& flags & CONFLICT == 0 && flags & SUCC == 0 && flags & (nbhd_alive_flag(i as u32)
                | nbhd_dead_flag(i as u32)) != 0 ==> cells[cells[x].nbhd@[i] as int].state is None
        }),
{
    let states = states_of(cells);
    let around = nbhd_states(cells, states, x);
    let succ = cells[x].succ as int;
    let d = cells[x].desc.bits();
    assert(desc_ok_at(cells, states, x));
    assert(links_in_range(cells, x));
    lemma_desc_range(states[x], states[succ], around);
    lemma_desc_fields(states[x], states[succ], around, i as u32);
    lemma_field_ranges(d);
    assert(desc_valid(d));
    lemma_flags_only_unknown(b, s, d, i as u32);
    lemma_or_mask(alive_of(d), dead_of(d), 1u32 << (i as u32));
    let flags = flags_of(b, s, cells, x);
    let beside = cells[cells[x].nbhd@[i] as int].state;
    assert(around[i] == beside);
    assert(beside is None || beside == Some(State::Alive) || beside == Some(State::Dead));
}

} // verus!
