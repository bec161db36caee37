//! The search engine: guess, propagate, rewind.

use crate::cells::{ConflReason, LifeCell, SetReason, State};
use crate::deduce::{
    alive_of, flag_state, lemma_known_entry, lives_on, nbhd_alive_flag, nbhd_dead_flag, table_entry,
    CONFLICT, NBHD, SELF_DEAD, SELF, SUCC, SUCC_DEAD,
};
use crate::desc::{lemma_desc_fields, lemma_desc_range};
use crate::propagation::{
    flags_of, lemma_flagged_unknown,
    admissible, checked, later_than, lemma_check_stands, lemma_drawn_step, lemma_sound_backup,
    lemma_sound_empty, lemma_sound_grows, lemma_sound_guess, same_view, sound, near, twins_have,
};
use crate::solution::{
    agrees, covers, dead_end, forced_growth, is_solution, justified, lemma_covers_backup,
    lemma_covers_empty, lemma_covers_grows, lemma_covers_guess, lemma_dead_end_back,
    lemma_exhausted, lemma_flags_justified, lemma_forced_trans, sol_differs,
};
use crate::trail::{
    lemma_override, lemma_pow3_positive, lemma_rewind_concat, lemma_rewind_props, lemma_rewind_push,
    lemma_trail_fits, lemma_unset_restores, lemma_weight_bound, lemma_weight_frame,
    lemma_weight_prefix, on_trail, pow3, rewind, trail_ok, weight, digit,
};
use crate::grid::dims_ok;
use crate::world::{
    built, lemma_built_dead, Layout,
    lemma_place_index, desc_ok_at, links_in_range, sentinel, states_of, with_state, World,
};
use stopwatch::Stopwatch;
use vstd::prelude::*;

verus! {

/// `stopwatch::Stopwatch`: a stopwatch on the clock of the machine. The
/// library carries the value and never looks inside.
#[verifier::external_type_specification]
#[verifier::external_body]
pub struct ExStopwatch(Stopwatch);

/// `Stopwatch::new` makes a stopwatch that is not running. Nothing is
/// claimed of it.
pub assume_specification[ Stopwatch::new ]() -> (watch: Stopwatch);

/// `Stopwatch::restart` sets the elapsed time to zero and starts the
/// stopwatch. Nothing is claimed of it.
pub assume_specification[ Stopwatch::restart ](watch: &mut Stopwatch);

/// `Stopwatch::elapsed_ms` reads the clock. Nothing is claimed of the
/// result.
pub assume_specification[ Stopwatch::elapsed_ms ](watch: &Stopwatch) -> (ms: i64);

/// The conflict that arises when a cell cannot be given a state for the
/// given reason.
pub open spec fn conflict_of(reason: SetReason, cell: usize) -> ConflReason {
    match reason {
        SetReason::Rule(by) => ConflReason::Rule(by),
        SetReason::Sym(from) => ConflReason::Sym(cell, from),
        SetReason::Guess => ConflReason::Guess,
    }
}

/// Whether the cells have every state that the flags of cell `cell` imply:
/// the successor where the flags speak of it, and otherwise the cell itself
/// and each neighbour that they speak of.
pub open spec fn implied_hold(cells: Seq<LifeCell>, cell: int, flags: u32) -> bool {
    if flags & SUCC != 0 {
        cells[cells[cell].succ as int].state == Some(flag_state(flags, SUCC_DEAD))
    } else {
        &&& flags & SELF != 0 ==> cells[cell].state == Some(
            flag_state(flags, SELF_DEAD),
        )
        &&& forall|i: int|
            0 <= i < 8 && flags & (nbhd_alive_flag(i as u32) | nbhd_dead_flag(i as u32)) != 0
                ==> cells[(#[trigger] cells[cell].nbhd@[i]) as int].state == Some(
                flag_state(flags, nbhd_dead_flag(i as u32)),
            )
    }
}

/// Flags that speak of no neighbour speak of none in particular.
proof fn lemma_no_nbhd_flag(flags: u32, i: u32)
    by (bit_vector)
    requires
        flags & (0xffffu32 << 6) == 0,
        i < 8,
    ensures
        flags & ((1u32 << (2 * i + 6)) | (1u32 << (2 * i + 7))) == 0,
{
}

/// The place on the trail of its last free cell, or -1 where no cell on it is
/// free.
pub open spec fn last_free(cells: Seq<LifeCell>, trail: Seq<usize>) -> int
    decreases trail.len(),
{
    if trail.len() == 0 {
        -1
    } else if cells[trail.last() as int].free {
        trail.len() - 1
    } else {
        last_free(cells, trail.drop_last())
    }
}

/// The place of the last free cell depends on the free flags of the cells on
/// the trail only.
proof fn lemma_last_free_frame(a: Seq<LifeCell>, b: Seq<LifeCell>, trail: Seq<usize>)
    requires
        forall|i: int|
            0 <= i < trail.len() ==> a[(#[trigger] trail[i]) as int].free
                == b[trail[i] as int].free,
    ensures
        last_free(a, trail) == last_free(b, trail),
    decreases trail.len(),
{
    if trail.len() > 0 {
        let rest = trail.drop_last();
        assert(trail[trail.len() - 1] == trail.last());
        assert forall|i: int| 0 <= i < rest.len() implies a[(#[trigger] rest[i]) as int].free
            == b[rest[i] as int].free by {
            assert(rest[i] == trail[i]);
        }
        lemma_last_free_frame(a, b, rest);
    }
}

/// The search: a world, the trail of the cells that were given a state, and
/// the place on the trail up to which the consequences have been drawn.
pub struct Search {
    world: World,
    /// The cells that were given a state in the course of the search.
    set_table: Vec<usize>,
    /// The place on the trail of the next cell to draw consequences from.
    next_set: usize,
    /// Whether the time is taken.
    time: bool,
    /// Takes the time of the search.
    stopwatch: Stopwatch,
}

impl Search {
    /// The world.
    pub closed spec fn world_of(&self) -> World {
        self.world
    }

    /// The trail.
    pub closed spec fn trail(&self) -> Seq<usize> {
        self.set_table@
    }

    /// The place on the trail of the next cell to draw consequences from.
    pub closed spec fn cursor(&self) -> int {
        self.next_set as int
    }

    /// Whether the time is taken.
    pub closed spec fn timed(&self) -> bool {
        self.time
    }

    /// The cells of the world.
    pub open spec fn cells(&self) -> Seq<LifeCell> {
        self.world_of()@
    }

    /// The number of cells of the grid.
    pub open spec fn grid_cells(&self) -> int {
        sentinel(self.cells())
    }

    /// The search is sound: the world is, the trail goes with its cells, and
    /// the cursor stands on the trail or at its end.
    pub open spec fn wf(&self) -> bool {
        &&& self.world_of().wf()
        &&& trail_ok(self.cells(), self.trail())
        &&& 0 <= self.cursor() <= self.trail().len()
    }

    /// The cells with the whole trail taken back: the state from which the
    /// search set out.
    pub open spec fn base(&self) -> Seq<LifeCell> {
        rewind(self.cells(), self.trail())
    }

    /// How far the search has come.
    pub open spec fn progress(&self) -> nat {
        weight(self.cells(), self.trail(), self.grid_cells())
    }

    /// Whether this search has grown out of the search `from` by giving
    /// states to unknown cells, none of them as a guess: the trail of `from`
    /// is the beginning of this trail, and taking back the rest of this
    /// trail gives the cells of `from` exactly.
    pub open spec fn grows(&self, from: &Search) -> bool {
        let n = from.trail().len() as int;
        &&& self.world_of().same_frame(&from.world_of())
        &&& self.timed() == from.timed()
        &&& n <= self.trail().len()
        &&& self.trail().take(n) == from.trail()
        &&& rewind(self.cells(), self.trail().skip(n)) == from.cells()
        &&& forall|i: int|
            n <= i < self.trail().len() ==> !self.cells()[(#[trigger] self.trail()[i]) as int].free
    }

    /// A search has grown out of itself.
    pub proof fn lemma_grows_refl(&self)
        ensures
            self.grows(self),
    {
        assert(self.trail().take(self.trail().len() as int) =~= self.trail());
        assert(self.trail().skip(self.trail().len() as int) =~= Seq::<usize>::empty());
    }

    /// What growing keeps: the cells that were known keep their state, the
    /// cells outside the new part of the trail keep state and free flag, the
    /// cells on it were unknown, and no link changes.
    pub proof fn lemma_grows_keeps(&self, from: &Search)
        requires
            from.wf(),
            self.wf(),
            self.grows(from),
        ensures
            self.cells().len() == from.cells().len(),
            forall|c: int|
                0 <= c < self.cells().len() ==> {
                    let now = #[trigger] self.cells()[c];
                    let was = from.cells()[c];
                    &&& now.nbhd == was.nbhd
                    &&& now.pred == was.pred
                    &&& now.succ == was.succ
                    &&& now.sym == was.sym
                    &&& was.state is Some ==> now.state == was.state && now.free == was.free
                    &&& was.state is None && now.state is None ==> now.free == was.free
                    &&& was.state is None && now.state is Some ==> !now.free && on_trail(
                        self.trail().skip(from.trail().len() as int),
                        c,
                    )
                },
    {
        let n = from.trail().len() as int;
        let part = self.trail().skip(n);
        assert forall|i: int| 0 <= i < part.len() implies (#[trigger] part[i]) < sentinel(
            self.cells(),
        ) by {
            assert(part[i] == self.trail()[n + i]);
        }
        lemma_rewind_props(self.cells(), part);
        assert forall|c: int| 0 <= c < self.cells().len() implies {
            let now = #[trigger] self.cells()[c];
            let was = from.cells()[c];
            &&& now.nbhd == was.nbhd
            &&& now.pred == was.pred
            &&& now.succ == was.succ
            &&& now.sym == was.sym
            &&& was.state is Some ==> now.state == was.state && now.free == was.free
            &&& was.state is None && now.state is None ==> now.free == was.free
            &&& was.state is None && now.state is Some ==> !now.free && on_trail(part, c)
        } by {
            let r = rewind(self.cells(), part)[c];
            if on_trail(part, c) {
                let i = choose|i: int| 0 <= i < part.len() && #[trigger] part[i] == c;
                assert(part[i] == self.trail()[n + i]);
            }
        }
    }

    /// Growing is transitive.
    pub proof fn lemma_grows_trans(&self, mid: &Search, from: &Search)
        requires
            from.wf(),
            mid.wf(),
            self.wf(),
            mid.grows(from),
            self.grows(mid),
        ensures
            self.grows(from),
    {
        let n = from.trail().len() as int;
        let m = mid.trail().len() as int;
        let first = mid.trail().skip(n);
        let second = self.trail().skip(m);
        assert(self.trail().skip(n) =~= first + second) by {
            assert forall|i: int| 0 <= i < m - n implies self.trail().skip(n)[i] == first[i] by {
                assert(self.trail().take(m)[n + i] == mid.trail()[n + i]);
            }
        }
        assert(self.trail().take(n) =~= from.trail()) by {
            assert forall|i: int| 0 <= i < n implies self.trail().take(n)[i]
                == from.trail()[i] by {
                assert(self.trail().take(m)[i] == mid.trail()[i]);
                assert(mid.trail().take(n)[i] == from.trail()[i]);
            }
        }
        lemma_rewind_concat(self.cells(), first, second);
        self.lemma_grows_keeps(mid);
        assert forall|i: int| n <= i < self.trail().len() implies !self.cells()[(
        #[trigger] self.trail()[i]) as int].free by {
            if i < m {
                assert(self.trail().take(m)[i] == mid.trail()[i]);
                assert(!mid.cells()[mid.trail()[i] as int].free);
            }
        }
    }

    /// A search that has grown has come at least as far, and farther when
    /// its trail is longer. It set out from the same state.
    pub proof fn lemma_grows_progress(&self, from: &Search)
        requires
            from.wf(),
            self.wf(),
            self.grows(from),
        ensures
            self.progress() >= from.progress(),
            self.trail().len() > from.trail().len() ==> self.progress() > from.progress(),
            self.base() == from.base(),
            self.grid_cells() == from.grid_cells(),
            self.trail().len() <= self.grid_cells(),
    {
        let n = from.trail().len() as int;
        let size = self.grid_cells();
        self.lemma_grows_keeps(from);
        self.lemma_fits();
        lemma_weight_prefix(self.cells(), self.trail(), n, size);
        assert forall|i: int| 0 <= i < from.trail().len() implies self.cells()[(
        #[trigger] from.trail()[i]) as int].free == from.cells()[from.trail()[i] as int].free by {
            assert(from.cells()[from.trail()[i] as int].state is Some);
        }
        lemma_weight_frame(self.cells(), from.cells(), from.trail(), size);
        assert(self.trail() =~= from.trail() + self.trail().skip(n)) by {
            assert forall|i: int| 0 <= i < n implies self.trail()[i] == from.trail()[i] by {
                assert(self.trail().take(n)[i] == from.trail()[i]);
            }
        }
        lemma_rewind_concat(self.cells(), from.trail(), self.trail().skip(n));
    }

    /// The trail has no more entries than the grid has cells, and the
    /// progress stays below its bound.
    pub proof fn lemma_fits(&self)
        requires
            self.wf(),
        ensures
            self.trail().len() <= self.grid_cells(),
            self.progress() < pow3(self.grid_cells() as nat),
    {
        lemma_trail_fits(self.trail(), self.grid_cells());
        lemma_weight_bound(self.cells(), self.trail(), self.grid_cells());
        lemma_pow3_positive((self.grid_cells() - self.trail().len()) as nat);
    }

    /// Whether the search can rely on its past: the consequences of the
    /// trail up to the cursor have been drawn, and before every guess that
    /// still stands the consequences of everything before it had been
    /// drawn.
    pub open spec fn sound(&self) -> bool {
        sound(
            self.world_of().rule_of().birth(),
            self.world_of().rule_of().survival(),
            self.cells(),
            self.trail(),
            self.cursor(),
        )
    }

    /// Whether the rule implies nothing at any cell of the grid.
    pub open spec fn all_quiet(&self) -> bool {
        forall|c: int| 0 <= c < self.grid_cells() ==> #[trigger] self.flags_at(c) == 0
    }

    /// Whether nothing is left to propagate: the rule implies nothing at
    /// any cell of the grid, and the symmetry twins of every cell on the
    /// trail have its state.
    pub open spec fn quiet(&self) -> bool {
        &&& self.all_quiet()
        &&& forall|i: int|
            0 <= i < self.trail().len() ==> twins_have(
                self.cells(),
                (#[trigger] self.trail()[i]) as int,
                self.cells()[self.trail()[i] as int].state->0,
            )
    }

    /// A search that has grown with its cursor in place can rely on its
    /// past if it could before.
    pub proof fn lemma_grows_sound(&self, from: &Search)
        requires
            from.wf(),
            self.wf(),
            self.grows(from),
            self.cursor() == from.cursor(),
            from.sound(),
        ensures
            self.sound(),
            later_than(self.cells(), from.cells()),
    {
        lemma_sound_grows(
            self.world_of().rule_of().birth(),
            self.world_of().rule_of().survival(),
            from.cells(),
            from.trail(),
            self.cells(),
            self.trail(),
            self.cursor(),
        );
        self.lemma_grows_keeps(from);
    }

    /// The cells of a search that has grown are later than before.
    pub proof fn lemma_grows_later(&self, from: &Search)
        requires
            from.wf(),
            self.wf(),
            self.grows(from),
        ensures
            later_than(self.cells(), from.cells()),
    {
        self.lemma_grows_keeps(from);
    }

    /// Whether an assignment is a solution in the world of this search.
    pub open spec fn solves(&self, sol: Seq<State>) -> bool {
        is_solution(
            self.world_of().rule_of().birth(),
            self.world_of().rule_of().survival(),
            self.cells(),
            self.world_of().places(),
            self.world_of().p(),
            sol,
        )
    }

    /// Whether the search has missed no solution: every cell of the trail
    /// that is no guess has, in every solution that agrees with the state
    /// from which the search set out and with the guesses before that cell,
    /// the state that the search gave it.
    pub open spec fn covers(&self) -> bool {
        covers(
            self.world_of().rule_of().birth(),
            self.world_of().rule_of().survival(),
            self.world_of().places(),
            self.world_of().p(),
            self.cells(),
            self.trail(),
        )
    }

    /// Whether no solution agrees with the cells.
    pub open spec fn dead_end(&self) -> bool {
        dead_end(
            self.world_of().rule_of().birth(),
            self.world_of().rule_of().survival(),
            self.world_of().places(),
            self.world_of().p(),
            self.cells(),
        )
    }

    /// Whether no solution agrees with the state from which the search set
    /// out.
    pub open spec fn hopeless(&self) -> bool {
        dead_end(
            self.world_of().rule_of().birth(),
            self.world_of().rule_of().survival(),
            self.world_of().places(),
            self.world_of().p(),
            self.base(),
        )
    }

    /// Whether every solution that agrees with the cells of the search
    /// `from` agrees with the cells of this search.
    pub open spec fn forced_from(&self, from: &Search) -> bool {
        forced_growth(
            from.world_of().rule_of().birth(),
            from.world_of().rule_of().survival(),
            from.world_of().places(),
            from.world_of().p(),
            from.cells(),
            self.cells(),
        )
    }

    /// Whether every solution that agrees with the cells gives the cell
    /// `cell` the state `state`.
    pub open spec fn justified(&self, cell: usize, state: State) -> bool {
        justified(
            self.world_of().rule_of().birth(),
            self.world_of().rule_of().survival(),
            self.world_of().places(),
            self.world_of().p(),
            self.cells(),
            cell as int,
            state,
        )
    }

    /// Growth that every solution agrees with is transitive, and a dead end
    /// after such growth was a dead end before it.
    pub proof fn lemma_forced_chain(&self, mid: &Search, from: &Search)
        requires
            from.wf(),
            mid.wf(),
            self.wf(),
            mid.grows(from),
            self.grows(mid),
            mid.forced_from(from),
        ensures
            self.forced_from(mid) ==> self.forced_from(from),
            mid.dead_end() ==> from.dead_end(),
    {
        mid.lemma_grows_keeps(from);
        let b = from.world_of().rule_of().birth();
        let s = from.world_of().rule_of().survival();
        let places = from.world_of().places();
        let p = from.world_of().p();
        if self.forced_from(mid) {
            lemma_forced_trans(b, s, places, p, from.cells(), mid.cells(), self.cells());
        }
        if mid.dead_end() {
            lemma_dead_end_back(b, s, places, p, from.cells(), mid.cells());
        }
    }

    /// A search that has grown by cells that every solution agrees with has
    /// missed no solution if it had missed none before.
    pub proof fn lemma_grows_covers(&self, from: &Search)
        requires
            from.wf(),
            self.wf(),
            self.grows(from),
            self.forced_from(from),
            from.covers(),
        ensures
            self.covers(),
    {
        lemma_covers_grows(
            from.world_of().rule_of().birth(),
            from.world_of().rule_of().survival(),
            from.world_of().places(),
            from.world_of().p(),
            from.cells(),
            from.trail(),
            self.cells(),
            self.trail(),
        );
    }

    /// A dead end stays a dead end, and what is justified stays justified,
    /// while the search grows.
    pub proof fn lemma_later_keeps(&self, from: &Search, cell: usize, state: State)
        requires
            from.wf(),
            self.wf(),
            self.grows(from),
        ensures
            from.dead_end() ==> self.dead_end(),
            from.justified(cell, state) ==> self.justified(cell, state),
    {
        self.lemma_grows_later(from);
        let b = from.world_of().rule_of().birth();
        let s = from.world_of().rule_of().survival();
        let places = from.world_of().places();
        let p = from.world_of().p();
        if from.dead_end() {
            crate::solution::lemma_dead_end_later(b, s, places, p, from.cells(), self.cells());
        }
        if from.justified(cell, state) {
            crate::solution::lemma_justified_later(
                b,
                s,
                places,
                p,
                from.cells(),
                self.cells(),
                cell as int,
                state,
            );
        }
    }

    /// What it means that a search is hopeless: no solution agrees with the
    /// state from which the search set out.
    pub proof fn lemma_hopeless(&self, sol: Seq<State>)
        requires
            self.wf(),
            self.hopeless(),
            self.solves(sol),
        ensures
            !agrees(self.base(), sol),
    {
        lemma_rewind_props(self.cells(), self.trail());
        let base = self.base();
        assert(crate::propagation::same_links(self.cells(), base)) by {
            assert forall|x: int| 0 <= x < base.len() implies {
                &&& (#[trigger] self.cells()[x]).nbhd == base[x].nbhd
                &&& self.cells()[x].pred == base[x].pred
                &&& self.cells()[x].succ == base[x].succ
                &&& self.cells()[x].sym == base[x].sym
            } by {
                let r = rewind(self.cells(), self.trail())[x];
            }
        }
        crate::solution::lemma_solution_links(
            self.world_of().rule_of().birth(),
            self.world_of().rule_of().survival(),
            self.world_of().places(),
            self.world_of().p(),
            self.cells(),
            base,
            sol,
        );
    }

    /// When no cell is unknown and the pattern is trivial, no solution
    /// agrees with the cells.
    pub proof fn lemma_trivial_dead_end(&self)
        requires
            self.wf(),
            self.complete(),
            !self.world_of().is_nontrivial(),
        ensures
            self.dead_end(),
    {
        let world = self.world_of();
        let places = world.places();
        let p = world.p();
        let cells = self.cells();
        assert forall|sol: Seq<State>| #[trigger] is_solution(
            world.rule_of().birth(),
            world.rule_of().survival(),
            cells,
            places,
            p,
            sol,
        ) implies !agrees(cells, sol) by {
            if agrees(cells, sol) {
                let q = choose|q: int| 0 <= q < places && #[trigger] sol[q * p] == State::Alive;
                lemma_place_index(places, p, q, 0);
                assert(cells[q * p].state == Some(sol[q * p]));
                assert(world.some_alive());
                assert forall|t: int| 1 <= t < p && p % t == 0 implies #[trigger] world.differs_at(
                    t,
                ) by {
                    assert(sol_differs(sol, places, p, t));
                    let r = choose|r: int|
                        0 <= r < places && #[trigger] sol[r * p] != sol[r * p + t];
                    lemma_place_index(places, p, r, 0);
                    lemma_place_index(places, p, r, t);
                    assert(cells[r * p].state == Some(sol[r * p]));
                    assert(cells[r * p + t].state == Some(sol[r * p + t]));
                }
            }
        }
    }

    /// Starts a search in a world in which no cell is free.
    pub fn new(world: World, time: bool) -> (search: Search)
        requires
            world.wf(),
            forall|c: int| 0 <= c < world@.len() ==> !(#[trigger] world@[c]).free,
        ensures
            search.wf(),
            search.world_of() == world,
            search.trail().len() == 0,
            search.cursor() == 0,
            search.timed() == time,
            search.sound(),
            search.covers(),
    {
        proof {
            lemma_sound_empty(world.rule_of().birth(), world.rule_of().survival(), world@);
            lemma_covers_empty(
                world.rule_of().birth(),
                world.rule_of().survival(),
                world.places(),
                world.p(),
                world@,
            );
        }
        let set_table = Vec::with_capacity(world.size());
        let stopwatch = Stopwatch::new();
        Search { world, set_table, next_set: 0, time, stopwatch }
    }

    /// The world.
    pub fn world(&self) -> (world: &World)
        ensures
            *world == self.world_of(),
    {
        &self.world
    }

    /// Whether every cell on the trail from place `n` on has the given
    /// state.
    pub open spec fn part_has(&self, n: int, state: State) -> bool {
        forall|i: int|
            n <= i < self.trail().len() ==> self.cells()[(#[trigger] self.trail()[i]) as int].state
                == Some(state)
    }

    /// Whether the symmetry twins of every cell on the trail from place `n`
    /// on have the given state.
    pub open spec fn sym_closed(&self, n: int, state: State) -> bool {
        forall|i: int|
            n <= i < self.trail().len() ==> twins_have(
                self.cells(),
                (#[trigger] self.trail()[i]) as int,
                state,
            )
    }

    /// Whether the conflict is one of symmetry: a cell with the given state
    /// has a twin with the other state.
    pub open spec fn sym_conflict(&self, conflict: ConflReason, state: State) -> bool {
        match conflict {
            ConflReason::Sym(twin, from) => {
                &&& from < self.cells().len()
                &&& twin < self.cells().len()
                &&& self.cells()[from as int].state == Some(state)
                &&& self.cells()[twin as int].state == Some(state.opposite())
                &&& exists|j: int|
                    0 <= j < self.cells()[from as int].sym@.len()
                        && #[trigger] self.cells()[from as int].sym@[j] == twin
            },
            _ => false,
        }
    }

    /// Whether no cell on the twin list of any cell has the given state.
    #[verifier::opaque]
    pub open spec fn no_twin_has(&self, state: State) -> bool {
        forall|a: int, j: int|
            0 <= a < self.cells().len() && 0 <= j < self.cells()[a].sym@.len()
                ==> self.cells()[(#[trigger] self.cells()[a].sym@[j]) as int].state != Some(state)
    }

    /// Whether the cells of the trail from place `a` up to place `b` have
    /// the state `state`, the first of them being the cell `head`.
    pub open spec fn block(&self, a: int, b: int, head: usize, state: State) -> bool {
        &&& 0 <= a <= b <= self.trail().len()
        &&& forall|k: int|
            a <= k < b ==> self.cells()[(#[trigger] self.trail()[k]) as int].state == Some(state)
        &&& a < b ==> self.trail()[a] == head
    }

    /// Whether the block of the cell itself is as the flags say: it begins
    /// with the cell and holds the implied state where the flags speak of
    /// the cell, and is empty where they do not.
    pub open spec fn own_block(&self, cell: usize, flags: u32, cuts: Seq<int>) -> bool {
        if flags & SELF != 0 {
            self.block(cuts[0], cuts[1], cell, flag_state(flags, SELF_DEAD)) && cuts[0] < cuts[1]
        } else {
            cuts[1] == cuts[0]
        }
    }

    /// Whether the block of neighbour `i` is as the flags say: it holds the
    /// implied state and begins with the neighbour, unless the neighbour
    /// had a state by then, where the flags speak of the neighbour, and is
    /// empty where they do not.
    pub open spec fn nbhd_block(&self, cell: usize, flags: u32, cuts: Seq<int>, i: int) -> bool {
        if flags & (nbhd_alive_flag(i as u32) | nbhd_dead_flag(i as u32)) != 0 {
            self.block(
                cuts[i + 1],
                cuts[i + 2],
                self.cells()[cell as int].nbhd@[i],
                flag_state(flags, nbhd_dead_flag(i as u32)),
            )
        } else {
            cuts[i + 2] == cuts[i + 1]
        }
    }

    /// Whether the trail from place `n` on is made of ten blocks in this
    /// order: that of the cell itself, then those of its neighbours in
    /// rising order. `cuts` holds the places where the blocks begin and
    /// end.
    pub open spec fn in_blocks(&self, n: int, cell: usize, flags: u32, cuts: Seq<int>) -> bool {
        &&& cuts.len() == 10
        &&& cuts[0] == n
        &&& cuts[9] == self.trail().len()
        &&& self.own_block(cell, flags, cuts)
        &&& forall|i: int| 0 <= i < 8 ==> #[trigger] self.nbhd_block(cell, flags, cuts, i)
    }

    /// Whether the first `done` neighbours have their blocks.
    pub open spec fn blocks_upto(
        &self,
        n: int,
        cell: usize,
        flags: u32,
        cuts: Seq<int>,
        done: int,
    ) -> bool {
        &&& 0 <= done <= 8
        &&& cuts.len() == done + 2
        &&& cuts[0] == n
        &&& cuts[done + 1] == self.trail().len()
        &&& self.own_block(cell, flags, cuts)
        &&& forall|i: int| 0 <= i < done ==> #[trigger] self.nbhd_block(cell, flags, cuts, i)
    }

    /// A block stays a block while the search grows.
    pub proof fn lemma_block_keeps(&self, from: &Search, a: int, b: int, head: usize, state: State)
        requires
            from.wf(),
            self.wf(),
            self.grows(from),
            from.block(a, b, head, state),
        ensures
            self.block(a, b, head, state),
    {
        self.lemma_grows_keeps(from);
        let m = from.trail().len() as int;
        assert forall|k: int| a <= k < b implies self.cells()[(
        #[trigger] self.trail()[k]) as int].state == Some(state) by {
            assert(self.trail().take(m)[k] == from.trail()[k]);
            assert(from.cells()[from.trail()[k] as int].state == Some(state));
        }
        if a < b {
            assert(self.trail().take(m)[a] == from.trail()[a]);
        }
    }

    /// The blocks that stand stay while the search grows, and the next
    /// neighbour adds its own.
    pub proof fn lemma_blocks_step(
        &self,
        from: &Search,
        n: int,
        cell: usize,
        flags: u32,
        cuts: Seq<int>,
        done: int,
    )
        requires
            from.wf(),
            self.wf(),
            self.grows(from),
            cell < from.cells().len(),
            done < 8,
            from.blocks_upto(n, cell, flags, cuts, done),
            if flags & (nbhd_alive_flag(done as u32) | nbhd_dead_flag(done as u32)) != 0 {
                self.block(
                    from.trail().len() as int,
                    self.trail().len() as int,
                    from.cells()[cell as int].nbhd@[done],
                    flag_state(flags, nbhd_dead_flag(done as u32)),
                )
            } else {
                self.trail().len() == from.trail().len()
            },
        ensures
            self.blocks_upto(n, cell, flags, cuts.push(self.trail().len() as int), done + 1),
    {
        self.lemma_grows_keeps(from);
        let longer = cuts.push(self.trail().len() as int);
        assert(self.cells()[cell as int].nbhd == from.cells()[cell as int].nbhd);
        if flags & SELF != 0 {
            self.lemma_block_keeps(from, cuts[0], cuts[1], cell, flag_state(flags, SELF_DEAD));
        }
        assert forall|i: int| 0 <= i < done + 1 implies #[trigger] self.nbhd_block(
            cell,
            flags,
            longer,
            i,
        ) by {
            if i < done {
                assert(from.nbhd_block(cell, flags, cuts, i));
                if flags & (nbhd_alive_flag(i as u32) | nbhd_dead_flag(i as u32)) != 0 {
                    self.lemma_block_keeps(
                        from,
                        cuts[i + 1],
                        cuts[i + 2],
                        from.cells()[cell as int].nbhd@[i],
                        flag_state(flags, nbhd_dead_flag(i as u32)),
                    );
                }
            }
        }
    }

    /// Blocks that are not begun are empty: the blocks that stand, with
    /// empty blocks for the neighbours that are left, are ten blocks.
    pub proof fn lemma_blocks_pad(&self, n: int, cell: usize, flags: u32, cuts: Seq<int>, done: int)
        requires
            self.blocks_upto(n, cell, flags, cuts, done),
        ensures
            exists|all: Seq<int>| #[trigger] self.in_blocks(n, cell, flags, all),
    {
        let len = self.trail().len() as int;
        let all = cuts + Seq::new((8 - done) as nat, |k: int| len);
        assert forall|i: int| 0 <= i < 8 implies #[trigger] self.nbhd_block(cell, flags, all, i) by {
            if i < done {
                assert(self.nbhd_block(cell, flags, cuts, i));
            }
        }
        assert(self.in_blocks(n, cell, flags, all));
    }

    /// Whether the rule has implied for neighbour `i` of cell `x`, by the
    /// flags `flags`, the state that the neighbour has not.
    pub open spec fn clash_at(&self, x: int, flags: u32, i: int) -> bool {
        &&& 0 <= i < 8
        &&& flags & (nbhd_alive_flag(i as u32) | nbhd_dead_flag(i as u32)) != 0
        &&& self.cells()[self.cells()[x].nbhd@[i] as int].state == Some(
            flag_state(flags, nbhd_dead_flag(i as u32)).opposite(),
        )
    }

    /// Whether the rule is in conflict at cell `x` since the trail had `m`
    /// entries: either the descriptor of the cell is a conflict now, or the
    /// flags that the cell had then imply for one of its neighbours the
    /// state that the neighbour has not.
    pub open spec fn rule_conflict_since(&self, x: int, m: int) -> bool {
        let then = rewind(self.cells(), self.trail().skip(m));
        let flags = flags_of(
            self.world_of().rule_of().birth(),
            self.world_of().rule_of().survival(),
            then,
            x,
        );
        &&& 0 <= m <= self.trail().len()
        &&& 0 <= x < self.cells().len()
        &&& if flags & CONFLICT != 0 {
            m == self.trail().len()
        } else {
            flags & SUCC == 0 && exists|i: int| #[trigger] self.clash_at(x, flags, i)
        }
    }

    /// Whether the cells show the conflict: a conflict of symmetry names a
    /// cell and a twin of it that holds the other state; a conflict of the
    /// rule names a cell at which the rule is in conflict.
    pub open spec fn conflict_found(&self, conflict: ConflReason) -> bool {
        ||| (conflict is Sym && (exists|state: State| #[trigger]
            self.sym_conflict(conflict, state)))
        ||| (conflict is Rule && (exists|m: int| #[trigger]
            self.rule_conflict_since(conflict->Rule_0 as int, m)))
    }

    /// A conflict of symmetry among cells that were given a state shows a
    /// twin that held the other state before.
    pub proof fn lemma_conflict_was_there(
        &self,
        from: &Search,
        conflict: ConflReason,
        state: State,
    )
        requires
            from.wf(),
            self.wf(),
            self.grows(from),
            self.part_has(from.trail().len() as int, state),
            self.sym_conflict(conflict, state),
        ensures
            !from.no_twin_has(state.opposite()),
    {
        reveal(Search::no_twin_has);
        self.lemma_grows_keeps(from);
        let n = from.trail().len() as int;
        match conflict {
            ConflReason::Sym(twin, c) => {
                let j = choose|j: int|
                    0 <= j < self.cells()[c as int].sym@.len()
                        && #[trigger] self.cells()[c as int].sym@[j] == twin;
                if from.cells()[twin as int].state is None {
                    let part = self.trail().skip(n);
                    assert(on_trail(part, twin as int));
                    let i = choose|i: int| 0 <= i < part.len() && #[trigger] part[i] == twin;
                    assert(self.trail()[n + i] == twin);
                }
                assert(from.cells()[c as int].sym@[j] == twin);
            },
            _ => {},
        }
    }

    /// A conflict of the rule at its own cell, found at the end of the trail
    /// as it is.
    pub proof fn lemma_conflict_now(&self, x: usize)
        requires
            x < self.cells().len(),
            self.flags_at(x as int) & CONFLICT != 0,
        ensures
            self.conflict_found(ConflReason::Rule(x)),
    {
        let m = self.trail().len() as int;
        assert(self.trail().skip(m) =~= Seq::<usize>::empty());
        let c = ConflReason::Rule(x);
        assert(self.rule_conflict_since(c->Rule_0 as int, m));
    }

    /// A clash with what the rule implied when the search `from` stood is a
    /// conflict of the rule.
    pub proof fn lemma_clash_found(&self, from: &Search, x: usize, i: int)
        requires
            from.wf(),
            self.wf(),
            self.grows(from),
            x < self.cells().len(),
            from.flags_at(x as int) & CONFLICT == 0,
            from.flags_at(x as int) & SUCC == 0,
            self.clash_at(x as int, from.flags_at(x as int), i),
        ensures
            self.conflict_found(ConflReason::Rule(x)),
    {
        let m = from.trail().len() as int;
        let c = ConflReason::Rule(x);
        assert(self.rule_conflict_since(c->Rule_0 as int, m));
    }

    /// Gives a cell a state, for a reason.
    ///
    /// A cell that has the state already is left alone. A cell that has the
    /// other state is a conflict. An unknown cell takes the state, is not
    /// free, and goes on the trail; then its symmetry twins are given the
    /// same state in the same way, until one of them is a conflict.
    pub fn set_cell(&mut self, cell: usize, state: State, reason: SetReason) -> (res: Result<
        (),
        ConflReason,
    >)
        requires
            old(self).wf(),
            cell < old(self).cells().len(),
        ensures
            final(self).wf(),
            final(self).grows(old(self)),
            final(self).cursor() == old(self).cursor(),
            old(self).cells()[cell as int].state == Some(state) ==> res is Ok && final(self).trail()
                == old(self).trail() && final(self).cells() == old(self).cells(),
            old(self).cells()[cell as int].state == Some(state.opposite()) ==> res == Err::<
                (),
                ConflReason,
            >(conflict_of(reason, cell)) && final(self).trail() == old(self).trail()
                && final(self).cells() == old(self).cells(),
            old(self).cells()[cell as int].state is None
                ==> final(self).trail().len() > old(self).trail().len()
                && final(self).trail()[old(self).trail().len() as int] == cell,
            final(self).part_has(old(self).trail().len() as int, state),
            res is Ok ==> final(self).cells()[cell as int].state == Some(state)
                && final(self).sym_closed(old(self).trail().len() as int, state),
            res is Err && old(self).cells()[cell as int].state is None
                ==> final(self).sym_conflict(res->Err_0, state),
            old(self).justified(cell, state) ==> final(self).forced_from(old(self)) && (res is Err
                ==> old(self).dead_end()),
            old(self).cells()[cell as int].state is None && old(self).no_twin_has(state.opposite())
                ==> res is Ok,
        decreases old(self).grid_cells() - old(self).trail().len(),
    {
        let ghost start = *self;
        let ghost n = self.trail().len() as int;
        proof {
            self.lemma_grows_refl();
            self.lemma_fits();
            if start.justified(cell, state) && start.cells()[cell as int].state == Some(
                state.opposite(),
            ) {
                crate::solution::lemma_justified_conflict(
                    self.world_of().rule_of().birth(),
                    self.world_of().rule_of().survival(),
                    self.world_of().places(),
                    self.world_of().p(),
                    start.cells(),
                    cell as int,
                    state,
                );
            }
        }
        match self.world.cell(cell).state {
            Some(known) => {
                match (known, state) {
                    (State::Dead, State::Dead) | (State::Alive, State::Alive) => Ok(()),
                    _ => Err(
                        match reason {
                            SetReason::Rule(by) => ConflReason::Rule(by),
                            SetReason::Sym(from) => ConflReason::Sym(cell, from),
                            SetReason::Guess => ConflReason::Guess,
                        },
                    ),
                }
            },
            None => {
                self.world.set_state(cell, Some(state), false);
                self.set_table.push(cell);
                proof {
                    lemma_unset_restores(start.cells(), cell as int, Some(state), false);
                    assert(self.trail().take(n) =~= start.trail());
                    assert(self.trail().skip(n) =~= Seq::<usize>::empty().push(cell));
                    lemma_rewind_push(self.cells(), Seq::<usize>::empty(), cell);
                    assert forall|c: int| 0 <= c < self.cells().len() && (
                    #[trigger] self.cells()[c]).free implies on_trail(self.trail(), c) by {
                        assert(start.cells()[c].free);
                        let i = choose|i: int|
                            0 <= i < start.trail().len() && #[trigger] start.trail()[i] == c;
                        assert(self.trail()[i] == c);
                    }
                    assert(self.wf());
                    assert(twins_have(self.cells(), cell as int, state) ==> self.sym_closed(
                        n,
                        state,
                    ));
                    if start.justified(cell, state) {
                        crate::solution::lemma_justified_set(
                            start.world_of().rule_of().birth(),
                            start.world_of().rule_of().survival(),
                            start.world_of().places(),
                            start.world_of().p(),
                            start.cells(),
                            cell as int,
                            state,
                            false,
                        );
                    }
                }
                let count = self.world.cell(cell).sym.len();
                let mut j: usize = 0;
                while j < count
                    invariant
                        j <= count,
                        *old(self) == start,
                        start.wf(),
                        cell < start.cells().len(),
                        start.cells()[cell as int].state is None,
                        n == start.trail().len(),
                        self.wf(),
                        self.grows(&start),
                        self.cursor() == start.cursor(),
                        self.trail().len() > n,
                        self.trail()[n] == cell,
                        self.part_has(n, state),
                        self.sym_closed(n + 1, state),
                        start.justified(cell, state) ==> self.forced_from(&start),
                        count == self.cells()[cell as int].sym@.len(),
                        forall|i: int|
                            0 <= i < j ==> self.cells()[(
                            #[trigger] self.cells()[cell as int].sym@[i]) as int].state == Some(
                                state,
                            ),
                    decreases count - j,
                {
                    let ghost mid = *self;
                    proof {
                        self.lemma_fits();
                        self.lemma_grows_keeps(&start);
                        assert(crate::world::links_in_range(self.cells(), cell as int));
                    }
                    let twin = self.world.cell(cell).sym[j];
                    proof {
                        assert(mid.cells()[mid.trail()[n] as int].state == Some(state));
                        crate::solution::lemma_twin_justified(
                            mid.world_of().rule_of().birth(),
                            mid.world_of().rule_of().survival(),
                            mid.world_of().places(),
                            mid.world_of().p(),
                            mid.cells(),
                            cell as int,
                            state,
                            j as int,
                        );
                    }
                    let res = self.set_cell(twin, state, SetReason::Sym(cell));
                    proof {
                        self.lemma_grows_keeps(&mid);
                        self.lemma_grows_trans(&mid, &start);
                        if start.justified(cell, state) {
                            self.lemma_forced_chain(&mid, &start);
                        }
                        assert(self.trail()[n] == cell) by {
                            assert(self.trail().take(mid.trail().len() as int)[n]
                                == mid.trail()[n]);
                        }
                        assert(self.cells()[cell as int].state == Some(state)) by {
                            assert(mid.cells()[mid.trail()[n] as int].state == Some(state));
                        }
                        assert forall|i: int| n <= i < self.trail().len() implies self.cells()[(
                        #[trigger] self.trail()[i]) as int].state == Some(state) by {
                            if i < mid.trail().len() {
                                assert(self.trail().take(mid.trail().len() as int)[i]
                                    == mid.trail()[i]);
                                assert(mid.cells()[mid.trail()[i] as int].state == Some(state));
                            }
                        }
                        assert forall|i: int|
                            res is Ok && n + 1 <= i < self.trail().len() implies twins_have(
                            self.cells(),
                            (#[trigger] self.trail()[i]) as int,
                            state,
                        ) by {
                            if i < mid.trail().len() {
                                assert(self.trail().take(mid.trail().len() as int)[i]
                                    == mid.trail()[i]);
                                let c = mid.trail()[i] as int;
                                assert(twins_have(mid.cells(), c, state));
                                assert(crate::world::links_in_range(mid.cells(), c));
                                assert forall|k: int|
                                    0 <= k < self.cells()[c].sym@.len() implies self.cells()[(
                                #[trigger] self.cells()[c].sym@[k]) as int].state == Some(
                                    state,
                                ) by {
                                    assert(mid.cells()[mid.cells()[c].sym@[k] as int].state
                                        == Some(state));
                                }
                            } else {
                                assert(self.sym_closed(mid.trail().len() as int, state));
                            }
                        }
                        assert forall|i: int| 0 <= i < j implies self.cells()[(
                        #[trigger] self.cells()[cell as int].sym@[i]) as int].state == Some(
                            state,
                        ) by {
                            assert(mid.cells()[mid.cells()[cell as int].sym@[i] as int].state
                                == Some(state));
                        }
                    }
                    match res {
                        Err(conflict) => {
                            proof {
                                if mid.cells()[twin as int].state is Some {
                                    assert(mid.cells()[twin as int].state == Some(
                                        state.opposite(),
                                    ));
                                    assert(conflict == ConflReason::Sym(twin, cell));
                                    assert(self.cells()[cell as int].sym@[j as int] == twin);
                                    assert(self.cells()[twin as int].state == Some(
                                        state.opposite(),
                                    ));
                                    assert(self.sym_conflict(conflict, state));
                                } else {
                                    assert(self.sym_conflict(conflict, state));
                                }
                                self.lemma_conflict_was_there(&start, conflict, state);
                            }
                            return Err(conflict);
                        },
                        Ok(()) => {},
                    }
                    j += 1;
                }
                proof {
                    assert(twins_have(self.cells(), cell as int, state));
                    assert forall|i: int| n <= i < self.trail().len() implies twins_have(
                        self.cells(),
                        (#[trigger] self.trail()[i]) as int,
                        state,
                    ) by {
                        if i > n {
                            assert(self.sym_closed(n + 1, state));
                        }
                    }
                }
                Ok(())
            },
        }
    }

    /// The implication flags that the rule gives the descriptor of a cell.
    pub open spec fn flags_at(&self, cell: int) -> u32 {
        table_entry(
            self.world_of().rule_of().birth(),
            self.world_of().rule_of().survival(),
            self.cells()[cell].desc.bits(),
        )
    }

    /// Consistifies a cell: looks up what the rule implies from the
    /// descriptor of the cell, and gives the implied states.
    ///
    /// A conflict in the table is a conflict of the rule at this cell. Flags
    /// for the successor give the successor its state, and the outcome is
    /// that of giving it. Otherwise flags for the cell itself and for its
    /// neighbours give each of them its state, the cell first and the
    /// neighbours in rising order, until a conflict arises; that conflict is
    /// handed on as it is.
    ///
    /// A flag stands only for a cell that is unknown. So the successor and
    /// the cell itself go on the trail first, and a conflict on them is one
    /// of symmetry. A neighbour may have been given a state as a twin in the
    /// course of the call; if it is the other state, the conflict is one of
    /// the rule at this cell.
    ///
    /// What the call adds to the trail comes in blocks: first the cell itself
    /// with its twins, then for each neighbour in rising order that
    /// neighbour with its twins. Every cell of a block has the state that
    /// the flags imply for the cell that the block belongs to.
    pub fn consistify(&mut self, cell: usize) -> (res: Result<(), ConflReason>)
        requires
            old(self).wf(),
            cell < old(self).cells().len(),
        ensures
            final(self).wf(),
            final(self).grows(old(self)),
            final(self).cursor() == old(self).cursor(),
            old(self).flags_at(cell as int) & CONFLICT != 0 ==> res == Err::<(), ConflReason>(
                ConflReason::Rule(cell),
            ) && final(self).trail() == old(self).trail() && final(self).cells()
                == old(self).cells(),
            old(self).flags_at(cell as int) == 0 ==> res is Ok && final(self).trail()
                == old(self).trail() && final(self).cells() == old(self).cells(),
            res is Ok ==> old(self).flags_at(cell as int) & CONFLICT == 0 && implied_hold(
                final(self).cells(),
                cell as int,
                old(self).flags_at(cell as int),
            ),
            res is Err ==> final(self).conflict_found(res->Err_0),
            old(self).flags_at(cell as int) & CONFLICT == 0 && res is Err ==> (exists|st: State|
                #[trigger] final(self).sym_conflict(res->Err_0, st)) || (res->Err_0
                == ConflReason::Rule(cell) && old(self).flags_at(cell as int) & SUCC == 0 && (
            exists|i: int| #[trigger] final(self).clash_at(
                cell as int,
                old(self).flags_at(cell as int),
                i,
            ))),
            old(self).flags_at(cell as int) & CONFLICT == 0 && old(self).flags_at(cell as int)
                & SUCC != 0 ==> ({
                let n = old(self).trail().len() as int;
                let succ = old(self).cells()[cell as int].succ;
                let st = flag_state(old(self).flags_at(cell as int), SUCC_DEAD);
                &&& old(self).cells()[succ as int].state is None
                &&& final(self).trail().len() > n
                &&& final(self).trail()[n] == succ
                &&& final(self).part_has(n, st)
                &&& res is Ok ==> final(self).sym_closed(n, st)
                &&& res is Err ==> final(self).sym_conflict(res->Err_0, st)
                &&& old(self).no_twin_has(st.opposite()) ==> res is Ok
            }),
            old(self).flags_at(cell as int) & CONFLICT == 0 && old(self).flags_at(cell as int)
                & SUCC == 0 ==> exists|cuts: Seq<int>| #[trigger]
                final(self).in_blocks(
                    old(self).trail().len() as int,
                    cell,
                    old(self).flags_at(cell as int),
                    cuts,
                ),
            old(self).flags_at(cell as int) & CONFLICT == 0 && old(self).flags_at(cell as int)
                & SUCC == 0 && old(self).flags_at(cell as int) & SELF != 0 ==> ({
                let n = old(self).trail().len() as int;
                &&& old(self).cells()[cell as int].state is None
                &&& final(self).trail().len() > n
                &&& final(self).trail()[n] == cell
                &&& final(self).cells()[cell as int].state == Some(
                    flag_state(old(self).flags_at(cell as int), SELF_DEAD),
                )
            }),
            cell < old(self).grid_cells() ==> final(self).forced_from(old(self)) && (res is Err
                ==> old(self).dead_end()),
    {
        let ghost start = *self;
        let ghost n = self.trail().len() as int;
        let ghost mut cuts = Seq::<int>::empty().push(n);
        proof {
            self.lemma_grows_refl();
            lemma_flagged_unknown(
                start.world_of().rule_of().birth(),
                start.world_of().rule_of().survival(),
                start.cells(),
                cell as int,
                0,
            );
            if cell < start.grid_cells() {
                lemma_flags_justified(
                    start.world_of().rule_of().birth(),
                    start.world_of().rule_of().survival(),
                    start.world_of().places(),
                    start.world_of().p(),
                    start.cells(),
                    cell as int,
                    0,
                );
            }
            assert(desc_ok_at(self.cells(), states_of(self.cells()), cell as int));
            lemma_desc_range(
                self.cells()[cell as int].state,
                states_of(self.cells())[self.cells()[cell as int].succ as int],
                crate::world::nbhd_states(self.cells(), states_of(self.cells()), cell as int),
            );
            assert(links_in_range(self.cells(), cell as int));
            assert(0u32 & CONFLICT == 0 && 0u32 & SUCC == 0 && 0u32 & SELF == 0 && 0u32 & NBHD
                == 0) by (bit_vector);
        }
        let flags = self.world.rule().implication(self.world.cell(cell).desc);
        if flags & CONFLICT != 0 {
            proof {
                self.lemma_conflict_now(cell);
            }
            return Err(ConflReason::Rule(cell));
        }
        if flags & SUCC != 0 {
            let state = if flags & SUCC_DEAD != 0 {
                State::Dead
            } else {
                State::Alive
            };
            let succ = self.world.cell(cell).succ;
            let res = self.set_cell(succ, state, SetReason::Rule(cell));
            proof {
                self.lemma_grows_keeps(&start);
                if res is Err {
                    assert(self.sym_conflict(res->Err_0, state));
                }
            }
            return res;
        }
        if flags & SELF != 0 {
            let state = if flags & SELF_DEAD != 0 {
                State::Dead
            } else {
                State::Alive
            };
            let res = self.set_cell(cell, state, SetReason::Rule(cell));
            proof {
                cuts = cuts.push(self.trail().len() as int);
                assert(self.block(n, self.trail().len() as int, cell, state));
                assert(self.blocks_upto(n, cell, flags, cuts, 0));
                if res is Err {
                    assert(self.sym_conflict(res->Err_0, state));
                    self.lemma_blocks_pad(n, cell, flags, cuts, 0);
                }
            }
            match res {
                Err(conflict) => {
                    return Err(conflict);
                },
                Ok(()) => {},
            }
        } else {
            proof {
                cuts = cuts.push(n);
                assert(self.blocks_upto(n, cell, flags, cuts, 0));
            }
        }
        proof {
            self.lemma_grows_refl();
        }
        if flags & NBHD != 0 {
            let mut i: u32 = 0;
            while i < 8
                invariant
                    i <= 8,
                    *old(self) == start,
                    start.wf(),
                    cell < start.cells().len(),
                    flags == start.flags_at(cell as int),
                    flags != 0,
                    flags & CONFLICT == 0,
                    flags & SUCC == 0,
                    self.wf(),
                    self.grows(&start),
                    self.cursor() == start.cursor(),
                    flags & SELF != 0 ==> self.cells()[cell as int].state
                        == Some(flag_state(flags, SELF_DEAD)),
                    n == start.trail().len(),
                    self.blocks_upto(n, cell, flags, cuts, i as int),
                    flags & SELF != 0 ==> start.cells()[cell as int].state is None
                        && self.trail().len() > n && self.trail()[n] == cell,
                    cell < start.grid_cells() ==> self.forced_from(&start),
                    forall|k: int|
                        0 <= k < i && flags & (nbhd_alive_flag(k as u32) | nbhd_dead_flag(
                            k as u32,
                        )) != 0 ==> self.cells()[(
                        #[trigger] self.cells()[cell as int].nbhd@[k]) as int].state == Some(
                            flag_state(flags, nbhd_dead_flag(k as u32)),
                        ),
                decreases 8 - i,
            {
                let alive_flag = 1u32 << (2 * i + 6);
                let dead_flag = 1u32 << (2 * i + 7);
                let ghost mid = *self;
                if flags & (alive_flag | dead_flag) != 0 {
                    proof {
                        self.lemma_grows_keeps(&start);
                        assert(links_in_range(self.cells(), cell as int));
                    }
                    let neigh = self.world.cell(cell).nbhd[i as usize];
                    let state = if flags & dead_flag != 0 {
                        State::Dead
                    } else {
                        State::Alive
                    };
                    proof {
                        if cell < start.grid_cells() {
                            lemma_flags_justified(
                                start.world_of().rule_of().birth(),
                                start.world_of().rule_of().survival(),
                                start.world_of().places(),
                                start.world_of().p(),
                                start.cells(),
                                cell as int,
                                i as int,
                            );
                            mid.lemma_later_keeps(&start, neigh, state);
                        }
                    }
                    let res = self.set_cell(neigh, state, SetReason::Rule(cell));
                    proof {
                        if cell < start.grid_cells() {
                            self.lemma_forced_chain(&mid, &start);
                        }
                        let was = mid.cells()[neigh as int].state;
                        assert(was is None || was == Some(state) || was == Some(state.opposite()));
                        self.lemma_grows_keeps(&mid);
                        self.lemma_grows_trans(&mid, &start);
                        if flags & SELF != 0 {
                            assert(self.trail().take(mid.trail().len() as int)[n]
                                == mid.trail()[n]);
                        }
                        assert(self.block(
                            mid.trail().len() as int,
                            self.trail().len() as int,
                            neigh,
                            state,
                        ));
                        self.lemma_blocks_step(&mid, n, cell, flags, cuts, i as int);
                        cuts = cuts.push(self.trail().len() as int);
                        if res is Err {
                            self.lemma_blocks_pad(n, cell, flags, cuts, i + 1);
                            if was is None {
                                assert(self.sym_conflict(res->Err_0, state));
                            } else {
                                assert(self.clash_at(cell as int, flags, i as int));
                                self.lemma_clash_found(&start, cell, i as int);
                            }
                        }
                        assert forall|k: int|
                            0 <= k < i && flags & (nbhd_alive_flag(k as u32) | nbhd_dead_flag(
                                k as u32,
                            )) != 0 implies self.cells()[(
                        #[trigger] self.cells()[cell as int].nbhd@[k]) as int].state == Some(
                            flag_state(flags, nbhd_dead_flag(k as u32)),
                        ) by {
                            assert(mid.cells()[mid.cells()[cell as int].nbhd@[k] as int].state
                                == Some(flag_state(flags, nbhd_dead_flag(k as u32))));
                        }
                    }
                    match res {
                        Err(conflict) => {
                            return Err(conflict);
                        },
                        Ok(()) => {},
                    }
                } else {
                    proof {
                        self.lemma_grows_refl();
                        self.lemma_blocks_step(&mid, n, cell, flags, cuts, i as int);
                        cuts = cuts.push(self.trail().len() as int);
                    }
                }
                i += 1;
            }
            proof {
                self.lemma_blocks_pad(n, cell, flags, cuts, 8);
            }
        } else {
            proof {
                self.lemma_blocks_pad(n, cell, flags, cuts, 0);
                assert forall|k: int| 0 <= k < 8 implies flags & (#[trigger] nbhd_alive_flag(
                    k as u32,
                ) | nbhd_dead_flag(k as u32)) == 0 by {
                    lemma_no_nbhd_flag(flags, k as u32);
                }
                self.lemma_grows_keeps(&start);
            }
        }
        proof {
            self.lemma_grows_keeps(&start);
        }
        Ok(())
    }

    /// Consistifies the eight neighbours of a cell, as far as the grid holds
    /// them.
    fn consistify_nbhd(&mut self, center: usize) -> (res: Result<(), ConflReason>)
        requires
            old(self).wf(),
            center < old(self).cells().len(),
        ensures
            final(self).wf(),
            final(self).grows(old(self)),
            final(self).cursor() == old(self).cursor(),
            res is Err ==> final(self).conflict_found(res->Err_0),
            res is Ok ==> forall|k: int|
                0 <= k < 8 && (#[trigger] old(self).cells()[center as int].nbhd@[k])
                    != old(self).grid_cells() && same_view(
                    old(self).cells(),
                    final(self).cells(),
                    old(self).cells()[center as int].nbhd@[k] as int,
                ) ==> admissible(
                    old(self).world_of().rule_of().birth(),
                    old(self).world_of().rule_of().survival(),
                    final(self).cells(),
                    old(self).cells()[center as int].nbhd@[k] as int,
                ),
            old(self).all_quiet() ==> res is Ok && final(self).trail() == old(self).trail()
                && final(self).cells() == old(self).cells(),
            final(self).forced_from(old(self)),
            res is Err ==> old(self).dead_end(),
    {
        let ghost start = *self;
        let ghost b = self.world_of().rule_of().birth();
        let ghost s = self.world_of().rule_of().survival();
        proof {
            self.lemma_grows_refl();
        }
        let sent = self.world.size();
        let mut k: usize = 0;
        while k < 8
            invariant
                k <= 8,
                *old(self) == start,
                start.wf(),
                center < start.cells().len(),
                sent == start.cells().len() - 1,
                b == start.world_of().rule_of().birth(),
                s == start.world_of().rule_of().survival(),
                self.wf(),
                self.grows(&start),
                self.cursor() == start.cursor(),
                start.all_quiet() ==> self.trail() == start.trail() && self.cells()
                    == start.cells(),
                self.forced_from(&start),
                forall|i: int|
                    0 <= i < k && (#[trigger] start.cells()[center as int].nbhd@[i]) != sent
                        && same_view(
                        start.cells(),
                        self.cells(),
                        start.cells()[center as int].nbhd@[i] as int,
                    ) ==> admissible(
                        b,
                        s,
                        self.cells(),
                        start.cells()[center as int].nbhd@[i] as int,
                    ),
            decreases 8 - k,
        {
            let ghost mid = *self;
            proof {
                self.lemma_grows_keeps(&start);
                self.lemma_grows_later(&start);
                assert(links_in_range(self.cells(), center as int));
                assert(links_in_range(start.cells(), center as int));
            }
            let neigh = self.world.cell(center).nbhd[k];
            if neigh != sent {
                let res = self.consistify(neigh);
                proof {
                    self.lemma_grows_trans(&mid, &start);
                    self.lemma_grows_later(&mid);
                    self.lemma_forced_chain(&mid, &start);
                    assert forall|i: int|
                        0 <= i < k + 1 && (#[trigger] start.cells()[center as int].nbhd@[i])
                            != sent && res is Ok && same_view(
                            start.cells(),
                            self.cells(),
                            start.cells()[center as int].nbhd@[i] as int,
                        ) implies admissible(
                        b,
                        s,
                        self.cells(),
                        start.cells()[center as int].nbhd@[i] as int,
                    ) by {
                        let x = start.cells()[center as int].nbhd@[i] as int;
                        if i == k {
                            assert(admissible(b, s, mid.cells(), x));
                        }
                        lemma_check_stands(b, s, start.cells(), mid.cells(), self.cells(), x);
                    }
                    if start.all_quiet() {
                        assert(mid.flags_at(neigh as int) == start.flags_at(neigh as int));
                    }
                }
                match res {
                    Err(conflict) => {
                        return Err(conflict);
                    },
                    Ok(()) => {},
                }
            }
            k += 1;
        }
        Ok(())
    }

    /// Consistifies the cells whose transition a change of the given cell
    /// bears on: the cell itself, its successor and the eight neighbours of
    /// the successor, and the cells whose own descriptor holds the state of
    /// the given cell, its predecessor and its eight neighbours. The
    /// sentinel has no transition of its own and is passed over.
    ///
    /// When no conflict arises, every cell whose own descriptor holds the
    /// state of the given cell has been found admissible, unless its view
    /// changed in the course of the call.
    pub fn consistify10(&mut self, cell: usize) -> (res: Result<(), ConflReason>)
        requires
            old(self).wf(),
            cell < old(self).grid_cells(),
        ensures
            final(self).wf(),
            final(self).grows(old(self)),
            final(self).cursor() == old(self).cursor(),
            res is Err ==> final(self).conflict_found(res->Err_0),
            res is Ok ==> checked(
                old(self).world_of().rule_of().birth(),
                old(self).world_of().rule_of().survival(),
                old(self).cells(),
                final(self).cells(),
                cell as int,
            ),
            old(self).all_quiet() ==> res is Ok && final(self).trail() == old(self).trail()
                && final(self).cells() == old(self).cells(),
            final(self).forced_from(old(self)),
            res is Err ==> old(self).dead_end(),
    {
        let ghost start = *self;
        let ghost b = self.world_of().rule_of().birth();
        let ghost s = self.world_of().rule_of().survival();
        let sent = self.world.size();
        proof {
            assert(links_in_range(start.cells(), cell as int));
            if start.all_quiet() {
                assert(start.flags_at(cell as int) == 0);
            }
        }
        match self.consistify(cell) {
            Err(conflict) => {
                return Err(conflict);
            },
            Ok(()) => {},
        }
        let ghost first = *self;
        proof {
            self.lemma_grows_keeps(&start);
            self.lemma_grows_later(&start);
            assert(links_in_range(self.cells(), cell as int));
            assert(admissible(b, s, start.cells(), cell as int));
            lemma_check_stands(b, s, start.cells(), start.cells(), first.cells(), cell as int);
        }
        let succ = self.world.cell(cell).succ;
        if succ != sent {
            proof {
                if start.all_quiet() {
                    assert(start.flags_at(succ as int) == 0);
                    assert(first.flags_at(succ as int) == start.flags_at(succ as int));
                }
            }
            let res = self.consistify(succ);
            proof {
                self.lemma_grows_trans(&first, &start);
                self.lemma_forced_chain(&first, &start);
            }
            match res {
                Err(conflict) => {
                    return Err(conflict);
                },
                Ok(()) => {},
            }
            let ghost second = *self;
            proof {
                if start.all_quiet() {
                    assert forall|c: int| 0 <= c < second.grid_cells()
                        implies #[trigger] second.flags_at(
                        c,
                    ) == 0 by {
                        assert(start.flags_at(c) == 0);
                    }
                }
            }
            let res = self.consistify_nbhd(succ);
            proof {
                self.lemma_grows_trans(&second, &start);
                self.lemma_grows_trans(&second, &first);
                self.lemma_forced_chain(&second, &start);
            }
            match res {
                Err(conflict) => {
                    return Err(conflict);
                },
                Ok(()) => {},
            }
        } else {
            proof {
                self.lemma_grows_refl();
            }
        }
        let ghost third = *self;
        proof {
            self.lemma_grows_keeps(&start);
            self.lemma_grows_later(&start);
            self.lemma_grows_keeps(&first);
            self.lemma_grows_later(&first);
            assert(links_in_range(self.cells(), cell as int));
            lemma_check_stands(b, s, start.cells(), first.cells(), third.cells(), cell as int);
        }
        match self.world.cell(cell).pred {
            Some(pred) => {
                let res = self.consistify(pred);
                proof {
                    self.lemma_grows_trans(&third, &start);
                    self.lemma_grows_later(&third);
                    self.lemma_forced_chain(&third, &start);
                    if res is Ok {
                        assert(admissible(b, s, third.cells(), pred as int));
                        lemma_check_stands(
                            b,
                            s,
                            start.cells(),
                            third.cells(),
                            self.cells(),
                            pred as int,
                        );
                    }
                    if start.all_quiet() {
                        assert(third.flags_at(pred as int) == start.flags_at(pred as int));
                    }
                }
                match res {
                    Err(conflict) => {
                        return Err(conflict);
                    },
                    Ok(()) => {},
                }
            },
            None => {
                proof {
                    self.lemma_grows_refl();
                }
            },
        }
        let ghost fourth = *self;
        proof {
            self.lemma_grows_keeps(&start);
            self.lemma_grows_later(&start);
            self.lemma_grows_keeps(&third);
            self.lemma_grows_later(&third);
            lemma_check_stands(b, s, start.cells(), third.cells(), fourth.cells(), cell as int);
        }
        proof {
            if start.all_quiet() {
                assert forall|c: int| 0 <= c < fourth.grid_cells()
                    implies #[trigger] fourth.flags_at(
                    c,
                ) == 0 by {
                    assert(start.flags_at(c) == 0);
                }
            }
        }
        let res = self.consistify_nbhd(cell);
        proof {
            self.lemma_grows_trans(&fourth, &start);
            self.lemma_grows_later(&fourth);
            self.lemma_forced_chain(&fourth, &start);
            self.lemma_grows_keeps(&fourth);
            if res is Ok {
                lemma_check_stands(b, s, start.cells(), fourth.cells(), self.cells(), cell as int);
                if start.cells()[cell as int].pred is Some {
                    lemma_check_stands(
                        b,
                        s,
                        start.cells(),
                        fourth.cells(),
                        self.cells(),
                        start.cells()[cell as int].pred->0 as int,
                    );
                }
                assert forall|k: int|
                    0 <= k < 8 && (#[trigger] start.cells()[cell as int].nbhd@[k]) != sentinel(
                        start.cells(),
                    ) && same_view(
                        start.cells(),
                        self.cells(),
                        start.cells()[cell as int].nbhd@[k] as int,
                    ) implies admissible(
                    b,
                    s,
                    self.cells(),
                    start.cells()[cell as int].nbhd@[k] as int,
                ) by {
                    let x = start.cells()[cell as int].nbhd@[k] as int;
                    assert(fourth.cells()[cell as int].nbhd@[k] == x);
                    assert(links_in_range(start.cells(), cell as int));
                    crate::propagation::lemma_view_between(
                        start.cells(),
                        fourth.cells(),
                        self.cells(),
                        x,
                    );
                }
            }
        }
        res
    }

    /// Gives the symmetry twins of a cell on the trail the state of that
    /// cell.
    fn set_twins(&mut self, cell: usize, state: State) -> (res: Result<(), ConflReason>)
        requires
            old(self).wf(),
            cell < old(self).grid_cells(),
            old(self).cells()[cell as int].state == Some(state),
        ensures
            final(self).wf(),
            final(self).grows(old(self)),
            final(self).cursor() == old(self).cursor(),
            res is Ok ==> twins_have(final(self).cells(), cell as int, state),
            res is Err ==> final(self).sym_conflict(res->Err_0, state),
            twins_have(old(self).cells(), cell as int, state) ==> res is Ok && final(self).trail()
                == old(self).trail() && final(self).cells() == old(self).cells(),
            final(self).forced_from(old(self)),
            res is Err ==> old(self).dead_end(),
    {
        let ghost start = *self;
        proof {
            self.lemma_grows_refl();
        }
        let count = self.world.cell(cell).sym.len();
        let mut j: usize = 0;
        while j < count
            invariant
                j <= count,
                *old(self) == start,
                start.wf(),
                cell < start.grid_cells(),
                start.cells()[cell as int].state == Some(state),
                self.wf(),
                self.grows(&start),
                self.forced_from(&start),
                self.cursor() == start.cursor(),
                count == self.cells()[cell as int].sym@.len(),
                twins_have(start.cells(), cell as int, state) ==> self.trail() == start.trail()
                    && self.cells() == start.cells(),
                forall|i: int|
                    0 <= i < j ==> self.cells()[(
                    #[trigger] self.cells()[cell as int].sym@[i]) as int].state == Some(state),
            decreases count - j,
        {
            let ghost mid = *self;
            proof {
                assert(links_in_range(self.cells(), cell as int));
            }
            let twin = self.world.cell(cell).sym[j];
            proof {
                self.lemma_grows_keeps(&start);
                crate::solution::lemma_twin_justified(
                    mid.world_of().rule_of().birth(),
                    mid.world_of().rule_of().survival(),
                    mid.world_of().places(),
                    mid.world_of().p(),
                    mid.cells(),
                    cell as int,
                    state,
                    j as int,
                );
            }
            let res = self.set_cell(twin, state, SetReason::Sym(cell));
            proof {
                self.lemma_forced_chain(&mid, &start);
                let was = mid.cells()[twin as int].state;
                assert(was is None || was == Some(state) || was == Some(state.opposite()));
                self.lemma_grows_keeps(&mid);
                self.lemma_grows_trans(&mid, &start);
                assert forall|i: int| 0 <= i < j implies self.cells()[(
                #[trigger] self.cells()[cell as int].sym@[i]) as int].state == Some(state) by {
                    assert(mid.cells()[mid.cells()[cell as int].sym@[i] as int].state == Some(
                        state,
                    ));
                }
                if twins_have(start.cells(), cell as int, state) {
                    assert(start.cells()[cell as int].sym@[j as int] == twin);
                }
                if res is Err && was is Some {
                    assert(self.cells()[cell as int].sym@[j as int] == twin);
                    assert(self.cells()[cell as int].state == Some(state));
                    assert(self.sym_conflict(res->Err_0, state));
                }
            }
            match res {
                Err(conflict) => {
                    return Err(conflict);
                },
                Ok(()) => {},
            }
            j += 1;
        }
        Ok(())
    }

    /// Propagates: draws the consequences of every cell on the trail from
    /// the cursor on, in the order of the trail, until the cursor reaches
    /// the end of the trail or a conflict arises.
    ///
    /// For each cell its symmetry twins are given its state, and then the
    /// cells around it are consistified. The first conflict ends the
    /// propagation and is handed on as it is; the cells show it. Where
    /// nothing is left to propagate, nothing changes and no conflict arises.
    pub fn proceed(&mut self) -> (res: Result<(), ConflReason>)
        requires
            old(self).wf(),
        ensures
            final(self).wf(),
            final(self).grows(old(self)),
            old(self).cursor() <= final(self).cursor(),
            res is Ok ==> final(self).cursor() == final(self).trail().len(),
            res is Err ==> final(self).cursor() < final(self).trail().len(),
            res is Err ==> final(self).conflict_found(res->Err_0),
            old(self).sound() ==> final(self).sound(),
            old(self).quiet() ==> res is Ok && final(self).trail() == old(self).trail()
                && final(self).cells() == old(self).cells(),
            final(self).forced_from(old(self)),
            res is Err ==> old(self).dead_end(),
            res is Ok && old(self).sound() ==> forall|i: int|
                0 <= i < final(self).trail().len() ==> twins_have(
                    final(self).cells(),
                    (#[trigger] final(self).trail()[i]) as int,
                    final(self).cells()[final(self).trail()[i] as int].state->0,
                ),
    {
        let ghost start = *self;
        let ghost b = self.world_of().rule_of().birth();
        let ghost s = self.world_of().rule_of().survival();
        proof {
            self.lemma_grows_refl();
        }
        while self.next_set < self.set_table.len()
            invariant
                *old(self) == start,
                start.wf(),
                b == start.world_of().rule_of().birth(),
                s == start.world_of().rule_of().survival(),
                self.wf(),
                self.grows(&start),
                self.forced_from(&start),
                start.cursor() <= self.cursor(),
                start.sound() ==> self.sound(),
                start.quiet() ==> self.trail() == start.trail() && self.cells() == start.cells(),
            decreases self.grid_cells() - self.cursor(),
        {
            let ghost mid = *self;
            let ghost k = self.cursor();
            proof {
                self.lemma_fits();
                self.lemma_grows_keeps(&start);
            }
            let cell = self.set_table[self.next_set];
            let state = match self.world.cell(cell).state {
                Some(state) => state,
                None => {
                    proof {
                        assert(self.cells()[self.trail()[self.cursor()] as int].state is Some);
                    }
                    State::Dead
                },
            };
            proof {
                if start.quiet() {
                    assert(twins_have(
                        start.cells(),
                        start.trail()[k] as int,
                        start.cells()[start.trail()[k] as int].state->0,
                    ));
                }
            }
            let res = self.set_twins(cell, state);
            proof {
                self.lemma_grows_keeps(&mid);
                self.lemma_grows_trans(&mid, &start);
                self.lemma_forced_chain(&mid, &start);
                if res is Err {
                    assert(self.conflict_found(res->Err_0));
                }
                if start.sound() {
                    self.lemma_grows_sound(&mid);
                }
            }
            match res {
                Err(conflict) => {
                    return Err(conflict);
                },
                Ok(()) => {},
            }
            let ghost then = *self;
            let res = self.consistify10(cell);
            proof {
                self.lemma_grows_keeps(&then);
                self.lemma_grows_trans(&then, &start);
                self.lemma_forced_chain(&then, &start);
                self.lemma_fits();
                if start.sound() {
                    self.lemma_grows_sound(&then);
                }
                if start.quiet() {
                    assert forall|c: int| 0 <= c < then.grid_cells()
                        implies #[trigger] then.flags_at(
                        c,
                    ) == 0 by {
                        assert(start.flags_at(c) == 0);
                    }
                }
            }
            match res {
                Err(conflict) => {
                    return Err(conflict);
                },
                Ok(()) => {},
            }
            self.next_set += 1;
            proof {
                if start.sound() {
                    let n = then.trail().len() as int;
                    assert(self.trail().take(n)[k] == then.trail()[k]);
                    assert(then.trail()[k] == cell);
                    assert forall|i: int| 0 <= i < then.trail().len() implies (
                    #[trigger] then.trail()[i]) < sentinel(then.cells())
                        && then.cells()[then.trail()[i] as int].state is Some by {}
                    let fresh = self.trail().skip(n);
                    assert forall|y: int| 0 <= y < then.cells().len() implies (!on_trail(
                        fresh,
                        y,
                    ) ==> (#[trigger] then.cells()[y]).state == self.cells()[y].state) && (
                    on_trail(fresh, y) ==> then.cells()[y].state is None) by {
                        assert forall|i: int| 0 <= i < fresh.len() implies (
                        #[trigger] fresh[i]) < sentinel(self.cells()) by {
                            assert(fresh[i] == self.trail()[n + i]);
                        }
                        lemma_rewind_props(self.cells(), fresh);
                        let r = rewind(self.cells(), fresh)[y];
                    }
                    assert(twins_have(self.cells(), cell as int,
                        self.cells()[cell as int].state->0)) by {
                        crate::propagation::lemma_twins_keep(
                            then.cells(),
                            self.cells(),
                            fresh,
                            cell as int,
                        );
                    }
                    lemma_drawn_step(
                        b,
                        s,
                        then.cells(),
                        then.trail(),
                        self.cells(),
                        self.trail(),
                        k,
                    );
                }
            }
        }
        proof {
            if start.sound() {
                self.lemma_found_symmetric();
            }
        }
        Ok(())
    }

    /// Whether no cell is unknown.
    pub open spec fn complete(&self) -> bool {
        forall|c: int| 0 <= c < self.cells().len() ==> (#[trigger] self.cells()[c]).state is Some
    }

    /// Backs up: rewinds the trail to its last free cell and gives that cell
    /// its other state.
    ///
    /// Every cell after the last free one leaves the trail and is unknown
    /// again. The free cell stays on the trail with its state flipped, is no
    /// longer free, and is the next cell to draw consequences from. Where no
    /// cell on the trail is free the whole trail is taken back, and the
    /// answer is `false`: the search is exhausted.
    pub fn backup(&mut self) -> (ok: bool)
        requires
            old(self).wf(),
        ensures
            final(self).wf(),
            final(self).world_of().same_frame(&old(self).world_of()),
            final(self).timed() == old(self).timed(),
            final(self).base() == old(self).base(),
            ok == (last_free(old(self).cells(), old(self).trail()) >= 0),
            !ok ==> final(self).trail().len() == 0 && final(self).cells() == old(self).base()
                && final(self).cursor() == 0,
            ok ==> ({
                let j = last_free(old(self).cells(), old(self).trail());
                let c = old(self).trail()[j];
                &&& final(self).trail() == old(self).trail().take(j + 1)
                &&& final(self).cursor() == j
                &&& old(self).cells()[c as int].state is Some
                &&& final(self).cells() == with_state(
                    rewind(old(self).cells(), old(self).trail().skip(j + 1)),
                    c as int,
                    Some(old(self).cells()[c as int].state->0.opposite()),
                    false,
                )
            }),
            ok ==> final(self).progress() > old(self).progress(),
            old(self).sound() ==> final(self).sound(),
            old(self).covers() && old(self).dead_end() ==> final(self).covers() && (!ok
                ==> final(self).hopeless()),
    {
        let ghost start = *self;
        let ghost size = self.grid_cells();
        let ghost b = self.world_of().rule_of().birth();
        let ghost s = self.world_of().rule_of().survival();
        proof {
            self.lemma_fits();
            assert(self.trail().take(self.trail().len() as int) =~= self.trail());
            assert(self.trail().skip(self.trail().len() as int) =~= Seq::<usize>::empty());
        }
        self.next_set = 0;
        while self.set_table.len() > 0
            invariant
                *old(self) == start,
                start.wf(),
                size == start.grid_cells(),
                size == self.grid_cells(),
                b == start.world_of().rule_of().birth(),
                s == start.world_of().rule_of().survival(),
                self.wf(),
                self.cursor() == 0,
                self.world_of().same_frame(&start.world_of()),
                self.timed() == start.timed(),
                self.trail().len() <= start.trail().len(),
                self.trail() == start.trail().take(self.trail().len() as int),
                self.cells() == rewind(
                    start.cells(),
                    start.trail().skip(self.trail().len() as int),
                ),
                last_free(self.cells(), self.trail()) == last_free(start.cells(), start.trail()),
                self.progress() + pow3((size - self.trail().len()) as nat) == start.progress()
                    + pow3((size - start.trail().len()) as nat),
                self.base() == start.base(),
                forall|m: int|
                    self.trail().len() <= m < start.trail().len() ==> !start.cells()[(
                    #[trigger] start.trail()[m]) as int].free,
            decreases self.trail().len(),
        {
            let ghost before = *self;
            let ghost m = self.trail().len() as int;
            let last = self.set_table.len() - 1;
            let cell = self.set_table[last];
            proof {
                assert(self.trail()[last as int] == self.trail().last());
                assert(self.cells()[cell as int].state is Some);
                self.lemma_fits();
                lemma_pow3_positive((size - m) as nat);
                reveal_with_fuel(pow3, 2);
                assert(pow3((size - (m - 1)) as nat) == 3 * pow3((size - m) as nat));
                let later = start.trail().skip(m);
                assert forall|i: int| 0 <= i < later.len() implies (#[trigger] later[i])
                    < sentinel(start.cells()) by {
                    assert(later[i] == start.trail()[m + i]);
                }
                lemma_rewind_props(start.cells(), later);
                assert(start.trail()[m - 1] == cell) by {
                    assert(start.trail().take(m)[m - 1] == cell);
                }
                if on_trail(later, cell as int) {
                    let i = choose|i: int| 0 <= i < later.len() && #[trigger] later[i] == cell;
                    assert(later[i] == start.trail()[m + i]);
                }
                assert(self.cells()[cell as int].state == start.cells()[cell as int].state);
                assert(self.cells()[cell as int].free == start.cells()[cell as int].free);
            }
            if self.world.cell(cell).free {
                let state = match self.world.cell(cell).state {
                    Some(state) => state.flip(),
                    None => State::Dead,
                };
                self.world.set_state(cell, Some(state), false);
                self.next_set = last;
                proof {
                    let rest = before.trail().drop_last();
                    assert forall|i: int| 0 <= i < rest.len() implies self.cells()[(
                    #[trigger] rest[i]) as int].free == before.cells()[rest[i] as int].free by {
                        assert(rest[i] == before.trail()[i]);
                    }
                    lemma_weight_frame(self.cells(), before.cells(), rest, size);
                    let unit = pow3((size - m) as nat);
                    assert(self.trail() == before.trail());
                    assert(self.trail().drop_last() == rest);
                    assert(digit(self.cells()[self.trail().last() as int]) == 2);
                    assert(digit(before.cells()[before.trail().last() as int]) == 1);
                    assert(weight(self.cells(), self.trail(), size) == weight(
                        self.cells(),
                        rest,
                        size,
                    ) + 2 * unit);
                    assert(weight(before.cells(), before.trail(), size) == weight(
                        before.cells(),
                        rest,
                        size,
                    ) + 1 * unit);
                    lemma_pow3_positive((size - start.trail().len()) as nat);
                    lemma_override(
                        before.cells(),
                        cell as int,
                        Some(state),
                        false,
                        None,
                        false,
                    );
                    assert forall|c: int| 0 <= c < self.cells().len() && (
                    #[trigger] self.cells()[c]).free implies on_trail(self.trail(), c) by {
                        assert(before.cells()[c].free);
                    }
                    assert(start.trail()[m - 1] == cell) by {
                        assert(start.trail().take(m)[m - 1] == cell);
                    }
                    if start.sound() {
                        lemma_sound_backup(
                            b,
                            s,
                            start.cells(),
                            start.trail(),
                            start.cursor(),
                            m - 1,
                            state,
                        );
                    }
                    if start.covers() && start.dead_end() {
                        lemma_covers_backup(
                            b,
                            s,
                            start.world_of().places(),
                            start.world_of().p(),
                            start.cells(),
                            start.trail(),
                            m - 1,
                        );
                    }
                }
                return true;
            }
            self.set_table.pop();
            self.world.set_state(cell, None, false);
            proof {
                let rest = before.trail().drop_last();
                assert(self.trail() =~= rest);
                assert(self.trail() =~= start.trail().take(m - 1));
                assert forall|i: int| 0 <= i < rest.len() implies self.cells()[(
                #[trigger] rest[i]) as int].free == before.cells()[rest[i] as int].free
                    && self.cells()[rest[i] as int].state is Some by {
                    assert(rest[i] == before.trail()[i]);
                    assert(before.cells()[before.trail()[i] as int].state is Some);
                }
                lemma_weight_frame(self.cells(), before.cells(), rest, size);
                lemma_last_free_frame(self.cells(), before.cells(), rest);
                assert(pow3((size - (m - 1)) as nat) == 3 * pow3((size - m) as nat));
                assert forall|c: int| 0 <= c < self.cells().len() && (
                #[trigger] self.cells()[c]).free implies on_trail(self.trail(), c) by {
                    assert(before.cells()[c].free);
                    let i = choose|i: int|
                        0 <= i < before.trail().len() && #[trigger] before.trail()[i] == c;
                    assert(rest[i] == c);
                }
                let single = Seq::<usize>::empty().push(cell);
                assert(start.trail().skip(m - 1) =~= single + start.trail().skip(m)) by {
                    assert(start.trail().take(m)[m - 1] == cell);
                }
                lemma_rewind_concat(start.cells(), single, start.trail().skip(m));
                lemma_rewind_push(before.cells(), Seq::<usize>::empty(), cell);
            }
        }
        proof {
            assert(start.trail().skip(0) =~= start.trail());
            assert(self.trail() =~= Seq::<usize>::empty());
            lemma_sound_empty(b, s, self.cells());
            lemma_covers_empty(
                b,
                s,
                start.world_of().places(),
                start.world_of().p(),
                self.cells(),
            );
            if start.covers() && start.dead_end() {
                lemma_exhausted(
                    b,
                    s,
                    start.world_of().places(),
                    start.world_of().p(),
                    start.cells(),
                    start.trail(),
                );
            }
        }
        false
    }

    /// Guesses: gives an unknown cell the state dead, marks it free and puts
    /// it on the trail.
    fn guess(&mut self, cell: usize)
        requires
            old(self).wf(),
            cell < old(self).cells().len(),
            old(self).cells()[cell as int].state is None,
        ensures
            final(self).wf(),
            final(self).world_of().same_frame(&old(self).world_of()),
            final(self).timed() == old(self).timed(),
            final(self).cursor() == old(self).cursor(),
            final(self).trail() == old(self).trail().push(cell),
            final(self).cells() == with_state(
                old(self).cells(),
                cell as int,
                Some(State::Dead),
                true,
            ),
            final(self).base() == old(self).base(),
            final(self).progress() > old(self).progress(),
            old(self).sound() && old(self).cursor() == old(self).trail().len()
                ==> final(self).sound(),
            old(self).covers() ==> final(self).covers(),
    {
        let ghost start = *self;
        let ghost size = self.grid_cells();
        self.world.set_state(cell, Some(State::Dead), true);
        self.set_table.push(cell);
        proof {
            lemma_unset_restores(start.cells(), cell as int, Some(State::Dead), true);
            lemma_rewind_push(self.cells(), start.trail(), cell);
            assert(self.trail().drop_last() =~= start.trail());
            assert forall|c: int| 0 <= c < self.cells().len() && (
            #[trigger] self.cells()[c]).free implies on_trail(self.trail(), c) by {
                if c == cell {
                    assert(self.trail()[start.trail().len() as int] == c);
                } else {
                    assert(start.cells()[c].free);
                    let i = choose|i: int|
                        0 <= i < start.trail().len() && #[trigger] start.trail()[i] == c;
                    assert(self.trail()[i] == c);
                }
            }
            assert(self.wf());
            self.lemma_fits();
            assert forall|i: int| 0 <= i < start.trail().len() implies self.cells()[(
            #[trigger] start.trail()[i]) as int].free
                == start.cells()[start.trail()[i] as int].free by {
                assert(start.cells()[start.trail()[i] as int].state is Some);
            }
            lemma_weight_frame(self.cells(), start.cells(), start.trail(), size);
            lemma_pow3_positive((size - self.trail().len()) as nat);
            assert(digit(self.cells()[self.trail().last() as int]) == 1);
            assert(weight(self.cells(), self.trail(), size) == weight(
                self.cells(),
                start.trail(),
                size,
            ) + 1 * pow3((size - self.trail().len()) as nat));
            assert(self.progress() > start.progress());
        }
        proof {
            if start.covers() {
                lemma_covers_guess(
                    start.world_of().rule_of().birth(),
                    start.world_of().rule_of().survival(),
                    start.world_of().places(),
                    start.world_of().p(),
                    start.cells(),
                    start.trail(),
                    cell,
                    State::Dead,
                );
            }
            if start.sound() && start.cursor() == start.trail().len() {
                lemma_sound_guess(
                    start.world_of().rule_of().birth(),
                    start.world_of().rule_of().survival(),
                    start.cells(),
                    start.trail(),
                    cell,
                    State::Dead,
                );
            }
        }
    }

    /// Goes on: propagates, and after every conflict backs up and
    /// propagates again, until the propagation ends without conflict or the
    /// search is exhausted.
    pub fn go(&mut self) -> (ok: bool)
        requires
            old(self).wf(),
        ensures
            final(self).wf(),
            final(self).world_of().same_frame(&old(self).world_of()),
            final(self).timed() == old(self).timed(),
            final(self).base() == old(self).base(),
            ok ==> final(self).progress() >= old(self).progress(),
            ok ==> final(self).cursor() == final(self).trail().len(),
            !ok ==> final(self).trail().len() == 0 && final(self).cells() == old(self).base(),
            old(self).sound() ==> final(self).sound(),
            old(self).quiet() ==> ok && final(self).trail() == old(self).trail()
                && final(self).cells() == old(self).cells(),
            old(self).covers() ==> final(self).covers() && (!ok ==> final(self).hopeless()),
    {
        let ghost start = *self;
        let ghost mut first = true;
        loop
            invariant
                *old(self) == start,
                start.wf(),
                self.wf(),
                self.world_of().same_frame(&start.world_of()),
                self.timed() == start.timed(),
                self.base() == start.base(),
                self.progress() >= start.progress(),
                start.sound() ==> self.sound(),
                start.covers() ==> self.covers(),
                first ==> *self == start,
                start.quiet() ==> first,
            decreases pow3(self.grid_cells() as nat) - self.progress(),
        {
            let ghost before = *self;
            let res = self.proceed();
            proof {
                self.lemma_grows_progress(&before);
                self.lemma_fits();
                if start.covers() {
                    self.lemma_grows_covers(&before);
                }
                self.lemma_later_keeps(&before, 0, State::Dead);
            }
            match res {
                Ok(()) => {
                    return true;
                },
                Err(_) => {
                    if !self.backup() {
                        return false;
                    }
                    proof {
                        self.lemma_fits();
                        first = false;
                    }
                },
            }
        }
    }

    /// Searches for a pattern: goes on, guesses the first unknown cell dead,
    /// and goes on again, until no cell is unknown and the pattern is not
    /// trivial, or until the search is exhausted.
    ///
    /// On success the states of the cells are the pattern. When the search
    /// is exhausted the trail is empty and the cells are back in the state
    /// from which the search set out.
    ///
    /// A search that can rely on its past, as every search does that was
    /// started by `new` and driven by the functions of this type, reports
    /// only patterns in which the transition law holds at every cell that the
    /// search has touched and in which the symmetry is respected. A search
    /// that has missed no solution and does not start from a finished
    /// pattern is exhausted only when no solution agrees with the state from
    /// which it set out. And every search ends: each round brings the trail
    /// further in an order that has an end.
    pub fn search(&mut self) -> (res: Result<(), ()>)
        requires
            old(self).wf(),
        ensures
            final(self).wf(),
            final(self).world_of().same_frame(&old(self).world_of()),
            final(self).base() == old(self).base(),
            res is Ok ==> final(self).complete() && final(self).world_of().is_nontrivial()
                && final(self).cursor() == final(self).trail().len(),
            res is Err ==> final(self).trail().len() == 0 && final(self).cells()
                == old(self).base(),
            old(self).sound() ==> final(self).sound(),
            res is Ok && old(self).sound() ==> final(self).found(),
            old(self).covers() && !(old(self).complete() && old(self).world_of().is_nontrivial())
                ==> final(self).covers() && (res is Err ==> final(self).hopeless()),
    {
        let ghost start = *self;
        let ghost fair = start.covers() && !(start.complete() && start.world_of().is_nontrivial());
        if self.time {
            self.stopwatch.restart();
        }
        proof {
            if fair && start.complete() {
                start.lemma_trivial_dead_end();
            }
        }
        if self.world.get_unknown().is_none() {
            if !self.backup() {
                return Err(());
            }
        }
        loop
            invariant
                *old(self) == start,
                start.wf(),
                self.wf(),
                self.world_of().same_frame(&start.world_of()),
                self.base() == start.base(),
                start.sound() ==> self.sound(),
                fair == (start.covers() && !(start.complete() && start.world_of().is_nontrivial())),
                fair ==> self.covers(),
            decreases pow3(self.grid_cells() as nat) - self.progress(),
        {
            if !self.go() {
                return Err(());
            }
            proof {
                self.lemma_fits();
            }
            match self.world.get_unknown() {
                Some(cell) => {
                    self.guess(cell);
                },
                None => {
                    if self.world.nontrivial() {
                        proof {
                            if start.sound() {
                                assert forall|x: int|
                                    0 <= x < self.grid_cells() && near(
                                        self.cells(),
                                        x,
                                        self.trail(),
                                    ) implies #[trigger] self.obeys_rule_at(x) by {
                                    self.lemma_found_is_sound(x);
                                }
                                self.lemma_found_symmetric();
                            }
                        }
                        return Ok(());
                    }
                    proof {
                        self.lemma_trivial_dead_end();
                    }
                    if !self.backup() {
                        return Err(());
                    }
                },
            }
            proof {
                self.lemma_fits();
            }
        }
    }

    /// Whether the transition law holds at cell `x`: its successor is alive
    /// exactly when the rule makes a living cell of it and of the set of its
    /// living neighbours. That set is the alive pane of its descriptor.
    pub open spec fn obeys_rule_at(&self, x: int) -> bool {
        lives_on(
            self.world_of().rule_of().birth(),
            self.world_of().rule_of().survival(),
            self.cells()[x].state == Some(State::Alive),
            alive_of(self.cells()[x].desc.bits()),
        ) == (self.cells()[self.cells()[x].succ as int].state == Some(State::Alive))
    }

    /// In a world in which every state is known, the descriptor of a cell
    /// holds exactly its living neighbours in its alive pane, and the rule
    /// implies nothing at the cell if the transition law holds there, and a
    /// conflict if not.
    pub proof fn lemma_known_flags(&self, x: int)
        requires
            self.wf(),
            self.complete(),
            0 <= x < self.cells().len(),
        ensures
            forall|j: int|
                0 <= j < 8 ==> (alive_of(self.cells()[x].desc.bits()) & (1u32 << (j as u32)) != 0)
                    == (self.cells()[(#[trigger] self.cells()[x].nbhd@[j]) as int].state == Some(
                    State::Alive,
                )),
            self.flags_at(x) == if self.obeys_rule_at(x) {
                0
            } else {
                CONFLICT
            },
    {
        let cells = self.cells();
        let states = states_of(cells);
        let around = crate::world::nbhd_states(cells, states, x);
        let d = cells[x].desc.bits();
        assert(desc_ok_at(cells, states, x));
        assert(links_in_range(cells, x));
        lemma_desc_range(states[x], states[cells[x].succ as int], around);
        lemma_desc_fields(states[x], states[cells[x].succ as int], around, 0);
        assert(cells[x].state is Some);
        assert(cells[cells[x].succ as int].state is Some);
        assert forall|j: int| 0 <= j < 8 implies around[j] is Some by {
            assert(cells[cells[x].nbhd@[j] as int].state is Some);
        }
        lemma_known_entry(
            self.world_of().rule_of().birth(),
            self.world_of().rule_of().survival(),
            d,
            cells[x].state == Some(State::Alive),
            cells[cells[x].succ as int].state == Some(State::Alive),
        );
        assert forall|j: int| 0 <= j < 8 implies (alive_of(d) & (1u32 << (j as u32)) != 0) == (
        cells[(#[trigger] cells[x].nbhd@[j]) as int].state == Some(State::Alive)) by {
            lemma_desc_fields(states[x], states[cells[x].succ as int], around, j as u32);
        }
    }

    /// Whether the cells are a pattern that the search has found: no cell
    /// is unknown, the pattern is not trivial, the transition law holds at
    /// every cell of the grid whose descriptor depends on a cell of the
    /// trail, and the symmetry twins of every cell of the trail have its
    /// state.
    pub open spec fn found(&self) -> bool {
        &&& self.complete()
        &&& self.world_of().is_nontrivial()
        &&& forall|x: int|
            0 <= x < self.grid_cells() && near(self.cells(), x, self.trail())
                ==> #[trigger] self.obeys_rule_at(x)
        &&& forall|i: int|
            0 <= i < self.trail().len() ==> twins_have(
                self.cells(),
                (#[trigger] self.trail()[i]) as int,
                self.cells()[self.trail()[i] as int].state->0,
            )
    }

    /// When all consequences have been drawn, the symmetry twins of every
    /// cell of the trail have its state.
    pub proof fn lemma_found_symmetric(&self)
        requires
            self.wf(),
            self.sound(),
            self.cursor() == self.trail().len(),
        ensures
            forall|i: int|
                0 <= i < self.trail().len() ==> twins_have(
                    self.cells(),
                    (#[trigger] self.trail()[i]) as int,
                    self.cells()[self.trail()[i] as int].state->0,
                ),
    {
    }

    /// What a finished search has found: when no cell is unknown and all
    /// consequences have been drawn, the transition law holds at every cell
    /// of the grid whose descriptor depends on a cell of the trail, and the
    /// symmetry twins of every cell of the trail have its state.
    pub proof fn lemma_found_is_sound(&self, x: int)
        requires
            self.wf(),
            self.sound(),
            self.complete(),
            self.cursor() == self.trail().len(),
            0 <= x < self.grid_cells(),
            near(self.cells(), x, self.trail()),
        ensures
            self.obeys_rule_at(x),
            forall|i: int|
                0 <= i < self.trail().len() ==> twins_have(
                    self.cells(),
                    (#[trigger] self.trail()[i]) as int,
                    self.cells()[self.trail()[i] as int].state->0,
                ),
    {
        let none = Seq::<usize>::empty();
        assert(self.trail().take(self.trail().len() as int) =~= self.trail());
        assert(self.trail().skip(self.trail().len() as int) =~= none);
        assert(!near(self.cells(), x, none)) by {
            if near(self.cells(), x, none) {
                if on_trail(none, x) {
                } else if on_trail(none, self.cells()[x].succ as int) {
                } else {
                    let m = choose|m: int|
                        0 <= m < 8 && on_trail(none, (#[trigger] self.cells()[x].nbhd@[m]) as int);
                }
            }
        }
        assert(admissible(
            self.world_of().rule_of().birth(),
            self.world_of().rule_of().survival(),
            self.cells(),
            x,
        ));
        self.lemma_known_flags(x);
        assert(1u32 & 1u32 != 0) by (bit_vector);
    }

    /// Whether every cell that was known when the search set out was dead
    /// then.
    pub open spec fn set_out_dead(&self) -> bool {
        forall|c: int|
            0 <= c < self.cells().len() && (#[trigger] self.base()[c]).state is Some
                ==> self.base()[c].state == Some(State::Dead)
    }

    /// Under a rule without `B0`, a pattern that was found from a state in
    /// which every known cell was dead obeys the transition law at every
    /// cell of the grid: at the cells that the search touched because it
    /// drew the consequences, and at the others because they are dead among
    /// dead cells.
    pub proof fn lemma_found_everywhere(&self, x: int)
        requires
            self.wf(),
            self.found(),
            self.set_out_dead(),
            !self.world_of().rule_of().birth().contains(0u8),
            0 <= x < self.grid_cells(),
        ensures
            self.obeys_rule_at(x),
    {
        let cells = self.cells();
        if !near(cells, x, self.trail()) {
            lemma_rewind_props(cells, self.trail());
            assert(links_in_range(cells, x));
            let states = states_of(cells);
            let around = crate::world::nbhd_states(cells, states, x);
            let succ = cells[x].succ as int;
            assert(cells[x].state == Some(State::Dead)) by {
                let r = self.base()[x];
            }
            assert(cells[succ].state == Some(State::Dead)) by {
                let r = self.base()[succ];
            }
            assert forall|i: int| 0 <= i < 8 implies (#[trigger] around[i]) != Some(
                State::Alive,
            ) by {
                let y = cells[x].nbhd@[i] as int;
                assert(!on_trail(self.trail(), y));
                let r = self.base()[y];
            }
            assert(desc_ok_at(cells, states, x));
            lemma_desc_fields(states[x], states[succ], around, 0);
        }
    }

    /// What a search finds that was started in a freshly built world under a
    /// rule without `B0`: the transition law holds at every cell of the
    /// grid, and every cell that the builder gave a state has kept it.
    pub proof fn lemma_fresh_pattern(&self, start: &Search, l: Layout, x: int)
        requires
            start.wf(),
            start.trail().len() == 0,
            dims_ok(l.width, l.height, l.period),
            built(start.cells(), l, false),
            !start.world_of().rule_of().birth().contains(0u8),
            self.wf(),
            self.found(),
            self.base() == start.base(),
            self.world_of().same_frame(&start.world_of()),
            0 <= x < self.grid_cells(),
        ensures
            self.obeys_rule_at(x),
            forall|c: int|
                0 <= c < self.cells().len() && (#[trigger] start.cells()[c]).state is Some
                    ==> self.cells()[c].state == start.cells()[c].state,
    {
        assert(start.base() == start.cells());
        lemma_built_dead(start.cells(), l);
        lemma_rewind_props(self.cells(), self.trail());
        assert(self.set_out_dead()) by {
            assert forall|c: int|
                0 <= c < self.cells().len() && (#[trigger] self.base()[c]).state
                    is Some implies self.base()[c].state == Some(State::Dead) by {
                assert(start.cells()[c].state is Some);
            }
        }
        self.lemma_found_everywhere(x);
        assert forall|c: int|
            0 <= c < self.cells().len() && (#[trigger] start.cells()[c]).state
                is Some implies self.cells()[c].state == start.cells()[c].state by {
            let r = rewind(self.cells(), self.trail())[c];
        }
    }

    /// A complete assignment that obeys the rule and the symmetry leaves
    /// nothing to propagate: propagation then ends at once, without a
    /// conflict and without a change.
    pub proof fn lemma_consistent_is_quiet(&self)
        requires
            self.wf(),
            self.complete(),
            forall|x: int| 0 <= x < self.grid_cells() ==> #[trigger] self.obeys_rule_at(x),
            forall|i: int|
                0 <= i < self.trail().len() ==> twins_have(
                    self.cells(),
                    (#[trigger] self.trail()[i]) as int,
                    self.cells()[self.trail()[i] as int].state->0,
                ),
        ensures
            self.quiet(),
    {
        assert forall|c: int| 0 <= c < self.grid_cells() implies #[trigger] self.flags_at(c)
            == 0 by {
            assert(self.obeys_rule_at(c));
            self.lemma_known_flags(c);
        }
    }

    /// A cell is known exactly when it stands on the trail or was known
    /// before the search set out; and no cell that was known before the
    /// search set out stands on the trail.
    pub proof fn lemma_known_iff_on_trail(&self, c: int)
        requires
            self.wf(),
            0 <= c < self.cells().len(),
        ensures
            self.cells()[c].state is Some <==> on_trail(self.trail(), c) || self.base()[c].state
                is Some,
            on_trail(self.trail(), c) ==> self.base()[c].state is None,
    {
        lemma_rewind_props(self.cells(), self.trail());
        let r = rewind(self.cells(), self.trail())[c];
        if on_trail(self.trail(), c) {
            let i = choose|i: int| 0 <= i < self.trail().len() && #[trigger] self.trail()[i] == c;
            assert(self.cells()[self.trail()[i] as int].state is Some);
        }
    }

    /// The time of the search so far in milliseconds, when the time is
    /// taken.
    pub fn elapsed_ms(&self) -> (ms: Option<i64>)
        ensures
            ms is Some == self.timed(),
    {
        if self.time {
            Some(self.stopwatch.elapsed_ms())
        } else {
            None
        }
    }
}

} // verus!
