//! The cells behind a reason: what a deduction or a conflict rests on.

use crate::cells::{ConflReason, LifeCell, SetReason};
use crate::desc::lemma_desc_fields;
use crate::world::{desc_ok_at, links_in_range, nbhd_states, sentinel, states_of, World};
use vstd::prelude::*;

verus! {

/// The known cells among a cell, its successor and its first `n`
/// neighbours, in this order, without the cell `skip` and without the
/// sentinel.
pub open spec fn known_around(cells: Seq<LifeCell>, center: int, skip: int, n: nat) -> Seq<usize>
    decreases n,
{
    if n == 0 {
        let succ = cells[center].succ;
        let own = if cells[center].state is Some && center != skip {
            Seq::<usize>::empty().push(center as usize)
        } else {
            Seq::<usize>::empty()
        };
        if cells[succ as int].state is Some && succ != sentinel(cells) && succ != skip {
            own.push(succ)
        } else {
            own
        }
    } else {
        let rest = known_around(cells, center, skip, (n - 1) as nat);
        let neigh = cells[center].nbhd@[n - 1];
        if cells[neigh as int].state is Some && neigh != sentinel(cells) && neigh != skip {
            rest.push(neigh)
        } else {
            rest
        }
    }
}

/// Whether a position is not the one to skip.
fn kept(position: usize, skip: Option<usize>) -> (r: bool)
    ensures
        r == match skip {
            Some(s) => position != s,
            None => true,
        },
{
    match skip {
        Some(s) => position != s,
        None => true,
    }
}

/// Lists the known cells among a cell, its successor and its neighbours, as
/// the descriptor of the cell shows them.
fn list_known(world: &World, center: usize, skip: Option<usize>) -> (list: Vec<usize>)
    requires
        world.wf(),
        center < world@.len(),
    ensures
        list@ == known_around(
            world@,
            center as int,
            match skip {
                Some(s) => s as int,
                None => -1,
            },
            8,
        ),
{
    let ghost cells = world@;
    let ghost states = states_of(cells);
    let ghost around = nbhd_states(cells, states, center as int);
    let ghost skipped = match skip {
        Some(s) => s as int,
        None => -1,
    };
    proof {
        assert(desc_ok_at(cells, states, center as int));
        assert(links_in_range(cells, center as int));
        lemma_desc_fields(states[center as int], states[cells[center as int].succ as int], around,
            0);
    }
    let sent = world.size();
    let desc = world.cell(center).desc;
    let mut list: Vec<usize> = Vec::with_capacity(10);
    if desc.0 & 0b11 != 0 && kept(center, skip) {
        list.push(center);
    }
    if desc.0 & (0b11 << 2) != 0 {
        let succ = world.cell(center).succ;
        if succ != sent && kept(succ, skip) {
            list.push(succ);
        }
    }
    let mut i: usize = 0;
    while i < 8
        invariant
            i <= 8,
            world.wf(),
            center < world@.len(),
            cells == world@,
            states == states_of(cells),
            around == nbhd_states(cells, states, center as int),
            sent == sentinel(cells),
            desc == cells[center as int].desc,
            skipped == match skip {
                Some(s) => s as int,
                None => -1,
            },
            list@ == known_around(cells, center as int, skipped, i as nat),
        decreases 8 - i,
    {
        proof {
            assert(desc_ok_at(cells, states, center as int));
            assert(links_in_range(cells, center as int));
            lemma_desc_fields(
                states[center as int],
                states[cells[center as int].succ as int],
                around,
                i as u32,
            );
        }
        if desc.0 & ((0x0101u32 << (i as u32)) << 4) != 0 {
            let neigh = world.cell(center).nbhd[i];
            if neigh != sent && kept(neigh, skip) {
                list.push(neigh);
            }
        }
        i += 1;
    }
    list
}

impl SetReason {
    /// The cells that the reason rests on, apart from the cell that was
    /// set: for a deduction by the rule, the known cells among the cell
    /// whose descriptor was used, its successor and its neighbours; for
    /// the symmetry, the cell that the state came from.
    pub fn cells(self, world: &World, cell: usize) -> (list: Vec<usize>)
        requires
            world.wf(),
            self matches SetReason::Rule(by) ==> by < world@.len(),
        ensures
            list@ == match self {
                SetReason::Rule(by) => known_around(world@, by as int, cell as int, 8),
                SetReason::Sym(from) => Seq::<usize>::empty().push(from),
                SetReason::Guess => Seq::<usize>::empty(),
            },
    {
        match self {
            SetReason::Rule(by) => list_known(world, by, Some(cell)),
            SetReason::Sym(from) => {
                let mut list = Vec::new();
                list.push(from);
                list
            },
            SetReason::Guess => Vec::new(),
        }
    }
}

impl ConflReason {
    /// The cells that the conflict rests on: for a conflict of the rule,
    /// the known cells among the cell whose descriptor shows it, its
    /// successor and its neighbours; for a conflict of the symmetry, the two
    /// cells that differ.
    pub fn cells(self, world: &World) -> (list: Vec<usize>)
        requires
            world.wf(),
            self matches ConflReason::Rule(by) ==> by < world@.len(),
        ensures
            list@ == match self {
                ConflReason::Rule(by) => known_around(world@, by as int, -1, 8),
                ConflReason::Sym(cell, from) => Seq::<usize>::empty().push(cell).push(from),
                ConflReason::Guess => Seq::<usize>::empty(),
            },
    {
        match self {
            ConflReason::Rule(by) => list_known(world, by, None),
            ConflReason::Sym(cell, from) => {
                let mut list = Vec::new();
                list.push(cell);
                list.push(from);
                list
            },
            ConflReason::Guess => Vec::new(),
        }
    }
}

} // verus!
