//! Cell states and coordinates.

use crate::desc::Desc;
use vstd::prelude::*;

verus! {

/// The state of a cell whose state is known.
///
/// An unknown cell is written `None` wherever an `Option<State>` appears.
#[derive(Clone, Copy, Debug, PartialEq, Eq, Structural)]
pub enum State {
    Dead,
    Alive,
}

/// The position of a cell: column, row and generation.
pub type Coord = (isize, isize, isize);

/// The two-bit code of a state inside a neighbourhood descriptor:
/// `0b10` for dead, `0b01` for alive, `0b00` for unknown.
pub open spec fn state_code(state: Option<State>) -> u32 {
    match state {
        Some(State::Dead) => 0b10,
        Some(State::Alive) => 0b01,
        None => 0b00,
    }
}

impl State {
    /// The other state.
    pub open spec fn opposite(self) -> State {
        match self {
            State::Dead => State::Alive,
            State::Alive => State::Dead,
        }
    }

    /// The other state.
    pub fn flip(self) -> (r: State)
        ensures
            r == self.opposite(),
    {
        match self {
            State::Dead => State::Alive,
            State::Alive => State::Dead,
        }
    }
}

/// Computes the two-bit code of a state.
pub fn code_of(state: Option<State>) -> (code: u32)
    ensures
        code == state_code(state),
{
    match state {
        Some(State::Dead) => 0b10,
        Some(State::Alive) => 0b01,
        None => 0b00,
    }
}

/// A cell of the space-time block.
///
/// A cell owns its state, its free flag and its descriptor. Its links to
/// other cells are positions in the world's array of cells.
pub struct LifeCell {
    /// The state of the cell; `None` while it is unknown.
    pub state: Option<State>,
    /// Whether the state was a guess of the search, not a forced implication.
    pub free: bool,
    /// The neighbourhood descriptor.
    pub desc: Desc,
    /// The eight neighbours, in the order of the offsets `(-1,-1)`, `(-1,0)`,
    /// `(-1,1)`, `(0,-1)`, `(0,1)`, `(1,-1)`, `(1,0)`, `(1,1)`. A neighbour
    /// outside the stored grid is the sentinel.
    pub nbhd: [usize; 8],
    /// The cell in the previous generation, where the block holds it.
    pub pred: Option<usize>,
    /// The cell in the next generation; the sentinel where the block holds
    /// none.
    pub succ: usize,
    /// The cells that the symmetry requires to share this cell's state.
    pub sym: Vec<usize>,
}

/// Why a cell is given a state.
#[derive(Clone, Copy, Debug, PartialEq, Eq, Structural)]
pub enum SetReason {
    /// The search guessed the state.
    Guess,
    /// The rule forces the state, by the descriptor of the given cell.
    Rule(usize),
    /// The symmetry forces the state, from the given cell.
    Sym(usize),
}

/// Why a state could not be given.
#[derive(Clone, Copy, Debug, PartialEq, Eq, Structural)]
pub enum ConflReason {
    /// The descriptor of the given cell admits no completion, or forces a
    /// state on a cell that has the other one.
    Rule(usize),
    /// The first cell has another state than the second, which the symmetry
    /// maps to it.
    Sym(usize, usize),
    /// A guess was made on a cell that has the other state.
    Guess,
}

} // verus!
