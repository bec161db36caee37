//! A search engine for periodic patterns in life-like cellular automata.
//!
//! Given a box, a period, a displacement per period, a symmetry and a rule,
//! the engine looks for an assignment of states to the cells of the box in
//! every generation that obeys the rule, repeats after the period, respects
//! the symmetry and is not trivial.
//!
//! The crate has these layers:
//!
//! * [`cells`], [`desc`], [`error`]: the small shared types.
//! * [`deduce`], [`rule`]: the implication table, which tells for a cell
//!   whose neighbourhood is partly known what the rule forces, and what
//!   each of its entries means.
//! * [`grid`], [`world`]: the geometry, the cell graph, and the procedure
//!   that keeps every neighbourhood descriptor in step with the states.
//! * [`trail`], [`search`]: the backtracking engine that guesses,
//!   propagates and rewinds, and the proof that rewinding restores the
//!   cell graph exactly and that the search ends.
//! * [`propagation`], [`solution`]: why a pattern that the search reports
//!   obeys the rule, and why the search misses no solution.
//! * [`reason`]: the cells behind a deduction or a conflict.
//! * [`bits`]: facts about bit patterns.

pub mod bits;
pub mod cells;
pub mod deduce;
pub mod desc;
pub mod error;
pub mod grid;
pub mod propagation;
pub mod reason;
pub mod rule;
pub mod search;
pub mod solution;
pub mod trail;
pub mod world;
