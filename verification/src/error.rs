//! Errors.

use crate::cells::Coord;
use vstd::prelude::*;

verus! {

/// `ca_rules::ParseRuleError`: why the parser refused a rule string. The
/// library carries the value and never looks inside.
#[verifier::external_type_specification]
#[verifier::external_body]
pub struct ExParseRuleError(ca_rules::ParseRuleError);

/// All kinds of errors in this crate.
#[derive(Debug, PartialEq, Eq)]
pub enum Error {
    /// The coordinate names no stored cell.
    GetCellError(Coord),
    /// The cell at the coordinate cannot take the state asked for.
    SetCellError(Coord),
    /// The rule string was refused by the parser.
    ParseRuleError(ca_rules::ParseRuleError),
}

} // verus!
