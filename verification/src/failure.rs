//! The ways in which a run can end early.

use vstd::prelude::*;

verus! {

/// Why a run was given up. That nothing is stored yet is none of these: it
/// stands for the empty table.
#[derive(Clone, Copy, Debug, PartialEq, Eq, Structural)]
pub enum Failure {
    /// What is stored cannot be read as a usage table.
    Corruption,
    /// The enumerator or the picker could not be run to its end.
    SubprocessFailure,
    /// The table could not be written out.
    WriteFailure,
}

} // verus!
