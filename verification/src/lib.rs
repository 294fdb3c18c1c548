//! Compilation of cardinality-constraint theories into linear inequality
//! systems, equivalence-preserving merging of inequality pairs, and exact
//! integer linear optimization over bounded integer variables.

use vstd::prelude::*;

pub mod lineq;
pub mod solver;
pub mod theory;
pub mod variable;

verus! {

/// Errors detected while registering variables or compiling a theory.
#[derive(Clone, Copy, Debug, PartialEq, Eq, Structural)]
pub enum TheoryError {
    /// The same variable id was registered twice with different bounds.
    ConflictingBounds,
    /// A statement's expression transitively depends on its own variable.
    CyclicTheory,
    /// An expression references a variable id no statement defines.
    UnknownOperand,
    /// Paired sequences of a constraint or polyhedron differ in length,
    /// or a constraint repeats a variable id.
    DimensionMismatch,
}

} // verus!
