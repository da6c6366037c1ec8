//! The two error kinds of the library. A rejected but well-formed move is
//! not an error: it is the ordinary `false` result of a shift.

use vstd::prelude::*;

verus! {

/// A malformed level description, reported before any world is built.
#[derive(Clone, Copy, Debug, PartialEq, Eq, Structural)]
pub enum ValidationError {
    /// A box dimension is zero, negative, or beyond the supported maximum,
    /// or the description holds more boxes than the supported maximum.
    BadSize,
    /// A wall, block, contained box, target or avatar target lies outside
    /// its box's grid.
    OutOfBounds,
    /// Two placements name the same cell of the same box.
    DuplicateCell,
    /// An `outer` or contained-box reference names no box of the list.
    DanglingId,
    /// A box's `outer` link and the contained-box placements disagree: a box
    /// is placed nowhere, twice, or in a box other than its `outer`.
    ContainmentMismatch,
    /// Following `outer` links from some box never reaches a top-level box.
    ContainmentCycle,
    /// The avatar's starting box or coordinate does not exist.
    BadAvatar,
}

/// A world invariant assumed true at runtime was found broken while
/// resolving a push: the sign of a corrupted world or of a level defect that
/// passed validation. Fatal to the move; never silently ignored.
#[derive(Clone, Copy, Debug, PartialEq, Eq, Structural)]
pub enum StructuralError {
    /// A push escaped a box that has no enclosing box.
    MissingOuter,
    /// A box names an enclosing box that records it in none of its cells.
    MissingRecord,
    /// Escapes or push-chain steps exceeded the bound any acyclic world
    /// obeys.
    DepthLimit,
    /// Cell contents changed inconsistently while a push was being
    /// committed.
    CorruptChain,
}

} // verus!
