//! The content a single grid cell may hold.

use vstd::prelude::*;

verus! {

/// One cell's content. A cell with no entry is passable empty space.
///
/// `Wall` is impassable and never moves; `Block` is a pushable unit with no
/// internal structure; `Parabox(id)` is a pushable unit that is itself a full
/// box, referenced by its id in the world's box list.
#[derive(Clone, Copy, Debug, PartialEq, Eq, Structural)]
pub enum Square {
    Wall,
    Block,
    Parabox(i32),
}

impl Square {
    /// A square that a push chain may pick up and relocate.
    pub open spec fn is_pushable(self) -> bool {
        self is Block || self is Parabox
    }
}

} // verus!
