//! The world: an ordered collection of paraboxes indexed by stable id, plus
//! the avatar's location, together with the invariants that every operation
//! preserves.

use vstd::prelude::*;

use crate::counting::wcnt;
use crate::parabox::BoxView;
use crate::parabox::MAX_BOXES;
use crate::parabox::Parabox;
use crate::parabox::pos_view;
use crate::square::Square;

verus! {

/// Mathematical image of one `LevelConfig`.
#[verifier::ext_equal]
pub ghost struct WorldView {
    pub level: int,
    pub boxes: Seq<BoxView>,
    pub player_pos: (int, (int, int)),
}

impl WorldView {
    pub open spec fn valid_box(self, b: int) -> bool {
        0 <= b < self.boxes.len()
    }

    /// The content of one cell of one box.
    pub open spec fn cell(self, b: int, p: (int, int)) -> Option<Square>
        recommends
            self.valid_box(b),
            self.boxes[b].in_bounds(p),
    {
        self.boxes[b].cell(p)
    }

    /// Each box is locally well-formed, records its own position in the box
    /// list as its id, and names a real box as its container if it has one.
    pub open spec fn boxes_wf(self) -> bool {
        &&& self.boxes.len() <= MAX_BOXES as int
        &&& (forall|i: int|
            0 <= i < self.boxes.len() ==> {
                &&& (#[trigger] self.boxes[i]).wf_dims()
                &&& self.boxes[i].id == i
                &&& (self.boxes[i].outer matches Some(o) ==> 0 <= o < self.boxes.len())
            })
    }

    /// The containment invariant: every `Parabox(id)` cell names a real box
    /// whose `outer` is the box holding that cell, a box with a container is
    /// recorded in exactly one cell world-wide, and a box without one is
    /// recorded nowhere.
    pub open spec fn containment_ok(self) -> bool {
        &&& (forall|bi: int, j: int|
            0 <= bi < self.boxes.len() && 0 <= j < self.boxes[bi].cells.len() ==> ((
            #[trigger] self.boxes[bi].cells[j]) matches Some(Square::Parabox(id)) ==> 0 <= id
                < self.boxes.len() && self.boxes[id as int].outer == Some(bi)))
        &&& (forall|i: int|
            0 <= i < self.boxes.len() ==> wcnt(self.boxes, Square::Parabox(i as i32)) == (
            if (#[trigger] self.boxes[i]).outer is Some {
                1int
            } else {
                0int
            }))
    }

    /// The avatar invariant: the world-level location is in bounds of a real
    /// box, that box records it, and no other box records an avatar.
    pub open spec fn avatar_ok(self) -> bool {
        let (pb, pp) = self.player_pos;
        &&& self.valid_box(pb)
        &&& self.boxes[pb].in_bounds(pp)
        &&& self.boxes[pb].player_pos == Some(pp)
        &&& (forall|i: int|
            0 <= i < self.boxes.len() && i != pb ==> (#[trigger] self.boxes[i]).player_pos
                is None)
    }

    /// Everything that must hold of a world before and after every
    /// operation.
    pub open spec fn wf(self) -> bool {
        self.boxes_wf() && self.containment_ok() && self.avatar_ok()
    }

    /// Following `outer` links from box `i` for `k` steps; `None` once a box
    /// without a container is passed.
    pub open spec fn outer_iter(self, i: int, k: nat) -> Option<int>
        decreases k,
    {
        if k == 0 {
            Some(i)
        } else {
            match self.outer_iter(i, (k - 1) as nat) {
                None => None,
                Some(j) => {
                    if 0 <= j < self.boxes.len() {
                        match self.boxes[j].outer {
                            None => None,
                            Some(o) => Some(o),
                        }
                    } else {
                        None
                    }
                },
            }
        }
    }

    /// Containment has no cycles: from every box, following `outer` links
    /// reaches a box without a container within the box count's steps.
    pub open spec fn acyclic(self) -> bool {
        forall|i: int|
            0 <= i < self.boxes.len() ==> #[trigger] self.outer_iter(i, self.boxes.len() as nat)
                is None
    }

    /// The winning condition over the whole world.
    pub open spec fn solved(self) -> bool {
        forall|i: int| 0 <= i < self.boxes.len() ==> (#[trigger] self.boxes[i]).box_solved()
    }

    /// The parts of the world a push never touches: the box list's length,
    /// and each box's id, size, targets and avatar target.
    pub open spec fn same_skeleton(self, o: WorldView) -> bool {
        &&& self.level == o.level
        &&& self.boxes.len() == o.boxes.len()
        &&& (forall|i: int|
            0 <= i < self.boxes.len() ==> {
                &&& (#[trigger] self.boxes[i]).id == o.boxes[i].id
                &&& self.boxes[i].size == o.boxes[i].size
                &&& self.boxes[i].targets == o.boxes[i].targets
                &&& self.boxes[i].player_target == o.boxes[i].player_target
            })
    }

    /// The avatar bookkeeping is untouched: the world-level location and
    /// every box's recorded avatar position agree.
    pub open spec fn same_avatar(self, o: WorldView) -> bool {
        &&& self.player_pos == o.player_pos
        &&& self.boxes.len() == o.boxes.len()
        &&& (forall|i: int|
            0 <= i < self.boxes.len() ==> (#[trigger] self.boxes[i]).player_pos
                == o.boxes[i].player_pos)
    }

    /// Conservation: every square value occurs in exactly as many cells of
    /// `self` as of `o`.
    pub open spec fn same_counts(self, o: WorldView) -> bool {
        forall|q: Square| #[trigger] wcnt(self.boxes, q) == wcnt(o.boxes, q)
    }

    /// What any state reached while committing a push guarantees relative to
    /// the state `o` before the push: all invariants, the untouched parts
    /// untouched, and every square conserved.
    pub open spec fn consistent_after(self, o: WorldView) -> bool {
        &&& self.wf()
        &&& self.same_skeleton(o)
        &&& self.same_avatar(o)
        &&& self.same_counts(o)
    }
}

/// `consistent_after` composes across successive commit steps.
pub proof fn lemma_consistent_trans(w2: WorldView, w1: WorldView, w0: WorldView)
    requires
        w2.consistent_after(w1),
        w1.consistent_after(w0),
    ensures
        w2.consistent_after(w0),
{
}

/// The world of one loaded level. Owns every `Parabox`; containment is by id
/// only.
#[derive(Debug)]
pub struct LevelConfig {
    pub level: i32,
    pub paraboxes: Vec<Parabox>,
    pub player_pos: (i32, (i32, i32)),
}

impl View for LevelConfig {
    type V = WorldView;

    open spec fn view(&self) -> WorldView {
        WorldView {
            level: self.level as int,
            boxes: self.paraboxes@.map_values(|b: Parabox| b@),
            player_pos: (
                self.player_pos.0 as int,
                (self.player_pos.1.0 as int, self.player_pos.1.1 as int),
            ),
        }
    }
}

impl LevelConfig {
    /// The win evaluator: `true` exactly when every target cell of every box
    /// holds a pushable square and every box with an avatar target has the
    /// avatar standing exactly there.
    pub fn check_win(&self) -> (r: bool)
        requires
            self@.boxes_wf(),
        ensures
            r == self@.solved(),
    {
        let n = self.paraboxes.len();
        let mut i: usize = 0;
        while i < n
            invariant
                self@.boxes_wf(),
                i <= n,
                n == self@.boxes.len(),
                forall|j: int| 0 <= j < i ==> (#[trigger] self@.boxes[j]).box_solved(),
            decreases n - i,
        {
            proof {
                assert(self@.boxes[i as int] == self.paraboxes@[i as int]@);
            }
            if !self.paraboxes[i].check_win() {
                return false;
            }
            i = i + 1;
        }
        true
    }
}

} // verus!
