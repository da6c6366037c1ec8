//! One rectangular grid of the world: fixed size, dense cell storage,
//! optional link to the box that contains it, targets, and bookkeeping for
//! the avatar standing in it.

use vstd::prelude::*;

use crate::square::Square;

verus! {

/// Upper bound on a box dimension, so that index arithmetic stays far from
/// machine limits.
pub const MAX_DIM: i32 = 10_000;

/// Upper bound on the number of boxes in one world, so that box ids stay far
/// from machine limits.
pub const MAX_BOXES: i32 = 10_000;

/// Mathematical image of one `Parabox`.
#[verifier::ext_equal]
pub ghost struct BoxView {
    pub id: int,
    pub outer: Option<int>,
    pub size: (int, int),
    pub cells: Seq<Option<Square>>,
    pub player_pos: Option<(int, int)>,
    pub player_target: Option<(int, int)>,
    pub targets: Seq<(int, int)>,
}

/// View of an executable coordinate pair.
pub open spec fn pos_view(p: (i32, i32)) -> (int, int) {
    (p.0 as int, p.1 as int)
}

/// View of an optional executable coordinate pair.
pub open spec fn opt_pos_view(p: Option<(i32, i32)>) -> Option<(int, int)> {
    match p {
        None => None,
        Some(q) => Some(pos_view(q)),
    }
}

/// View of an optional executable box id.
pub open spec fn opt_id_view(o: Option<i32>) -> Option<int> {
    match o {
        None => None,
        Some(i) => Some(i as int),
    }
}

impl BoxView {
    /// The coordinate lies on this box's grid.
    pub open spec fn in_bounds(self, p: (int, int)) -> bool {
        0 <= p.0 < self.size.0 && 0 <= p.1 < self.size.1
    }

    /// Row-major position of a coordinate in the dense cell sequence.
    pub open spec fn idx(self, p: (int, int)) -> int {
        p.0 * self.size.1 + p.1
    }

    /// The content of one cell; `None` is passable empty space.
    pub open spec fn cell(self, p: (int, int)) -> Option<Square>
        recommends
            self.in_bounds(p),
    {
        self.cells[self.idx(p)]
    }

    /// Local well-formedness: dimensions in range, dense storage of the right
    /// length, and every recorded coordinate on the grid.
    pub open spec fn wf_dims(self) -> bool {
        &&& 1 <= self.size.0 <= MAX_DIM as int
        &&& 1 <= self.size.1 <= MAX_DIM as int
        &&& self.cells.len() == self.size.0 * self.size.1
        &&& (forall|i: int| 0 <= i < self.targets.len() ==> self.in_bounds(#[trigger] self.targets[i]))
        &&& (self.player_target matches Some(t) ==> self.in_bounds(t))
        &&& (self.player_pos matches Some(p) ==> self.in_bounds(p))
    }

    /// The cell holds a pushable square, which is what covers a target.
    pub open spec fn covered(self, p: (int, int)) -> bool {
        self.cell(p) matches Some(sq) && sq.is_pushable()
    }

    /// The box's own part of the winning condition: every target covered, and
    /// the avatar standing on the avatar target if one is set.
    pub open spec fn box_solved(self) -> bool {
        &&& (self.player_target matches Some(t) ==> self.player_pos == Some(t))
        &&& (forall|i: int| 0 <= i < self.targets.len() ==> self.covered(#[trigger] self.targets[i]))
    }

    /// The coordinate, one step outside the box, at which a push in direction
    /// `dir` enters it: the midpoint of the edge facing the incoming push.
    pub open spec fn enter_point(self, dir: (int, int)) -> (int, int) {
        if dir == (1int, 0int) {
            (-1, self.size.1 / 2)
        } else if dir == (-1int, 0int) {
            (self.size.0, self.size.1 / 2)
        } else if dir == (0int, 1int) {
            (self.size.0 / 2, -1)
        } else {
            (self.size.0 / 2, self.size.1)
        }
    }
}

/// Proof that two in-bounds coordinates with one dense index are one
/// coordinate.
pub proof fn lemma_idx_injective(b: BoxView, p: (int, int), q: (int, int))
    requires
        b.in_bounds(p),
        b.in_bounds(q),
        b.idx(p) == b.idx(q),
    ensures
        p == q,
{
    assert(p.0 == q.0 && p.1 == q.1) by (nonlinear_arith)
        requires
            0 <= p.0 && 0 <= p.1 < b.size.1 && 0 <= q.0 && 0 <= q.1 < b.size.1 && p.0 * b.size.1
                + p.1 == q.0 * b.size.1 + q.1,
    ;
}

/// Proof that the dense index of an in-bounds coordinate lies inside the cell
/// sequence.
pub proof fn lemma_idx_in_range(b: BoxView, p: (int, int))
    requires
        b.wf_dims(),
        b.in_bounds(p),
    ensures
        0 <= b.idx(p) < b.cells.len(),
{
    assert(0 <= p.0 * b.size.1 + p.1 < b.size.0 * b.size.1) by (nonlinear_arith)
        requires
            0 <= p.0 < b.size.0 && 0 <= p.1 < b.size.1,
    ;
}

/// Every dense index is the index of exactly the coordinate recovered by
/// division and remainder.
pub proof fn lemma_index_to_pos(b: BoxView, j: int)
    requires
        b.wf_dims(),
        0 <= j < b.cells.len(),
    ensures
        b.in_bounds((j / b.size.1, j % b.size.1)),
        b.idx((j / b.size.1, j % b.size.1)) == j,
{
    assert((j / b.size.1) * b.size.1 + j % b.size.1 == j && 0 <= j % b.size.1 < b.size.1 && 0
        <= j / b.size.1 < b.size.0) by (nonlinear_arith)
        requires
            1 <= b.size.1 && 0 <= j < b.size.0 * b.size.1,
    ;
}

/// Writing one cell, seen at position level: the written coordinate holds
/// the new value and every other coordinate is untouched.
pub proof fn lemma_box_cell_update(b0: BoxView, p0: (int, int), v: Option<Square>)
    requires
        b0.wf_dims(),
        b0.in_bounds(p0),
    ensures
        ({
            let b1 = BoxView { cells: b0.cells.update(b0.idx(p0), v), ..b0 };
            forall|p: (int, int)|
                b0.in_bounds(p) ==> #[trigger] b1.cell(p) == (if p == p0 {
                    v
                } else {
                    b0.cell(p)
                })
        }),
{
    let b1 = BoxView { cells: b0.cells.update(b0.idx(p0), v), ..b0 };
    lemma_idx_in_range(b0, p0);
    assert forall|p: (int, int)| b0.in_bounds(p) implies #[trigger] b1.cell(p) == (if p == p0 {
        v
    } else {
        b0.cell(p)
    }) by {
        lemma_idx_in_range(b0, p);
        if p != p0 && b0.idx(p) == b0.idx(p0) {
            lemma_idx_injective(b0, p, p0);
        }
    }
}

/// One rectangular grid. Containment is by id reference only: a `Parabox`
/// never owns another `Parabox`.
#[derive(Debug)]
pub struct Parabox {
    pub id: i32,
    pub outer: Option<i32>,
    pub size: (i32, i32),
    pub cells: Vec<Option<Square>>,
    pub player_pos: Option<(i32, i32)>,
    pub player_target: Option<(i32, i32)>,
    pub targets: Vec<(i32, i32)>,
}

impl View for Parabox {
    type V = BoxView;

    open spec fn view(&self) -> BoxView {
        BoxView {
            id: self.id as int,
            outer: opt_id_view(self.outer),
            size: (self.size.0 as int, self.size.1 as int),
            cells: self.cells@,
            player_pos: opt_pos_view(self.player_pos),
            player_target: opt_pos_view(self.player_target),
            targets: self.targets@.map_values(|p: (i32, i32)| pos_view(p)),
        }
    }
}

impl Parabox {
    /// A fresh box of the given size: all cells empty, no outer box, no
    /// targets, no avatar.
    pub fn new(id: i32, size: (i32, i32)) -> (r: Parabox)
        requires
            1 <= size.0 <= MAX_DIM,
            1 <= size.1 <= MAX_DIM,
        ensures
            r@ == (BoxView {
                id: id as int,
                outer: None,
                size: (size.0 as int, size.1 as int),
                cells: Seq::new((size.0 * size.1) as nat, |i: int| None),
                player_pos: None,
                player_target: None,
                targets: Seq::empty(),
            }),
            r@.wf_dims(),
    {
        proof {
            assert((size.0 as int) * (size.1 as int) <= MAX_DIM as int * MAX_DIM as int)
                by (nonlinear_arith)
                requires
                    1 <= size.0 <= MAX_DIM as int && 1 <= size.1 <= MAX_DIM as int,
            ;
        }
        let n: usize = (size.0 as usize) * (size.1 as usize);
        let mut cells: Vec<Option<Square>> = Vec::new();
        let mut i: usize = 0;
        while i < n
            invariant
                i <= n,
                cells@ =~= Seq::new(i as nat, |j: int| None::<Square>),
            decreases n - i,
        {
            cells.push(None);
            i = i + 1;
        }
        proof {
            assert(n == size.0 * size.1) by (nonlinear_arith)
                requires
                    1 <= size.0 <= MAX_DIM && 1 <= size.1 <= MAX_DIM && n == (
                    size.0 as usize) * (size.1 as usize),
            ;
        }
        let r = Parabox {
            id,
            outer: None,
            size,
            cells,
            player_pos: None,
            player_target: None,
            targets: Vec::new(),
        };
        proof {
            assert(r@.targets =~= Seq::<(int, int)>::empty());
            assert(r@ =~= (BoxView {
                id: id as int,
                outer: None,
                size: (size.0 as int, size.1 as int),
                cells: Seq::new((size.0 * size.1) as nat, |i: int| None),
                player_pos: None,
                player_target: None,
                targets: Seq::empty(),
            }));
        }
        r
    }

    /// The executable bounds test.
    pub fn check_inbounds(&self, p: (i32, i32)) -> (r: bool)
        ensures
            r == self@.in_bounds(pos_view(p)),
    {
        p.0 >= 0 && p.1 >= 0 && p.0 < self.size.0 && p.1 < self.size.1
    }

    /// Dense index of an in-bounds coordinate.
    fn index_of(&self, p: (i32, i32)) -> (r: usize)
        requires
            self@.wf_dims(),
            self@.in_bounds(pos_view(p)),
        ensures
            r == self@.idx(pos_view(p)),
            r < self.cells.len(),
    {
        proof {
            lemma_idx_in_range(self@, pos_view(p));
            assert((p.0 as int) * (self.size.1 as int) + (p.1 as int) < MAX_DIM as int
                * MAX_DIM as int) by (nonlinear_arith)
                requires
                    0 <= p.0 < self.size.0 <= MAX_DIM as int && 0 <= p.1 < self.size.1
                        <= MAX_DIM as int,
            ;
        }
        (p.0 as usize) * (self.size.1 as usize) + (p.1 as usize)
    }

    /// Read one cell.
    pub fn find_at(&self, x: i32, y: i32) -> (r: Option<Square>)
        requires
            self@.wf_dims(),
            self@.in_bounds((x as int, y as int)),
        ensures
            r == self@.cell((x as int, y as int)),
    {
        let i = self.index_of((x, y));
        self.cells[i]
    }

    /// Write one cell.
    pub fn add_square(&mut self, p: (i32, i32), sq: Square)
        requires
            old(self)@.wf_dims(),
            old(self)@.in_bounds(pos_view(p)),
        ensures
            final(self)@ == (BoxView {
                cells: old(self)@.cells.update(old(self)@.idx(pos_view(p)), Some(sq)),
                ..old(self)@
            }),
    {
        let i = self.index_of(p);
        self.cells.set(i, Some(sq));
    }

    /// Clear one cell.
    pub fn remove_square(&mut self, p: (i32, i32))
        requires
            old(self)@.wf_dims(),
            old(self)@.in_bounds(pos_view(p)),
        ensures
            final(self)@ == (BoxView {
                cells: old(self)@.cells.update(old(self)@.idx(pos_view(p)), None),
                ..old(self)@
            }),
    {
        let i = self.index_of(p);
        self.cells.set(i, None);
    }

    /// Record or clear the avatar's position in this box.
    pub fn set_player_pos(&mut self, p: Option<(i32, i32)>)
        ensures
            final(self)@ == (BoxView { player_pos: opt_pos_view(p), ..old(self)@ }),
    {
        self.player_pos = p;
    }

    /// Set the cell the avatar itself must reach.
    pub fn set_player_target(&mut self, x: i32, y: i32)
        ensures
            final(self)@ == (BoxView {
                player_target: Some((x as int, y as int)),
                ..old(self)@
            }),
    {
        self.player_target = Some((x, y));
    }

    /// Add a cell that must be covered for the level to be solved.
    pub fn add_target(&mut self, x: i32, y: i32)
        ensures
            final(self)@ == (BoxView {
                targets: old(self)@.targets.push((x as int, y as int)),
                ..old(self)@
            }),
    {
        self.targets.push((x, y));
        proof {
            assert(self@.targets =~= old(self)@.targets.push((x as int, y as int)));
        }
    }

    /// The entry coordinate for a push in direction `dir`, one step outside
    /// the box so that the escape procedure of the next resolution step lands
    /// it on the boundary row or column.
    pub fn enter_from(&self, dir: (i32, i32)) -> (r: (i32, i32))
        requires
            self@.wf_dims(),
            dir == (1i32, 0i32) || dir == (-1i32, 0i32) || dir == (0i32, 1i32) || dir == (
            0i32,
            -1i32,
            ),
        ensures
            pos_view(r) == self@.enter_point((dir.0 as int, dir.1 as int)),
    {
        if dir.0 == 1 && dir.1 == 0 {
            (-1, self.size.1 / 2)
        } else if dir.0 == -1 && dir.1 == 0 {
            (self.size.0, self.size.1 / 2)
        } else if dir.0 == 0 && dir.1 == 1 {
            (self.size.0 / 2, -1)
        } else {
            (self.size.0 / 2, self.size.1)
        }
    }

    /// Whether this box, taken alone, meets the winning condition: every
    /// target covered by a pushable square, and the avatar on the avatar
    /// target if this box has one.
    pub fn check_win(&self) -> (r: bool)
        requires
            self@.wf_dims(),
        ensures
            r == self@.box_solved(),
    {
        if let Some(t) = self.player_target {
            match self.player_pos {
                Some(p) => {
                    if p.0 != t.0 || p.1 != t.1 {
                        return false;
                    }
                },
                None => {
                    return false;
                },
            }
        }
        let n = self.targets.len();
        let mut i: usize = 0;
        while i < n
            invariant
                self@.wf_dims(),
                i <= n,
                n == self@.targets.len(),
                forall|j: int| 0 <= j < i ==> self@.covered(#[trigger] self@.targets[j]),
            decreases n - i,
        {
            let t = self.targets[i];
            proof {
                assert(self@.targets[i as int] == pos_view(self.targets@[i as int]));
            }
            match self.find_at(t.0, t.1) {
                Some(Square::Block) => (),
                Some(Square::Parabox(_)) => (),
                _ => {
                    assert(!self@.covered(self@.targets[i as int]));
                    return false;
                },
            }
            i = i + 1;
        }
        true
    }

    /// Scan this box for the unique cell recording box `id` as contained
    /// here. `Err` means no such cell exists, which on a well-formed world is
    /// a structural defect of the level.
    pub fn find_box(&self, id: i32) -> (r: Result<(i32, i32), ()>)
        requires
            self@.wf_dims(),
        ensures
            match r {
                Ok(p) => self@.in_bounds(pos_view(p)) && self@.cell(pos_view(p)) == Some(
                    Square::Parabox(id),
                ),
                Err(()) => forall|p: (int, int)|
                    self@.in_bounds(p) ==> self@.cell(p) != Some(Square::Parabox(id)),
            },
    {
        let mut x: i32 = 0;
        while x < self.size.0
            invariant
                self@.wf_dims(),
                0 <= x <= self@.size.0,
                forall|p: (int, int)|
                    self@.in_bounds(p) && p.0 < x ==> self@.cell(p) != Some(Square::Parabox(id)),
            decreases self@.size.0 - x,
        {
            let mut y: i32 = 0;
            while y < self.size.1
                invariant
                    self@.wf_dims(),
                    0 <= x < self@.size.0,
                    0 <= y <= self@.size.1,
                    forall|p: (int, int)|
                        self@.in_bounds(p) && p.0 < x ==> self@.cell(p) != Some(
                            Square::Parabox(id),
                        ),
                    forall|p: (int, int)|
                        self@.in_bounds(p) && p.0 == x && p.1 < y ==> self@.cell(p) != Some(
                            Square::Parabox(id),
                        ),
                decreases self@.size.1 - y,
            {
                match self.find_at(x, y) {
                    Some(Square::Parabox(b)) => {
                        if b == id {
                            return Ok((x, y));
                        }
                    },
                    _ => (),
                }
                y = y + 1;
            }
            x = x + 1;
        }
        Err(())
    }
}

} // verus!
