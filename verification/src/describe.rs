//! Plain-value level descriptions and their validation: the input the
//! level-loading collaborator hands over, checked in full before any world
//! is built.

use vstd::prelude::*;

use crate::counting::wcnt;
use crate::level::LevelConfig;
use crate::level::WorldView;
use crate::parabox::BoxView;
use crate::parabox::MAX_BOXES;
use crate::parabox::MAX_DIM;
use crate::parabox::Parabox;
use crate::parabox::lemma_box_cell_update;
use crate::parabox::lemma_idx_in_range;
use crate::parabox::lemma_index_to_pos;
use crate::parabox::opt_id_view;
use crate::parabox::opt_pos_view;
use crate::parabox::pos_view;
use crate::errors::ValidationError;
use crate::square::Square;

verus! {

/// One box of a level description, in plain values.
pub struct BoxDescription {
    pub size: (i32, i32),
    pub outer: Option<i32>,
    pub walls: Vec<(i32, i32)>,
    pub blocks: Vec<(i32, i32)>,
    pub boxes: Vec<((i32, i32), i32)>,
    pub targets: Vec<(i32, i32)>,
    pub player_target: Option<(i32, i32)>,
}

/// A whole level description: the box list and the avatar's starting
/// location as `(box id, (x, y))`.
pub struct LevelDescription {
    pub boxes: Vec<BoxDescription>,
    pub player_pos: (i32, (i32, i32)),
}

/// The coordinate lies on a grid of the given size.
pub open spec fn fits(size: (i32, i32), p: (i32, i32)) -> bool {
    0 <= p.0 < size.0 && 0 <= p.1 < size.1
}

/// Some contained-box entry of the description names this coordinate.
pub open spec fn box_entry_at(bd: BoxDescription, p: (i32, i32)) -> bool {
    exists|k: int| 0 <= k < bd.boxes@.len() && (#[trigger] bd.boxes@[k]).0 == p
}

/// The content one described box assigns to one coordinate.
pub open spec fn desc_cell(bd: BoxDescription, p: (i32, i32)) -> Option<Square> {
    if bd.walls@.contains(p) {
        Some(Square::Wall)
    } else if bd.blocks@.contains(p) {
        Some(Square::Block)
    } else if box_entry_at(bd, p) {
        let k = choose|k: int| 0 <= k < bd.boxes@.len() && (#[trigger] bd.boxes@[k]).0 == p;
        Some(Square::Parabox(bd.boxes@[k].1))
    } else {
        None
    }
}

/// Everything that must hold of one described box: dimensions in range, all
/// placements on the grid and pairwise distinct, and every contained-box
/// entry naming a real box whose `outer` is this box.
pub open spec fn dbox_wf(d: LevelDescription, i: int) -> bool {
    let bd = d.boxes@[i];
    &&& 1 <= bd.size.0 <= MAX_DIM && 1 <= bd.size.1 <= MAX_DIM
    &&& (forall|k: int| 0 <= k < bd.walls@.len() ==> fits(bd.size, #[trigger] bd.walls@[k]))
    &&& (forall|k: int| 0 <= k < bd.blocks@.len() ==> fits(bd.size, #[trigger] bd.blocks@[k]))
    &&& (forall|k: int|
        0 <= k < bd.boxes@.len() ==> fits(bd.size, (#[trigger] bd.boxes@[k]).0))
    &&& (forall|k: int|
        0 <= k < bd.targets@.len() ==> fits(bd.size, #[trigger] bd.targets@[k]))
    &&& (bd.player_target matches Some(t) ==> fits(bd.size, t))
    &&& (bd.outer matches Some(o) ==> 0 <= o < d.boxes@.len())
    &&& (forall|a: int, b: int|
        0 <= a < b < bd.walls@.len() ==> #[trigger] bd.walls@[a] != #[trigger] bd.walls@[b])
    &&& (forall|a: int, b: int|
        0 <= a < b < bd.blocks@.len() ==> #[trigger] bd.blocks@[a]
            != #[trigger] bd.blocks@[b])
    &&& (forall|a: int, b: int|
        0 <= a < b < bd.boxes@.len() ==> (#[trigger] bd.boxes@[a]).0 != (
        #[trigger] bd.boxes@[b]).0)
    &&& (forall|k: int|
        0 <= k < bd.walls@.len() ==> !bd.blocks@.contains(#[trigger] bd.walls@[k])
            && !box_entry_at(bd, bd.walls@[k]))
    &&& (forall|k: int|
        0 <= k < bd.blocks@.len() ==> !box_entry_at(bd, #[trigger] bd.blocks@[k]))
    &&& (forall|k: int|
        0 <= k < bd.boxes@.len() ==> 0 <= (#[trigger] bd.boxes@[k]).1 < d.boxes@.len()
            && d.boxes@[bd.boxes@[k].1 as int].outer == Some(i as i32))
    &&& (forall|a: int, b: int|
        0 <= a < b < bd.boxes@.len() ==> (#[trigger] bd.boxes@[a]).1 != (
        #[trigger] bd.boxes@[b]).1)
}

/// A box that names an enclosing box is recorded by some contained-box
/// entry of that enclosing box.
pub open spec fn recorded_in_outer(d: LevelDescription, i: int) -> bool {
    d.boxes@[i].outer matches Some(o) ==> exists|k: int|
        0 <= k < d.boxes@[o as int].boxes@.len() && (#[trigger] d.boxes@[o as int].boxes@[k]).1
            == i as i32
}

/// Following described `outer` links from box `i` for `k` steps.
pub open spec fn desc_outer_iter(d: LevelDescription, i: int, k: nat) -> Option<int>
    decreases k,
{
    if k == 0 {
        Some(i)
    } else {
        match desc_outer_iter(d, i, (k - 1) as nat) {
            None => None,
            Some(j) => {
                if 0 <= j < d.boxes@.len() {
                    match d.boxes@[j].outer {
                        None => None,
                        Some(o) => Some(o as int),
                    }
                } else {
                    None
                }
            },
        }
    }
}

/// Described containment has no cycles.
pub open spec fn desc_acyclic(d: LevelDescription) -> bool {
    forall|i: int|
        0 <= i < d.boxes@.len() ==> #[trigger] desc_outer_iter(d, i, d.boxes@.len() as nat)
            is None
}

/// The avatar's described starting location names a real box and an
/// in-bounds coordinate.
pub open spec fn avatar_desc_ok(d: LevelDescription) -> bool {
    0 <= d.player_pos.0 < d.boxes@.len() && fits(
        d.boxes@[d.player_pos.0 as int].size,
        d.player_pos.1,
    )
}

/// A valid level description: one a world can be built from.
pub open spec fn desc_wf(d: LevelDescription) -> bool {
    &&& d.boxes@.len() <= MAX_BOXES as int
    &&& (forall|i: int| 0 <= i < d.boxes@.len() ==> #[trigger] dbox_wf(d, i))
    &&& (forall|i: int| 0 <= i < d.boxes@.len() ==> #[trigger] recorded_in_outer(d, i))
    &&& desc_acyclic(d)
    &&& avatar_desc_ok(d)
}

impl LevelDescription {
    /// Everything `validate` checks of one box: `Ok` exactly when box `i`
    /// is well described and, if contained, recorded in its container.
    fn check_one_box(&self, i: usize) -> (r: Result<(), ValidationError>)
        requires
            i < self.boxes@.len(),
        ensures
            r is Ok <==> (dbox_wf(*self, i as int) && recorded_in_outer(*self, i as int)),
    {
        let bd = &self.boxes[i];
        let n = self.boxes.len();
        if !(bd.size.0 >= 1 && bd.size.0 <= MAX_DIM && bd.size.1 >= 1 && bd.size.1 <= MAX_DIM) {
            return Err(ValidationError::BadSize);
        }
        let mut k: usize = 0;
        while k < bd.walls.len()
            invariant
                *bd == self.boxes@[i as int],
                k <= bd.walls@.len(),
                forall|j: int| 0 <= j < k ==> fits(bd.size, #[trigger] bd.walls@[j]),
            decreases bd.walls@.len() - k,
        {
            let p = bd.walls[k];
            if !(p.0 >= 0 && p.1 >= 0 && p.0 < bd.size.0 && p.1 < bd.size.1) {
                return Err(ValidationError::OutOfBounds);
            }
            k = k + 1;
        }
        let mut k: usize = 0;
        while k < bd.blocks.len()
            invariant
                *bd == self.boxes@[i as int],
                k <= bd.blocks@.len(),
                forall|j: int| 0 <= j < k ==> fits(bd.size, #[trigger] bd.blocks@[j]),
            decreases bd.blocks@.len() - k,
        {
            let p = bd.blocks[k];
            if !(p.0 >= 0 && p.1 >= 0 && p.0 < bd.size.0 && p.1 < bd.size.1) {
                return Err(ValidationError::OutOfBounds);
            }
            k = k + 1;
        }
        let mut k: usize = 0;
        while k < bd.boxes.len()
            invariant
                *bd == self.boxes@[i as int],
                n == self.boxes@.len(),
                k <= bd.boxes@.len(),
                forall|j: int|
                    0 <= j < k ==> fits(bd.size, (#[trigger] bd.boxes@[j]).0) && 0
                        <= bd.boxes@[j].1 < n && self.boxes@[bd.boxes@[j].1 as int].outer
                        == Some(i as i32),
            decreases bd.boxes@.len() - k,
        {
            let (p, id) = bd.boxes[k];
            if !(p.0 >= 0 && p.1 >= 0 && p.0 < bd.size.0 && p.1 < bd.size.1) {
                return Err(ValidationError::OutOfBounds);
            }
            if !(id >= 0 && (id as usize) < n) {
                return Err(ValidationError::DanglingId);
            }
            let matches_outer = match self.boxes[id as usize].outer {
                Some(o) => o == i as i32,
                None => false,
            };
            if !matches_outer {
                return Err(ValidationError::ContainmentMismatch);
            }
            k = k + 1;
        }
        let mut k: usize = 0;
        while k < bd.targets.len()
            invariant
                *bd == self.boxes@[i as int],
                k <= bd.targets@.len(),
                forall|j: int| 0 <= j < k ==> fits(bd.size, #[trigger] bd.targets@[j]),
            decreases bd.targets@.len() - k,
        {
            let p = bd.targets[k];
            if !(p.0 >= 0 && p.1 >= 0 && p.0 < bd.size.0 && p.1 < bd.size.1) {
                return Err(ValidationError::OutOfBounds);
            }
            k = k + 1;
        }
        if let Some(t) = bd.player_target {
            if !(t.0 >= 0 && t.1 >= 0 && t.0 < bd.size.0 && t.1 < bd.size.1) {
                return Err(ValidationError::OutOfBounds);
            }
        }
        match bd.outer {
            Some(o) => {
                if !(o >= 0 && (o as usize) < n) {
                    return Err(ValidationError::DanglingId);
                }
            },
            None => (),
        }
        // pairwise distinctness within each placement list
        let mut a: usize = 0;
        while a < bd.walls.len()
            invariant
                *bd == self.boxes@[i as int],
                a <= bd.walls@.len(),
                forall|x: int, y: int|
                    0 <= x < y < bd.walls@.len() && x < a ==> #[trigger] bd.walls@[x]
                        != #[trigger] bd.walls@[y],
            decreases bd.walls@.len() - a,
        {
            let mut b: usize = a + 1;
            while b < bd.walls.len()
                invariant
                    *bd == self.boxes@[i as int],
                    a < b <= bd.walls@.len(),
                    forall|y: int|
                        a < y < b ==> #[trigger] bd.walls@[y] != bd.walls@[a as int],
                decreases bd.walls@.len() - b,
            {
                let x = bd.walls[a];
                let y = bd.walls[b];
                if x.0 == y.0 && x.1 == y.1 {
                    return Err(ValidationError::DuplicateCell);
                }
                b = b + 1;
            }
            a = a + 1;
        }
        let mut a: usize = 0;
        while a < bd.blocks.len()
            invariant
                *bd == self.boxes@[i as int],
                a <= bd.blocks@.len(),
                forall|x: int, y: int|
                    0 <= x < y < bd.blocks@.len() && x < a ==> #[trigger] bd.blocks@[x]
                        != #[trigger] bd.blocks@[y],
            decreases bd.blocks@.len() - a,
        {
            let mut b: usize = a + 1;
            while b < bd.blocks.len()
                invariant
                    *bd == self.boxes@[i as int],
                    a < b <= bd.blocks@.len(),
                    forall|y: int|
                        a < y < b ==> #[trigger] bd.blocks@[y] != bd.blocks@[a as int],
                decreases bd.blocks@.len() - b,
            {
                let x = bd.blocks[a];
                let y = bd.blocks[b];
                if x.0 == y.0 && x.1 == y.1 {
                    return Err(ValidationError::DuplicateCell);
                }
                b = b + 1;
            }
            a = a + 1;
        }
        let mut a: usize = 0;
        while a < bd.boxes.len()
            invariant
                *bd == self.boxes@[i as int],
                a <= bd.boxes@.len(),
                forall|x: int, y: int|
                    0 <= x < y < bd.boxes@.len() && x < a ==> (#[trigger] bd.boxes@[x]).0 != (
                    #[trigger] bd.boxes@[y]).0 && bd.boxes@[x].1 != bd.boxes@[y].1,
            decreases bd.boxes@.len() - a,
        {
            let mut b: usize = a + 1;
            while b < bd.boxes.len()
                invariant
                    *bd == self.boxes@[i as int],
                    a < b <= bd.boxes@.len(),
                    forall|y: int|
                        a < y < b ==> (#[trigger] bd.boxes@[y]).0 != bd.boxes@[a as int].0
                            && bd.boxes@[y].1 != bd.boxes@[a as int].1,
                decreases bd.boxes@.len() - b,
            {
                let x = bd.boxes[a];
                let y = bd.boxes[b];
                if x.0.0 == y.0.0 && x.0.1 == y.0.1 {
                    return Err(ValidationError::DuplicateCell);
                }
                if x.1 == y.1 {
                    return Err(ValidationError::ContainmentMismatch);
                }
                b = b + 1;
            }
            a = a + 1;
        }
        // no coordinate in two different lists
        let mut k: usize = 0;
        while k < bd.walls.len()
            invariant
                *bd == self.boxes@[i as int],
                k <= bd.walls@.len(),
                forall|j: int|
                    0 <= j < k ==> !bd.blocks@.contains(#[trigger] bd.walls@[j])
                        && !box_entry_at(*bd, bd.walls@[j]),
            decreases bd.walls@.len() - k,
        {
            let p = bd.walls[k];
            if contains_pos(&bd.blocks, p) || contains_box_pos(&bd.boxes, p) {
                return Err(ValidationError::DuplicateCell);
            }
            k = k + 1;
        }
        let mut k: usize = 0;
        while k < bd.blocks.len()
            invariant
                *bd == self.boxes@[i as int],
                k <= bd.blocks@.len(),
                forall|j: int| 0 <= j < k ==> !box_entry_at(*bd, #[trigger] bd.blocks@[j]),
            decreases bd.blocks@.len() - k,
        {
            let p = bd.blocks[k];
            if contains_box_pos(&bd.boxes, p) {
                return Err(ValidationError::DuplicateCell);
            }
            k = k + 1;
        }
        // a contained box is recorded in its container
        match bd.outer {
            Some(o) => {
                if !contains_box_id(&self.boxes[o as usize].boxes, i as i32) {
                    return Err(ValidationError::ContainmentMismatch);
                }
            },
            None => (),
        }
        Ok(())
    }

    /// Validate a whole description: `Ok` exactly when a well-formed world
    /// can be built from it, `Err` naming the first defect found.
    pub fn validate(&self) -> (r: Result<(), ValidationError>)
        ensures
            r is Ok <==> desc_wf(*self),
    {
        let n = self.boxes.len();
        if n > MAX_BOXES as usize {
            return Err(ValidationError::BadSize);
        }
        let mut i: usize = 0;
        while i < n
            invariant
                n == self.boxes@.len(),
                forall|j: int| 0 <= j < i ==> #[trigger] dbox_wf(*self, j),
                forall|j: int| 0 <= j < i ==> #[trigger] recorded_in_outer(*self, j),
            decreases n - i,
        {
            match self.check_one_box(i) {
                Err(e) => {
                    return Err(e);
                },
                Ok(()) => (),
            }
            i = i + 1;
        }
        // containment has no cycles
        let mut i: usize = 0;
        while i < n
            invariant
                n == self.boxes@.len(),
                n <= MAX_BOXES as usize,
                forall|j: int| 0 <= j < n ==> #[trigger] dbox_wf(*self, j),
                forall|j: int| 0 <= j < n ==> #[trigger] recorded_in_outer(*self, j),
                forall|j: int|
                    0 <= j < i ==> #[trigger] desc_outer_iter(*self, j, n as nat) is None,
            decreases n - i,
        {
            let mut cur: Option<i32> = Some(i as i32);
            let mut k: usize = 0;
            while k < n
                invariant
                    n == self.boxes@.len(),
                    n <= MAX_BOXES as usize,
                    i < n,
                    k <= n,
                    forall|j: int| 0 <= j < n ==> #[trigger] dbox_wf(*self, j),
                    match cur {
                        Some(c) => 0 <= c < n && desc_outer_iter(*self, i as int, k as nat)
                            == Some(c as int),
                        None => desc_outer_iter(*self, i as int, k as nat) is None,
                    },
                decreases n - k,
            {
                match cur {
                    None => (),
                    Some(c) => {
                        proof {
                            assert(dbox_wf(*self, c as int));
                        }
                        cur = self.boxes[c as usize].outer;
                    },
                }
                k = k + 1;
            }
            if cur.is_some() {
                return Err(ValidationError::ContainmentCycle);
            }
            i = i + 1;
        }
        // the avatar starts on a real box, in bounds
        let pb = self.player_pos.0;
        if !(pb >= 0 && (pb as usize) < n) {
            return Err(ValidationError::BadAvatar);
        }
        let pp = self.player_pos.1;
        let bsize = self.boxes[pb as usize].size;
        if !(pp.0 >= 0 && pp.1 >= 0 && pp.0 < bsize.0 && pp.1 < bsize.1) {
            return Err(ValidationError::BadAvatar);
        }
        Ok(())
    }
}

/// Some contained-box entry among the first `k` names this coordinate.
spec fn prefix_pos(bd: BoxDescription, k: int, p: (i32, i32)) -> bool {
    exists|j: int| 0 <= j < k && (#[trigger] bd.boxes@[j]).0 == p
}

/// A built box agrees with its description in every field and every cell.
pub open spec fn box_matches(bv: BoxView, d: LevelDescription, i: int) -> bool {
    let bd = d.boxes@[i];
    &&& bv.id == i
    &&& bv.size == (bd.size.0 as int, bd.size.1 as int)
    &&& bv.outer == opt_id_view(bd.outer)
    &&& bv.targets == bd.targets@.map_values(|p: (i32, i32)| pos_view(p))
    &&& bv.player_target == opt_pos_view(bd.player_target)
    &&& bv.player_pos == (if i == d.player_pos.0 as int {
        Some(pos_view(d.player_pos.1))
    } else {
        None::<(int, int)>
    })
    &&& (forall|p: (i32, i32)|
        bv.in_bounds(pos_view(p)) ==> #[trigger] bv.cell(pos_view(p)) == desc_cell(bd, p))
}

/// A built world agrees with its description box for box.
pub open spec fn world_matches(w: WorldView, d: LevelDescription, level: int) -> bool {
    &&& w.level == level
    &&& w.boxes.len() == d.boxes@.len()
    &&& w.player_pos == (d.player_pos.0 as int, pos_view(d.player_pos.1))
    &&& (forall|i: int| 0 <= i < w.boxes.len() ==> box_matches(#[trigger] w.boxes[i], d, i))
}

/// Worlds whose boxes carry the described `outer` links walk them exactly
/// as the description does.
proof fn lemma_iter_bridge(w: WorldView, d: LevelDescription, i: int, k: nat)
    requires
        w.boxes.len() == d.boxes@.len(),
        forall|j: int|
            0 <= j < w.boxes.len() ==> (#[trigger] w.boxes[j]).outer == opt_id_view(
                d.boxes@[j].outer,
            ),
    ensures
        w.outer_iter(i, k) == desc_outer_iter(d, i, k),
    decreases k,
{
    if k > 0 {
        lemma_iter_bridge(w, d, i, (k - 1) as nat);
    }
}

/// Build one box from its validated description.
fn build_box(desc: &LevelDescription, i: usize) -> (pb: Parabox)
    requires
        desc_wf(*desc),
        i < desc.boxes@.len(),
    ensures
        pb@.wf_dims(),
        box_matches(pb@, *desc, i as int),
{
    proof {
        assert(dbox_wf(*desc, i as int));
    }
    let bd = &desc.boxes[i];
    let mut pb = Parabox::new(i as i32, bd.size);
    pb.outer = bd.outer;
    proof {
        assert forall|p: (i32, i32)| pb@.in_bounds(pos_view(p)) implies #[trigger] pb@.cell(
            pos_view(p),
        ) == None::<Square> by {
            lemma_idx_in_range(pb@, pos_view(p));
        }
    }
    // walls
    let mut k: usize = 0;
    while k < bd.walls.len()
        invariant
            *bd == desc.boxes@[i as int],
            dbox_wf(*desc, i as int),
            i < desc.boxes@.len() <= MAX_BOXES as int,
            k <= bd.walls@.len(),
            pb@.wf_dims(),
            pb@.id == i as int,
            pb@.outer == opt_id_view(bd.outer),
            pb@.size == (bd.size.0 as int, bd.size.1 as int),
            pb@.player_pos is None,
            pb@.player_target is None,
            pb@.targets == Seq::<(int, int)>::empty(),
            forall|p: (i32, i32)|
                pb@.in_bounds(pos_view(p)) ==> #[trigger] pb@.cell(pos_view(p)) == (
                if bd.walls@.take(k as int).contains(p) {
                    Some(Square::Wall)
                } else {
                    None::<Square>
                }),
        decreases bd.walls@.len() - k,
    {
        let p = bd.walls[k];
        proof {
            assert(fits(bd.size, bd.walls@[k as int]));
        }
        let ghost pv0 = pb@;
        pb.add_square(p, Square::Wall);
        proof {
            lemma_idx_in_range(pv0, pos_view(p));
            lemma_box_cell_update(pv0, pos_view(p), Some(Square::Wall));
            assert(bd.walls@.take(k as int + 1) =~= bd.walls@.take(k as int).push(
                bd.walls@[k as int],
            ));
            assert forall|q: (i32, i32)| pb@.in_bounds(pos_view(q)) implies #[trigger] pb@.cell(
                pos_view(q),
            ) == (if bd.walls@.take(k as int + 1).contains(q) {
                Some(Square::Wall)
            } else {
                None::<Square>
            }) by {
                if q == p {
                    assert(bd.walls@.take(k as int + 1)[k as int] == q);
                } else {
                    assert(pos_view(q) != pos_view(p));
                    if bd.walls@.take(k as int + 1).contains(q) {
                        let j = choose|j: int|
                            0 <= j < k as int + 1 && #[trigger] bd.walls@.take(k as int + 1)[j] == q;
                        assert(bd.walls@.take(k as int)[j] == q);
                    }
                    if bd.walls@.take(k as int).contains(q) {
                        let j = choose|j: int|
                            0 <= j < k as int && #[trigger] bd.walls@.take(k as int)[j] == q;
                        assert(bd.walls@.take(k as int + 1)[j] == q);
                    }
                }
            }
        }
        k = k + 1;
    }
    proof {
        assert(bd.walls@.take(bd.walls@.len() as int) =~= bd.walls@);
    }
    // blocks
    let mut k: usize = 0;
    while k < bd.blocks.len()
        invariant
            *bd == desc.boxes@[i as int],
            dbox_wf(*desc, i as int),
            i < desc.boxes@.len() <= MAX_BOXES as int,
            k <= bd.blocks@.len(),
            pb@.wf_dims(),
            pb@.id == i as int,
            pb@.outer == opt_id_view(bd.outer),
            pb@.size == (bd.size.0 as int, bd.size.1 as int),
            pb@.player_pos is None,
            pb@.player_target is None,
            pb@.targets == Seq::<(int, int)>::empty(),
            forall|p: (i32, i32)|
                pb@.in_bounds(pos_view(p)) ==> #[trigger] pb@.cell(pos_view(p)) == (
                if bd.walls@.contains(p) {
                    Some(Square::Wall)
                } else if bd.blocks@.take(k as int).contains(p) {
                    Some(Square::Block)
                } else {
                    None::<Square>
                }),
        decreases bd.blocks@.len() - k,
    {
        let p = bd.blocks[k];
        proof {
            assert(fits(bd.size, bd.blocks@[k as int]));
            assert(!bd.walls@.contains(bd.blocks@[k as int])) by {
                if bd.walls@.contains(bd.blocks@[k as int]) {
                    let j = choose|j: int|
                        0 <= j < bd.walls@.len() && #[trigger] bd.walls@[j] == bd.blocks@[k as int];
                    assert(!bd.blocks@.contains(bd.walls@[j]));
                }
            }
        }
        let ghost pv0 = pb@;
        pb.add_square(p, Square::Block);
        proof {
            lemma_idx_in_range(pv0, pos_view(p));
            lemma_box_cell_update(pv0, pos_view(p), Some(Square::Block));
            assert(bd.blocks@.take(k as int + 1) =~= bd.blocks@.take(k as int).push(
                bd.blocks@[k as int],
            ));
            assert forall|q: (i32, i32)| pb@.in_bounds(pos_view(q)) implies #[trigger] pb@.cell(
                pos_view(q),
            ) == (if bd.walls@.contains(q) {
                Some(Square::Wall)
            } else if bd.blocks@.take(k as int + 1).contains(q) {
                Some(Square::Block)
            } else {
                None::<Square>
            }) by {
                if q == p {
                    assert(bd.blocks@.take(k as int + 1)[k as int] == q);
                } else {
                    assert(pos_view(q) != pos_view(p));
                    if bd.blocks@.take(k as int + 1).contains(q) {
                        let j = choose|j: int|
                            0 <= j < k as int + 1 && #[trigger] bd.blocks@.take(k as int + 1)[j] == q;
                        assert(bd.blocks@.take(k as int)[j] == q);
                    }
                    if bd.blocks@.take(k as int).contains(q) {
                        let j = choose|j: int|
                            0 <= j < k as int && #[trigger] bd.blocks@.take(k as int)[j] == q;
                        assert(bd.blocks@.take(k as int + 1)[j] == q);
                    }
                }
            }
        }
        k = k + 1;
    }
    proof {
        assert(bd.blocks@.take(bd.blocks@.len() as int) =~= bd.blocks@);
    }
    // contained boxes
    let mut k: usize = 0;
    while k < bd.boxes.len()
        invariant
            *bd == desc.boxes@[i as int],
            dbox_wf(*desc, i as int),
            i < desc.boxes@.len() <= MAX_BOXES as int,
            k <= bd.boxes@.len(),
            pb@.wf_dims(),
            pb@.id == i as int,
            pb@.outer == opt_id_view(bd.outer),
            pb@.size == (bd.size.0 as int, bd.size.1 as int),
            pb@.player_pos is None,
            pb@.player_target is None,
            pb@.targets == Seq::<(int, int)>::empty(),
            forall|p: (i32, i32)|
                pb@.in_bounds(pos_view(p)) && !prefix_pos(*bd, k as int, p)
                    ==> #[trigger] pb@.cell(pos_view(p)) == (if bd.walls@.contains(p) {
                    Some(Square::Wall)
                } else if bd.blocks@.contains(p) {
                    Some(Square::Block)
                } else {
                    None::<Square>
                }),
            forall|j: int|
                0 <= j < k ==> pb@.cell(pos_view((#[trigger] bd.boxes@[j]).0)) == Some(
                    Square::Parabox(bd.boxes@[j].1),
                ),
        decreases bd.boxes@.len() - k,
    {
        let (p, id) = bd.boxes[k];
        proof {
            assert(fits(bd.size, (#[trigger] bd.boxes@[k as int]).0));
        }
        let ghost pv0 = pb@;
        pb.add_square(p, Square::Parabox(id));
        proof {
            lemma_idx_in_range(pv0, pos_view(p));
            lemma_box_cell_update(pv0, pos_view(p), Some(Square::Parabox(id)));
            assert forall|q: (i32, i32)|
                pb@.in_bounds(pos_view(q)) && !prefix_pos(*bd, k as int + 1, q)
                    implies #[trigger] pb@.cell(pos_view(q)) == (if bd.walls@.contains(q) {
                Some(Square::Wall)
            } else if bd.blocks@.contains(q) {
                Some(Square::Block)
            } else {
                None::<Square>
            }) by {
                assert(bd.boxes@[k as int].0 == p);
                assert(q != p);
                assert(pos_view(q) != pos_view(p));
                assert(!prefix_pos(*bd, k as int, q));
            }
            assert forall|j: int| 0 <= j < k as int + 1 implies pb@.cell(
                pos_view((#[trigger] bd.boxes@[j]).0),
            ) == Some(Square::Parabox(bd.boxes@[j].1)) by {
                assert(fits(bd.size, bd.boxes@[j].0));
                if j < k as int {
                    assert(bd.boxes@[j].0 != bd.boxes@[k as int].0);
                    assert(pos_view(bd.boxes@[j].0) != pos_view(p));
                }
            }
        }
        k = k + 1;
    }
    // the finished cell contents are exactly the described ones
    let ghost midv = pb@;
    proof {
        assert forall|p: (i32, i32)| midv.in_bounds(pos_view(p)) implies #[trigger] midv.cell(
            pos_view(p),
        ) == desc_cell(*bd, p) by {
            if box_entry_at(*bd, p) {
                let j = choose|j: int|
                    0 <= j < bd.boxes@.len() && (#[trigger] bd.boxes@[j]).0 == p;
                let j2 = choose|k2: int|
                    0 <= k2 < bd.boxes@.len() && (#[trigger] bd.boxes@[k2]).0 == p;
                assert(j == j2);
                assert(pb@.cell(pos_view(p)) == Some(Square::Parabox(bd.boxes@[j].1)));
                assert(!bd.walls@.contains(p)) by {
                    if bd.walls@.contains(p) {
                        let x = choose|x: int| 0 <= x < bd.walls@.len() && #[trigger] bd.walls@[x] == p;
                        assert(!box_entry_at(*bd, bd.walls@[x]));
                    }
                }
                assert(!bd.blocks@.contains(p)) by {
                    if bd.blocks@.contains(p) {
                        let x = choose|x: int| 0 <= x < bd.blocks@.len() && #[trigger] bd.blocks@[x] == p;
                        assert(!box_entry_at(*bd, bd.blocks@[x]));
                    }
                }
            } else {
                assert(!prefix_pos(*bd, bd.boxes@.len() as int, p));
                if bd.walls@.contains(p) {
                    assert(pb@.cell(pos_view(p)) == Some(Square::Wall));
                }
            }
        }
    }
    // targets
    let mut k: usize = 0;
    while k < bd.targets.len()
        invariant
            *bd == desc.boxes@[i as int],
            dbox_wf(*desc, i as int),
            i < desc.boxes@.len() <= MAX_BOXES as int,
            k <= bd.targets@.len(),
            pb@.id == i as int,
            pb@.outer == opt_id_view(bd.outer),
            pb@.size == (bd.size.0 as int, bd.size.1 as int),
            pb@.player_pos is None,
            pb@.player_target is None,
            pb@.cells == midv.cells,
            pb@.cells.len() == pb@.size.0 * pb@.size.1,
            pb@.targets == bd.targets@.take(k as int).map_values(
                |p: (i32, i32)| pos_view(p),
            ),
        decreases bd.targets@.len() - k,
    {
        let t = bd.targets[k];
        pb.add_target(t.0, t.1);
        proof {
            assert(bd.targets@.take(k as int + 1).map_values(|p: (i32, i32)| pos_view(p)) =~= bd
                .targets@.take(k as int).map_values(|p: (i32, i32)| pos_view(p)).push(
                pos_view(bd.targets@[k as int]),
            ));
        }
        k = k + 1;
    }
    proof {
        assert(bd.targets@.take(bd.targets@.len() as int) =~= bd.targets@);
    }
    // the avatar target and the avatar itself
    if let Some(t) = bd.player_target {
        pb.set_player_target(t.0, t.1);
    }
    if i as i32 == desc.player_pos.0 {
        pb.set_player_pos(Some(desc.player_pos.1));
    }
    proof {
        assert(pb@.wf_dims()) by {
            assert(forall|j: int|
                0 <= j < pb@.targets.len() ==> fits(bd.size, #[trigger] bd.targets@[j]));
            assert(forall|j: int|
                0 <= j < pb@.targets.len() ==> #[trigger] pb@.targets[j] == pos_view(
                    bd.targets@[j],
                ));
            if i as i32 == desc.player_pos.0 {
                assert(avatar_desc_ok(*desc));
            }
        }
        assert forall|p: (i32, i32)| pb@.in_bounds(pos_view(p)) implies #[trigger] pb@.cell(
            pos_view(p),
        ) == desc_cell(*bd, p) by {
            assert(midv.in_bounds(pos_view(p)));
            assert(midv.cell(pos_view(p)) == desc_cell(*bd, p));
            assert(pb@.cell(pos_view(p)) == midv.cell(pos_view(p)));
        }
    }
    pb
}

/// The facts `lemma_new_world_ok` draws on: a world assembled box for box
/// from a valid description.
spec fn assembled_from(w: WorldView, d: LevelDescription) -> bool {
    &&& desc_wf(d)
    &&& w.boxes.len() == d.boxes@.len()
    &&& (forall|i: int| 0 <= i < w.boxes.len() ==> box_matches(#[trigger] w.boxes[i], d, i))
    &&& (forall|i: int| 0 <= i < w.boxes.len() ==> (#[trigger] w.boxes[i]).wf_dims())
}

/// A cell recording a contained box corresponds to a contained-box entry of
/// the description, at the same coordinate and with the same id.
proof fn lemma_cell_gives_entry(w: WorldView, d: LevelDescription, bi: int, j: int, id: i32)
    requires
        assembled_from(w, d),
        0 <= bi < w.boxes.len(),
        0 <= j < w.boxes[bi].cells.len(),
        w.boxes[bi].cells[j] == Some(Square::Parabox(id)),
    ensures
        0 <= id < d.boxes@.len(),
        d.boxes@[id as int].outer == Some(bi as i32),
        exists|k: int|
            0 <= k < d.boxes@[bi].boxes@.len() && (#[trigger] d.boxes@[bi].boxes@[k]).1 == id
                && pos_view(d.boxes@[bi].boxes@[k].0) == (
            j / w.boxes[bi].size.1,
            j % w.boxes[bi].size.1,
            ),
{
    let b = w.boxes[bi];
    lemma_index_to_pos(b, j);
    let pint = (j / b.size.1, j % b.size.1);
    let p: (i32, i32) = ((j / b.size.1) as i32, (j % b.size.1) as i32);
    assert(pos_view(p) == pint);
    assert(b.cell(pint) == Some(Square::Parabox(id)));
    assert(box_matches(b, d, bi));
    assert(b.cell(pos_view(p)) == desc_cell(d.boxes@[bi], p));
    let bd = d.boxes@[bi];
    assert(box_entry_at(bd, p));
    let k = choose|k: int| 0 <= k < bd.boxes@.len() && (#[trigger] bd.boxes@[k]).0 == p;
    assert(dbox_wf(d, bi));
    assert forall|j: int|
        0 <= j < bd.boxes@.len() && (#[trigger] bd.boxes@[j]).0 == p implies j == k by {
        if j != k {
            let a = if j < k {
                j
            } else {
                k
            };
            let b = if j < k {
                k
            } else {
                j
            };
            assert((bd.boxes@[a]).0 != (bd.boxes@[b]).0);
        }
    }
    assert(bd.boxes@[k].1 == id);
    assert(pos_view(bd.boxes@[k].0) == pint);
}

/// A contained-box entry of the description shows up as exactly that cell
/// of the built world.
proof fn lemma_entry_gives_cell(w: WorldView, d: LevelDescription, o: int, k: int)
    requires
        assembled_from(w, d),
        0 <= o < w.boxes.len(),
        0 <= k < d.boxes@[o].boxes@.len(),
    ensures
        ({
            let e = d.boxes@[o].boxes@[k];
            w.boxes[o].in_bounds(pos_view(e.0)) && w.boxes[o].cell(pos_view(e.0)) == Some(
                Square::Parabox(e.1),
            )
        }),
{
    let bd = d.boxes@[o];
    let e = bd.boxes@[k];
    assert(dbox_wf(d, o));
    assert(fits(bd.size, e.0));
    assert(!bd.walls@.contains(e.0)) by {
        if bd.walls@.contains(e.0) {
            let x = choose|x: int| 0 <= x < bd.walls@.len() && #[trigger] bd.walls@[x] == e.0;
            assert(!box_entry_at(bd, bd.walls@[x]));
        }
    }
    assert(!bd.blocks@.contains(e.0)) by {
        if bd.blocks@.contains(e.0) {
            let x = choose|x: int| 0 <= x < bd.blocks@.len() && #[trigger] bd.blocks@[x] == e.0;
            assert(!box_entry_at(bd, bd.blocks@[x]));
        }
    }
    assert(box_entry_at(bd, e.0));
    let k2 = choose|k2: int| 0 <= k2 < bd.boxes@.len() && (#[trigger] bd.boxes@[k2]).0 == e.0;
    assert(k2 == k);
    assert(desc_cell(bd, e.0) == Some(Square::Parabox(e.1)));
    assert(box_matches(w.boxes[o], d, o));
}

/// A world assembled from a valid description satisfies every invariant,
/// and its containment is as cycle-free as the described one.
proof fn lemma_new_world_ok(w: WorldView, d: LevelDescription)
    requires
        assembled_from(w, d),
        w.player_pos == (d.player_pos.0 as int, pos_view(d.player_pos.1)),
    ensures
        w.wf(),
        w.acyclic(),
{
    let n = w.boxes.len() as int;
    // each box is locally sound and correctly linked
    assert forall|i: int| 0 <= i < n implies {
        &&& (#[trigger] w.boxes[i]).wf_dims()
        &&& w.boxes[i].id == i
        &&& (w.boxes[i].outer matches Some(o) ==> 0 <= o < n)
    } by {
        assert(box_matches(w.boxes[i], d, i));
        assert(dbox_wf(d, i));
    }
    assert(w.boxes_wf());
    // the avatar is recorded exactly once, where the description says
    assert(avatar_desc_ok(d));
    let pb = d.player_pos.0 as int;
    assert(box_matches(w.boxes[pb], d, pb));
    assert forall|i: int| 0 <= i < n && i != pb implies (#[trigger] w.boxes[i]).player_pos
        is None by {
        assert(box_matches(w.boxes[i], d, i));
    }
    assert(w.avatar_ok());
    // every contained-box cell names a real box whose outer is its holder
    assert forall|bi: int, j: int|
        0 <= bi < n && 0 <= j < w.boxes[bi].cells.len() implies ((
    #[trigger] w.boxes[bi].cells[j]) matches Some(Square::Parabox(id2)) ==> 0 <= id2 < n
        && w.boxes[id2 as int].outer == Some(bi)) by {
        match w.boxes[bi].cells[j] {
            Some(Square::Parabox(id2)) => {
                lemma_cell_gives_entry(w, d, bi, j, id2);
                assert(box_matches(w.boxes[id2 as int], d, id2 as int));
            },
            _ => (),
        }
    }
    // a contained box is recorded exactly once; a top-level box never
    assert forall|i: int| 0 <= i < n implies wcnt(w.boxes, Square::Parabox(i as i32)) == (if (
    #[trigger] w.boxes[i]).outer is Some {
        1int
    } else {
        0int
    }) by {
        assert(box_matches(w.boxes[i], d, i));
        match d.boxes@[i].outer {
            Some(o) => {
                assert(recorded_in_outer(d, i));
                let k = choose|k: int|
                    0 <= k < d.boxes@[o as int].boxes@.len() && (
                    #[trigger] d.boxes@[o as int].boxes@[k]).1 == i as i32;
                assert(dbox_wf(d, i));
                lemma_entry_gives_cell(w, d, o as int, k);
                let e = d.boxes@[o as int].boxes@[k];
                lemma_idx_in_range(w.boxes[o as int], pos_view(e.0));
                assert(w.boxes[o as int].cells[w.boxes[o as int].idx(pos_view(e.0))] == Some(
                    Square::Parabox(i as i32),
                ));
                crate::counting::lemma_wcnt_ge_one(
                    w.boxes,
                    Square::Parabox(i as i32),
                    o as int,
                    w.boxes[o as int].idx(pos_view(e.0)),
                );
                assert forall|b1: int, j1: int, b2: int, j2: int|
                    0 <= b1 < w.boxes.len() && 0 <= j1 < w.boxes[b1].cells.len() && 0 <= b2
                        < w.boxes.len() && 0 <= j2 < w.boxes[b2].cells.len() && (b1, j1) != (
                    b2,
                    j2,
                    ) implies !(#[trigger] w.boxes[b1].cells[j1] == Some(
                    Square::Parabox(i as i32),
                ) && #[trigger] w.boxes[b2].cells[j2] == Some(Square::Parabox(i as i32)))
                    by {
                    if w.boxes[b1].cells[j1] == Some(Square::Parabox(i as i32))
                        && w.boxes[b2].cells[j2] == Some(Square::Parabox(i as i32)) {
                        lemma_cell_gives_entry(w, d, b1, j1, i as i32);
                        lemma_cell_gives_entry(w, d, b2, j2, i as i32);
                        // both entries sit in the one box the outer link
                        // names, so they are one entry, and one cell
                        assert(b1 == b2);
                        let k1 = choose|k1: int|
                            0 <= k1 < d.boxes@[b1].boxes@.len() && (
                            #[trigger] d.boxes@[b1].boxes@[k1]).1 == i as i32 && pos_view(
                                d.boxes@[b1].boxes@[k1].0,
                            ) == (j1 / w.boxes[b1].size.1, j1 % w.boxes[b1].size.1);
                        let k2 = choose|k2: int|
                            0 <= k2 < d.boxes@[b2].boxes@.len() && (
                            #[trigger] d.boxes@[b2].boxes@[k2]).1 == i as i32 && pos_view(
                                d.boxes@[b2].boxes@[k2].0,
                            ) == (j2 / w.boxes[b2].size.1, j2 % w.boxes[b2].size.1);
                        assert(dbox_wf(d, b1));
                        assert(k1 == k2);
                        lemma_index_to_pos(w.boxes[b1], j1);
                        lemma_index_to_pos(w.boxes[b2], j2);
                        assert(w.boxes[b1].idx(
                            (j1 / w.boxes[b1].size.1, j1 % w.boxes[b1].size.1),
                        ) == j1);
                        assert(j1 == j2);
                        assert(false);
                    }
                }
                crate::counting::lemma_wcnt_le_one(w.boxes, Square::Parabox(i as i32));
            },
            None => {
                assert forall|b1: int, j1: int|
                    0 <= b1 < w.boxes.len() && 0 <= j1 < w.boxes[b1].cells.len()
                        implies #[trigger] w.boxes[b1].cells[j1] != Some(
                    Square::Parabox(i as i32),
                ) by {
                    if w.boxes[b1].cells[j1] == Some(Square::Parabox(i as i32)) {
                        lemma_cell_gives_entry(w, d, b1, j1, i as i32);
                        assert(false);
                    }
                }
                crate::counting::lemma_wcnt_zero(w.boxes, Square::Parabox(i as i32));
            },
        }
    }
    assert(w.containment_ok());
    // cycle-freedom carries over from the description
    assert forall|i: int| 0 <= i < n implies #[trigger] w.outer_iter(i, w.boxes.len() as nat)
        is None by {
        assert forall|j: int|
            0 <= j < w.boxes.len() implies (#[trigger] w.boxes[j]).outer == opt_id_view(
            d.boxes@[j].outer,
        ) by {
            assert(box_matches(w.boxes[j], d, j));
        }
        lemma_iter_bridge(w, d, i, w.boxes.len() as nat);
        assert(desc_outer_iter(d, i, d.boxes@.len() as nat) is None);
    }
}

impl LevelConfig {
    /// Validate a level description in full and build the world it
    /// describes: `Ok` exactly on valid descriptions, and the built world
    /// satisfies every invariant, has cycle-free containment, and agrees
    /// with the description in every field and cell.
    pub fn new(level: i32, desc: &LevelDescription) -> (r: Result<LevelConfig, ValidationError>)
        ensures
            r matches Ok(w) ==> w@.wf() && w@.acyclic() && world_matches(
                w@,
                *desc,
                level as int,
            ),
            r is Ok <==> desc_wf(*desc),
    {
        match desc.validate() {
            Err(e) => {
                return Err(e);
            },
            Ok(()) => (),
        }
        let n = desc.boxes.len();
        let mut paraboxes: Vec<Parabox> = Vec::new();
        let mut i: usize = 0;
        while i < n
            invariant
                desc_wf(*desc),
                n == desc.boxes@.len(),
                i <= n,
                paraboxes@.len() == i,
                forall|j: int|
                    0 <= j < i ==> box_matches((#[trigger] paraboxes@[j])@, *desc, j),
                forall|j: int| 0 <= j < i ==> (#[trigger] paraboxes@[j])@.wf_dims(),
            decreases n - i,
        {
            let pb = build_box(desc, i);
            paraboxes.push(pb);
            i = i + 1;
        }
        let w = LevelConfig { level, paraboxes, player_pos: desc.player_pos };
        proof {
            assert forall|j: int| 0 <= j < w@.boxes.len() implies box_matches(
                #[trigger] w@.boxes[j],
                *desc,
                j,
            ) && w@.boxes[j].wf_dims() by {
                assert(w@.boxes[j] == w.paraboxes@[j]@);
            }
            lemma_new_world_ok(w@, *desc);
        }
        Ok(w)
    }

    /// Replace the whole world with the one a new level describes; a
    /// rejected description leaves the current world untouched.
    pub fn load(&mut self, level: i32, desc: &LevelDescription) -> (r: Result<
        (),
        ValidationError,
    >)
        ensures
            r is Ok <==> desc_wf(*desc),
            r is Ok ==> final(self)@.wf() && final(self)@.acyclic() && world_matches(
                final(self)@,
                *desc,
                level as int,
            ),
            r is Err ==> final(self)@ == old(self)@,
    {
        match LevelConfig::new(level, desc) {
            Ok(w) => {
                *self = w;
                Ok(())
            },
            Err(e) => Err(e),
        }
    }
}

/// Linear scan for a coordinate in a placement list.
fn contains_pos(v: &Vec<(i32, i32)>, p: (i32, i32)) -> (r: bool)
    ensures
        r == v@.contains(p),
{
    let n = v.len();
    let mut k: usize = 0;
    while k < n
        invariant
            k <= n,
            n == v@.len(),
            forall|j: int| 0 <= j < k ==> v@[j] != p,
        decreases n - k,
    {
        let q = v[k];
        if q.0 == p.0 && q.1 == p.1 {
            assert(v@[k as int] == p);
            return true;
        }
        k = k + 1;
    }
    assert(forall|j: int| 0 <= j < v@.len() ==> v@[j] != p);
    false
}

/// Linear scan for a coordinate among contained-box entries.
fn contains_box_pos(v: &Vec<((i32, i32), i32)>, p: (i32, i32)) -> (r: bool)
    ensures
        r == (exists|k: int| 0 <= k < v@.len() && (#[trigger] v@[k]).0 == p),
{
    let n = v.len();
    let mut k: usize = 0;
    while k < n
        invariant
            k <= n,
            n == v@.len(),
            forall|j: int| 0 <= j < k ==> (#[trigger] v@[j]).0 != p,
        decreases n - k,
    {
        let q = v[k];
        if q.0.0 == p.0 && q.0.1 == p.1 {
            assert((v@[k as int]).0 == p);
            return true;
        }
        k = k + 1;
    }
    false
}

/// Linear scan for a box id among contained-box entries.
fn contains_box_id(v: &Vec<((i32, i32), i32)>, id: i32) -> (r: bool)
    ensures
        r == (exists|k: int| 0 <= k < v@.len() && (#[trigger] v@[k]).1 == id),
{
    let n = v.len();
    let mut k: usize = 0;
    while k < n
        invariant
            k <= n,
            n == v@.len(),
            forall|j: int| 0 <= j < k ==> (#[trigger] v@[j]).1 != id,
        decreases n - k,
    {
        if v[k].1 == id {
            assert((v@[k as int]).1 == id);
            return true;
        }
        k = k + 1;
    }
    false
}

} // verus!
