//! The shift engine: resolution of one directional push, including escapes
//! through enclosing boxes, the push-chain walk, and recursive entry into
//! contained boxes.

use vstd::prelude::*;

use crate::counting::lemma_cnt_update;
use crate::counting::lemma_wcnt_ge_two;
use crate::counting::lemma_wcnt_update;
use crate::counting::lemma_wcnt_zero;
use crate::counting::occ;
use crate::counting::wcnt;
use crate::errors::StructuralError;
use crate::level::LevelConfig;
use crate::level::WorldView;
use crate::level::lemma_consistent_trans;
use crate::parabox::BoxView;
use crate::parabox::MAX_DIM;
use crate::parabox::lemma_idx_in_range;
use crate::parabox::lemma_idx_injective;
use crate::parabox::pos_view;
use crate::square::Square;

verus! {

/// A direction a push may take: axis-aligned and of unit length.
pub open spec fn unit_dir(d: (int, int)) -> bool {
    d == (1int, 0int) || d == (-1int, 0int) || d == (0int, 1int) || d == (0int, -1int)
}

/// Executable test of `unit_dir`, for callers that receive a direction from
/// outside and must reject a malformed one before pushing.
pub fn check_unit_dir(d: (i32, i32)) -> (r: bool)
    ensures
        r == unit_dir((d.0 as int, d.1 as int)),
{
    (d.0 == 1 && d.1 == 0) || (d.0 == -1 && d.1 == 0) || (d.0 == 0 && d.1 == 1) || (d.0 == 0
        && d.1 == -1)
}

impl LevelConfig {
    /// Read one cell of one box.
    fn cell_at(&self, b: i32, p: (i32, i32)) -> (r: Option<Square>)
        requires
            self@.boxes_wf(),
            self@.valid_box(b as int),
            self@.boxes[b as int].in_bounds(pos_view(p)),
        ensures
            r == self@.cell(b as int, pos_view(p)),
    {
        proof {
            assert(self@.boxes[b as int] == self.paraboxes@[b as int]@);
        }
        self.paraboxes[b as usize].find_at(p.0, p.1)
    }

    /// Relocate the square at one cell to another, currently empty, cell,
    /// keeping every world invariant. The cell conditions are tested at run
    /// time: `Err` reports a commit step that found the world already
    /// corrupted, and leaves the world untouched.
    fn try_move_square(&mut self, fb: i32, fp: (i32, i32), tb: i32, tp: (i32, i32)) -> (r:
        Result<(), StructuralError>)
        requires
            old(self)@.wf(),
            old(self)@.valid_box(fb as int),
            old(self)@.boxes[fb as int].in_bounds(pos_view(fp)),
            old(self)@.valid_box(tb as int),
            old(self)@.boxes[tb as int].in_bounds(pos_view(tp)),
        ensures
            ({
                let w0 = old(self)@;
                let w1 = final(self)@;
                let f = (fb as int, pos_view(fp));
                let t = (tb as int, pos_view(tp));
                match r {
                    Err(_) => w1 == w0,
                    Ok(()) => {
                        &&& f != t
                        &&& w0.cell(f.0, f.1) is Some
                        &&& w0.cell(t.0, t.1) is None
                        &&& w1.cell(f.0, f.1) is None
                        &&& w1.cell(t.0, t.1) == w0.cell(f.0, f.1)
                        &&& (forall|b: int, p: (int, int)|
                            w0.valid_box(b) && w0.boxes[b].in_bounds(p) && (b, p) != f && (
                            b,
                            p,
                            ) != t ==> #[trigger] w1.cell(b, p) == w0.cell(b, p))
                        &&& (w0.cell(f.0, f.1) matches Some(Square::Parabox(id))
                            ==> w1.boxes[id as int].outer == Some(tb as int))
                        &&& (forall|i: int|
                            0 <= i < w0.boxes.len() && w0.cell(f.0, f.1) != Some(
                                Square::Parabox(i as i32),
                            ) ==> (#[trigger] w1.boxes[i]).outer == w0.boxes[i].outer)
                        &&& w1.wf()
                        &&& w1.same_skeleton(w0)
                        &&& w1.same_avatar(w0)
                        &&& w1.same_counts(w0)
                    },
                }
            }),
            r is Ok <==> (old(self)@.cell(fb as int, pos_view(fp)) is Some && old(self)@.cell(
                tb as int,
                pos_view(tp),
            ) is None && (fb as int, pos_view(fp)) != (tb as int, pos_view(tp))),
    {
        if fb == tb && fp.0 == tp.0 && fp.1 == tp.1 {
            return Err(StructuralError::CorruptChain);
        }
        let sq = match self.cell_at(fb, fp) {
            None => {
                return Err(StructuralError::CorruptChain);
            },
            Some(sq) => sq,
        };
        match self.cell_at(tb, tp) {
            Some(_) => {
                return Err(StructuralError::CorruptChain);
            },
            None => (),
        }
        let ghost w0 = self@;
        let ghost f = (fb as int, pos_view(fp));
        let ghost t = (tb as int, pos_view(tp));
        let ghost idxf = w0.boxes[f.0].idx(f.1);
        let ghost idxt = w0.boxes[t.0].idx(t.1);
        proof {
            lemma_idx_in_range(w0.boxes[f.0], f.1);
            lemma_idx_in_range(w0.boxes[t.0], t.1);
            if f.0 == t.0 && idxf == idxt {
                lemma_idx_injective(w0.boxes[f.0], f.1, t.1);
            }
        }
        let bf = &mut self.paraboxes[fb as usize];
        bf.remove_square(fp);
        proof {
            assert(self@.boxes =~= w0.boxes.update(
                f.0,
                BoxView { cells: w0.boxes[f.0].cells.update(idxf, None), ..w0.boxes[f.0] },
            ));
        }
        let ghost wa = self@;
        let bt = &mut self.paraboxes[tb as usize];
        bt.add_square(tp, sq);
        proof {
            assert(self@.boxes =~= wa.boxes.update(
                t.0,
                BoxView { cells: wa.boxes[t.0].cells.update(idxt, Some(sq)), ..wa.boxes[t.0] },
            ));
        }
        let ghost wb = self@;
        if let Square::Parabox(id) = sq {
            proof {
                assert(w0.boxes[f.0].cells[idxf] == Some(Square::Parabox(id)));
            }
            let bo = &mut self.paraboxes[id as usize];
            bo.outer = Some(tb);
            proof {
                assert(self@.boxes =~= wb.boxes.update(
                    id as int,
                    BoxView { outer: Some(tb as int), ..wb.boxes[id as int] },
                ));
            }
        }
        proof {
            let w1 = self@;
            lemma_move_square_ok(w0, wa, wb, w1, f, t, sq);
        }
        Ok(())
    }
}

/// The coordinate `i` steps from `p` along `d`.
pub open spec fn step_n(p: (int, int), d: (int, int), i: int) -> (int, int) {
    (p.0 + i * d.0, p.1 + i * d.1)
}

/// A straight run ahead of `p` in box `b`: `k` consecutive cells along `d`
/// each holding a block, and a free cell just past them, all on this box's
/// grid.
pub open spec fn block_run(w: WorldView, b: int, p: (int, int), d: (int, int), k: int) -> bool {
    &&& (forall|i: int|
        1 <= i <= k ==> w.boxes[b].in_bounds(#[trigger] step_n(p, d, i)) && w.cell(
            b,
            step_n(p, d, i),
        ) == Some(Square::Block))
    &&& w.boxes[b].in_bounds(step_n(p, d, k + 1))
    &&& w.cell(b, step_n(p, d, k + 1)) is None
}

/// The recursive-entry setup ahead of `p` in box `b` along `d`: a block,
/// then a contained box `c`, then a wall, while box `c` has free space just
/// inside its `d`-facing entry point.
pub open spec fn entry_setup(w: WorldView, b: int, p: (int, int), d: (int, int), c: i32) -> bool {
    let e = w.boxes[c as int].enter_point(d);
    let e1 = (e.0 + d.0, e.1 + d.1);
    &&& w.boxes[b].in_bounds(step_n(p, d, 1)) && w.cell(b, step_n(p, d, 1)) == Some(
        Square::Block,
    )
    &&& w.boxes[b].in_bounds(step_n(p, d, 2)) && w.cell(b, step_n(p, d, 2)) == Some(
        Square::Parabox(c),
    )
    &&& w.boxes[b].in_bounds(step_n(p, d, 3)) && w.cell(b, step_n(p, d, 3)) == Some(
        Square::Wall,
    )
    &&& 0 <= c < w.boxes.len()
    &&& w.boxes[c as int].in_bounds(e1)
    &&& w.cell(c as int, e1) is None
}

/// One more step moves the coordinate by exactly `d`.
proof fn lemma_step_succ(p: (int, int), d: (int, int), i: int)
    ensures
        step_n(p, d, i + 1) == (step_n(p, d, i).0 + d.0, step_n(p, d, i).1 + d.1),
{
    assert((i + 1) * d.0 == i * d.0 + d.0) by (nonlinear_arith);
    assert((i + 1) * d.1 == i * d.1 + d.1) by (nonlinear_arith);
}

/// Zero steps is the starting coordinate.
proof fn lemma_step_zero(p: (int, int), d: (int, int))
    ensures
        step_n(p, d, 0) == p,
{
    assert(0 * d.0 == 0) by (nonlinear_arith);
    assert(0 * d.1 == 0) by (nonlinear_arith);
}

/// Along a unit direction, different step counts land on different
/// coordinates.
proof fn lemma_step_inj(p: (int, int), d: (int, int), i: int, j: int)
    requires
        unit_dir(d),
        i != j,
    ensures
        step_n(p, d, i) != step_n(p, d, j),
{
    if d.0 == 1 || d.0 == -1 {
        assert(i * d.0 != j * d.0) by (nonlinear_arith)
            requires
                i != j && (d.0 == 1 || d.0 == -1),
        ;
    } else {
        assert(i * d.1 != j * d.1) by (nonlinear_arith)
            requires
                i != j && (d.1 == 1 || d.1 == -1),
        ;
    }
}

/// A run that ends on the grid is no longer than the grid is wide or tall.
proof fn lemma_run_k_bound(w: WorldView, b: int, p: (int, int), d: (int, int), k: int)
    requires
        w.boxes_wf(),
        0 <= b < w.boxes.len(),
        unit_dir(d),
        1 <= k,
        -1 <= p.0 <= w.boxes[b].size.0,
        -1 <= p.1 <= w.boxes[b].size.1,
        w.boxes[b].in_bounds(step_n(p, d, k + 1)),
    ensures
        k <= MAX_DIM as int + 1,
{
    assert(w.boxes[b].wf_dims());
    if d.0 == 1 || d.0 == -1 {
        assert((k + 1) * d.0 == k + 1 || (k + 1) * d.0 == -(k + 1)) by (nonlinear_arith)
            requires
                d.0 == 1 || d.0 == -1,
        ;
    } else {
        assert((k + 1) * d.1 == k + 1 || (k + 1) * d.1 == -(k + 1)) by (nonlinear_arith)
            requires
                d.1 == 1 || d.1 == -1,
        ;
    }
}

/// A recorded push-chain entry: the square found, the box holding it, and
/// its coordinate there.
pub type ChainLink = (Square, i32, (i32, i32));

/// No two chain entries name the same cell of the same box.
pub open spec fn distinct_cells(c: Seq<ChainLink>) -> bool {
    forall|i: int, j: int|
        0 <= i < j < c.len() ==> !((#[trigger] c[i]).1 == (#[trigger] c[j]).1 && c[i].2
            == c[j].2)
}

/// Every chain entry names a real box and an in-bounds cell of it.
pub open spec fn chain_sites_ok(w: WorldView, c: Seq<ChainLink>) -> bool {
    forall|k: int|
        0 <= k < c.len() ==> w.valid_box((#[trigger] c[k]).1 as int) && w.boxes[c[k].1 as int].in_bounds(
            pos_view(c[k].2),
        )
}

/// Every chain entry's cell still holds the pushable square recorded for it.
pub open spec fn chain_contents_ok(w: WorldView, c: Seq<ChainLink>) -> bool {
    forall|k: int|
        0 <= k < c.len() ==> w.cell((#[trigger] c[k]).1 as int, pos_view(c[k].2)) == Some(
            c[k].0,
        ) && c[k].0.is_pushable()
}

/// Sites stay valid across any push commit: only sizes and the box count
/// decide validity, and a commit changes neither.
proof fn lemma_sites_stable(w0: WorldView, w1: WorldView, c: Seq<ChainLink>)
    requires
        chain_sites_ok(w0, c),
        w1.same_skeleton(w0),
    ensures
        chain_sites_ok(w1, c),
{
    assert forall|k: int|
        0 <= k < c.len() implies w1.valid_box((#[trigger] c[k]).1 as int)
        && w1.boxes[c[k].1 as int].in_bounds(pos_view(c[k].2)) by {
        assert(w0.valid_box(c[k].1 as int));
        assert(w1.boxes[c[k].1 as int].size == w0.boxes[c[k].1 as int].size);
    }
}

impl LevelConfig {
    /// Executable pairwise distinctness test over a recorded chain.
    fn chain_distinct(chain: &Vec<ChainLink>) -> (r: bool)
        ensures
            r == distinct_cells(chain@),
    {
        let n = chain.len();
        let mut i: usize = 0;
        while i < n
            invariant
                i <= n,
                n == chain@.len(),
                forall|a: int, b: int|
                    0 <= a < b < n && a < i ==> !((#[trigger] chain@[a]).1 == (
                    #[trigger] chain@[b]).1 && chain@[a].2 == chain@[b].2),
            decreases n - i,
        {
            let mut j: usize = i + 1;
            while j < n
                invariant
                    i < j <= n,
                    n == chain@.len(),
                    forall|a: int, b: int|
                        0 <= a < b < n && a < i ==> !((#[trigger] chain@[a]).1 == (
                        #[trigger] chain@[b]).1 && chain@[a].2 == chain@[b].2),
                    forall|b: int|
                        i < b < j ==> !((#[trigger] chain@[b]).1 == chain@[i as int].1
                            && chain@[b].2 == chain@[i as int].2),
                decreases n - j,
            {
                let x = chain[i];
                let y = chain[j];
                if x.1 == y.1 && x.2.0 == y.2.0 && x.2.1 == y.2.1 {
                    assert(!distinct_cells(chain@));
                    return false;
                }
                j = j + 1;
            }
            i = i + 1;
        }
        true
    }

    /// Phase A of a resolution step: from `p` in box `b`, step once in `dir`;
    /// while the stepped coordinate leaves the current box, look up where
    /// that box is recorded in its enclosing box and continue from there.
    /// `Ok` is the first in-bounds probe point reached.
    fn probe_from(&self, b: i32, p: (i32, i32), dir: (i32, i32)) -> (r: Result<
        (i32, (i32, i32)),
        StructuralError,
    >)
        requires
            self@.boxes_wf(),
            self@.valid_box(b as int),
            unit_dir((dir.0 as int, dir.1 as int)),
            -1 <= p.0 <= self@.boxes[b as int].size.0,
            -1 <= p.1 <= self@.boxes[b as int].size.1,
        ensures
            r matches Ok(q) ==> self@.valid_box(q.0 as int) && self@.boxes[q.0 as int].in_bounds(
                pos_view(q.1),
            ),
            ({
                let q0 = (p.0 as int + dir.0 as int, p.1 as int + dir.1 as int);
                self@.boxes[b as int].in_bounds(q0) ==> (r matches Ok(q) && q.0 == b
                    && pos_view(q.1) == q0)
            }),
    {
        let ghost q0 = (p.0 as int + dir.0 as int, p.1 as int + dir.1 as int);
        let mut cb = b;
        let mut np = (p.0 + dir.0, p.1 + dir.1);
        let mut fuel = self.paraboxes.len();
        loop
            invariant
                self@.boxes_wf(),
                self@.valid_box(cb as int),
                unit_dir((dir.0 as int, dir.1 as int)),
                -2 <= np.0 <= self@.boxes[cb as int].size.0 + 1,
                -2 <= np.1 <= self@.boxes[cb as int].size.1 + 1,
                q0 == (p.0 as int + dir.0 as int, p.1 as int + dir.1 as int),
                self@.boxes[b as int].in_bounds(q0) ==> cb == b && pos_view(np) == q0,
            decreases fuel,
        {
            proof {
                assert(self@.boxes[cb as int] == self.paraboxes@[cb as int]@);
            }
            let bx = &self.paraboxes[cb as usize];
            if np.0 >= 0 && np.1 >= 0 && np.0 < bx.size.0 && np.1 < bx.size.1 {
                return Ok((cb, np));
            }
            if fuel == 0 {
                return Err(StructuralError::DepthLimit);
            }
            fuel = fuel - 1;
            match bx.outer {
                None => {
                    return Err(StructuralError::MissingOuter);
                },
                Some(o) => {
                    proof {
                        assert(self@.boxes[o as int] == self.paraboxes@[o as int]@);
                    }
                    match self.paraboxes[o as usize].find_box(cb) {
                        Err(_) => {
                            return Err(StructuralError::MissingRecord);
                        },
                        Ok(cpos) => {
                            proof {
                                assert(self@.boxes[o as int].wf_dims());
                                assert(self@.boxes[o as int].in_bounds(pos_view(cpos)));
                            }
                            np = (cpos.0 + dir.0, cpos.1 + dir.1);
                            cb = o;
                        },
                    }
                },
            }
        }
    }
}

impl LevelConfig {
    /// Resolve one push from the cell `op` of box `ob` in direction `dir`,
    /// committing every cell change of the push chain but not placing the
    /// mover itself.
    ///
    /// `Ok(Some(d))` is a committed push: the chain ahead of the mover has
    /// moved up and `d` is the vacated (or terminal) empty slot the mover
    /// may now occupy. `Ok(None)` is a blocked push: the world is exactly
    /// as it was. `Err` reports a structural defect; the world then still
    /// satisfies every invariant and conserves every square, but a partly
    /// committed push is not rolled back.
    ///
    /// `depth` bounds recursive entry into contained boxes; any acyclic
    /// world resolves within a depth of its box count.
    fn resolve(&mut self, ob: i32, op: (i32, i32), dir: (i32, i32), depth: usize) -> (r: Result<
        Option<(i32, (i32, i32))>,
        StructuralError,
    >)
        requires
            old(self)@.wf(),
            old(self)@.valid_box(ob as int),
            unit_dir((dir.0 as int, dir.1 as int)),
            -1 <= op.0 <= old(self)@.boxes[ob as int].size.0,
            -1 <= op.1 <= old(self)@.boxes[ob as int].size.1,
        ensures
            ({
                let w0 = old(self)@;
                let w1 = final(self)@;
                match r {
                    Err(_) => w1.consistent_after(w0),
                    Ok(None) => w1 == w0,
                    Ok(Some(d)) => {
                        &&& w1.consistent_after(w0)
                        &&& w1.valid_box(d.0 as int)
                        &&& w1.boxes[d.0 as int].in_bounds(pos_view(d.1))
                        &&& w1.cell(d.0 as int, pos_view(d.1)) is None
                    },
                }
            }),
            ({
                let w0 = old(self)@;
                let q0 = (op.0 as int + dir.0 as int, op.1 as int + dir.1 as int);
                depth >= 1 && w0.boxes[ob as int].in_bounds(q0) ==> {
                    &&& (w0.cell(ob as int, q0) is None ==> (r matches Ok(d) && d matches Some(
                        dd,
                    ) && dd.0 == ob && pos_view(dd.1) == q0 && final(self)@ == w0))
                    &&& (w0.cell(ob as int, q0) == Some(Square::Wall) ==> (r matches Ok(d) && d
                        is None && final(self)@ == w0))
                }
            }),
            ({
                let w0 = old(self)@;
                let w1 = final(self)@;
                let pv = pos_view(op);
                let dv = (dir.0 as int, dir.1 as int);
                depth >= 1 ==> (forall|k: int|
                    1 <= k && #[trigger] block_run(w0, ob as int, pv, dv, k) ==> ({
                        &&& (r matches Ok(d) && d matches Some(dd) && dd.0 == ob && pos_view(
                            dd.1,
                        ) == step_n(pv, dv, 1))
                        &&& w1.cell(ob as int, step_n(pv, dv, 1)) is None
                        &&& (forall|i: int|
                            2 <= i <= k + 1 ==> w1.cell(
                                ob as int,
                                #[trigger] step_n(pv, dv, i),
                            ) == Some(Square::Block))
                        &&& (forall|b2: int, p2: (int, int)|
                            w0.valid_box(b2) && w0.boxes[b2].in_bounds(p2) && !(b2
                                == ob as int && (exists|i: int|
                                1 <= i <= k + 1 && p2 == #[trigger] step_n(pv, dv, i)))
                                ==> #[trigger] w1.cell(b2, p2) == w0.cell(b2, p2))
                    }))
            }),
            ({
                let w0 = old(self)@;
                let w1 = final(self)@;
                let pv = pos_view(op);
                let dv = (dir.0 as int, dir.1 as int);
                depth >= 2 ==> (forall|c: i32|
                    #[trigger] entry_setup(w0, ob as int, pv, dv, c) ==> ({
                        let e = w0.boxes[c as int].enter_point(dv);
                        let e1 = (e.0 + dv.0, e.1 + dv.1);
                        &&& (r matches Ok(d) && d matches Some(dd) && dd.0 == ob && pos_view(
                            dd.1,
                        ) == step_n(pv, dv, 1))
                        &&& w1.cell(ob as int, step_n(pv, dv, 1)) is None
                        &&& w1.cell(ob as int, step_n(pv, dv, 2)) == Some(Square::Parabox(c))
                        &&& w1.cell(c as int, e1) == Some(Square::Block)
                    }))
            }),
        decreases depth,
    {
        if depth == 0 {
            return Err(StructuralError::DepthLimit);
        }
        let ghost q0g = (op.0 as int + dir.0 as int, op.1 as int + dir.1 as int);
        let ghost pv = pos_view(op);
        let ghost dv = (dir.0 as int, dir.1 as int);
        proof {
            lemma_step_zero(pv, dv);
            lemma_step_succ(pv, dv, 0);
            assert(step_n(pv, dv, 1) == q0g);
        }
        let first = match self.probe_from(ob, op, dir) {
            Err(e) => {
                return Err(e);
            },
            Ok(q) => q,
        };
        let cb0 = first.0;
        let cp0 = first.1;
        let mut cb = cb0;
        let mut cp = cp0;
        let mut chain: Vec<ChainLink> = Vec::new();
        // Walk budget: an acyclic world's chain walk visits each box at
        // most once, for at most MAX_DIM + 1 steps each, so MAX_BOXES
        // * (MAX_DIM + 1) + 1 steps suffice; exceeding the budget reveals
        // cyclic containment.
        let mut steps: usize = 100_010_001;
        loop
            invariant
                self@ == old(self)@,
                self@.wf(),
                unit_dir((dir.0 as int, dir.1 as int)),
                self@.valid_box(cb as int),
                self@.boxes[cb as int].in_bounds(pos_view(cp)),
                chain_sites_ok(self@, chain@),
                chain_contents_ok(self@, chain@),
                1 <= depth,
                q0g == (op.0 as int + dir.0 as int, op.1 as int + dir.1 as int),
                old(self)@.boxes[ob as int].in_bounds(q0g) ==> cb0 == ob && pos_view(cp0)
                    == q0g,
                chain@.len() == 0 ==> cb == cb0 && cp == cp0,
                chain@.len() > 0 ==> (chain@[0].1 == cb0 && chain@[0].2 == cp0),
                pv == pos_view(op),
                dv == (dir.0 as int, dir.1 as int),
                q0g == step_n(pv, dv, 1),
                old(self)@.valid_box(ob as int),
                -1 <= op.0 <= old(self)@.boxes[ob as int].size.0,
                -1 <= op.1 <= old(self)@.boxes[ob as int].size.1,
                steps + chain@.len() == 100_010_001,
                forall|k: int|
                    1 <= k && #[trigger] block_run(old(self)@, ob as int, pv, dv, k) ==> ({
                        &&& chain@.len() <= k
                        &&& (forall|i: int|
                            0 <= i < chain@.len() ==> (#[trigger] chain@[i]).0
                                == Square::Block && chain@[i].1 == ob && pos_view(chain@[i].2)
                                == step_n(pv, dv, i + 1))
                        &&& cb == ob
                        &&& pos_view(cp) == step_n(pv, dv, chain@.len() as int + 1)
                    }),
                forall|c: i32|
                    #[trigger] entry_setup(old(self)@, ob as int, pv, dv, c) ==> ({
                        &&& chain@.len() <= 2
                        &&& (chain@.len() >= 1 ==> chain@[0].0 == Square::Block)
                        &&& (chain@.len() == 2 ==> chain@[1].0 == Square::Parabox(c)
                            && chain@[1].1 == ob && pos_view(chain@[1].2) == step_n(pv, dv, 2))
                        &&& cb == ob
                        &&& pos_view(cp) == step_n(pv, dv, chain@.len() as int + 1)
                    }),
            decreases steps,
        {
            match self.cell_at(cb, cp) {
                None => {
                    // Empty terminal: the push succeeds. With no chain the
                    // probe point itself is the mover's slot and nothing
                    // changes yet.
                    if chain.len() == 0 {
                        return Ok(Some((cb, cp)));
                    }
                    proof {
                        assert(self@.cell(chain@[0].1 as int, pos_view(chain@[0].2)) == Some(
                            chain@[0].0,
                        ));
                        assert(!(old(self)@.boxes[ob as int].in_bounds(q0g) && (old(
                            self,
                        )@.cell(ob as int, q0g) is None || old(self)@.cell(ob as int, q0g)
                            == Some(Square::Wall))));
                    }
                    proof {
                        assert forall|k: int|
                            1 <= k && #[trigger] block_run(old(self)@, ob as int, pv, dv, k)
                            implies chain@.len() == k && distinct_cells(chain@) by {
                            if chain@.len() < k {
                                // the walk would have found a block here,
                                // not free space
                                assert(self@.cell(
                                    ob as int,
                                    step_n(pv, dv, chain@.len() as int + 1),
                                ) == Some(Square::Block));
                                assert(false);
                            }
                            assert forall|a: int, b: int|
                                0 <= a < b < chain@.len() implies !((#[trigger] chain@[a]).1
                                == (#[trigger] chain@[b]).1 && chain@[a].2 == chain@[b].2) by {
                                lemma_step_inj(pv, dv, a + 1, b + 1);
                            }
                        }
                        assert forall|c: i32| !(#[trigger] entry_setup(
                            old(self)@,
                            ob as int,
                            pv,
                            dv,
                            c,
                        )) by {
                            if entry_setup(old(self)@, ob as int, pv, dv, c) {
                                // every cell of the setup is occupied, yet
                                // this probe point is free
                                assert(false);
                            }
                        }
                    }
                    // Commit the chain from its far end, each square moving
                    // into the slot vacated just before it.
                    if !Self::chain_distinct(&chain) {
                        return Err(StructuralError::CorruptChain);
                    }
                    let mut db = cb;
                    let mut dp = cp;
                    let mut i = chain.len();
                    while i > 0
                        invariant
                            i <= chain@.len(),
                            self@.consistent_after(old(self)@),
                            distinct_cells(chain@),
                            chain_sites_ok(self@, chain@),
                            q0g == (op.0 as int + dir.0 as int, op.1 as int + dir.1 as int),
                            !(old(self)@.boxes[ob as int].in_bounds(q0g) && (old(
                                self,
                            )@.cell(ob as int, q0g) is None || old(self)@.cell(ob as int, q0g)
                                == Some(Square::Wall))),
                            forall|k: int|
                                0 <= k < i ==> self@.cell(
                                    (#[trigger] chain@[k]).1 as int,
                                    pos_view(chain@[k].2),
                                ) == Some(chain@[k].0),
                            self@.valid_box(db as int),
                            self@.boxes[db as int].in_bounds(pos_view(dp)),
                            self@.cell(db as int, pos_view(dp)) is None,
                            pv == pos_view(op),
                            dv == (dir.0 as int, dir.1 as int),
                            old(self)@.valid_box(ob as int),
                            unit_dir(dv),
                            forall|c: i32|
                                !(#[trigger] entry_setup(old(self)@, ob as int, pv, dv, c)),
                            forall|k: int|
                                1 <= k && #[trigger] block_run(old(self)@, ob as int, pv, dv, k)
                                    ==> ({
                                    &&& k == chain@.len()
                                    &&& db == ob
                                    &&& pos_view(dp) == step_n(pv, dv, i as int + 1)
                                    &&& (forall|i2: int|
                                        0 <= i2 < chain@.len() ==> (#[trigger] chain@[i2]).0
                                            == Square::Block && chain@[i2].1 == ob && pos_view(
                                            chain@[i2].2,
                                        ) == step_n(pv, dv, i2 + 1))
                                    &&& (forall|j: int|
                                        i as int + 2 <= j <= k + 1 ==> self@.cell(
                                            ob as int,
                                            #[trigger] step_n(pv, dv, j),
                                        ) == Some(Square::Block))
                                    &&& (forall|b2: int, p2: (int, int)|
                                        old(self)@.valid_box(b2)
                                            && old(self)@.boxes[b2].in_bounds(p2) && !(b2
                                            == ob as int && (exists|j: int|
                                            1 <= j <= k + 1 && p2 == #[trigger] step_n(
                                                pv,
                                                dv,
                                                j,
                                            ))) ==> #[trigger] self@.cell(b2, p2)
                                            == old(self)@.cell(b2, p2))
                                }),
                        decreases i,
                    {
                        i = i - 1;
                        let link = chain[i];
                        let ghost wpre = self@;
                        match self.try_move_square(link.1, link.2, db, dp) {
                            Err(e) => {
                                return Err(e);
                            },
                            Ok(()) => (),
                        }
                        proof {
                            lemma_consistent_trans(self@, wpre, old(self)@);
                            lemma_sites_stable(wpre, self@, chain@);
                            assert forall|k: int| 0 <= k < i implies self@.cell(
                                (#[trigger] chain@[k]).1 as int,
                                pos_view(chain@[k].2),
                            ) == Some(chain@[k].0) by {
                                assert(wpre.cell(chain@[k].1 as int, pos_view(chain@[k].2))
                                    == Some(chain@[k].0));
                            }
                            assert forall|k: int|
                                1 <= k && #[trigger] block_run(old(self)@, ob as int, pv, dv, k)
                                    implies {
                                    &&& pos_view(link.2) == step_n(pv, dv, i as int + 1)
                                    &&& link.1 == ob
                                    &&& (forall|j: int|
                                        i as int + 2 <= j <= k + 1 ==> self@.cell(
                                            ob as int,
                                            #[trigger] step_n(pv, dv, j),
                                        ) == Some(Square::Block))
                                    &&& (forall|b2: int, p2: (int, int)|
                                        old(self)@.valid_box(b2)
                                            && old(self)@.boxes[b2].in_bounds(p2) && !(b2
                                            == ob as int && (exists|j: int|
                                            1 <= j <= k + 1 && p2 == #[trigger] step_n(
                                                pv,
                                                dv,
                                                j,
                                            ))) ==> #[trigger] self@.cell(b2, p2)
                                            == old(self)@.cell(b2, p2))
                                } by {
                                lemma_step_succ(pv, dv, i as int + 1);
                                assert(pos_view(dp) == step_n(pv, dv, i as int + 2));
                                assert forall|j: int|
                                    i as int + 2 <= j <= k + 1 implies self@.cell(
                                    ob as int,
                                    #[trigger] step_n(pv, dv, j),
                                ) == Some(Square::Block) by {
                                    if j != i as int + 1 {
                                        lemma_step_inj(pv, dv, j, i as int + 1);
                                    }
                                    if j != i as int + 2 {
                                        lemma_step_inj(pv, dv, j, i as int + 2);
                                    }
                                    if j == i as int + 2 {
                                        assert(self@.cell(ob as int, pos_view(dp)) == wpre.cell(
                                            ob as int,
                                            step_n(pv, dv, i as int + 1),
                                        ));
                                    } else if j > i as int + 2 {
                                        assert(wpre.cell(ob as int, step_n(pv, dv, j)) == Some(
                                            Square::Block,
                                        ));
                                    }
                                }
                                assert forall|b2: int, p2: (int, int)|
                                    old(self)@.valid_box(b2) && old(self)@.boxes[b2].in_bounds(
                                        p2,
                                    ) && !(b2 == ob as int && (exists|j: int|
                                        1 <= j <= k + 1 && p2 == #[trigger] step_n(pv, dv, j)))
                                        implies #[trigger] self@.cell(b2, p2) == old(
                                    self,
                                )@.cell(b2, p2) by {
                                    assert(wpre.cell(b2, p2) == old(self)@.cell(b2, p2));
                                    if (b2, p2) == (ob as int, step_n(pv, dv, i as int + 1)) {
                                        assert(1 <= i as int + 1 <= k + 1 && p2 == step_n(
                                            pv,
                                            dv,
                                            i as int + 1,
                                        ));
                                    }
                                    if (b2, p2) == (ob as int, step_n(pv, dv, i as int + 2)) {
                                        assert(1 <= i as int + 2 <= k + 1 && p2 == step_n(
                                            pv,
                                            dv,
                                            i as int + 2,
                                        ));
                                    }
                                    assert(self@.cell(b2, p2) == wpre.cell(b2, p2));
                                }
                            }
                        }
                        db = link.1;
                        dp = link.2;
                    }
                    return Ok(Some((db, dp)));
                },
                Some(Square::Wall) => {
                    // Wall terminal: blocked, unless some contained box in
                    // the chain accepts the element behind it (or the mover
                    // itself) through its entry point.
                    if chain.len() == 0 {
                        return Ok(None);
                    }
                    proof {
                        assert(self@.cell(chain@[0].1 as int, pos_view(chain@[0].2)) == Some(
                            chain@[0].0,
                        ));
                        assert(!(old(self)@.boxes[ob as int].in_bounds(q0g) && (old(
                            self,
                        )@.cell(ob as int, q0g) is None || old(self)@.cell(ob as int, q0g)
                            == Some(Square::Wall))));
                        assert forall|k: int| 1 <= k implies !(#[trigger] block_run(
                            old(self)@,
                            ob as int,
                            pv,
                            dv,
                            k,
                        )) by {
                            if block_run(old(self)@, ob as int, pv, dv, k) {
                                if chain@.len() < k {
                                    assert(self@.cell(
                                        ob as int,
                                        step_n(pv, dv, chain@.len() as int + 1),
                                    ) == Some(Square::Block));
                                } else {
                                    assert(self@.cell(ob as int, step_n(pv, dv, k + 1))
                                        is None);
                                }
                                assert(false);
                            }
                        }
                        assert forall|c: i32|
                            #[trigger] entry_setup(old(self)@, ob as int, pv, dv, c)
                            implies chain@.len() == 2 && chain@[0].0 == Square::Block
                            && chain@[0].1 == ob && pos_view(chain@[0].2) == step_n(pv, dv, 1)
                            && chain@[1].0 == Square::Parabox(c) && chain@[1].1 == ob
                            && pos_view(chain@[1].2) == step_n(pv, dv, 2) && distinct_cells(
                            chain@,
                        ) by {
                            if chain@.len() < 2 {
                                // a wall cannot stand where the setup puts
                                // a pushable square
                                assert(false);
                            }
                            assert forall|a: int, b: int|
                                0 <= a < b < chain@.len() implies !((#[trigger] chain@[a]).1
                                == (#[trigger] chain@[b]).1 && chain@[a].2 == chain@[b].2) by {
                                lemma_step_inj(pv, dv, a + 1, b + 1);
                            }
                        }
                    }
                    if !Self::chain_distinct(&chain) {
                        return Err(StructuralError::CorruptChain);
                    }
                    let mut j = chain.len();
                    while j > 0
                        invariant
                            j <= chain@.len(),
                            self@ == old(self)@,
                            self@.wf(),
                            unit_dir((dir.0 as int, dir.1 as int)),
                            chain_sites_ok(self@, chain@),
                            chain_contents_ok(self@, chain@),
                            distinct_cells(chain@),
                            1 <= depth,
                            q0g == (op.0 as int + dir.0 as int, op.1 as int + dir.1 as int),
                            pv == pos_view(op),
                            dv == (dir.0 as int, dir.1 as int),
                            !(old(self)@.boxes[ob as int].in_bounds(q0g) && (old(
                                self,
                            )@.cell(ob as int, q0g) is None || old(self)@.cell(ob as int, q0g)
                                == Some(Square::Wall))),
                            forall|k: int|
                                1 <= k ==> !(#[trigger] block_run(
                                    old(self)@,
                                    ob as int,
                                    pv,
                                    dv,
                                    k,
                                )),
                            forall|c: i32|
                                2 <= depth && #[trigger] entry_setup(
                                    old(self)@,
                                    ob as int,
                                    pv,
                                    dv,
                                    c,
                                ) ==> ({
                                    &&& j == 2
                                    &&& chain@.len() == 2
                                    &&& chain@[0].0 == Square::Block && chain@[0].1 == ob
                                        && pos_view(chain@[0].2) == step_n(pv, dv, 1)
                                    &&& chain@[1].0 == Square::Parabox(c) && chain@[1].1 == ob
                                        && pos_view(chain@[1].2) == step_n(pv, dv, 2)
                                }),
                        decreases j,
                    {
                        j = j - 1;
                        let link = chain[j];
                        if let Square::Parabox(id) = link.0 {
                            proof {
                                let bj = link.1 as int;
                                let pj = pos_view(link.2);
                                lemma_idx_in_range(self@.boxes[bj], pj);
                                assert(self@.boxes[bj].cells[self@.boxes[bj].idx(pj)] == Some(
                                    Square::Parabox(id),
                                ));
                                assert(0 <= id < self@.boxes.len());
                                assert(self@.boxes[id as int] == self.paraboxes@[id as int]@);
                            }
                            let entry = self.paraboxes[id as usize].enter_from(dir);
                            match self.resolve(id, entry, dir, depth - 1) {
                                Err(e) => {
                                    return Err(e);
                                },
                                Ok(None) => (),  // this link would not open; try a closer one
                                Ok(Some(d0)) => {
                                    if j == 0 {
                                        // the mover itself enters the box
                                        return Ok(Some(d0));
                                    }
                                    // the element just behind enters the box
                                    let prev = chain[j - 1];
                                    let ghost wpre = self@;
                                    match self.try_move_square(prev.1, prev.2, d0.0, d0.1) {
                                        Err(e) => {
                                            return Err(e);
                                        },
                                        Ok(()) => (),
                                    }
                                    proof {
                                        lemma_consistent_trans(self@, wpre, old(self)@);
                                        lemma_sites_stable(old(self)@, self@, chain@);
                                        assert forall|c: i32|
                                            2 <= depth && #[trigger] entry_setup(
                                                old(self)@,
                                                ob as int,
                                                pv,
                                                dv,
                                                c,
                                            ) implies ({
                                            let e = old(self)@.boxes[c as int].enter_point(dv);
                                            let e1 = (e.0 + dv.0, e.1 + dv.1);
                                            &&& self@.cell(ob as int, step_n(pv, dv, 1))
                                                is None
                                            &&& self@.cell(ob as int, step_n(pv, dv, 2))
                                                == Some(Square::Parabox(c))
                                            &&& self@.cell(c as int, e1) == Some(Square::Block)
                                        }) by {
                                            lemma_step_inj(pv, dv, 1, 2);
                                            let e = old(self)@.boxes[c as int].enter_point(dv);
                                            let e1 = (e.0 + dv.0, e.1 + dv.1);
                                            assert(wpre.cell(ob as int, step_n(pv, dv, 2))
                                                == Some(Square::Parabox(c)));
                                            assert(wpre.cell(c as int, e1) is None);
                                        }
                                    }
                                    // close the gap: each closer element
                                    // moves one slot forward
                                    let mut i = j - 1;
                                    while i > 0
                                        invariant
                                            i < chain@.len(),
                                            self@.consistent_after(old(self)@),
                                            chain_sites_ok(self@, chain@),
                                            q0g == (op.0 as int + dir.0 as int, op.1 as int
                                                + dir.1 as int),
                                            pv == pos_view(op),
                                            dv == (dir.0 as int, dir.1 as int),
                                            !(old(self)@.boxes[ob as int].in_bounds(q0g) && (
                                            old(self)@.cell(ob as int, q0g) is None || old(
                                                self,
                                            )@.cell(ob as int, q0g) == Some(Square::Wall))),
                                            forall|k: int|
                                                1 <= k ==> !(#[trigger] block_run(
                                                    old(self)@,
                                                    ob as int,
                                                    pv,
                                                    dv,
                                                    k,
                                                )),
                                            forall|c: i32|
                                                2 <= depth && #[trigger] entry_setup(
                                                    old(self)@,
                                                    ob as int,
                                                    pv,
                                                    dv,
                                                    c,
                                                ) ==> ({
                                                    let e = old(
                                                        self,
                                                    )@.boxes[c as int].enter_point(dv);
                                                    let e1 = (e.0 + dv.0, e.1 + dv.1);
                                                    &&& i == 0
                                                    &&& chain@[0].1 == ob && pos_view(
                                                        chain@[0].2,
                                                    ) == step_n(pv, dv, 1)
                                                    &&& self@.cell(
                                                        ob as int,
                                                        step_n(pv, dv, 1),
                                                    ) is None
                                                    &&& self@.cell(
                                                        ob as int,
                                                        step_n(pv, dv, 2),
                                                    ) == Some(Square::Parabox(c))
                                                    &&& self@.cell(c as int, e1) == Some(
                                                        Square::Block,
                                                    )
                                                }),
                                            self@.cell(
                                                (chain@[i as int]).1 as int,
                                                pos_view(chain@[i as int].2),
                                            ) is None,
                                        decreases i,
                                    {
                                        i = i - 1;
                                        let a = chain[i];
                                        let b2 = chain[i + 1];
                                        let ghost wp2 = self@;
                                        match self.try_move_square(a.1, a.2, b2.1, b2.2) {
                                            Err(e) => {
                                                return Err(e);
                                            },
                                            Ok(()) => (),
                                        }
                                        proof {
                                            lemma_consistent_trans(self@, wp2, old(self)@);
                                            lemma_sites_stable(old(self)@, self@, chain@);
                                        }
                                    }
                                    let head = chain[0];
                                    return Ok(Some((head.1, head.2)));
                                },
                            }
                        }
                    }
                    return Ok(None);
                },
                Some(sq) => {
                    // A pushable square: record it and walk on.
                    let ghost lpre = chain@.len() as int;
                    proof {
                        assert(sq.is_pushable());
                        assert forall|k: int|
                            1 <= k && #[trigger] block_run(old(self)@, ob as int, pv, dv, k)
                            implies lpre < k by {
                            if lpre == k {
                                // the cell past a full run is free, and this
                                // one is not
                                assert(self@.cell(ob as int, step_n(pv, dv, k + 1)) is None);
                            }
                        }
                        assert forall|c: i32|
                            #[trigger] entry_setup(old(self)@, ob as int, pv, dv, c)
                            implies lpre < 2 by {
                            if lpre == 2 {
                                // the third cell of the setup is a wall,
                                // and walls are not pushable
                                assert(self@.cell(ob as int, step_n(pv, dv, 3)) == Some(
                                    Square::Wall,
                                ));
                            }
                        }
                        lemma_step_succ(pv, dv, lpre + 1);
                    }
                    chain.push((sq, cb, cp));
                    if steps == 0 {
                        proof {
                            assert forall|k: int| 1 <= k implies !(#[trigger] block_run(
                                old(self)@,
                                ob as int,
                                pv,
                                dv,
                                k,
                            )) by {
                                if block_run(old(self)@, ob as int, pv, dv, k) {
                                    lemma_run_k_bound(old(self)@, ob as int, pv, dv, k);
                                }
                            }
                            assert forall|c: i32| !(#[trigger] entry_setup(
                                old(self)@,
                                ob as int,
                                pv,
                                dv,
                                c,
                            )) by {}
                        }
                        return Err(StructuralError::DepthLimit);
                    }
                    steps = steps - 1;
                    match self.probe_from(cb, cp, dir) {
                        Err(e) => {
                            proof {
                                assert forall|k: int| 1 <= k implies !(#[trigger] block_run(
                                    old(self)@,
                                    ob as int,
                                    pv,
                                    dv,
                                    k,
                                )) by {
                                    if block_run(old(self)@, ob as int, pv, dv, k) {
                                        if lpre + 2 <= k {
                                            assert(old(self)@.boxes[ob as int].in_bounds(
                                                step_n(pv, dv, lpre + 2),
                                            ));
                                        } else {
                                            assert(lpre + 2 == k + 1);
                                        }
                                        assert(false);
                                    }
                                }
                                assert forall|c: i32| !(#[trigger] entry_setup(
                                    old(self)@,
                                    ob as int,
                                    pv,
                                    dv,
                                    c,
                                )) by {
                                    if entry_setup(old(self)@, ob as int, pv, dv, c) {
                                        assert(old(self)@.boxes[ob as int].in_bounds(step_n(
                                            pv,
                                            dv,
                                            lpre + 2,
                                        )));
                                        assert(false);
                                    }
                                }
                            }
                            return Err(e);
                        },
                        Ok(q) => {
                            cb = q.0;
                            cp = q.1;
                        },
                    }
                },
            }
        }
    }
}

impl LevelConfig {
    /// Move the avatar's bookkeeping to the cell `dp` of box `db`: the
    /// world-level location is the single source of truth, and the two
    /// boxes' recorded positions are updated in the same commit.
    fn set_avatar(&mut self, db: i32, dp: (i32, i32))
        requires
            old(self)@.wf(),
            old(self)@.valid_box(db as int),
            old(self)@.boxes[db as int].in_bounds(pos_view(dp)),
        ensures
            final(self)@.wf(),
            final(self)@.same_skeleton(old(self)@),
            final(self)@.same_counts(old(self)@),
            final(self)@.player_pos == (db as int, pos_view(dp)),
            forall|b: int|
                0 <= b < old(self)@.boxes.len() ==> (#[trigger] final(self)@.boxes[b]).cells
                    == old(self)@.boxes[b].cells && final(self)@.boxes[b].outer
                    == old(self)@.boxes[b].outer,
    {
        let ghost w0 = self@;
        let opb = self.player_pos.0;
        let bo = &mut self.paraboxes[opb as usize];
        bo.set_player_pos(None);
        proof {
            assert(self@.boxes =~= w0.boxes.update(
                opb as int,
                BoxView { player_pos: None, ..w0.boxes[opb as int] },
            ));
        }
        let ghost wa = self@;
        let bn = &mut self.paraboxes[db as usize];
        bn.set_player_pos(Some(dp));
        proof {
            assert(self@.boxes =~= wa.boxes.update(
                db as int,
                BoxView { player_pos: Some(pos_view(dp)), ..wa.boxes[db as int] },
            ));
        }
        self.player_pos = (db, dp);
        proof {
            let w1 = self@;
            assert forall|q: Square| #[trigger] wcnt(w1.boxes, q) == wcnt(w0.boxes, q) by {
                lemma_wcnt_update(
                    w0.boxes,
                    opb as int,
                    BoxView { player_pos: None, ..w0.boxes[opb as int] },
                    q,
                );
                lemma_wcnt_update(
                    wa.boxes,
                    db as int,
                    BoxView { player_pos: Some(pos_view(dp)), ..wa.boxes[db as int] },
                    q,
                );
            }
            assert(w1.boxes_wf());
            assert(w1.avatar_ok());
            assert forall|bi: int, j: int|
                0 <= bi < w1.boxes.len() && 0 <= j < w1.boxes[bi].cells.len() implies ((
            #[trigger] w1.boxes[bi].cells[j]) matches Some(Square::Parabox(id2)) ==> 0 <= id2
                < w1.boxes.len() && w1.boxes[id2 as int].outer == Some(bi)) by {
                assert(w1.boxes[bi].cells == w0.boxes[bi].cells);
            }
            assert(w1.containment_ok());
        }
    }

    /// Write a detached square into an empty cell. A placed box becomes
    /// contained here: its `outer` is redirected in the same commit.
    fn place_square(&mut self, db: i32, dp: (i32, i32), sq: Square)
        requires
            old(self)@.wf(),
            old(self)@.valid_box(db as int),
            old(self)@.boxes[db as int].in_bounds(pos_view(dp)),
            old(self)@.cell(db as int, pos_view(dp)) is None,
            sq == Square::Block || (sq matches Square::Parabox(id) && 0 <= id < old(
                self,
            )@.boxes.len() && old(self)@.boxes[id as int].outer is None),
        ensures
            final(self)@.wf(),
            final(self)@.same_skeleton(old(self)@),
            final(self)@.same_avatar(old(self)@),
            final(self)@.cell(db as int, pos_view(dp)) == Some(sq),
            forall|q: Square|
                #[trigger] wcnt(final(self)@.boxes, q) == wcnt(old(self)@.boxes, q) + occ(
                    Some(sq),
                    q,
                ),
    {
        let ghost w0 = self@;
        let ghost t = (db as int, pos_view(dp));
        let ghost idxt = w0.boxes[t.0].idx(t.1);
        proof {
            lemma_idx_in_range(w0.boxes[t.0], t.1);
        }
        let bt = &mut self.paraboxes[db as usize];
        bt.add_square(dp, sq);
        proof {
            assert(self@.boxes =~= w0.boxes.update(
                t.0,
                BoxView { cells: w0.boxes[t.0].cells.update(idxt, Some(sq)), ..w0.boxes[t.0] },
            ));
        }
        let ghost wa = self@;
        if let Square::Parabox(id) = sq {
            let bo = &mut self.paraboxes[id as usize];
            bo.outer = Some(db);
            proof {
                assert(self@.boxes =~= wa.boxes.update(
                    id as int,
                    BoxView { outer: Some(db as int), ..wa.boxes[id as int] },
                ));
            }
        }
        proof {
            let w1 = self@;
            // counts gain exactly the placed square
            assert forall|q: Square| #[trigger] wcnt(w1.boxes, q) == wcnt(w0.boxes, q) + occ(
                Some(sq),
                q,
            ) by {
                lemma_cnt_update(w0.boxes[t.0].cells, idxt, Some(sq), q);
                lemma_wcnt_update(
                    w0.boxes,
                    t.0,
                    BoxView {
                        cells: w0.boxes[t.0].cells.update(idxt, Some(sq)),
                        ..w0.boxes[t.0]
                    },
                    q,
                );
                match sq {
                    Square::Parabox(id) => {
                        lemma_wcnt_update(
                            wa.boxes,
                            id as int,
                            BoxView { outer: Some(db as int), ..wa.boxes[id as int] },
                            q,
                        );
                    },
                    _ => (),
                }
            }
            // the placed box was recorded nowhere before
            match sq {
                Square::Parabox(id) => {
                    assert(wcnt(w0.boxes, Square::Parabox(id)) == 0);
                    lemma_wcnt_zero(w0.boxes, Square::Parabox(id));
                },
                _ => (),
            }
            assert(w1.boxes_wf());
            assert(w1.avatar_ok());
            assert forall|bi: int, j: int|
                0 <= bi < w1.boxes.len() && 0 <= j < w1.boxes[bi].cells.len() implies ((
            #[trigger] w1.boxes[bi].cells[j]) matches Some(Square::Parabox(id2)) ==> 0 <= id2
                < w1.boxes.len() && w1.boxes[id2 as int].outer == Some(bi)) by {
                match w1.boxes[bi].cells[j] {
                    Some(Square::Parabox(id2)) => {
                        if bi == t.0 && j == idxt {
                            assert(sq == Square::Parabox(id2));
                        } else {
                            assert(w1.boxes[bi].cells[j] == w0.boxes[bi].cells[j]);
                            assert(0 <= id2 < w0.boxes.len() && w0.boxes[id2 as int].outer
                                == Some(bi));
                            assert(sq != Square::Parabox(id2));
                        }
                    },
                    _ => (),
                }
            }
            assert forall|i: int| 0 <= i < w1.boxes.len() implies wcnt(
                w1.boxes,
                Square::Parabox(i as i32),
            ) == (if (#[trigger] w1.boxes[i]).outer is Some {
                1int
            } else {
                0int
            }) by {
                match sq {
                    Square::Parabox(id) => {
                        if i == id as int {
                            assert(wcnt(w1.boxes, Square::Parabox(i as i32)) == 1);
                        }
                    },
                    _ => (),
                }
            }
            assert(w1.containment_ok());
        }
    }

    /// Resolve and commit one directional push.
    ///
    /// `square` is `None` when the avatar itself is the mover, `Some(sq)`
    /// when a detached square is being placed by pushing it in from
    /// `ori_pos`. `ori_pos` defaults to the avatar's location. `Ok(true)`
    /// is a committed move, `Ok(false)` a blocked one that left the world
    /// exactly as it was; `Err` reports a structurally corrupted world.
    pub fn shift(&mut self, square: Option<Square>, ori_pos: Option<(i32, (i32, i32))>, dir: (
        i32,
        i32,
    )) -> (r: Result<bool, StructuralError>)
        requires
            old(self)@.wf(),
            unit_dir((dir.0 as int, dir.1 as int)),
            ori_pos matches Some(o) ==> old(self)@.valid_box(o.0 as int) && -1 <= o.1.0 <= old(
                self,
            )@.boxes[o.0 as int].size.0 && -1 <= o.1.1 <= old(self)@.boxes[o.0 as int].size.1,
            square is None ==> (ori_pos matches Some(o) ==> (o.0 as int, pos_view(o.1)) == old(
                self,
            )@.player_pos),
            square matches Some(sq) ==> (sq == Square::Block || (sq matches Square::Parabox(id)
                && 0 <= id < old(self)@.boxes.len() && old(self)@.boxes[id as int].outer
                is None)),
        ensures
            ({
                let w0 = old(self)@;
                let w1 = final(self)@;
                match r {
                    Err(_) => w1.consistent_after(w0),
                    Ok(false) => w1 == w0,
                    Ok(true) => {
                        &&& w1.wf()
                        &&& w1.same_skeleton(w0)
                        &&& (square is None ==> w1.same_counts(w0))
                        &&& (square matches Some(sq) ==> w1.same_avatar(w0) && (forall|
                            q: Square,
                        |
                            #[trigger] wcnt(w1.boxes, q) == wcnt(w0.boxes, q) + occ(
                                Some(sq),
                                q,
                            )))
                    },
                }
            }),
            ({
                let w0 = old(self)@;
                let org = match ori_pos {
                    Some(o) => (o.0 as int, pos_view(o.1)),
                    None => w0.player_pos,
                };
                let q0 = (org.1.0 + dir.0 as int, org.1.1 + dir.1 as int);
                w0.boxes[org.0].in_bounds(q0) ==> {
                    &&& (w0.cell(org.0, q0) is None ==> r == Ok::<bool, StructuralError>(true) && (square is None
                        ==> final(self)@.player_pos == (org.0, q0)) && (square matches Some(
                        sq,
                    ) ==> final(self)@.cell(org.0, q0) == Some(sq)))
                    &&& (w0.cell(org.0, q0) == Some(Square::Wall) ==> r == Ok::<bool, StructuralError>(false))
                }
            }),
            ({
                let w0 = old(self)@;
                let w1 = final(self)@;
                let org = match ori_pos {
                    Some(o) => (o.0 as int, pos_view(o.1)),
                    None => w0.player_pos,
                };
                let dv = (dir.0 as int, dir.1 as int);
                square is None ==> (forall|k: int|
                    1 <= k && #[trigger] block_run(w0, org.0, org.1, dv, k) ==> ({
                        &&& r == Ok::<bool, StructuralError>(true)
                        &&& w1.player_pos == (org.0, step_n(org.1, dv, 1))
                        &&& w1.cell(org.0, step_n(org.1, dv, 1)) is None
                        &&& (forall|i: int|
                            2 <= i <= k + 1 ==> w1.cell(
                                org.0,
                                #[trigger] step_n(org.1, dv, i),
                            ) == Some(Square::Block))
                    }))
            }),
            ({
                let w0 = old(self)@;
                let w1 = final(self)@;
                let org = match ori_pos {
                    Some(o) => (o.0 as int, pos_view(o.1)),
                    None => w0.player_pos,
                };
                let dv = (dir.0 as int, dir.1 as int);
                square is None && w0.boxes.len() >= 2 ==> (forall|c: i32|
                    #[trigger] entry_setup(w0, org.0, org.1, dv, c) ==> ({
                        let e = w0.boxes[c as int].enter_point(dv);
                        let e1 = (e.0 + dv.0, e.1 + dv.1);
                        &&& r == Ok::<bool, StructuralError>(true)
                        &&& w1.player_pos == (org.0, step_n(org.1, dv, 1))
                        &&& w1.cell(org.0, step_n(org.1, dv, 2)) == Some(Square::Parabox(c))
                        &&& w1.cell(c as int, e1) == Some(Square::Block)
                    }))
            }),
    {
        let ghost w0 = self@;
        let (ob, op) = match ori_pos {
            Some(o) => o,
            None => self.player_pos,
        };
        let depth = self.paraboxes.len();
        let res = match self.resolve(ob, op, dir, depth) {
            Err(e) => {
                return Err(e);
            },
            Ok(x) => x,
        };
        let ghost wi = self@;
        match res {
            None => Ok(false),
            Some(d) => {
                match square {
                    None => {
                        self.set_avatar(d.0, d.1);
                        proof {
                            assert(self@.same_skeleton(w0));
                            assert(self@.same_counts(w0));
                            assert forall|b2: int, p2: (int, int)|
                                wi.valid_box(b2) && wi.boxes[b2].in_bounds(p2)
                                    implies #[trigger] self@.cell(b2, p2) == wi.cell(
                                b2,
                                p2,
                            ) by {
                                assert(self@.boxes[b2].cells == wi.boxes[b2].cells);
                                assert(self@.boxes[b2].size == wi.boxes[b2].size);
                            }
                        }
                        Ok(true)
                    },
                    Some(sq) => {
                        proof {
                            match sq {
                                Square::Parabox(id) => {
                                    // the detached box is still detached:
                                    // its count stayed zero, so its outer
                                    // link cannot have been redirected
                                    assert(wcnt(w0.boxes, Square::Parabox(id)) == 0);
                                    assert(wcnt(wi.boxes, Square::Parabox(id)) == 0);
                                    assert(wi.boxes[id as int].outer is None);
                                },
                                _ => (),
                            }
                        }
                        self.place_square(d.0, d.1, sq);
                        proof {
                            assert(self@.same_skeleton(w0));
                            assert(self@.same_avatar(w0));
                        }
                        Ok(true)
                    },
                }
            },
        }
    }
}

/// The whole proof that one committed cell move keeps every invariant:
/// `wa` is `w0` with the source cell cleared, `wb` is `wa` with the target
/// cell filled, and `w1` is `wb` with the moved box's `outer` redirected
/// (or `wb` itself when the moved square is not a box).
proof fn lemma_move_square_ok(
    w0: WorldView,
    wa: WorldView,
    wb: WorldView,
    w1: WorldView,
    f: (int, (int, int)),
    t: (int, (int, int)),
    sq: Square,
)
    requires
        w0.wf(),
        w0.valid_box(f.0),
        w0.boxes[f.0].in_bounds(f.1),
        w0.valid_box(t.0),
        w0.boxes[t.0].in_bounds(t.1),
        f != t,
        w0.cell(f.0, f.1) == Some(sq),
        w0.cell(t.0, t.1) is None,
        wa.level == w0.level && wa.player_pos == w0.player_pos,
        wb.level == w0.level && wb.player_pos == w0.player_pos,
        w1.level == w0.level && w1.player_pos == w0.player_pos,
        wa.boxes == w0.boxes.update(
            f.0,
            BoxView {
                cells: w0.boxes[f.0].cells.update(w0.boxes[f.0].idx(f.1), None),
                ..w0.boxes[f.0]
            },
        ),
        wb.boxes == wa.boxes.update(
            t.0,
            BoxView {
                cells: wa.boxes[t.0].cells.update(wa.boxes[t.0].idx(t.1), Some(sq)),
                ..wa.boxes[t.0]
            },
        ),
        (sq matches Square::Parabox(id) ==> w1.boxes == wb.boxes.update(
            id as int,
            BoxView { outer: Some(t.0), ..wb.boxes[id as int] },
        )),
        (!(sq is Parabox) ==> w1.boxes == wb.boxes),
    ensures
        w1.cell(f.0, f.1) is None,
        w1.cell(t.0, t.1) == Some(sq),
        forall|b: int, p: (int, int)|
            w0.valid_box(b) && w0.boxes[b].in_bounds(p) && (b, p) != f && (b, p) != t
                ==> #[trigger] w1.cell(b, p) == w0.cell(b, p),
        sq matches Square::Parabox(id) ==> w1.boxes[id as int].outer == Some(t.0),
        forall|i: int|
            0 <= i < w0.boxes.len() && sq != Square::Parabox(i as i32) ==> (
            #[trigger] w1.boxes[i]).outer == w0.boxes[i].outer,
        w1.wf(),
        w1.same_skeleton(w0),
        w1.same_avatar(w0),
        w1.same_counts(w0),
{
    let idxf = w0.boxes[f.0].idx(f.1);
    let idxt = w0.boxes[t.0].idx(t.1);
    lemma_idx_in_range(w0.boxes[f.0], f.1);
    lemma_idx_in_range(w0.boxes[t.0], t.1);
    if f.0 == t.0 && idxf == idxt {
        lemma_idx_injective(w0.boxes[f.0], f.1, t.1);
    }
    // the id moved with a contained box, if one moved at all
    let moved_id: int = match sq {
        Square::Parabox(id) => id as int,
        _ => -1,
    };
    match sq {
        Square::Parabox(id) => {
            // w0's containment invariant names the moved box
            assert(w0.boxes[f.0].cells[idxf] == Some(Square::Parabox(id)));
            assert(0 <= id < w0.boxes.len() && w0.boxes[id as int].outer == Some(f.0));
        },
        _ => (),
    }
    // every box keeps its identity facts; cells change in at most two spots
    assert forall|b: int| 0 <= b < w0.boxes.len() implies {
        &&& (#[trigger] w1.boxes[b]).id == w0.boxes[b].id
        &&& w1.boxes[b].size == w0.boxes[b].size
        &&& w1.boxes[b].targets == w0.boxes[b].targets
        &&& w1.boxes[b].player_target == w0.boxes[b].player_target
        &&& w1.boxes[b].player_pos == w0.boxes[b].player_pos
        &&& w1.boxes[b].cells.len() == w0.boxes[b].cells.len()
    } by {}
    assert(w1.same_skeleton(w0));
    assert(w1.same_avatar(w0));
    // cells pointwise, at index level
    assert forall|b: int, j: int|
        0 <= b < w0.boxes.len() && 0 <= j < w0.boxes[b].cells.len() && !(b == f.0 && j == idxf)
            && !(b == t.0 && j == idxt) implies #[trigger] w1.boxes[b].cells[j]
        == w0.boxes[b].cells[j] by {}
    assert(w1.boxes[f.0].cells[idxf] == None::<Square>);
    assert(w1.boxes[t.0].cells[idxt] == Some(sq));
    // cells pointwise, at position level
    assert forall|b: int, p: (int, int)|
        w0.valid_box(b) && w0.boxes[b].in_bounds(p) && (b, p) != f && (b, p) != t
            implies #[trigger] w1.cell(b, p) == w0.cell(b, p) by {
        lemma_idx_in_range(w0.boxes[b], p);
        if b == f.0 && w0.boxes[b].idx(p) == idxf {
            lemma_idx_injective(w0.boxes[b], p, f.1);
        }
        if b == t.0 && w0.boxes[b].idx(p) == idxt {
            lemma_idx_injective(w0.boxes[b], p, t.1);
        }
    }
    // counts are conserved
    assert forall|q: Square| #[trigger] wcnt(w1.boxes, q) == wcnt(w0.boxes, q) by {
        lemma_cnt_update(w0.boxes[f.0].cells, idxf, None, q);
        lemma_wcnt_update(
            w0.boxes,
            f.0,
            BoxView { cells: w0.boxes[f.0].cells.update(idxf, None), ..w0.boxes[f.0] },
            q,
        );
        lemma_cnt_update(wa.boxes[t.0].cells, idxt, Some(sq), q);
        lemma_wcnt_update(
            wa.boxes,
            t.0,
            BoxView { cells: wa.boxes[t.0].cells.update(idxt, Some(sq)), ..wa.boxes[t.0] },
            q,
        );
        assert(wa.boxes[t.0].cells[idxt] == None::<Square>);
        match sq {
            Square::Parabox(id) => {
                lemma_wcnt_update(
                    wb.boxes,
                    id as int,
                    BoxView { outer: Some(t.0), ..wb.boxes[id as int] },
                    q,
                );
            },
            _ => (),
        }
    }
    // the containment invariant survives
    assert forall|bi: int, j: int|
        0 <= bi < w1.boxes.len() && 0 <= j < w1.boxes[bi].cells.len() implies ((
    #[trigger] w1.boxes[bi].cells[j]) matches Some(Square::Parabox(id2)) ==> 0 <= id2
        < w1.boxes.len() && w1.boxes[id2 as int].outer == Some(bi)) by {
        match w1.boxes[bi].cells[j] {
            Some(Square::Parabox(id2)) => {
                if bi == t.0 && j == idxt {
                    // the freshly written cell: its box's outer was
                    // redirected here
                    assert(sq == Square::Parabox(id2));
                } else {
                    // an untouched cell
                    assert(w1.boxes[bi].cells[j] == w0.boxes[bi].cells[j]);
                    assert(0 <= id2 < w0.boxes.len() && w0.boxes[id2 as int].outer == Some(
                        bi,
                    ));
                    if sq == Square::Parabox(id2) {
                        // a second cell recording the moved box would have
                        // made its count two in w0
                        assert(!(bi == f.0 && j == idxf));
                        lemma_wcnt_ge_two(w0.boxes, sq, f.0, idxf, bi, j);
                        assert(wcnt(w0.boxes, sq) == 1);
                        assert(false);
                    }
                }
            },
            _ => (),
        }
    }
    // counts of contained boxes still match their outer links
    assert forall|i: int| 0 <= i < w1.boxes.len() implies wcnt(
        w1.boxes,
        Square::Parabox(i as i32),
    ) == (if (#[trigger] w1.boxes[i]).outer is Some {
        1int
    } else {
        0int
    }) by {
        assert(wcnt(w1.boxes, Square::Parabox(i as i32)) == wcnt(
            w0.boxes,
            Square::Parabox(i as i32),
        ));
        if i == moved_id {
            assert(w0.boxes[i].outer == Some(f.0));
        } else {
            assert(w1.boxes[i].outer == w0.boxes[i].outer);
        }
    }
    assert(w1.boxes_wf());
    assert(w1.avatar_ok());
}

} // verus!
