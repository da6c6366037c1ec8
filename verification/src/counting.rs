//! Counting squares across cell storage. The counts express both the
//! uniqueness side of the containment invariant (a contained box has exactly
//! one recording cell) and conservation (a push relocates squares, it never
//! creates or destroys one).

use vstd::prelude::*;

use crate::parabox::BoxView;
use crate::square::Square;

verus! {

/// One cell's contribution to the count of square `q`.
pub open spec fn occ(c: Option<Square>, q: Square) -> int {
    if c == Some(q) {
        1
    } else {
        0
    }
}

/// How many cells of one box hold exactly the square `q`.
pub open spec fn cnt_cells(s: Seq<Option<Square>>, q: Square) -> int
    decreases s.len(),
{
    if s.len() == 0 {
        0
    } else {
        cnt_cells(s.drop_last(), q) + occ(s.last(), q)
    }
}

/// How many cells across a whole box list hold exactly the square `q`.
pub open spec fn wcnt(bs: Seq<BoxView>, q: Square) -> int
    decreases bs.len(),
{
    if bs.len() == 0 {
        0
    } else {
        wcnt(bs.drop_last(), q) + cnt_cells(bs.last().cells, q)
    }
}

pub proof fn lemma_cnt_nonneg(s: Seq<Option<Square>>, q: Square)
    ensures
        0 <= cnt_cells(s, q),
    decreases s.len(),
{
    if s.len() > 0 {
        lemma_cnt_nonneg(s.drop_last(), q);
    }
}

/// Updating one cell moves the count by the difference of the two contents.
pub proof fn lemma_cnt_update(s: Seq<Option<Square>>, i: int, v: Option<Square>, q: Square)
    requires
        0 <= i < s.len(),
    ensures
        cnt_cells(s.update(i, v), q) == cnt_cells(s, q) - occ(s[i], q) + occ(v, q),
    decreases s.len(),
{
    let t = s.update(i, v);
    if i == s.len() - 1 {
        assert(t.drop_last() =~= s.drop_last());
    } else {
        assert(t.drop_last() =~= s.drop_last().update(i, v));
        lemma_cnt_update(s.drop_last(), i, v, q);
    }
}

/// A zero count means no cell holds the square, and conversely.
pub proof fn lemma_cnt_zero(s: Seq<Option<Square>>, q: Square)
    ensures
        (cnt_cells(s, q) == 0) <==> (forall|j: int| 0 <= j < s.len() ==> s[j] != Some(q)),
    decreases s.len(),
{
    if s.len() > 0 {
        lemma_cnt_zero(s.drop_last(), q);
        lemma_cnt_nonneg(s.drop_last(), q);
        assert(forall|j: int| 0 <= j < s.len() - 1 ==> s[j] == s.drop_last()[j]);
        assert(s.last() == s[s.len() - 1]);
    }
}

/// A cell holding the square witnesses a count of at least one.
pub proof fn lemma_cnt_ge_one(s: Seq<Option<Square>>, q: Square, i: int)
    requires
        0 <= i < s.len(),
        s[i] == Some(q),
    ensures
        cnt_cells(s, q) >= 1,
    decreases s.len(),
{
    lemma_cnt_nonneg(s.drop_last(), q);
    if i < s.len() - 1 {
        lemma_cnt_ge_one(s.drop_last(), q, i);
    }
}

/// Two distinct cells holding the square witness a count of at least two.
pub proof fn lemma_cnt_ge_two(s: Seq<Option<Square>>, q: Square, i: int, j: int)
    requires
        0 <= i < s.len(),
        0 <= j < s.len(),
        i != j,
        s[i] == Some(q),
        s[j] == Some(q),
    ensures
        cnt_cells(s, q) >= 2,
    decreases s.len(),
{
    let lo = if i < j {
        i
    } else {
        j
    };
    let hi = if i < j {
        j
    } else {
        i
    };
    if hi == s.len() - 1 {
        lemma_cnt_ge_one(s.drop_last(), q, lo);
    } else {
        lemma_cnt_ge_two(s.drop_last(), q, lo, hi);
    }
}

/// A positive count yields a witnessing cell.
pub proof fn lemma_cnt_pos_exists(s: Seq<Option<Square>>, q: Square)
    requires
        cnt_cells(s, q) >= 1,
    ensures
        exists|i: int| 0 <= i < s.len() && s[i] == Some(q),
    decreases s.len(),
{
    if s.len() > 0 {
        if s.last() == Some(q) {
            assert(s[s.len() - 1] == Some(q));
        } else {
            lemma_cnt_pos_exists(s.drop_last(), q);
            let i = choose|i: int| 0 <= i < s.drop_last().len() && s.drop_last()[i] == Some(q);
            assert(s[i] == Some(q));
        }
    }
}

/// With no two distinct cells holding the square, the count is at most one.
pub proof fn lemma_cnt_le_one(s: Seq<Option<Square>>, q: Square)
    requires
        forall|i: int, j: int|
            0 <= i < j < s.len() ==> !(#[trigger] s[i] == Some(q) && #[trigger] s[j] == Some(
                q,
            )),
    ensures
        cnt_cells(s, q) <= 1,
    decreases s.len(),
{
    if s.len() > 0 {
        lemma_cnt_le_one(s.drop_last(), q);
        lemma_cnt_nonneg(s.drop_last(), q);
        if s.last() == Some(q) && cnt_cells(s.drop_last(), q) >= 1 {
            lemma_cnt_pos_exists(s.drop_last(), q);
            let i = choose|i: int| 0 <= i < s.drop_last().len() && s.drop_last()[i] == Some(q);
            assert(s[i] == Some(q) && s[s.len() - 1] == Some(q));
        }
    }
}

pub proof fn lemma_wcnt_nonneg(bs: Seq<BoxView>, q: Square)
    ensures
        0 <= wcnt(bs, q),
    decreases bs.len(),
{
    if bs.len() > 0 {
        lemma_wcnt_nonneg(bs.drop_last(), q);
        lemma_cnt_nonneg(bs.last().cells, q);
    }
}

/// Replacing one box moves the world count by the difference of the two
/// boxes' own counts.
pub proof fn lemma_wcnt_update(bs: Seq<BoxView>, i: int, b: BoxView, q: Square)
    requires
        0 <= i < bs.len(),
    ensures
        wcnt(bs.update(i, b), q) == wcnt(bs, q) - cnt_cells(bs[i].cells, q) + cnt_cells(
            b.cells,
            q,
        ),
    decreases bs.len(),
{
    let t = bs.update(i, b);
    if i == bs.len() - 1 {
        assert(t.drop_last() =~= bs.drop_last());
    } else {
        assert(t.drop_last() =~= bs.drop_last().update(i, b));
        lemma_wcnt_update(bs.drop_last(), i, b, q);
    }
}

/// A zero world count means no cell of any box holds the square, and
/// conversely.
pub proof fn lemma_wcnt_zero(bs: Seq<BoxView>, q: Square)
    ensures
        (wcnt(bs, q) == 0) <==> (forall|bi: int, j: int|
            0 <= bi < bs.len() && 0 <= j < bs[bi].cells.len() ==> #[trigger] bs[bi].cells[j]
                != Some(q)),
    decreases bs.len(),
{
    if bs.len() > 0 {
        lemma_wcnt_zero(bs.drop_last(), q);
        lemma_wcnt_nonneg(bs.drop_last(), q);
        lemma_cnt_nonneg(bs.last().cells, q);
        lemma_cnt_zero(bs.last().cells, q);
        assert(forall|bi: int| 0 <= bi < bs.len() - 1 ==> bs[bi] == bs.drop_last()[bi]);
        assert(bs.last() == bs[bs.len() - 1]);
    }
}

/// A cell of some box holding the square witnesses a world count of at least
/// one.
pub proof fn lemma_wcnt_ge_one(bs: Seq<BoxView>, q: Square, bi: int, j: int)
    requires
        0 <= bi < bs.len(),
        0 <= j < bs[bi].cells.len(),
        bs[bi].cells[j] == Some(q),
    ensures
        wcnt(bs, q) >= 1,
    decreases bs.len(),
{
    lemma_wcnt_nonneg(bs.drop_last(), q);
    lemma_cnt_nonneg(bs.last().cells, q);
    if bi == bs.len() - 1 {
        lemma_cnt_ge_one(bs.last().cells, q, j);
    } else {
        lemma_wcnt_ge_one(bs.drop_last(), q, bi, j);
    }
}

/// A positive world count yields a witnessing cell of some box.
pub proof fn lemma_wcnt_pos_exists(bs: Seq<BoxView>, q: Square)
    requires
        wcnt(bs, q) >= 1,
    ensures
        exists|bi: int, j: int|
            0 <= bi < bs.len() && 0 <= j < bs[bi].cells.len() && bs[bi].cells[j] == Some(q),
    decreases bs.len(),
{
    if bs.len() > 0 {
        lemma_wcnt_nonneg(bs.drop_last(), q);
        lemma_cnt_nonneg(bs.last().cells, q);
        if cnt_cells(bs.last().cells, q) >= 1 {
            lemma_cnt_pos_exists(bs.last().cells, q);
            let j = choose|j: int|
                0 <= j < bs.last().cells.len() && bs.last().cells[j] == Some(q);
            assert(bs[bs.len() - 1].cells[j] == Some(q));
        } else {
            lemma_wcnt_pos_exists(bs.drop_last(), q);
            let (bi, j) = choose|bi: int, j: int|
                0 <= bi < bs.drop_last().len() && 0 <= j < bs.drop_last()[bi].cells.len()
                    && bs.drop_last()[bi].cells[j] == Some(q);
            assert(bs[bi].cells[j] == Some(q));
        }
    }
}

/// With no two distinct cells world-wide holding the square, the world
/// count is at most one.
pub proof fn lemma_wcnt_le_one(bs: Seq<BoxView>, q: Square)
    requires
        forall|b1: int, j1: int, b2: int, j2: int|
            0 <= b1 < bs.len() && 0 <= j1 < bs[b1].cells.len() && 0 <= b2 < bs.len() && 0 <= j2
                < bs[b2].cells.len() && (b1, j1) != (b2, j2) ==> !(#[trigger] bs[b1].cells[j1]
                == Some(q) && #[trigger] bs[b2].cells[j2] == Some(q)),
    ensures
        wcnt(bs, q) <= 1,
{
    lemma_wcnt_nonneg(bs, q);
    if wcnt(bs, q) >= 2 {
        lemma_wcnt_pos_exists(bs, q);
        let (b1, j1) = choose|b1: int, j1: int|
            0 <= b1 < bs.len() && 0 <= j1 < bs[b1].cells.len() && bs[b1].cells[j1] == Some(q);
        // removing that one occurrence leaves another
        let bs2 = bs.update(b1, BoxView { cells: bs[b1].cells.update(j1, None), ..bs[b1] });
        lemma_cnt_update(bs[b1].cells, j1, None, q);
        lemma_wcnt_update(bs, b1, BoxView { cells: bs[b1].cells.update(j1, None), ..bs[b1] }, q);
        assert(wcnt(bs2, q) >= 1);
        lemma_wcnt_pos_exists(bs2, q);
        let (b2, j2) = choose|b2: int, j2: int|
            0 <= b2 < bs2.len() && 0 <= j2 < bs2[b2].cells.len() && bs2[b2].cells[j2] == Some(
                q,
            );
        assert((b1, j1) != (b2, j2));
        assert(bs[b2].cells[j2] == Some(q));
        assert(false);
    }
}

/// Two distinct cells (possibly of different boxes) holding the square
/// witness a world count of at least two.
pub proof fn lemma_wcnt_ge_two(bs: Seq<BoxView>, q: Square, b1: int, j1: int, b2: int, j2: int)
    requires
        0 <= b1 < bs.len(),
        0 <= j1 < bs[b1].cells.len(),
        0 <= b2 < bs.len(),
        0 <= j2 < bs[b2].cells.len(),
        (b1, j1) != (b2, j2),
        bs[b1].cells[j1] == Some(q),
        bs[b2].cells[j2] == Some(q),
    ensures
        wcnt(bs, q) >= 2,
    decreases bs.len(),
{
    lemma_wcnt_nonneg(bs.drop_last(), q);
    lemma_cnt_nonneg(bs.last().cells, q);
    if b1 == bs.len() - 1 && b2 == bs.len() - 1 {
        lemma_cnt_ge_two(bs.last().cells, q, j1, j2);
    } else if b1 == bs.len() - 1 {
        lemma_cnt_ge_one(bs.last().cells, q, j1);
        lemma_wcnt_ge_one(bs.drop_last(), q, b2, j2);
    } else if b2 == bs.len() - 1 {
        lemma_cnt_ge_one(bs.last().cells, q, j2);
        lemma_wcnt_ge_one(bs.drop_last(), q, b1, j1);
    } else {
        lemma_wcnt_ge_two(bs.drop_last(), q, b1, j1, b2, j2);
    }
}

} // verus!
