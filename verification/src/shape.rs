//! The mathematics of shapes: sets of cells, their extremes, their quarter
//! turns and their placement on the grid.
//!
//! Nothing here is executable. The functions of this module are the terms in
//! which blocks, boards and the search state what they do.

use crate::point::{cell_le, cell_lt, turn, Cell};
use vstd::prelude::*;

verus! {

/// `h` is the largest row that occurs in `s`.
pub open spec fn is_max_row(s: Set<Cell>, h: int) -> bool {
    &&& exists|c: Cell| #[trigger] s.contains(c) && c.0 == h
    &&& forall|c: Cell| #[trigger] s.contains(c) ==> c.0 <= h
}

/// The largest row that occurs in `s`, where there is one.
pub open spec fn max_row(s: Set<Cell>) -> int {
    choose|h: int| is_max_row(s, h)
}

/// `w` is the largest column that occurs in `s`.
pub open spec fn is_max_col(s: Set<Cell>, w: int) -> bool {
    &&& exists|c: Cell| #[trigger] s.contains(c) && c.1 == w
    &&& forall|c: Cell| #[trigger] s.contains(c) ==> c.1 <= w
}

/// The largest column that occurs in `s`, where there is one.
pub open spec fn max_col(s: Set<Cell>) -> int {
    choose|w: int| is_max_col(s, w)
}

/// `h` is the smallest row that occurs in `s`.
pub open spec fn is_min_row(s: Set<Cell>, h: int) -> bool {
    &&& exists|c: Cell| #[trigger] s.contains(c) && c.0 == h
    &&& forall|c: Cell| #[trigger] s.contains(c) ==> c.0 >= h
}

/// The smallest row that occurs in `s`, where there is one.
pub open spec fn min_row(s: Set<Cell>) -> int {
    choose|h: int| is_min_row(s, h)
}

/// `w` is the smallest column that occurs in `s`.
pub open spec fn is_min_col(s: Set<Cell>, w: int) -> bool {
    &&& exists|c: Cell| #[trigger] s.contains(c) && c.1 == w
    &&& forall|c: Cell| #[trigger] s.contains(c) ==> c.1 >= w
}

/// The smallest column that occurs in `s`, where there is one.
pub open spec fn min_col(s: Set<Cell>) -> int {
    choose|w: int| is_min_col(s, w)
}

/// `f` is the cell of `s` that comes first in row-major order.
pub open spec fn is_first_cell(s: Set<Cell>, f: Cell) -> bool {
    &&& s.contains(f)
    &&& forall|c: Cell| #[trigger] s.contains(c) ==> cell_le(f, c)
}

/// The cell of `s` that comes first in row-major order, where there is one.
pub open spec fn first_cell(s: Set<Cell>) -> Cell {
    choose|f: Cell| is_first_cell(s, f)
}

/// `s` has a largest and a smallest row, a largest and a smallest column,
/// and a first cell. Every finite set with a cell in it has them.
pub open spec fn is_bounded(s: Set<Cell>) -> bool {
    &&& is_max_row(s, max_row(s))
    &&& is_max_col(s, max_col(s))
    &&& is_min_row(s, min_row(s))
    &&& is_min_col(s, min_col(s))
    &&& is_first_cell(s, first_cell(s))
}

/// `s` is a shape in normal form: a finite set with a cell in it whose
/// smallest row and smallest column are both 0.
pub open spec fn is_shape(s: Set<Cell>) -> bool {
    &&& s.finite()
    &&& is_min_row(s, 0)
    &&& is_min_col(s, 0)
}

/// The set `s` moved by the offset `d`.
pub open spec fn moved(s: Set<Cell>, d: Cell) -> Set<Cell> {
    Set::new(|c: Cell| s.contains((c.0 - d.0, c.1 - d.1)))
}

/// The set `s` in normal form: moved so that its smallest row and its
/// smallest column are 0.
pub open spec fn normalized(s: Set<Cell>) -> Set<Cell> {
    moved(s, (-min_row(s), -min_col(s)))
}

/// The image of `s` under the quarter turn about the origin.
pub open spec fn turned(s: Set<Cell>) -> Set<Cell> {
    Set::new(|c: Cell| s.contains((-c.1, c.0)))
}

/// The shape `s` after a quarter turn, in normal form again: the cell
/// `(r, c)` of `s` becomes the cell `(c, max_row(s) - r)`.
pub open spec fn rotated(s: Set<Cell>) -> Set<Cell> {
    Set::new(|c: Cell| s.contains((max_row(s) - c.1, c.0)))
}

/// The shape `s` after `n` quarter turns.
pub open spec fn rotated_n(s: Set<Cell>, n: nat) -> Set<Cell>
    decreases n,
{
    if n == 0 {
        s
    } else {
        rotated(rotated_n(s, (n - 1) as nat))
    }
}

/// The cells that the shape `s` covers when it is laid down with its first
/// cell on `anchor`.
pub open spec fn placed(s: Set<Cell>, anchor: Cell) -> Set<Cell> {
    moved(s, (anchor.0 - first_cell(s).0, anchor.1 - first_cell(s).1))
}

/// A largest row is the largest row.
pub proof fn lemma_max_row_is(s: Set<Cell>, h: int)
    requires
        is_max_row(s, h),
    ensures
        max_row(s) == h,
{
}

/// A largest column is the largest column.
pub proof fn lemma_max_col_is(s: Set<Cell>, w: int)
    requires
        is_max_col(s, w),
    ensures
        max_col(s) == w,
{
}

/// A smallest row is the smallest row.
pub proof fn lemma_min_row_is(s: Set<Cell>, h: int)
    requires
        is_min_row(s, h),
    ensures
        min_row(s) == h,
{
}

/// A smallest column is the smallest column.
pub proof fn lemma_min_col_is(s: Set<Cell>, w: int)
    requires
        is_min_col(s, w),
    ensures
        min_col(s) == w,
{
}

/// A first cell is the first cell.
pub proof fn lemma_first_cell_is(s: Set<Cell>, f: Cell)
    requires
        is_first_cell(s, f),
    ensures
        first_cell(s) == f,
{
    let g = first_cell(s);
    assert(is_first_cell(s, g));
    assert(cell_le(f, g) && cell_le(g, f));
}

/// A set with one cell has its extremes in that cell.
pub proof fn lemma_single_bounded(s: Set<Cell>, x: Cell)
    requires
        s.contains(x),
        forall|c: Cell| #[trigger] s.contains(c) ==> c == x,
    ensures
        is_bounded(s),
{
    assert(is_max_row(s, x.0));
    assert(is_max_col(s, x.1));
    assert(is_min_row(s, x.0));
    assert(is_min_col(s, x.1));
    assert(is_first_cell(s, x));
}

/// A set that has its extremes keeps them, or gets new ones, when one cell
/// joins it.
pub proof fn lemma_insert_bounded(t: Set<Cell>, x: Cell)
    requires
        is_bounded(t),
    ensures
        is_bounded(t.insert(x)),
{
    let s = t.insert(x);
    assert(s.contains(x));
    assert forall|c: Cell| #[trigger] t.contains(c) implies s.contains(c) by {}
    let h = if x.0 > max_row(t) { x.0 } else { max_row(t) };
    assert(is_max_row(s, h)) by {
        let c = choose|c: Cell| #[trigger] t.contains(c) && c.0 == max_row(t);
        assert(s.contains(c));
    }
    let w = if x.1 > max_col(t) { x.1 } else { max_col(t) };
    assert(is_max_col(s, w)) by {
        let c = choose|c: Cell| #[trigger] t.contains(c) && c.1 == max_col(t);
        assert(s.contains(c));
    }
    let lo = if x.0 < min_row(t) { x.0 } else { min_row(t) };
    assert(is_min_row(s, lo)) by {
        let c = choose|c: Cell| #[trigger] t.contains(c) && c.0 == min_row(t);
        assert(s.contains(c));
    }
    let le = if x.1 < min_col(t) { x.1 } else { min_col(t) };
    assert(is_min_col(s, le)) by {
        let c = choose|c: Cell| #[trigger] t.contains(c) && c.1 == min_col(t);
        assert(s.contains(c));
    }
    let f = if cell_lt(x, first_cell(t)) { x } else { first_cell(t) };
    assert(is_first_cell(s, f)) by {
        assert(s.contains(first_cell(t)));
        assert forall|c: Cell| #[trigger] s.contains(c) implies cell_le(f, c) by {
            if c != x {
                assert(t.contains(c));
            }
        }
    }
}

/// Every finite set with a cell in it has its extremes.
pub proof fn lemma_finite_bounded(s: Set<Cell>)
    requires
        s.finite(),
        exists|c: Cell| s.contains(c),
    ensures
        is_bounded(s),
    decreases s.len(),
{
    let x = choose|c: Cell| s.contains(c);
    let t = s.remove(x);
    if exists|c: Cell| t.contains(c) {
        lemma_finite_bounded(t);
        lemma_insert_bounded(t, x);
        assert(t.insert(x) =~= s);
    } else {
        assert forall|c: Cell| #[trigger] s.contains(c) implies c == x by {
            if c != x {
                assert(t.contains(c));
            }
        }
        lemma_single_bounded(s, x);
    }
}

/// A shape in normal form has its extremes, and its smallest row and
/// column are 0.
pub proof fn lemma_shape_bounded(s: Set<Cell>)
    requires
        is_shape(s),
    ensures
        is_bounded(s),
        min_row(s) == 0,
        min_col(s) == 0,
        max_row(s) >= 0,
        max_col(s) >= 0,
        first_cell(s).0 == 0,
        first_cell(s).1 >= 0,
{
    let c = choose|c: Cell| #[trigger] s.contains(c) && c.0 == 0;
    assert(s.contains(c));
    lemma_finite_bounded(s);
    lemma_min_row_is(s, 0);
    lemma_min_col_is(s, 0);
    assert(cell_le(first_cell(s), c));
}

/// The rotation of a shape is the image of the shape under a map of cells,
/// one to one.
pub proof fn lemma_rotated_finite(s: Set<Cell>)
    requires
        s.finite(),
    ensures
        rotated(s).finite(),
        rotated(s).len() == s.len(),
{
    let h = max_row(s);
    let f = |c: Cell| (c.1, h - c.0);
    assert forall|c: Cell| #[trigger] rotated(s).contains(c) <==> s.map(f).contains(c) by {
        if rotated(s).contains(c) {
            let d = (h - c.1, c.0);
            assert(s.contains(d) && f(d) == c);
        }
    }
    assert(rotated(s) =~= s.map(f));
    s.lemma_map_finite(f);
    assert forall|a: Cell, b: Cell| #[trigger] f(a) == #[trigger] f(b) implies a == b by {}
    vstd::set_lib::lemma_map_size(s, rotated(s), f);
}

/// A set that is moved keeps the number of its cells.
pub proof fn lemma_moved_finite(s: Set<Cell>, d: Cell)
    requires
        s.finite(),
    ensures
        moved(s, d).finite(),
        moved(s, d).len() == s.len(),
{
    let f = |c: Cell| (c.0 + d.0, c.1 + d.1);
    assert forall|c: Cell| #[trigger] moved(s, d).contains(c) <==> s.map(f).contains(c) by {
        if moved(s, d).contains(c) {
            let b = (c.0 - d.0, c.1 - d.1);
            assert(s.contains(b) && f(b) == c);
        }
    }
    assert(moved(s, d) =~= s.map(f));
    s.lemma_map_finite(f);
    assert forall|a: Cell, b: Cell| #[trigger] f(a) == #[trigger] f(b) implies a == b by {}
    vstd::set_lib::lemma_map_size(s, moved(s, d), f);
}

/// A shape that is laid down covers as many cells as it has.
pub proof fn lemma_placed_finite(s: Set<Cell>, anchor: Cell)
    requires
        s.finite(),
    ensures
        placed(s, anchor).finite(),
        placed(s, anchor).len() == s.len(),
{
    lemma_moved_finite(s, (anchor.0 - first_cell(s).0, anchor.1 - first_cell(s).1));
}

/// A shape that is turned keeps the number of its cells.
pub proof fn lemma_rotated_n_finite(s: Set<Cell>, n: nat)
    requires
        s.finite(),
    ensures
        rotated_n(s, n).finite(),
        rotated_n(s, n).len() == s.len(),
    decreases n,
{
    if n > 0 {
        lemma_rotated_n_finite(s, (n - 1) as nat);
        lemma_rotated_finite(rotated_n(s, (n - 1) as nat));
    }
}

/// The rotation of a shape is a shape: what was the largest column is now
/// the largest row, and what was the largest row is now the largest column.
pub proof fn lemma_rotated_shape(s: Set<Cell>)
    requires
        is_shape(s),
    ensures
        is_shape(rotated(s)),
        max_row(rotated(s)) == max_col(s),
        max_col(rotated(s)) == max_row(s),
{
    lemma_shape_bounded(s);
    lemma_rotated_finite(s);
    let r = rotated(s);
    let h = max_row(s);
    let w = max_col(s);
    assert forall|c: Cell| #[trigger] r.contains(c) implies 0 <= c.0 <= w && 0 <= c.1 <= h by {
        assert(s.contains((h - c.1, c.0)));
    }
    assert(is_min_row(r, 0)) by {
        let c = choose|c: Cell| #[trigger] s.contains(c) && c.1 == 0;
        assert(r.contains((c.1, h - c.0)));
    }
    assert(is_min_col(r, 0)) by {
        let c = choose|c: Cell| #[trigger] s.contains(c) && c.0 == h;
        assert(r.contains((c.1, h - c.0)));
    }
    assert(is_max_row(r, w)) by {
        let c = choose|c: Cell| #[trigger] s.contains(c) && c.1 == w;
        assert(r.contains((c.1, h - c.0)));
    }
    assert(is_max_col(r, h)) by {
        let c = choose|c: Cell| #[trigger] s.contains(c) && c.0 == 0;
        assert(r.contains((c.1, h - c.0)));
    }
    lemma_max_row_is(r, w);
    lemma_max_col_is(r, h);
}

/// Turning about the origin and moving back into normal form is the
/// rotation of shapes.
pub proof fn lemma_rotated_is_turned(s: Set<Cell>)
    requires
        is_shape(s),
    ensures
        rotated(s) == normalized(turned(s)),
{
    lemma_shape_bounded(s);
    let t = turned(s);
    let h = max_row(s);
    assert(is_min_row(t, 0)) by {
        let c = choose|c: Cell| #[trigger] s.contains(c) && c.1 == 0;
        assert(t.contains(turn(c)));
        assert forall|d: Cell| #[trigger] t.contains(d) implies d.0 >= 0 by {
            assert(s.contains((-d.1, d.0)));
        }
    }
    assert(is_min_col(t, -h)) by {
        let c = choose|c: Cell| #[trigger] s.contains(c) && c.0 == h;
        assert(t.contains(turn(c)));
        assert forall|d: Cell| #[trigger] t.contains(d) implies d.1 >= -h by {
            assert(s.contains((-d.1, d.0)));
        }
    }
    lemma_min_row_is(t, 0);
    lemma_min_col_is(t, -h);
    assert(rotated(s) =~= normalized(t));
}


/// Four quarter turns bring every shape back to itself.
pub proof fn lemma_rotated_four(s: Set<Cell>)
    requires
        is_shape(s),
    ensures
        rotated_n(s, 4) == s,
{
    let r1 = rotated(s);
    let r2 = rotated(r1);
    let r3 = rotated(r2);
    let r4 = rotated(r3);
    lemma_rotated_shape(s);
    lemma_rotated_shape(r1);
    lemma_rotated_shape(r2);
    lemma_rotated_shape(r3);
    assert(r4 =~= s);
    assert(rotated_n(s, 4) == r4) by {
        reveal_with_fuel(rotated_n, 5);
    }
}

/// Every number of quarter turns takes a shape to a shape.
pub proof fn lemma_rotated_n_shape(s: Set<Cell>, n: nat)
    requires
        is_shape(s),
    ensures
        is_shape(rotated_n(s, n)),
    decreases n,
{
    if n > 0 {
        lemma_rotated_n_shape(s, (n - 1) as nat);
        lemma_rotated_shape(rotated_n(s, (n - 1) as nat));
    }
}

} // verus!
