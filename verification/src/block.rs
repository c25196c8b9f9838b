//! Blocks: the shapes that are laid on the board.
//!
//! A [`Block`] is a finite set of cells in normal form. It holds its cells
//! as a list in strictly ascending row-major order, so that a set of cells
//! has exactly one block that stands for it. Its view is the set.

use crate::error::ParseError;
use crate::point::{cell_lt, Cell, Point};
use crate::shape::{
    is_first_cell, is_max_row, is_min_col, is_min_row, is_shape, lemma_max_row_is,
    lemma_min_col_is, lemma_min_row_is, lemma_rotated_four, lemma_shape_bounded, max_row,
    normalized, rotated, rotated_n,
};
use vstd::prelude::*;
use vstd::string::*;

verus! {

/// The list `s` is in strictly ascending row-major order.
pub open spec fn ascending(s: Seq<Point>) -> bool {
    forall|i: int, j: int| 0 <= i < j < s.len() ==> cell_lt((#[trigger] s[i])@, (#[trigger] s[j])@)
}

/// The cell `c` occurs in the list `s`.
pub open spec fn listed(s: Seq<Point>, c: Cell) -> bool {
    exists|i: int| 0 <= i < s.len() && (#[trigger] s[i])@ == c
}

/// The set of the cells that the list `s` holds.
pub open spec fn cells_of(s: Seq<Point>) -> Set<Cell> {
    Set::new(|c: Cell| listed(s, c))
}

/// A list with one more point at its end holds one more cell.
pub proof fn lemma_cells_of_push(s: Seq<Point>, p: Point)
    ensures
        cells_of(s.push(p)) == cells_of(s).insert(p@),
{
    let t = s.push(p);
    assert forall|c: Cell| cells_of(t).contains(c) <==> cells_of(s).insert(p@).contains(c) by {
        if listed(s, c) {
            let i = choose|i: int| 0 <= i < s.len() && (#[trigger] s[i])@ == c;
            assert(t[i]@ == c);
        }
        if c == p@ {
            assert(t[s.len() as int]@ == c);
        }
        if listed(t, c) {
            let i = choose|i: int| 0 <= i < t.len() && (#[trigger] t[i])@ == c;
            if i < s.len() {
                assert(s[i]@ == c);
            }
        }
    }
    assert(cells_of(t) =~= cells_of(s).insert(p@));
}

/// The cells of a list are finitely many.
pub proof fn lemma_cells_of_finite(s: Seq<Point>)
    ensures
        cells_of(s).finite(),
    decreases s.len(),
{
    if s.len() == 0 {
        assert(cells_of(s) =~= Set::empty());
    } else {
        lemma_cells_of_finite(s.drop_last());
        lemma_cells_of_push(s.drop_last(), s.last());
        assert(s.drop_last().push(s.last()) =~= s);
    }
}

/// In an ascending list the first cell stands first, and the last cell
/// stands in the largest row.
pub proof fn lemma_ascending_ends(s: Seq<Point>)
    requires
        ascending(s),
        s.len() > 0,
    ensures
        is_first_cell(cells_of(s), s[0]@),
        is_min_row(cells_of(s), s[0]@.0),
        is_max_row(cells_of(s), s.last()@.0),
{
    let set = cells_of(s);
    assert(listed(s, s[0]@) && set.contains(s[0]@));
    assert(listed(s, s.last()@) && set.contains(s.last()@));
    assert forall|c: Cell| #[trigger] set.contains(c) implies crate::point::cell_le(s[0]@, c)
        && s[0]@.0 <= c.0 <= s.last()@.0 by {
        let i = choose|i: int| 0 <= i < s.len() && (#[trigger] s[i])@ == c;
        if 0 < i {
            assert(cell_lt(s[0]@, s[i]@));
        }
        if i < s.len() - 1 {
            assert(cell_lt(s[i]@, s.last()@));
        }
    }
}

/// Puts `p` into the ascending list `v` at its place, unless it is there
/// already.
fn insert_sorted(v: &mut Vec<Point>, p: Point)
    requires
        ascending(old(v)@),
    ensures
        ascending(final(v)@),
        cells_of(final(v)@) == cells_of(old(v)@).insert(p@),
{
    let n = v.len();
    let mut i: usize = 0;
    while i < n && v[i] < p
        invariant
            n == v@.len(),
            i <= n,
            forall|k: int| 0 <= k < i ==> cell_lt((#[trigger] v@[k])@, p@),
        decreases n - i,
    {
        i += 1;
    }
    let ghost before = v@;
    if i < n && v[i] == p {
        proof {
            assert(listed(before, p@));
            assert(cells_of(before) =~= cells_of(before).insert(p@));
        }
        return ;
    }
    v.insert(i, p);
    proof {
        let after = v@;
        let at = i as int;
        assert(after == before.insert(at, p));
        assert forall|k: int| 0 <= k < after.len() implies (#[trigger] after[k]) == (if k < at {
            before[k]
        } else if k == at {
            p
        } else {
            before[k - 1]
        }) by {}
        assert(at < before.len() ==> cell_lt(p@, before[at]@));
        assert forall|a: int, b: int| 0 <= a < b < after.len() implies cell_lt(
            (#[trigger] after[a])@,
            (#[trigger] after[b])@,
        ) by {
            if b < at {
                assert(cell_lt(before[a]@, before[b]@));
            } else if b == at {
                assert(cell_lt(before[a]@, p@));
            } else if a < at {
                assert(cell_lt(before[a]@, before[b - 1]@));
            } else if a == at {
                if at < b - 1 {
                    assert(cell_lt(before[at]@, before[b - 1]@));
                }
            } else {
                assert(cell_lt(before[a - 1]@, before[b - 1]@));
            }
        }
        assert forall|c: Cell| cells_of(after).contains(c) <==> cells_of(before).insert(
            p@,
        ).contains(c) by {
            if listed(before, c) {
                let k = choose|k: int| 0 <= k < before.len() && (#[trigger] before[k])@ == c;
                if k < at {
                    assert(after[k]@ == c);
                } else {
                    assert(after[k + 1]@ == c);
                }
            }
            if c == p@ {
                assert(after[at]@ == c);
            }
            if listed(after, c) {
                let k = choose|k: int| 0 <= k < after.len() && (#[trigger] after[k])@ == c;
                if k < at {
                    assert(before[k]@ == c);
                } else if k > at {
                    assert(before[k - 1]@ == c);
                }
            }
        }
        assert(cells_of(after) =~= cells_of(before).insert(p@));
    }
}

/// The mask `rows` has a filled cell at `c`: the marker `#` stands there.
pub open spec fn mask_filled(rows: Seq<&str>, c: Cell) -> bool {
    &&& 0 <= c.0 < rows.len()
    &&& 0 <= c.1 < rows[c.0]@.len()
    &&& rows[c.0]@[c.1] == '#'
}

/// The filled cells of the mask `rows`, row by row from the top and column
/// by column from the left.
pub open spec fn mask_cells(rows: Seq<&str>) -> Set<Cell> {
    Set::new(|c: Cell| mask_filled(rows, c))
}

/// All rows of the mask are as long as its first.
pub open spec fn is_rectangular(rows: Seq<&str>) -> bool {
    forall|i: int| 0 <= i < rows.len() ==> (#[trigger] rows[i])@.len() == rows[0]@.len()
}

/// The mask is small enough for coordinates to count its rows and columns.
pub open spec fn mask_fits(rows: Seq<&str>) -> bool {
    rows.len() <= i32::MAX && (rows.len() > 0 ==> rows[0]@.len() <= i32::MAX)
}

/// Whether every row of the mask has `width` markers.
fn all_rows_have(rows: &[&str], width: usize) -> (same: bool)
    ensures
        same == (forall|i: int| 0 <= i < rows@.len() ==> (#[trigger] rows@[i])@.len() == width),
{
    let n = rows.len();
    let mut i: usize = 0;
    while i < n
        invariant
            n == rows@.len(),
            i <= n,
            forall|k: int| 0 <= k < i ==> (#[trigger] rows@[k])@.len() == width,
        decreases n - i,
    {
        if rows[i].unicode_len() != width {
            return false;
        }
        i += 1;
    }
    true
}

/// The filled cells of a rectangular mask, in ascending row-major order.
fn scan_mask(rows: &[&str], width: usize) -> (raw: Vec<Point>)
    requires
        rows@.len() <= i32::MAX,
        width <= i32::MAX,
        forall|i: int| 0 <= i < rows@.len() ==> (#[trigger] rows@[i])@.len() == width,
    ensures
        ascending(raw@),
        cells_of(raw@) == mask_cells(rows@),
{
    let n = rows.len();
    let mut raw: Vec<Point> = Vec::new();
    let mut i: usize = 0;
    while i < n
        invariant
            n == rows@.len(),
            n <= i32::MAX,
            width <= i32::MAX,
            i <= n,
            forall|k: int| 0 <= k < rows@.len() ==> (#[trigger] rows@[k])@.len() == width,
            ascending(raw@),
            forall|k: int| 0 <= k < raw@.len() ==> (#[trigger] raw@[k])@.0 < i,
            forall|c: Cell| listed(raw@, c) <==> mask_filled(rows@, c) && c.0 < i,
        decreases n - i,
    {
        let row = rows[i];
        let mut j: usize = 0;
        while j < width
            invariant
                n == rows@.len(),
                n <= i32::MAX,
                width <= i32::MAX,
                i < n,
                j <= width,
                row == rows@[i as int],
                row@.len() == width,
                ascending(raw@),
                forall|k: int| 0 <= k < raw@.len() ==> cell_lt((#[trigger] raw@[k])@, (i as int, j as int)),
                forall|c: Cell|
                    listed(raw@, c) <==> mask_filled(rows@, c) && cell_lt(c, (i as int, j as int)),
            decreases width - j,
        {
            if row.get_char(j) == '#' {
                let p = Point::new(i as i32, j as i32);
                proof {
                    lemma_cells_of_push(raw@, p);
                    assert forall|c: Cell|
                        listed(raw@.push(p), c) <==> mask_filled(rows@, c) && cell_lt(
                            c,
                            (i as int, j + 1),
                        ) by {
                        assert(cells_of(raw@.push(p)).contains(c) == listed(raw@.push(p), c));
                        assert(cells_of(raw@).insert(p@).contains(c) == (listed(raw@, c) || c
                            == p@));
                    }
                }
                raw.push(p);
            }
            j += 1;
        }
        i += 1;
    }
    proof {
        assert(cells_of(raw@) =~= mask_cells(rows@));
    }
    raw
}

/// The smallest column among the points of a list.
fn smallest_col(v: &Vec<Point>) -> (least: i32)
    requires
        v@.len() > 0,
    ensures
        is_min_col(cells_of(v@), least as int),
{
    let n = v.len();
    let mut least: i32 = v[0].col;
    let mut i: usize = 1;
    while i < n
        invariant
            n == v@.len(),
            1 <= i <= n,
            exists|k: int| 0 <= k < i && (#[trigger] v@[k]).col == least,
            forall|k: int| 0 <= k < i ==> (#[trigger] v@[k]).col >= least,
        decreases n - i,
    {
        if v[i].col < least {
            least = v[i].col;
        }
        i += 1;
    }
    proof {
        let k = choose|k: int| 0 <= k < n && (#[trigger] v@[k]).col == least;
        assert(listed(v@, v@[k]@) && cells_of(v@).contains(v@[k]@));
    }
    least
}

/// The points of `v`, each moved up by `dr` rows and left by `dc` columns.
fn moved_back(v: &Vec<Point>, dr: i32, dc: i32) -> (out: Vec<Point>)
    requires
        0 <= dr,
        0 <= dc,
        forall|k: int| 0 <= k < v@.len() ==> (dr <= (#[trigger] v@[k]).row && dc <= v@[k].col),
    ensures
        out@.len() == v@.len(),
        forall|k: int| 0 <= k < v@.len() ==> (#[trigger] out@[k])@ == (v@[k].row - dr, v@[k].col - dc),
{
    let n = v.len();
    let mut out: Vec<Point> = Vec::new();
    let mut i: usize = 0;
    while i < n
        invariant
            n == v@.len(),
            i <= n,
            out@.len() == i,
            0 <= dr,
        0 <= dc,
        forall|k: int| 0 <= k < v@.len() ==> (dr <= (#[trigger] v@[k]).row && dc <= v@[k].col),
            forall|k: int| 0 <= k < i ==> (#[trigger] out@[k])@ == (v@[k].row - dr, v@[k].col - dc),
        decreases n - i,
    {
        let p = v[i];
        out.push(Point::new(p.row - dr, p.col - dc));
        i += 1;
    }
    out
}

/// A shape in normal form: a finite set of cells whose smallest row and
/// smallest column are 0.
#[derive(Debug, PartialEq, Eq)]
pub struct Block {
    cells: Vec<Point>,
}

impl View for Block {
    type V = Set<Cell>;

    closed spec fn view(&self) -> Set<Cell> {
        cells_of(self.cells@)
    }
}

impl Block {
    /// What holds of every block: its list of cells is ascending and not
    /// empty, and its set of cells is a shape in normal form.
    #[verifier::type_invariant]
    pub closed spec fn wf(&self) -> bool {
        &&& self.cells@.len() > 0
        &&& ascending(self.cells@)
        &&& is_shape(cells_of(self.cells@))
    }

    /// The set of cells of a block is a shape in normal form.
    pub proof fn lemma_shape(&self)
        requires
            self.wf(),
        ensures
            is_shape(self@),
    {
    }

    /// Four quarter turns bring a block back to itself.
    pub proof fn lemma_rot_four(&self)
        requires
            self.wf(),
        ensures
            rotated_n(self@, 4) == self@,
    {
        lemma_rotated_four(self@);
    }

    /// Reads a block from a mask: a rectangle of markers, one string for each
    /// row, in which `#` marks a filled cell and every other marker a blank
    /// one. The filled cells are moved into normal form.
    ///
    /// A mask without rows, with rows of different lengths, with more rows
    /// or columns than a coordinate can count, or without a filled cell is
    /// turned down, in this order.
    pub fn from_strs(rows: &[&str]) -> (res: Result<Block, ParseError>)
        ensures
            match res {
                Ok(block) => {
                    &&& rows@.len() > 0
                    &&& is_rectangular(rows@)
                    &&& mask_fits(rows@)
                    &&& exists|c: Cell| mask_filled(rows@, c)
                    &&& block.wf()
                    &&& block@ == normalized(mask_cells(rows@))
                },
                Err(ParseError::EmptyMask) => rows@.len() == 0,
                Err(ParseError::RaggedMask) => rows@.len() > 0 && !is_rectangular(rows@),
                Err(ParseError::OversizedMask) => {
                    &&& rows@.len() > 0
                    &&& is_rectangular(rows@)
                    &&& !mask_fits(rows@)
                },
                Err(ParseError::BlankMask) => {
                    &&& rows@.len() > 0
                    &&& is_rectangular(rows@)
                    &&& mask_fits(rows@)
                    &&& forall|c: Cell| !mask_filled(rows@, c)
                },
                Err(_) => false,
            },
    {
        let n = rows.len();
        if n == 0 {
            return Err(ParseError::EmptyMask);
        }
        let width = rows[0].unicode_len();
        if !all_rows_have(rows, width) {
            return Err(ParseError::RaggedMask);
        }
        if n > 0x7fff_ffff || width > 0x7fff_ffff {
            return Err(ParseError::OversizedMask);
        }
        let raw = scan_mask(rows, width);
        if raw.len() == 0 {
            proof {
                assert forall|c: Cell| !mask_filled(rows@, c) by {
                    assert(cells_of(raw@).contains(c) == listed(raw@, c));
                }
            }
            return Err(ParseError::BlankMask);
        }
        let top = raw[0].row;
        let left = smallest_col(&raw);
        let ghost mask = mask_cells(rows@);
        proof {
            lemma_ascending_ends(raw@);
            lemma_min_row_is(mask, top as int);
            lemma_min_col_is(mask, left as int);
            assert(listed(raw@, raw@[0]@) && mask.contains(raw@[0]@));
            assert forall|k: int| 0 <= k < raw@.len() implies 0 <= top <= (#[trigger] raw@[k]).row
                && 0 <= left <= raw@[k].col by {
                assert(listed(raw@, raw@[k]@) && mask.contains(raw@[k]@));
            }
        }
        let cells = moved_back(&raw, top, left);
        proof {
            let set = cells_of(cells@);
            assert forall|c: Cell| set.contains(c) <==> normalized(mask).contains(c) by {
                if listed(cells@, c) {
                    let k = choose|k: int| 0 <= k < cells@.len() && (#[trigger] cells@[k])@ == c;
                    assert(listed(raw@, raw@[k]@) && mask.contains(raw@[k]@));
                }
                if normalized(mask).contains(c) {
                    let d = (c.0 + top, c.1 + left);
                    assert(listed(raw@, d));
                    let k = choose|k: int| 0 <= k < raw@.len() && (#[trigger] raw@[k])@ == d;
                    assert(cells@[k]@ == c);
                }
            }
            assert(set =~= normalized(mask));
            assert forall|a: int, b: int| 0 <= a < b < cells@.len() implies cell_lt(
                (#[trigger] cells@[a])@,
                (#[trigger] cells@[b])@,
            ) by {
                assert(cell_lt(raw@[a]@, raw@[b]@));
            }
            lemma_cells_of_finite(cells@);
            assert(is_min_row(set, 0)) by {
                assert(listed(cells@, cells@[0]@) && set.contains(cells@[0]@));
                assert forall|c: Cell| #[trigger] set.contains(c) implies c.0 >= 0 by {
                    let k = choose|k: int| 0 <= k < cells@.len() && (#[trigger] cells@[k])@ == c;
                }
            }
            assert(is_min_col(set, 0)) by {
                let d = choose|d: Cell| #[trigger] mask.contains(d) && d.1 == left;
                let k = choose|k: int| 0 <= k < raw@.len() && (#[trigger] raw@[k])@ == d;
                assert(listed(cells@, cells@[k]@) && set.contains(cells@[k]@));
                assert forall|c: Cell| #[trigger] set.contains(c) implies c.1 >= 0 by {
                    let k = choose|k: int| 0 <= k < cells@.len() && (#[trigger] cells@[k])@ == c;
                }
            }
            assert(exists|c: Cell| mask_filled(rows@, c)) by {
                assert(mask_filled(rows@, raw@[0]@));
            }
        }
        Ok(Block { cells })
    }

    /// The cells of the block in ascending row-major order.
    pub fn cells(&self) -> (list: &Vec<Point>)
        ensures
            self.wf(),
            list@.len() > 0,
            ascending(list@),
            cells_of(list@) == self@,
    {
        proof {
            use_type_invariant(self);
        }
        &self.cells
    }

    /// The block after a quarter turn: every cell is turned about the origin,
    /// and the turned cells are moved back into normal form.
    pub fn rot(&self) -> (turned: Block)
        ensures
            self.wf(),
            turned.wf(),
            turned@ == rotated(self@),
    {
        proof {
            use_type_invariant(self);
            lemma_ascending_ends(self.cells@);
            lemma_shape_bounded(self@);
            lemma_max_row_is(self@, self.cells@.last()@.0);
        }
        let n = self.cells.len();
        let h: i32 = self.cells[n - 1].row;
        let back = Point::new(0, h);
        let mut out: Vec<Point> = Vec::new();
        let mut i: usize = 0;
        while i < n
            invariant
                n == self.cells@.len(),
                i <= n,
                h == max_row(self@),
                back@ == (0int, h as int),
                is_max_row(self@, h as int),
                is_shape(self@),
                self@ == cells_of(self.cells@),
                ascending(out@),
                cells_of(out@) == cells_of(self.cells@.subrange(0, i as int).map_values(
                    |p: Point| Point { row: p.col, col: (h - p.row) as i32 },
                )),
            decreases n - i,
        {
            let p = self.cells[i];
            proof {
                assert(listed(self.cells@, p@));
                assert(self@.contains(p@));
            }
            let q = p.rotate().add(back);
            insert_sorted(&mut out, q);
            proof {
                let f = |p: Point| Point { row: p.col, col: (h - p.row) as i32 };
                let done = self.cells@.subrange(0, i as int).map_values(f);
                let more = self.cells@.subrange(0, i + 1).map_values(f);
                assert(more =~= done.push(q));
                lemma_cells_of_push(done, q);
            }
            i += 1;
        }
        proof {
            let f = |p: Point| Point { row: p.col, col: (h - p.row) as i32 };
            let img = self.cells@.map_values(f);
            assert(self.cells@.subrange(0, n as int) =~= self.cells@);
            assert forall|c: Cell| cells_of(img).contains(c) <==> rotated(self@).contains(c) by {
                if listed(img, c) {
                    let k = choose|k: int| 0 <= k < img.len() && (#[trigger] img[k])@ == c;
                    assert(listed(self.cells@, self.cells@[k]@));
                    assert(self@.contains(self.cells@[k]@));
                }
                if rotated(self@).contains(c) {
                    let d = (h - c.1, c.0);
                    let k = choose|k: int|
                        0 <= k < self.cells@.len() && (#[trigger] self.cells@[k])@ == d;
                    assert(img[k]@ == c);
                }
            }
            assert(cells_of(out@) =~= rotated(self@));
            crate::shape::lemma_rotated_shape(self@);
            assert(out@.len() > 0) by {
                let c = choose|c: Cell| #[trigger] rotated(self@).contains(c) && c.0 == 0;
                assert(listed(out@, c));
            }
        }
        Block { cells: out }
    }
}

impl Clone for Block {
    /// A block with the same cells.
    fn clone(&self) -> (copy: Block)
        ensures
            copy.wf(),
            copy@ == self@,
    {
        proof {
            use_type_invariant(self);
        }
        let n = self.cells.len();
        let mut cells: Vec<Point> = Vec::new();
        let mut i: usize = 0;
        while i < n
            invariant
                n == self.cells@.len(),
                i <= n,
                cells@ == self.cells@.subrange(0, i as int),
            decreases n - i,
        {
            cells.push(self.cells[i]);
            proof {
                assert(cells@ =~= self.cells@.subrange(0, i + 1));
            }
            i += 1;
        }
        proof {
            assert(cells@ =~= self.cells@);
        }
        Block { cells }
    }
}

} // verus!
