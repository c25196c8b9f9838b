//! The board: a grid of cells, each empty, walled off, or covered by a
//! block.

use crate::block::{cells_of, lemma_ascending_ends, lemma_cells_of_push, listed, Block};
use crate::error::{ParseError, PlacementError};
use crate::point::{cell_le, Cell, Point};
use crate::shape::{first_cell, lemma_first_cell_is, placed};
use vstd::prelude::*;

verus! {

/// What a cell of the board holds.
#[derive(Clone, Copy, Debug, PartialEq, Eq, Structural)]
pub enum State {
    /// Nothing: a block may be laid here.
    Empty,
    /// A wall, for good. The character is the label under which the wall is
    /// shown.
    Wall(char),
    /// A cell of the block with this number.
    Block(usize),
}

/// The states of a board, row by row.
pub type Grid = Seq<Seq<State>>;

/// The grid has `height` rows of `width` cells each.
pub open spec fn is_grid(g: Grid, height: int, width: int) -> bool {
    &&& g.len() == height
    &&& forall|r: int| 0 <= r < g.len() ==> (#[trigger] g[r]).len() == width
}

/// The cell `c` lies on the grid.
pub open spec fn in_grid(g: Grid, c: Cell) -> bool {
    0 <= c.0 < g.len() && 0 <= c.1 < g[c.0].len()
}

/// The state of the cell `c` of the grid.
pub open spec fn state_at(g: Grid, c: Cell) -> State {
    g[c.0][c.1]
}

/// The cell `c` lies on the grid and is empty.
pub open spec fn empty_at(g: Grid, c: Cell) -> bool {
    in_grid(g, c) && state_at(g, c) == State::Empty
}

/// No cell of the grid is empty.
pub open spec fn is_full(g: Grid) -> bool {
    forall|c: Cell| !empty_at(g, c)
}

/// `c` is the empty cell of the grid that comes first in row-major order.
pub open spec fn is_first_empty(g: Grid, c: Cell) -> bool {
    &&& empty_at(g, c)
    &&& forall|d: Cell| #[trigger] empty_at(g, d) ==> cell_le(c, d)
}

/// The grid `g` with the state `st` written to those of its cells that are
/// in `cells`.
pub open spec fn with_cells(g: Grid, cells: Set<Cell>, st: State) -> Grid {
    Seq::new(
        g.len(),
        |r: int|
            Seq::new(
                g[r].len(),
                |c: int|
                    if cells.contains((r, c)) {
                        st
                    } else {
                        g[r][c]
                    },
            ),
    )
}

/// Every cell of `cells` lies on the grid.
pub open spec fn fits(g: Grid, cells: Set<Cell>) -> bool {
    forall|c: Cell| #[trigger] cells.contains(c) ==> in_grid(g, c)
}

/// Every cell of `cells` lies on the grid and is empty.
pub open spec fn all_empty(g: Grid, cells: Set<Cell>) -> bool {
    forall|c: Cell| #[trigger] cells.contains(c) ==> empty_at(g, c)
}

/// Every cell of `cells` lies on the grid and is covered by the block with
/// the number `id`.
pub open spec fn covered_by(g: Grid, cells: Set<Cell>, id: usize) -> bool {
    forall|c: Cell| #[trigger] cells.contains(c) ==> in_grid(g, c) && state_at(g, c) == State::Block(id)
}

/// The wall with the number `k` lies on a board of the given size.
pub open spec fn wall_inside(walls: Seq<(char, Point)>, k: int, height: int, width: int) -> bool {
    0 <= walls[k].1.row < height && 0 <= walls[k].1.col < width
}

/// No two of the first `n` walls lie on one cell.
pub open spec fn walls_apart(walls: Seq<(char, Point)>, n: int) -> bool {
    forall|i: int, j: int| 0 <= i < j < n ==> (#[trigger] walls[i]).1 != (#[trigger] walls[j]).1
}

/// The grid holds the first `n` walls, each under its label, and nothing
/// else.
pub open spec fn holds_walls(g: Grid, walls: Seq<(char, Point)>, n: int) -> bool {
    &&& forall|k: int|
        0 <= k < n ==> in_grid(g, (#[trigger] walls[k]).1@) && state_at(g, walls[k].1@)
            == State::Wall(walls[k].0)
    &&& forall|c: Cell|
        in_grid(g, c) && (forall|k: int| 0 <= k < n ==> (#[trigger] walls[k]).1@ != c)
            ==> #[trigger] state_at(g, c) == State::Empty
}

/// The empty cell of the grid that comes first in row-major order, where
/// there is one.
pub open spec fn first_empty(g: Grid) -> Cell {
    choose|c: Cell| is_first_empty(g, c)
}

/// The cells of the grid that the block with the number `id` covers.
pub open spec fn occupied(g: Grid, id: usize) -> Set<Cell> {
    Set::new(|c: Cell| in_grid(g, c) && state_at(g, c) == State::Block(id))
}

/// A first empty cell is the first empty cell.
pub proof fn lemma_first_empty_is(g: Grid, c: Cell)
    requires
        is_first_empty(g, c),
    ensures
        first_empty(g) == c,
        !is_full(g),
{
    let d = first_empty(g);
    assert(is_first_empty(g, d));
    assert(cell_le(c, d) && cell_le(d, c));
}

/// The empty cells of the grid.
pub open spec fn empties(g: Grid) -> Set<Cell> {
    Set::new(|c: Cell| empty_at(g, c))
}

/// The cells of the first `width` columns in the row `r`.
spec fn strip(r: int, width: int) -> Set<Cell> {
    Set::new(|c: Cell| c.0 == r && 0 <= c.1 < width)
}

/// The cells of the first `height` rows and the first `width` columns.
spec fn rect(height: int, width: int) -> Set<Cell> {
    Set::new(|c: Cell| 0 <= c.0 < height && 0 <= c.1 < width)
}

/// A row has finitely many cells.
proof fn lemma_strip_finite(r: int, width: int)
    ensures
        strip(r, width).finite(),
    decreases width,
{
    if width <= 0 {
        assert(strip(r, width) =~= Set::empty());
    } else {
        lemma_strip_finite(r, width - 1);
        assert(strip(r, width) =~= strip(r, width - 1).insert((r, width - 1)));
    }
}

/// A rectangle has finitely many cells.
proof fn lemma_rect_finite(height: int, width: int)
    ensures
        rect(height, width).finite(),
    decreases height,
{
    if height <= 0 {
        assert(rect(height, width) =~= Set::empty());
    } else {
        lemma_rect_finite(height - 1, width);
        lemma_strip_finite(height - 1, width);
        assert(rect(height, width) =~= rect(height - 1, width).union(strip(height - 1, width)));
    }
}

/// A grid has finitely many empty cells.
pub proof fn lemma_empties_finite(g: Grid, height: int, width: int)
    requires
        is_grid(g, height, width),
    ensures
        empties(g).finite(),
{
    lemma_rect_finite(height, width);
    assert(empties(g).subset_of(rect(height, width)));
    vstd::set_lib::lemma_set_subset_finite(rect(height, width), empties(g));
}

/// The cells on which a block is laid are empty no longer, and every other
/// cell is empty as it was.
pub proof fn lemma_laid_empties(g: Grid, cells: Set<Cell>, id: usize)
    requires
        all_empty(g, cells),
        empties(g).finite(),
    ensures
        cells.finite(),
        empties(with_cells(g, cells, State::Block(id))) == empties(g).difference(cells),
        empties(with_cells(g, cells, State::Block(id))).finite(),
        empties(with_cells(g, cells, State::Block(id))).len() + cells.len() == empties(g).len(),
{
    let after = empties(with_cells(g, cells, State::Block(id)));
    assert(cells.subset_of(empties(g))) by {
        assert forall|c: Cell| cells.contains(c) implies empties(g).contains(c) by {
            assert(empty_at(g, c));
        }
    }
    vstd::set_lib::lemma_set_subset_finite(empties(g), cells);
    assert(after =~= empties(g).difference(cells));
    assert(after.disjoint(cells));
    assert(after + cells =~= empties(g));
    vstd::set_lib::lemma_set_disjoint_lens(after, cells);
}

/// The integer `i` has the property `f`.
spec fn has(f: spec_fn(int) -> bool, i: int) -> bool {
    f(i)
}

/// The least integer from `lo` up to `hi`, `hi` left out, that has the
/// property `f`.
proof fn lemma_least(f: spec_fn(int) -> bool, lo: int, hi: int) -> (m: int)
    requires
        exists|i: int| lo <= i < hi && #[trigger] has(f, i),
    ensures
        lo <= m < hi,
        has(f, m),
        forall|i: int| lo <= i < m ==> !#[trigger] has(f, i),
    decreases hi - lo,
{
    if has(f, lo) {
        lo
    } else {
        let i = choose|i: int| lo <= i < hi && #[trigger] has(f, i);
        assert(lo + 1 <= i < hi && has(f, i));
        lemma_least(f, lo + 1, hi)
    }
}

/// A grid that is not full has a first empty cell.
pub proof fn lemma_first_empty_exists(g: Grid)
    requires
        !is_full(g),
    ensures
        is_first_empty(g, first_empty(g)),
{
    let e = choose|c: Cell| empty_at(g, c);
    let in_row = |r: int| exists|c: int| empty_at(g, (r, c));
    assert(has(in_row, e.0)) by {
        assert(empty_at(g, (e.0, e.1)));
    }
    let r = lemma_least(in_row, 0, g.len() as int);
    let c0 = choose|c: int| empty_at(g, (r, c));
    let in_col = |c: int| empty_at(g, (r, c));
    assert(has(in_col, c0));
    let c = lemma_least(in_col, 0, g[r].len() as int);
    assert(is_first_empty(g, (r, c))) by {
        assert forall|d: Cell| #[trigger] empty_at(g, d) implies cell_le((r, c), d) by {
            assert(empty_at(g, (d.0, d.1)));
            assert(has(in_row, d.0));
            if d.0 == r {
                assert(has(in_col, d.1));
            }
        }
    }
}

/// Writing to cells of a grid leaves it a grid of the same size, changes
/// the cells written to, and no others.
pub proof fn lemma_with_cells(g: Grid, cells: Set<Cell>, st: State, height: int, width: int)
    ensures
        is_grid(g, height, width) ==> is_grid(with_cells(g, cells, st), height, width),
        forall|c: Cell| in_grid(with_cells(g, cells, st), c) <==> in_grid(g, c),
        forall|c: Cell|
            in_grid(g, c) ==> #[trigger] state_at(with_cells(g, cells, st), c) == (if cells.contains(
                c,
            ) {
                st
            } else {
                state_at(g, c)
            }),
{
}

/// Laying a block and lifting it again leaves the board as it was: after a
/// block was laid on empty cells, the same cells are covered by it, so that
/// it can be lifted, and lifting it restores every cell.
pub proof fn lemma_put_then_remove(g: Grid, cells: Set<Cell>, id: usize)
    requires
        all_empty(g, cells),
    ensures
        covered_by(with_cells(g, cells, State::Block(id)), cells, id),
        with_cells(with_cells(g, cells, State::Block(id)), cells, State::Empty) == g,
{
    let put = with_cells(g, cells, State::Block(id));
    let back = with_cells(put, cells, State::Empty);
    assert forall|c: Cell| #[trigger] cells.contains(c) implies in_grid(put, c) && state_at(put, c)
        == State::Block(id) by {
        assert(empty_at(g, c));
    }
    assert(back.len() == g.len());
    assert forall|r: int| 0 <= r < g.len() implies #[trigger] back[r] =~= g[r] by {
        assert forall|c: int| 0 <= c < g[r].len() implies back[r][c] == g[r][c] by {
            if cells.contains((r, c)) {
                assert(empty_at(g, (r, c)));
            }
        }
    }
    assert(back =~= g);
}

/// No cell is covered by two blocks: a block that is laid on empty cells
/// under a number that covers no cell yet covers exactly its own cells, and
/// every other number covers the cells that it covered before.
pub proof fn lemma_put_occupancy(g: Grid, cells: Set<Cell>, id: usize, other: usize)
    requires
        all_empty(g, cells),
        id != other,
    ensures
        occupied(with_cells(g, cells, State::Block(id)), other) == occupied(g, other),
        occupied(with_cells(g, cells, State::Block(id)), id) == occupied(g, id).union(cells),
        occupied(g, other).disjoint(cells),
{
    let put = with_cells(g, cells, State::Block(id));
    assert forall|c: Cell| occupied(put, other).contains(c) <==> occupied(g, other).contains(c) by {
        if cells.contains(c) {
            assert(empty_at(g, c));
        }
    }
    assert(occupied(put, other) =~= occupied(g, other));
    assert forall|c: Cell| occupied(put, id).contains(c) <==> occupied(g, id).union(cells).contains(
        c,
    ) by {
        if cells.contains(c) {
            assert(empty_at(g, c));
        }
    }
    assert(occupied(put, id) =~= occupied(g, id).union(cells));
    assert forall|c: Cell| !(occupied(g, other).contains(c) && cells.contains(c)) by {
        if cells.contains(c) {
            assert(empty_at(g, c));
        }
    }
}

/// Writing to one more cell is writing to a set with one more cell.
proof fn lemma_with_cells_step(g: Grid, done: Set<Cell>, t: Cell, st: State)
    requires
        in_grid(g, t),
    ensures
        with_cells(g, done, st).update(t.0, with_cells(g, done, st)[t.0].update(t.1, st))
            == with_cells(g, done.insert(t), st),
{
    let a = with_cells(g, done, st).update(t.0, with_cells(g, done, st)[t.0].update(t.1, st));
    let b = with_cells(g, done.insert(t), st);
    assert(a.len() == b.len());
    assert forall|r: int| 0 <= r < a.len() implies #[trigger] a[r] =~= b[r] by {}
    assert(a =~= b);
}

/// Writing to no cell changes nothing.
proof fn lemma_with_cells_none(g: Grid, st: State)
    ensures
        with_cells(g, Set::empty(), st) == g,
{
    let a = with_cells(g, Set::empty(), st);
    assert forall|r: int| 0 <= r < a.len() implies #[trigger] a[r] =~= g[r] by {}
    assert(a =~= g);
}

/// A grid that holds the first `k` walls, apart from each other, holds one
/// more once the next wall is written to a cell that was empty.
proof fn lemma_wall_added(
    before: Grid,
    after: Grid,
    walls: Seq<(char, Point)>,
    k: int,
    label: char,
    p: Point,
)
    requires
        0 <= k < walls.len(),
        walls[k] == (label, p),
        walls_apart(walls, k),
        holds_walls(before, walls, k),
        empty_at(before, p@),
        after == before.update(
            p.row as int,
            before[p.row as int].update(p.col as int, State::Wall(label)),
        ),
    ensures
        walls_apart(walls, k + 1),
        holds_walls(after, walls, k + 1),
{
    assert forall|j: int| 0 <= j < k implies (#[trigger] walls[j]).1 != p by {
        assert(state_at(before, walls[j].1@) == State::Wall(walls[j].0));
    }
    assert forall|j: int| 0 <= j < k + 1 implies in_grid(after, (#[trigger] walls[j]).1@)
        && state_at(after, walls[j].1@) == State::Wall(walls[j].0) by {
        let w = walls[j].1;
        if j < k {
            assert(in_grid(before, w@));
            assert(state_at(before, w@) == State::Wall(walls[j].0));
            assert(w != p);
        }
    }
    assert forall|c: Cell|
        in_grid(after, c) && (forall|j: int| 0 <= j < k + 1 ==> (#[trigger] walls[j]).1@ != c) implies #[trigger] state_at(
        after,
        c,
    ) == State::Empty by {
        assert(walls[k].1@ != c);
        assert(in_grid(before, c));
        assert forall|j: int| 0 <= j < k implies (#[trigger] walls[j]).1@ != c by {}
        assert(state_at(before, c) == State::Empty);
    }
}

/// The view of a list of rows.
pub open spec fn grid_of(rows: Seq<Vec<State>>) -> Grid {
    rows.map_values(|row: Vec<State>| row@)
}

/// Writes `st` to the cell in row `r` and column `c`.
fn set_state(rows: &mut Vec<Vec<State>>, r: usize, c: usize, st: State)
    requires
        in_grid(grid_of(old(rows)@), (r as int, c as int)),
    ensures
        grid_of(final(rows)@) == grid_of(old(rows)@).update(
            r as int,
            grid_of(old(rows)@)[r as int].update(c as int, st),
        ),
        forall|h: int, w: int|
            is_grid(grid_of(old(rows)@), h, w) ==> is_grid(grid_of(final(rows)@), h, w),
    no_unwind
{
    rows[r][c] = st;
    proof {
        assert(grid_of(rows@) =~= grid_of(old(rows)@).update(
            r as int,
            grid_of(old(rows)@)[r as int].update(c as int, st),
        ));
        assert forall|h: int, w: int| is_grid(grid_of(old(rows)@), h, w) implies is_grid(
            grid_of(rows@),
            h,
            w,
        ) by {
            assert forall|i: int| 0 <= i < grid_of(rows@).len() implies (#[trigger] grid_of(
                rows@,
            )[i]).len() == w by {
                assert(grid_of(old(rows)@)[i].len() == w);
            }
        }
    }
}

/// A board of cells.
#[derive(Debug, PartialEq, Eq)]
pub struct Board {
    height: usize,
    width: usize,
    board: Vec<Vec<State>>,
}

impl View for Board {
    type V = Grid;

    closed spec fn view(&self) -> Grid {
        grid_of(self.board@)
    }
}

impl Board {
    /// What holds of every board: it has `height` rows of `width` cells, and
    /// a point can name each of its cells.
    #[verifier::type_invariant]
    pub closed spec fn wf(&self) -> bool {
        &&& is_grid(grid_of(self.board@), self.height as int, self.width as int)
        &&& self.height <= i32::MAX
        &&& self.width <= i32::MAX
    }

    /// The number of rows, as contracts speak of it.
    pub closed spec fn spec_height(&self) -> int {
        self.height as int
    }

    /// The number of columns, as contracts speak of it.
    pub closed spec fn spec_width(&self) -> int {
        self.width as int
    }

    /// A board is a grid of its height and width.
    pub proof fn lemma_grid(&self)
        requires
            self.wf(),
        ensures
            is_grid(self@, self.spec_height(), self.spec_width()),
    {
    }

    /// The number of rows.
    pub fn height(&self) -> (h: usize)
        ensures
            h == self.spec_height(),
    {
        self.height
    }

    /// The number of columns.
    pub fn width(&self) -> (w: usize)
        ensures
            w == self.spec_width(),
    {
        self.width
    }

    /// A board of `height` rows and `width` columns on which every cell is
    /// empty.
    pub fn new(height: usize, width: usize) -> (board: Board)
        requires
            height <= i32::MAX,
            width <= i32::MAX,
        ensures
            board.wf(),
            board.spec_height() == height,
            board.spec_width() == width,
            is_grid(board@, height as int, width as int),
            forall|c: Cell| in_grid(board@, c) ==> state_at(board@, c) == State::Empty,
    {
        let mut rows: Vec<Vec<State>> = Vec::new();
        let mut r: usize = 0;
        while r < height
            invariant
                r <= height,
                rows@.len() == r,
                forall|i: int| 0 <= i < r ==> (#[trigger] rows@[i])@.len() == width,
                forall|i: int, j: int|
                    0 <= i < r && 0 <= j < width ==> (#[trigger] rows@[i]@[j]) == State::Empty,
            decreases height - r,
        {
            let mut row: Vec<State> = Vec::new();
            let mut c: usize = 0;
            while c < width
                invariant
                    c <= width,
                    row@.len() == c,
                    forall|j: int| 0 <= j < c ==> (#[trigger] row@[j]) == State::Empty,
                decreases width - c,
            {
                row.push(State::Empty);
                c += 1;
            }
            rows.push(row);
            r += 1;
        }
        Board { height, width, board: rows }
    }

    /// The state of the cell in row `row` and column `col`, if the board has
    /// such a cell.
    pub fn state(&self, row: usize, col: usize) -> (st: Option<State>)
        ensures
            self.wf(),
            is_grid(self@, self.spec_height(), self.spec_width()),
            match st {
                Some(s) => in_grid(self@, (row as int, col as int)) && s == state_at(
                    self@,
                    (row as int, col as int),
                ),
                None => !in_grid(self@, (row as int, col as int)),
            },
    {
        proof {
            use_type_invariant(self);
        }
        if row < self.height && col < self.width {
            Some(self.board[row][col])
        } else {
            None
        }
    }

    /// The empty cell that comes first in row-major order: the topmost row
    /// with an empty cell, and in it the leftmost empty cell. `None` if no
    /// cell is empty.
    pub fn first_empty_cell(&self) -> (found: Option<Point>)
        ensures
            match found {
                Some(p) => is_first_empty(self@, p@),
                None => is_full(self@),
            },
    {
        proof {
            use_type_invariant(self);
        }
        let mut r: usize = 0;
        while r < self.height
            invariant
                self.wf(),
                r <= self.height,
                forall|d: Cell| #[trigger] empty_at(self@, d) ==> d.0 >= r,
            decreases self.height - r,
        {
            let mut c: usize = 0;
            while c < self.width
                invariant
                    self.wf(),
                    r < self.height,
                    c <= self.width,
                    forall|d: Cell| #[trigger] empty_at(self@, d) ==> cell_le((r as int, c as int), d),
                decreases self.width - c,
            {
                assert(self@[r as int] == self.board@[r as int]@);
                if self.board[r][c] == State::Empty {
                    return Some(Point::new(r as i32, c as i32));
                }
                c += 1;
            }
            r += 1;
        }
        None
    }

    /// The cells on which `block` comes to lie when its first cell is put on
    /// `anchor`, in the order of the block's cells; `None` if one of them
    /// lies outside the board.
    fn targets(&self, anchor: &Point, block: &Block) -> (res: Option<Vec<Point>>)
        ensures
            match res {
                Some(list) => {
                    &&& fits(self@, placed(block@, anchor@))
                    &&& cells_of(list@) == placed(block@, anchor@)
                    &&& list@.len() > 0
                    &&& list@[0] == *anchor
                },
                None => !fits(self@, placed(block@, anchor@)),
            },
    {
        proof {
            use_type_invariant(self);
        }
        let cells = block.cells();
        let first = cells[0];
        let ghost area = placed(block@, anchor@);
        proof {
            lemma_ascending_ends(cells@);
            lemma_first_cell_is(block@, first@);
        }
        let n = cells.len();
        let mut list: Vec<Point> = Vec::new();
        let mut k: usize = 0;
        while k < n
            invariant
                self.wf(),
                n == cells@.len(),
                k <= n,
                first == cells@[0],
                cells_of(cells@) == block@,
                first_cell(block@) == first@,
                area == placed(block@, anchor@),
                list@.len() == k,
                forall|i: int|
                    0 <= i < k ==> in_grid(self@, (#[trigger] list@[i])@) && list@[i]@ == (
                        cells@[i].row + anchor.row - first.row,
                        cells@[i].col + anchor.col - first.col,
                    ),
            decreases n - k,
        {
            let q = cells[k];
            let r: i64 = q.row as i64 + anchor.row as i64 - first.row as i64;
            let c: i64 = q.col as i64 + anchor.col as i64 - first.col as i64;
            proof {
                assert(listed(cells@, q@) && block@.contains(q@));
                assert(area.contains((r as int, c as int)));
            }
            if r < 0 || r >= self.height as i64 || c < 0 || c >= self.width as i64 {
                return None;
            }
            list.push(Point::new(r as i32, c as i32));
            k += 1;
        }
        proof {
            let set = cells_of(list@);
            assert forall|c: Cell| set.contains(c) <==> area.contains(c) by {
                if listed(list@, c) {
                    let i = choose|i: int| 0 <= i < list@.len() && (#[trigger] list@[i])@ == c;
                    assert(listed(cells@, cells@[i]@) && block@.contains(cells@[i]@));
                }
                if area.contains(c) {
                    let d = (c.0 - (anchor.row - first.row), c.1 - (anchor.col - first.col));
                    assert(block@.contains(d) && listed(cells@, d));
                    let i = choose|i: int| 0 <= i < cells@.len() && (#[trigger] cells@[i])@ == d;
                    assert(list@[i]@ == c);
                }
            }
            assert(set =~= area);
            assert forall|c: Cell| #[trigger] area.contains(c) implies in_grid(self@, c) by {
                let i = choose|i: int| 0 <= i < list@.len() && (#[trigger] list@[i])@ == c;
            }
        }
        Some(list)
    }

    /// Writes `st` to the cell `p` of the board.
    fn write(&mut self, p: Point, st: State)
        requires
            in_grid(old(self)@, p@),
        ensures
            final(self)@ == old(self)@.update(
                p.row as int,
                old(self)@[p.row as int].update(p.col as int, st),
            ),
            final(self).height == old(self).height,
            final(self).width == old(self).width,
    {
        proof {
            use_type_invariant(&*self);
        }
        set_state(&mut self.board, p.row as usize, p.col as usize, st);
    }

    /// Writes `st` to every cell of the list.
    fn fill(&mut self, list: &Vec<Point>, st: State)
        requires
            fits(old(self)@, cells_of(list@)),
        ensures
            final(self)@ == with_cells(old(self)@, cells_of(list@), st),
            final(self).spec_height() == old(self).spec_height(),
            final(self).spec_width() == old(self).spec_width(),
    {
        proof {
            use_type_invariant(&*self);
            lemma_with_cells_none(self@, st);
            assert(cells_of(list@.subrange(0, 0)) =~= Set::empty());
        }
        let n = list.len();
        let mut k: usize = 0;
        while k < n
            invariant
                n == list@.len(),
                k <= n,
                self.height == old(self).height,
                self.width == old(self).width,
                old(self).wf(),
                fits(old(self)@, cells_of(list@)),
                self@ == with_cells(old(self)@, cells_of(list@.subrange(0, k as int)), st),
            decreases n - k,
        {
            let p = list[k];
            proof {
                assert(listed(list@, p@) && cells_of(list@).contains(p@));
                lemma_with_cells_step(old(self)@, cells_of(list@.subrange(0, k as int)), p@, st);
                lemma_cells_of_push(list@.subrange(0, k as int), p);
                assert(list@.subrange(0, k as int).push(p) =~= list@.subrange(0, k + 1));
            }
            self.write(p, st);
            k += 1;
        }
        proof {
            assert(list@.subrange(0, n as int) =~= list@);
        }
    }

    /// A board of `height` rows and `width` columns on which the given
    /// cells are walls, each under its label, and every other cell is empty.
    ///
    /// A board with more rows or columns than a coordinate can count, a wall
    /// outside the board, and two walls on one cell are turned down, in this
    /// order.
    pub fn new_with_walls(height: usize, width: usize, walls: &[(char, Point)]) -> (res: Result<
        Board,
        ParseError,
    >)
        ensures
            match res {
                Ok(board) => {
                    &&& board.wf()
                    &&& board.spec_height() == height
                    &&& board.spec_width() == width
                    &&& is_grid(board@, height as int, width as int)
                    &&& walls_apart(walls@, walls@.len() as int)
                    &&& holds_walls(board@, walls@, walls@.len() as int)
                },
                Err(ParseError::OversizedBoard) => height > i32::MAX || width > i32::MAX,
                Err(ParseError::WallOutside) => {
                    &&& height <= i32::MAX && width <= i32::MAX
                    &&& exists|k: int|
                        0 <= k < walls@.len() && !wall_inside(walls@, k, height as int, width as int)
                },
                Err(ParseError::WallOverlap) => {
                    &&& height <= i32::MAX && width <= i32::MAX
                    &&& forall|k: int|
                        0 <= k < walls@.len() ==> wall_inside(walls@, k, height as int, width as int)
                    &&& !walls_apart(walls@, walls@.len() as int)
                },
                Err(_) => false,
            },
    {
        if height > 0x7fff_ffff || width > 0x7fff_ffff {
            return Err(ParseError::OversizedBoard);
        }
        let n = walls.len();
        let mut k: usize = 0;
        while k < n
            invariant
                n == walls@.len(),
                k <= n,
                height <= i32::MAX,
                width <= i32::MAX,
                forall|i: int| 0 <= i < k ==> wall_inside(walls@, i, height as int, width as int),
            decreases n - k,
        {
            let p = walls[k].1;
            if p.row < 0 || p.row as usize >= height || p.col < 0 || p.col as usize >= width {
                assert(!wall_inside(walls@, k as int, height as int, width as int));
                return Err(ParseError::WallOutside);
            }
            k += 1;
        }
        let mut board = Board::new(height, width);
        k = 0;
        while k < n
            invariant
                n == walls@.len(),
                k <= n,
                board.wf(),
                board.height == height,
                board.width == width,
                forall|i: int| 0 <= i < n ==> wall_inside(walls@, i, height as int, width as int),
                walls_apart(walls@, k as int),
                holds_walls(board@, walls@, k as int),
            decreases n - k,
        {
            let label = walls[k].0;
            let p = walls[k].1;
            let ghost before = board@;
            proof {
                assert(wall_inside(walls@, k as int, height as int, width as int));
                assert(before[p.row as int] == board.board@[p.row as int]@);
            }
            if board.board[p.row as usize][p.col as usize] != State::Empty {
                proof {
                    assert(in_grid(before, p@) && state_at(before, p@) != State::Empty);
                    assert(exists|j: int| 0 <= j < k && (#[trigger] walls@[j]).1@ == p@);
                    let j = choose|j: int| 0 <= j < k && (#[trigger] walls@[j]).1@ == p@;
                    assert(walls@[j].1 == walls@[k as int].1);
                }
                return Err(ParseError::WallOverlap);
            }
            board.write(p, State::Wall(label));
            proof {
                lemma_wall_added(before, board@, walls@, k as int, label, p);
            }
            k += 1;
        }
        Ok(board)
    }

    /// Lays `block` on the board with its first cell on `anchor`, and marks
    /// the cells that it covers with the number `id`.
    ///
    /// The block is laid only if each of its cells comes to lie on the board
    /// and on an empty cell. Otherwise the board stays as it is: the error is
    /// `OutOfBounds` if a cell of the block would lie outside the board, and
    /// `Collision` if all would lie on it but one of them would not be empty.
    pub fn put_block(&mut self, anchor: &Point, id: usize, block: &Block) -> (res: Result<
        (),
        PlacementError,
    >)
        ensures
            final(self).spec_height() == old(self).spec_height(),
            final(self).spec_width() == old(self).spec_width(),
            match res {
                Ok(()) => {
                    &&& all_empty(old(self)@, placed(block@, anchor@))
                    &&& final(self)@ == with_cells(
                        old(self)@,
                        placed(block@, anchor@),
                        State::Block(id),
                    )
                },
                Err(PlacementError::OutOfBounds) => {
                    &&& !fits(old(self)@, placed(block@, anchor@))
                    &&& final(self)@ == old(self)@
                },
                Err(PlacementError::Collision) => {
                    &&& fits(old(self)@, placed(block@, anchor@))
                    &&& !all_empty(old(self)@, placed(block@, anchor@))
                    &&& final(self)@ == old(self)@
                },
            },
    {
        proof {
            use_type_invariant(&*self);
        }
        let list = match self.targets(anchor, block) {
            Some(list) => list,
            None => {
                return Err(PlacementError::OutOfBounds);
            },
        };
        let ghost area = placed(block@, anchor@);
        let n = list.len();
        let mut k: usize = 0;
        while k < n
            invariant
                n == list@.len(),
                k <= n,
                self.wf(),
                *self == *old(self),
                area == placed(block@, anchor@),
                fits(self@, area),
                cells_of(list@) == area,
                forall|i: int| 0 <= i < k ==> empty_at(self@, (#[trigger] list@[i])@),
            decreases n - k,
        {
            let p = list[k];
            proof {
                assert(listed(list@, p@) && area.contains(p@));
                assert(self@[p.row as int] == self.board@[p.row as int]@);
            }
            if self.board[p.row as usize][p.col as usize] != State::Empty {
                proof {
                    assert(!empty_at(self@, p@));
                }
                return Err(PlacementError::Collision);
            }
            k += 1;
        }
        proof {
            assert forall|c: Cell| #[trigger] area.contains(c) implies empty_at(self@, c) by {
                let i = choose|i: int| 0 <= i < list@.len() && (#[trigger] list@[i])@ == c;
            }
        }
        self.fill(&list, State::Block(id));
        Ok(())
    }

    /// Lifts `block` from the board, where it lies with its first cell on
    /// `anchor`, and leaves the cells that it covered empty.
    ///
    /// The block is lifted only if each of its cells lies on the board and
    /// all of them are covered by a block of one and the same number.
    /// Otherwise the board stays as it is: the error is `OutOfBounds` if a
    /// cell of the block lies outside the board, and `Collision` if all lie
    /// on it but are not covered so.
    pub fn remove_block(&mut self, anchor: &Point, block: &Block) -> (res: Result<
        (),
        PlacementError,
    >)
        ensures
            final(self).spec_height() == old(self).spec_height(),
            final(self).spec_width() == old(self).spec_width(),
            match res {
                Ok(()) => {
                    &&& exists|id: usize| covered_by(old(self)@, placed(block@, anchor@), id)
                    &&& final(self)@ == with_cells(
                        old(self)@,
                        placed(block@, anchor@),
                        State::Empty,
                    )
                },
                Err(PlacementError::OutOfBounds) => {
                    &&& !fits(old(self)@, placed(block@, anchor@))
                    &&& final(self)@ == old(self)@
                },
                Err(PlacementError::Collision) => {
                    &&& fits(old(self)@, placed(block@, anchor@))
                    &&& forall|id: usize| !covered_by(old(self)@, placed(block@, anchor@), id)
                    &&& final(self)@ == old(self)@
                },
            },
    {
        proof {
            use_type_invariant(&*self);
        }
        let list = match self.targets(anchor, block) {
            Some(list) => list,
            None => {
                return Err(PlacementError::OutOfBounds);
            },
        };
        let ghost area = placed(block@, anchor@);
        proof {
            assert(listed(list@, list@[0]@) && area.contains(list@[0]@));
            assert(self@[anchor.row as int] == self.board@[anchor.row as int]@);
        }
        let id = match self.board[anchor.row as usize][anchor.col as usize] {
            State::Block(id) => id,
            _ => {
                proof {
                    assert forall|other: usize| !covered_by(self@, area, other) by {
                        if covered_by(self@, area, other) {
                            assert(state_at(self@, anchor@) == State::Block(other));
                        }
                    }
                }
                return Err(PlacementError::Collision);
            },
        };
        let n = list.len();
        let mut k: usize = 0;
        while k < n
            invariant
                n == list@.len(),
                k <= n,
                self.wf(),
                *self == *old(self),
                area == placed(block@, anchor@),
                fits(self@, area),
                cells_of(list@) == area,
                area.contains(anchor@),
                state_at(self@, anchor@) == State::Block(id),
                forall|i: int| 0 <= i < k ==> state_at(self@, (#[trigger] list@[i])@) == State::Block(id),
            decreases n - k,
        {
            let p = list[k];
            proof {
                assert(listed(list@, p@) && area.contains(p@));
                assert(self@[p.row as int] == self.board@[p.row as int]@);
            }
            if self.board[p.row as usize][p.col as usize] != State::Block(id) {
                proof {
                    assert forall|other: usize| !covered_by(self@, area, other) by {
                        if covered_by(self@, area, other) {
                            assert(state_at(self@, anchor@) == State::Block(other));
                            assert(state_at(self@, p@) == State::Block(other));
                        }
                    }
                }
                return Err(PlacementError::Collision);
            }
            k += 1;
        }
        proof {
            assert forall|c: Cell| #[trigger] area.contains(c) implies state_at(self@, c)
                == State::Block(id) by {
                let i = choose|i: int| 0 <= i < list@.len() && (#[trigger] list@[i])@ == c;
            }
            assert(covered_by(self@, area, id));
        }
        self.fill(&list, State::Empty);
        Ok(())
    }
}

impl Clone for Board {
    /// A board with the same cells.
    fn clone(&self) -> (copy: Board)
        ensures
            copy@ == self@,
            copy.spec_height() == self.spec_height(),
            copy.spec_width() == self.spec_width(),
    {
        proof {
            use_type_invariant(self);
        }
        let mut rows: Vec<Vec<State>> = Vec::new();
        let mut r: usize = 0;
        while r < self.height
            invariant
                self.wf(),
                r <= self.height,
                rows@.len() == r,
                forall|i: int| 0 <= i < r ==> (#[trigger] rows@[i])@ == self.board@[i]@,
            decreases self.height - r,
        {
            let mut row: Vec<State> = Vec::new();
            let mut c: usize = 0;
            proof {
                assert(self@[r as int] == self.board@[r as int]@);
            }
            while c < self.width
                invariant
                    self.wf(),
                    r < self.height,
                    c <= self.width,
                    self.board@[r as int]@.len() == self.width,
                    row@.len() == c,
                    forall|j: int| 0 <= j < c ==> (#[trigger] row@[j]) == self.board@[r as int]@[j],
                decreases self.width - c,
            {
                row.push(self.board[r][c]);
                c += 1;
            }
            proof {
                assert(row@ =~= self.board@[r as int]@);
            }
            rows.push(row);
            r += 1;
        }
        proof {
            assert(grid_of(rows@) =~= grid_of(self.board@));
        }
        Board { height: self.height, width: self.width, board: rows }
    }
}

} // verus!
