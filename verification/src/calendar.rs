//! The calendar puzzle itself: where the months and the days stand on the
//! board, which cells are walls, and which blocks there are.

use crate::block::{is_rectangular, mask_cells, mask_filled, mask_fits, Block};
use crate::board::{holds_walls, is_grid, walls_apart, Board};
use crate::error::ParseError;
use crate::point::{Cell, Point};
use crate::shape::normalized;
use vstd::prelude::*;
use vstd::string::*;

verus! {

/// The number of rows of the calendar board.
pub const HEIGHT: usize = 7;

/// The number of columns of the calendar board.
pub const WIDTH: usize = 7;

/// The number of blocks of the calendar puzzle.
pub const BLOCKS: usize = 8;

/// The names of the months, as they are written on the board.
pub open spec fn month_names() -> Seq<Seq<char>> {
    seq![
        "Jan"@,
        "Feb"@,
        "Mar"@,
        "Apr"@,
        "May"@,
        "Jun"@,
        "Jul"@,
        "Aug"@,
        "Sep"@,
        "Oct"@,
        "Nov"@,
        "Dec"@,
    ]
}

/// The cell of the month with the number `month`, counted from 0: the first
/// six months stand in the top row, the others in the row below it.
pub open spec fn month_spot(month: int) -> Cell {
    if month <= 5 {
        (0, month)
    } else {
        (1, month - 5)
    }
}

/// The cell of the day `day` of a month: the days stand in rows of seven,
/// from the third row of the board on.
pub open spec fn day_spot(day: int) -> Cell {
    ((day - 1) / 7 + 2, (day - 1) % 7)
}

/// The walls of the calendar board for a month cell and a day cell: the six
/// cells that belong to no month and no day, under the label `#`, then the
/// month cell under `M` and the day cell under `D`.
pub open spec fn wall_list(month: Point, day: Point) -> Seq<(char, Point)> {
    seq![
        ('#', Point { row: 0, col: 6 }),
        ('#', Point { row: 1, col: 6 }),
        ('#', Point { row: 6, col: 3 }),
        ('#', Point { row: 6, col: 4 }),
        ('#', Point { row: 6, col: 5 }),
        ('#', Point { row: 6, col: 6 }),
        ('M', month),
        ('D', day),
    ]
}

/// The mask of the block with the number `i` of the calendar puzzle.
pub open spec fn catalog_mask(i: int) -> Seq<&'static str> {
    if i == 0 {
        seq!["###", "#..", "#.."]
    } else if i == 1 {
        seq!["#.#", "###"]
    } else if i == 2 {
        seq!["##.", ".#.", ".##"]
    } else if i == 3 {
        seq!["#.", "##", "#.", "#."]
    } else if i == 4 {
        seq!["#.", "##", ".#", ".#"]
    } else if i == 5 {
        seq!["##", ".#", ".#", ".#"]
    } else if i == 6 {
        seq!["##.", "###"]
    } else {
        seq!["###", "###"]
    }
}

/// Whether the two strings hold the same characters.
fn same_text(a: &str, b: &str) -> (same: bool)
    ensures
        same == (a@ == b@),
{
    let n = a.unicode_len();
    if b.unicode_len() != n {
        return false;
    }
    let mut i: usize = 0;
    while i < n
        invariant
            n == a@.len(),
            n == b@.len(),
            i <= n,
            forall|k: int| 0 <= k < i ==> a@[k] == b@[k],
        decreases n - i,
    {
        if a.get_char(i) != b.get_char(i) {
            return false;
        }
        i += 1;
    }
    proof {
        assert(a@ =~= b@);
    }
    true
}

/// The name of the month with the number `month`, counted from 0.
pub fn month_name(month: usize) -> (name: &'static str)
    requires
        month < 12,
    ensures
        name@ == month_names()[month as int],
{
    if month == 0 {
        "Jan"
    } else if month == 1 {
        "Feb"
    } else if month == 2 {
        "Mar"
    } else if month == 3 {
        "Apr"
    } else if month == 4 {
        "May"
    } else if month == 5 {
        "Jun"
    } else if month == 6 {
        "Jul"
    } else if month == 7 {
        "Aug"
    } else if month == 8 {
        "Sep"
    } else if month == 9 {
        "Oct"
    } else if month == 10 {
        "Nov"
    } else {
        "Dec"
    }
}

/// The number of the month with the given name, counted from 0; `None` if
/// no month has that name.
pub fn month_number(name: &str) -> (found: Option<usize>)
    ensures
        match found {
            Some(month) => {
                &&& month < 12
                &&& month_names()[month as int] == name@
                &&& forall|k: int| 0 <= k < month ==> month_names()[k] != name@
            },
            None => forall|k: int| 0 <= k < 12 ==> month_names()[k] != name@,
        },
{
    let mut month: usize = 0;
    while month < 12
        invariant
            month <= 12,
            forall|k: int| 0 <= k < month ==> month_names()[k] != name@,
        decreases 12 - month,
    {
        if same_text(month_name(month), name) {
            return Some(month);
        }
        month += 1;
    }
    None
}

/// The cell of the month with the number `month`, counted from 0.
pub fn month_cell(month: usize) -> (p: Point)
    requires
        month < 12,
    ensures
        p@ == month_spot(month as int),
{
    if month <= 5 {
        Point::new(0, month as i32)
    } else {
        Point::new(1, (month - 5) as i32)
    }
}

/// The cell of the day `day` of a month; `None` if no month has such a day.
pub fn day_cell(day: u32) -> (found: Option<Point>)
    ensures
        match found {
            Some(p) => 1 <= day <= 31 && p@ == day_spot(day as int),
            None => day < 1 || day > 31,
        },
{
    if day < 1 || day > 31 {
        None
    } else {
        Some(Point::new(((day - 1) / 7 + 2) as i32, ((day - 1) % 7) as i32))
    }
}

/// The walls of the calendar board for a month cell and a day cell.
pub fn calendar_walls(month: Point, day: Point) -> (walls: Vec<(char, Point)>)
    ensures
        walls@ == wall_list(month, day),
{
    let mut walls: Vec<(char, Point)> = Vec::new();
    walls.push(('#', Point::new(0, 6)));
    walls.push(('#', Point::new(1, 6)));
    walls.push(('#', Point::new(6, 3)));
    walls.push(('#', Point::new(6, 4)));
    walls.push(('#', Point::new(6, 5)));
    walls.push(('#', Point::new(6, 6)));
    walls.push(('M', month));
    walls.push(('D', day));
    proof {
        assert(walls@ =~= wall_list(month, day));
    }
    walls
}

/// The calendar board for the month with the number `month`, counted from
/// 0, and the day `day`: seven rows of seven cells, with the walls of
/// [`wall_list`] and every other cell empty.
///
/// A month that is none of the twelve, a day that no month has, and a month
/// and a day of which one lies on the other or on a wall are turned down,
/// in this order.
pub fn calendar_board(month: usize, day: u32) -> (res: Result<Board, ParseError>)
    ensures
        match res {
            Ok(board) => {
                &&& month < 12
                &&& 1 <= day <= 31
                &&& is_grid(board@, 7, 7)
                &&& walls_apart(wall_list(month_cell_of(month), day_cell_of(day)), 8)
                &&& holds_walls(board@, wall_list(month_cell_of(month), day_cell_of(day)), 8)
            },
            Err(ParseError::UnknownMonth) => month >= 12,
            Err(ParseError::InvalidDay) => month < 12 && (day < 1 || day > 31),
            Err(ParseError::WallOverlap) => {
                &&& month < 12
                &&& 1 <= day <= 31
                &&& !walls_apart(wall_list(month_cell_of(month), day_cell_of(day)), 8)
            },
            Err(_) => false,
        },
{
    if month >= 12 {
        return Err(ParseError::UnknownMonth);
    }
    let m = month_cell(month);
    let d = match day_cell(day) {
        Some(d) => d,
        None => {
            return Err(ParseError::InvalidDay);
        },
    };
    let walls = calendar_walls(m, d);
    proof {
        assert(m == month_cell_of(month));
        assert(d == day_cell_of(day));
        assert(walls@.len() == 8);
    }
    let res = Board::new_with_walls(HEIGHT, WIDTH, walls.as_slice());
    proof {
        assert forall|k: int| 0 <= k < 8 implies crate::board::wall_inside(walls@, k, 7, 7) by {
            if k == 0 {
            } else if k == 1 {
            } else if k == 2 {
            } else if k == 3 {
            } else if k == 4 {
            } else if k == 5 {
            } else if k == 6 {
            } else {
            }
        }
    }
    res
}

/// The point that stands for the month with the number `month`.
pub open spec fn month_cell_of(month: usize) -> Point {
    Point { row: month_spot(month as int).0 as i32, col: month_spot(month as int).1 as i32 }
}

/// The point that stands for the day `day`.
pub open spec fn day_cell_of(day: u32) -> Point {
    Point { row: day_spot(day as int).0 as i32, col: day_spot(day as int).1 as i32 }
}

/// The block that a mask stands for, where the mask is known to be one.
fn block_of(rows: &[&str]) -> (block: Block)
    requires
        rows@.len() > 0,
        is_rectangular(rows@),
        mask_fits(rows@),
        exists|c: Cell| mask_filled(rows@, c),
    ensures
        block.wf(),
        block@ == normalized(mask_cells(rows@)),
{
    match Block::from_strs(rows) {
        Ok(block) => block,
        Err(_) => {
            proof {
                assert(false);
            }
            vstd::pervasive::unreached()
        },
    }
}

/// The eight blocks of the calendar puzzle, in the order of their numbers.
pub fn catalog() -> (blocks: Vec<Block>)
    ensures
        blocks@.len() == 8,
        forall|i: int|
            0 <= i < 8 ==> (#[trigger] blocks@[i]).wf() && blocks@[i]@ == normalized(
                mask_cells(catalog_mask(i)),
            ),
{
    proof {
        reveal_strlit("###");
        reveal_strlit("#..");
        reveal_strlit("#.#");
        reveal_strlit("##.");
        reveal_strlit(".#.");
        reveal_strlit(".##");
        reveal_strlit("#.");
        reveal_strlit("##");
        reveal_strlit(".#");
    }
    let mut blocks: Vec<Block> = Vec::new();
    let m0 = ["###", "#..", "#.."];
    proof {
        assert(m0@ =~= catalog_mask(0));
        assert(mask_filled(m0@, (0, 0)));
    }
    blocks.push(block_of(m0.as_slice()));
    let m1 = ["#.#", "###"];
    proof {
        assert(m1@ =~= catalog_mask(1));
        assert(mask_filled(m1@, (0, 0)));
    }
    blocks.push(block_of(m1.as_slice()));
    let m2 = ["##.", ".#.", ".##"];
    proof {
        assert(m2@ =~= catalog_mask(2));
        assert(mask_filled(m2@, (0, 0)));
    }
    blocks.push(block_of(m2.as_slice()));
    let m3 = ["#.", "##", "#.", "#."];
    proof {
        assert(m3@ =~= catalog_mask(3));
        assert(mask_filled(m3@, (0, 0)));
    }
    blocks.push(block_of(m3.as_slice()));
    let m4 = ["#.", "##", ".#", ".#"];
    proof {
        assert(m4@ =~= catalog_mask(4));
        assert(mask_filled(m4@, (0, 0)));
    }
    blocks.push(block_of(m4.as_slice()));
    let m5 = ["##", ".#", ".#", ".#"];
    proof {
        assert(m5@ =~= catalog_mask(5));
        assert(mask_filled(m5@, (0, 0)));
    }
    blocks.push(block_of(m5.as_slice()));
    let m6 = ["##.", "###"];
    proof {
        assert(m6@ =~= catalog_mask(6));
        assert(mask_filled(m6@, (0, 0)));
    }
    blocks.push(block_of(m6.as_slice()));
    let m7 = ["###", "###"];
    proof {
        assert(m7@ =~= catalog_mask(7));
        assert(mask_filled(m7@, (0, 0)));
    }
    blocks.push(block_of(m7.as_slice()));
    blocks
}

} // verus!
