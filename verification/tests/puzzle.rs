use calendar_puzzle::block::Block;
use calendar_puzzle::board::{Board, State};
use calendar_puzzle::calendar::{
    calendar_board, calendar_walls, catalog, day_cell, month_cell, month_name, month_number,
};
use calendar_puzzle::error::{ParseError, PlacementError, SearchError};
use calendar_puzzle::point::Point;
use calendar_puzzle::search::try_fill_board;

fn block(rows: &[&str]) -> Block {
    Block::from_strs(rows).unwrap()
}

fn points(list: &[(i32, i32)]) -> Vec<Point> {
    list.iter().map(|&(r, c)| Point::new(r, c)).collect()
}

fn states(board: &Board) -> Vec<Vec<State>> {
    let mut rows = Vec::new();
    for r in 0..board.height() {
        let mut row = Vec::new();
        for c in 0..board.width() {
            row.push(board.state(r, c).unwrap());
        }
        rows.push(row);
    }
    rows
}

fn count(board: &Board, wanted: impl Fn(&State) -> bool) -> usize {
    states(board).iter().flatten().filter(|s| wanted(s)).count()
}

#[test]
fn test_fill() {
    let board = Board::new(2, 2);

    let v = vec!["#.", ".#"];
    let b = Block::from_strs(&v).unwrap();
    let b1 = b.rot();
    let ans = try_fill_board(&board, &vec![b, b1]).unwrap();

    let anchors: Vec<Point> = ans.1.iter().map(|(_, p)| *p).collect();
    assert_eq!(anchors, vec![Point::new(0, 0), Point::new(0, 1)]);
}

#[test]
fn fill_covers_the_small_board() {
    let board = Board::new(2, 2);
    let b = block(&["#.", ".#"]);
    let b1 = b.rot();
    let (filled, list) = try_fill_board(&board, &[b, b1]).unwrap();
    assert_eq!(
        states(&filled),
        vec![
            vec![State::Block(0), State::Block(1)],
            vec![State::Block(1), State::Block(0)],
        ]
    );
    assert_eq!(list.len(), 2);
    assert_eq!(list[0].0.cells(), &points(&[(0, 0), (1, 1)]));
    assert_eq!(list[1].0.cells(), &points(&[(0, 1), (1, 0)]));
    assert!(filled.first_empty_cell().is_none());
    // the board that was handed in is untouched
    assert_eq!(board.first_empty_cell(), Some(Point::new(0, 0)));
}

#[test]
fn point_new_add_rotate() {
    let p = Point::new(2, -3);
    assert_eq!((p.row, p.col), (2, -3));
    assert_eq!(p.add(Point::new(5, 4)), Point::new(7, 1));
    assert_eq!(p.rotate(), Point::new(-3, -2));
    assert_eq!(Point::new(1, 0).rotate(), Point::new(0, -1));
    assert_eq!(p.rotate().rotate().rotate().rotate(), p);
}

#[test]
fn point_order_is_row_major() {
    assert!(Point::new(0, 5) < Point::new(1, 0));
    assert!(Point::new(1, 0) < Point::new(1, 1));
    assert!(!(Point::new(1, 1) < Point::new(1, 1)));
    assert!(Point::new(2, 0) > Point::new(1, 9));
    let mut v = points(&[(1, 1), (0, 2), (1, 0), (0, 0)]);
    v.sort();
    assert_eq!(v, points(&[(0, 0), (0, 2), (1, 0), (1, 1)]));
}

#[test]
fn from_strs_reads_filled_cells() {
    let b = block(&["###", "#..", "#.."]);
    assert_eq!(b.cells(), &points(&[(0, 0), (0, 1), (0, 2), (1, 0), (2, 0)]));
}

#[test]
fn from_strs_moves_into_normal_form() {
    let b = block(&["....", "..#.", ".##."]);
    assert_eq!(b.cells(), &points(&[(0, 1), (1, 0), (1, 1)]));
    assert_eq!(b, block(&[".#", "##"]));
}

#[test]
fn from_strs_takes_other_markers_as_blank() {
    let b = block(&["x#", "# "]);
    assert_eq!(b.cells(), &points(&[(0, 1), (1, 0)]));
}

#[test]
fn from_strs_turns_down_an_empty_mask() {
    let rows: Vec<&str> = vec![];
    assert_eq!(Block::from_strs(&rows), Err(ParseError::EmptyMask));
}

#[test]
fn from_strs_turns_down_a_ragged_mask() {
    assert_eq!(Block::from_strs(&["##", "#"]), Err(ParseError::RaggedMask));
    assert_eq!(Block::from_strs(&["", "#"]), Err(ParseError::RaggedMask));
}

#[test]
fn from_strs_turns_down_a_blank_mask() {
    assert_eq!(Block::from_strs(&["..", ".."]), Err(ParseError::BlankMask));
    assert_eq!(Block::from_strs(&["", ""]), Err(ParseError::BlankMask));
}

#[test]
fn rot_turns_a_quarter() {
    let b = block(&["###", "#..", "#.."]);
    // (r, c) goes to (c, 2 - r)
    assert_eq!(b.rot().cells(), &points(&[(0, 0), (0, 1), (0, 2), (1, 2), (2, 2)]));
    let bar = block(&["###"]);
    assert_eq!(bar.rot().cells(), &points(&[(0, 0), (1, 0), (2, 0)]));
}

#[test]
fn rot_does_not_change_the_block_it_is_called_on() {
    let b = block(&["#.", "##", "#.", "#."]);
    let before = b.cells().clone();
    let _ = b.rot();
    assert_eq!(b.cells(), &before);
}

#[test]
fn rot_four_times_is_the_same_block() {
    for b in catalog() {
        let back = b.rot().rot().rot().rot();
        assert_eq!(back, b);
    }
    let s = block(&["#.", ".#"]);
    assert_eq!(s.rot().rot().rot().rot(), s);
}

#[test]
fn rot_never_mirrors() {
    let l = block(&["#.", "#.", "##"]);
    let mirrored = block(&[".#", ".#", "##"]);
    let mut turned = block(&["#.", "#.", "##"]);
    for _ in 0..4 {
        turned = turned.rot();
        assert_ne!(turned, mirrored);
    }
    assert_eq!(turned, l);
}

#[test]
fn block_clone_is_a_copy() {
    let b = block(&["#.", "##", ".#", ".#"]);
    let copy = b.clone();
    assert_eq!(copy, b);
    assert_eq!(copy.cells(), &points(&[(0, 0), (1, 0), (1, 1), (2, 1), (3, 1)]));
    assert_eq!(copy.rot(), b.rot());
}

#[test]
fn new_board_is_empty() {
    let board = Board::new(3, 4);
    assert_eq!(board.height(), 3);
    assert_eq!(board.width(), 4);
    assert_eq!(count(&board, |s| *s == State::Empty), 12);
    assert_eq!(board.state(2, 3), Some(State::Empty));
    assert_eq!(board.state(3, 0), None);
    assert_eq!(board.state(0, 4), None);
}

#[test]
fn new_with_walls_marks_the_walls() {
    let walls = vec![('#', Point::new(0, 1)), ('M', Point::new(1, 0))];
    let board = Board::new_with_walls(2, 2, &walls).unwrap();
    assert_eq!(
        states(&board),
        vec![
            vec![State::Empty, State::Wall('#')],
            vec![State::Wall('M'), State::Empty],
        ]
    );
}

#[test]
fn new_with_walls_turns_down_a_wall_outside() {
    let walls = vec![('#', Point::new(0, 0)), ('#', Point::new(2, 0))];
    assert_eq!(Board::new_with_walls(2, 2, &walls), Err(ParseError::WallOutside));
    let walls = vec![('#', Point::new(0, -1))];
    assert_eq!(Board::new_with_walls(2, 2, &walls), Err(ParseError::WallOutside));
    // a wall outside counts before two walls on one cell
    let walls = vec![('#', Point::new(0, 0)), ('#', Point::new(0, 0)), ('#', Point::new(0, 2))];
    assert_eq!(Board::new_with_walls(2, 2, &walls), Err(ParseError::WallOutside));
}

#[test]
fn new_with_walls_turns_down_two_walls_on_one_cell() {
    let walls = vec![('#', Point::new(1, 1)), ('M', Point::new(1, 1))];
    assert_eq!(Board::new_with_walls(2, 2, &walls), Err(ParseError::WallOverlap));
}

#[test]
fn new_with_walls_turns_down_an_oversized_board() {
    let walls: Vec<(char, Point)> = vec![];
    assert_eq!(
        Board::new_with_walls(usize::MAX, 0, &walls),
        Err(ParseError::OversizedBoard)
    );
    assert_eq!(
        Board::new_with_walls(0, 0x8000_0000, &walls),
        Err(ParseError::OversizedBoard)
    );
}

#[test]
fn first_empty_cell_is_the_first_in_row_major_order() {
    let walls = vec![('#', Point::new(0, 0)), ('#', Point::new(0, 1)), ('#', Point::new(1, 0))];
    let board = Board::new_with_walls(3, 2, &walls).unwrap();
    assert_eq!(board.first_empty_cell(), Some(Point::new(1, 1)));
    let board = Board::new(2, 3);
    assert_eq!(board.first_empty_cell(), Some(Point::new(0, 0)));
}

#[test]
fn first_empty_cell_is_none_on_a_full_board() {
    let walls = vec![('#', Point::new(0, 0))];
    let board = Board::new_with_walls(1, 1, &walls).unwrap();
    assert_eq!(board.first_empty_cell(), None);
    assert_eq!(Board::new(0, 0).first_empty_cell(), None);
    assert_eq!(Board::new(0, 3).first_empty_cell(), None);
}

#[test]
fn put_block_lays_the_first_cell_on_the_anchor() {
    // the first cell of this block is (0, 1)
    let b = block(&[".#", "##"]);
    let mut board = Board::new(3, 3);
    assert_eq!(board.put_block(&Point::new(1, 2), 7, &b), Ok(()));
    assert_eq!(
        states(&board),
        vec![
            vec![State::Empty, State::Empty, State::Empty],
            vec![State::Empty, State::Empty, State::Block(7)],
            vec![State::Empty, State::Block(7), State::Block(7)],
        ]
    );
}

#[test]
fn put_block_out_of_bounds_leaves_the_board() {
    let b = block(&[".#", "##"]);
    let mut board = Board::new(3, 3);
    let before = states(&board);
    // the cell below and left of the anchor would lie in column -1
    assert_eq!(board.put_block(&Point::new(0, 0), 0, &b), Err(PlacementError::OutOfBounds));
    assert_eq!(states(&board), before);
    assert_eq!(board.put_block(&Point::new(2, 2), 0, &b), Err(PlacementError::OutOfBounds));
    assert_eq!(board.put_block(&Point::new(-1, 1), 0, &b), Err(PlacementError::OutOfBounds));
    assert_eq!(
        board.put_block(&Point::new(i32::MAX, i32::MAX), 0, &b),
        Err(PlacementError::OutOfBounds)
    );
    assert_eq!(
        board.put_block(&Point::new(i32::MIN, i32::MIN), 0, &b),
        Err(PlacementError::OutOfBounds)
    );
    assert_eq!(states(&board), before);
}

#[test]
fn put_block_collision_leaves_the_board() {
    let b = block(&["##", "##"]);
    let walls = vec![('#', Point::new(1, 1))];
    let mut board = Board::new_with_walls(2, 2, &walls).unwrap();
    let before = states(&board);
    assert_eq!(board.put_block(&Point::new(0, 0), 0, &b), Err(PlacementError::Collision));
    assert_eq!(states(&board), before);

    let domino = block(&["##"]);
    let mut board = Board::new(2, 2);
    assert_eq!(board.put_block(&Point::new(0, 0), 0, &domino), Ok(()));
    let before = states(&board);
    assert_eq!(board.put_block(&Point::new(0, 1), 1, &domino), Err(PlacementError::OutOfBounds));
    assert_eq!(
        board.put_block(&Point::new(0, 0), 1, &domino.rot()),
        Err(PlacementError::Collision)
    );
    assert_eq!(states(&board), before);
}

#[test]
fn put_then_remove_restores_the_board() {
    let walls = vec![('#', Point::new(0, 2)), ('D', Point::new(2, 0))];
    let mut board = Board::new_with_walls(3, 3, &walls).unwrap();
    let first = block(&["##"]);
    assert_eq!(board.put_block(&Point::new(0, 0), 0, &first), Ok(()));
    let before = states(&board);
    let b = block(&[".#", "##"]);
    assert_eq!(board.put_block(&Point::new(1, 2), 1, &b), Ok(()));
    assert_ne!(states(&board), before);
    assert_eq!(board.remove_block(&Point::new(1, 2), &b), Ok(()));
    assert_eq!(states(&board), before);
}

#[test]
fn remove_block_turns_down_what_is_not_there() {
    let b = block(&["##"]);
    let mut board = Board::new(2, 2);
    let before = states(&board);
    assert_eq!(board.remove_block(&Point::new(0, 0), &b), Err(PlacementError::Collision));
    assert_eq!(board.remove_block(&Point::new(0, 1), &b), Err(PlacementError::OutOfBounds));
    assert_eq!(states(&board), before);

    assert_eq!(board.put_block(&Point::new(0, 0), 0, &b.rot()), Ok(()));
    assert_eq!(board.put_block(&Point::new(0, 1), 1, &b.rot()), Ok(()));
    let before = states(&board);
    // the two cells of the top row belong to two blocks
    assert_eq!(board.remove_block(&Point::new(0, 0), &b), Err(PlacementError::Collision));
    assert_eq!(states(&board), before);
    assert_eq!(board.remove_block(&Point::new(0, 1), &b.rot()), Ok(()));
    assert_eq!(
        states(&board),
        vec![
            vec![State::Block(0), State::Empty],
            vec![State::Block(0), State::Empty],
        ]
    );
}

#[test]
fn remove_block_leaves_walls() {
    let b = block(&["#"]);
    let walls = vec![('#', Point::new(0, 0))];
    let mut board = Board::new_with_walls(1, 1, &walls).unwrap();
    assert_eq!(board.remove_block(&Point::new(0, 0), &b), Err(PlacementError::Collision));
    assert_eq!(board.state(0, 0), Some(State::Wall('#')));
}

#[test]
fn blocks_with_different_numbers_share_no_cell() {
    let mut board = Board::new(2, 3);
    let l = block(&["##", "#."]);
    assert_eq!(board.put_block(&Point::new(0, 0), 0, &l), Ok(()));
    let l2 = l.rot().rot();
    assert_eq!(board.put_block(&Point::new(0, 2), 1, &l2), Ok(()));
    assert_eq!(count(&board, |s| *s == State::Block(0)), 3);
    assert_eq!(count(&board, |s| *s == State::Block(1)), 3);
    assert_eq!(
        states(&board),
        vec![
            vec![State::Block(0), State::Block(0), State::Block(1)],
            vec![State::Block(0), State::Block(1), State::Block(1)],
        ]
    );
}

#[test]
fn board_clone_is_a_copy() {
    let mut board = Board::new(2, 2);
    let copy = board.clone();
    assert_eq!(board.put_block(&Point::new(0, 0), 0, &block(&["#"])), Ok(()));
    assert_eq!(copy.state(0, 0), Some(State::Empty));
    assert_eq!(board.state(0, 0), Some(State::Block(0)));
    assert_eq!(copy, Board::new(2, 2));
}

#[test]
fn search_fails_when_the_blocks_are_one_cell_short() {
    let board = Board::new(2, 2);
    let l = block(&["##", "#."]);
    assert_eq!(try_fill_board(&board, &[l]), Err(SearchError::SolutionNotFound));
}

#[test]
fn search_fails_when_the_blocks_do_not_fit() {
    let board = Board::new(1, 1);
    let domino = block(&["##"]);
    assert_eq!(try_fill_board(&board, &[domino]), Err(SearchError::SolutionNotFound));

    // two bars of three cannot cover a 2×3 board with a wall in its middle column
    let walls = vec![('#', Point::new(0, 1))];
    let board = Board::new_with_walls(2, 3, &walls).unwrap();
    let blocks = vec![block(&["###"]), block(&["##"])];
    assert_eq!(try_fill_board(&board, &blocks), Err(SearchError::SolutionNotFound));
}

#[test]
fn search_fails_when_blocks_are_left_over() {
    let board = Board::new(1, 2);
    let blocks = vec![block(&["##"]), block(&["#"])];
    assert_eq!(try_fill_board(&board, &blocks), Err(SearchError::SolutionNotFound));
}

#[test]
fn search_without_blocks() {
    let walls = vec![('#', Point::new(0, 0))];
    let full = Board::new_with_walls(1, 1, &walls).unwrap();
    let (filled, list) = try_fill_board(&full, &[]).unwrap();
    assert!(list.is_empty());
    assert_eq!(filled, full);
    assert_eq!(try_fill_board(&Board::new(1, 1), &[]), Err(SearchError::SolutionNotFound));
}

#[test]
fn search_tries_blocks_in_ascending_order_and_backtracks() {
    // the bar cannot lie on the first empty cell in a way that lets the
    // corner piece follow, except upright in the left column
    let board = Board::new(2, 3);
    let blocks = vec![block(&["##"]), block(&["##", "##"])];
    let (filled, list) = try_fill_board(&board, &blocks).unwrap();
    assert_eq!(
        states(&filled),
        vec![
            vec![State::Block(0), State::Block(1), State::Block(1)],
            vec![State::Block(0), State::Block(1), State::Block(1)],
        ]
    );
    assert_eq!(list[0].1, Point::new(0, 0));
    assert_eq!(list[0].0.cells(), &points(&[(0, 0), (1, 0)]));
    assert_eq!(list[1].1, Point::new(0, 1));
}

#[test]
fn search_solves_the_calendar() {
    let blocks = catalog();
    assert_eq!(blocks.len(), 8);
    let area: usize = blocks.iter().map(|b| b.cells().len()).sum();
    assert_eq!(area, 41);
    for (month, day) in [(0usize, 1u32), (1, 14), (4, 31), (8, 9)] {
        let board = calendar_board(month, day).unwrap();
        let (filled, list) = try_fill_board(&board, &blocks).unwrap();
        assert_eq!(list.len(), 8);
        assert!(filled.first_empty_cell().is_none());
        assert_eq!(count(&filled, |s| matches!(s, State::Wall(_))), 8);
        let mut covered = 0;
        for id in 0..8 {
            let n = count(&filled, |s| *s == State::Block(id));
            assert_eq!(n, blocks[id].cells().len());
            covered += n;
        }
        assert_eq!(covered, 41);
        // walls stay where they were
        for r in 0..7 {
            for c in 0..7 {
                if let Some(State::Wall(l)) = board.state(r, c) {
                    assert_eq!(filled.state(r, c), Some(State::Wall(l)));
                }
            }
        }
        // every block lies as the list says
        let mut replay = board.clone();
        for (shape, anchor) in &list {
            let id = match filled.state(anchor.row as usize, anchor.col as usize) {
                Some(State::Block(id)) => id,
                other => panic!("anchor on {:?}", other),
            };
            assert_eq!(replay.first_empty_cell(), Some(*anchor));
            assert_eq!(replay.put_block(anchor, id, shape), Ok(()));
        }
        assert_eq!(replay, filled);
    }
}

#[test]
fn month_numbers_and_names() {
    assert_eq!(month_number("Jan"), Some(0));
    assert_eq!(month_number("Jun"), Some(5));
    assert_eq!(month_number("Dec"), Some(11));
    assert_eq!(month_number("jan"), None);
    assert_eq!(month_number("January"), None);
    assert_eq!(month_number(""), None);
    for m in 0..12 {
        assert_eq!(month_number(month_name(m)), Some(m));
    }
    assert_eq!(month_name(8), "Sep");
}

#[test]
fn month_and_day_cells() {
    assert_eq!(month_cell(0), Point::new(0, 0));
    assert_eq!(month_cell(5), Point::new(0, 5));
    assert_eq!(month_cell(6), Point::new(1, 1));
    assert_eq!(month_cell(11), Point::new(1, 6));
    assert_eq!(day_cell(1), Some(Point::new(2, 0)));
    assert_eq!(day_cell(7), Some(Point::new(2, 6)));
    assert_eq!(day_cell(8), Some(Point::new(3, 0)));
    assert_eq!(day_cell(31), Some(Point::new(6, 2)));
    assert_eq!(day_cell(0), None);
    assert_eq!(day_cell(32), None);
}

#[test]
fn calendar_walls_in_order() {
    let walls = calendar_walls(Point::new(0, 2), Point::new(3, 3));
    assert_eq!(
        walls,
        vec![
            ('#', Point::new(0, 6)),
            ('#', Point::new(1, 6)),
            ('#', Point::new(6, 3)),
            ('#', Point::new(6, 4)),
            ('#', Point::new(6, 5)),
            ('#', Point::new(6, 6)),
            ('M', Point::new(0, 2)),
            ('D', Point::new(3, 3)),
        ]
    );
}

#[test]
fn calendar_board_has_eight_walls() {
    let board = calendar_board(2, 10).unwrap();
    assert_eq!((board.height(), board.width()), (7, 7));
    assert_eq!(count(&board, |s| matches!(s, State::Wall(_))), 8);
    assert_eq!(count(&board, |s| *s == State::Empty), 41);
    assert_eq!(board.state(0, 2), Some(State::Wall('M')));
    assert_eq!(board.state(3, 2), Some(State::Wall('D')));
    assert_eq!(board.state(6, 6), Some(State::Wall('#')));
}

#[test]
fn calendar_board_turns_down_bad_dates() {
    assert_eq!(calendar_board(12, 1), Err(ParseError::UnknownMonth));
    assert_eq!(calendar_board(12, 0), Err(ParseError::UnknownMonth));
    assert_eq!(calendar_board(0, 0), Err(ParseError::InvalidDay));
    assert_eq!(calendar_board(0, 32), Err(ParseError::InvalidDay));
    assert_eq!(calendar_board(11, 1), Err(ParseError::WallOverlap));
}

#[test]
fn catalog_holds_the_eight_blocks() {
    let blocks = catalog();
    assert_eq!(blocks[0], block(&["###", "#..", "#.."]));
    assert_eq!(blocks[1], block(&["#.#", "###"]));
    assert_eq!(blocks[2], block(&["##.", ".#.", ".##"]));
    assert_eq!(blocks[3], block(&["#.", "##", "#.", "#."]));
    assert_eq!(blocks[4], block(&["#.", "##", ".#", ".#"]));
    assert_eq!(blocks[5], block(&["##", ".#", ".#", ".#"]));
    assert_eq!(blocks[6], block(&["##.", "###"]));
    assert_eq!(blocks[7], block(&["###", "###"]));
    assert_eq!(blocks[7].cells().len(), 6);
}

#[test]
fn errors_in_words() {
    assert_eq!(SearchError::SolutionNotFound.describe(), "solution not found");
    assert_eq!(ParseError::UnknownMonth.describe(), "unexpected month name");
    assert_eq!(PlacementError::OutOfBounds.describe(), "the block does not lie on the board");
    let all = [
        ParseError::EmptyMask,
        ParseError::RaggedMask,
        ParseError::OversizedMask,
        ParseError::BlankMask,
        ParseError::OversizedBoard,
        ParseError::WallOutside,
        ParseError::WallOverlap,
        ParseError::UnknownMonth,
        ParseError::InvalidDay,
    ];
    for (i, a) in all.iter().enumerate() {
        for b in &all[i + 1..] {
            assert_ne!(a.describe(), b.describe());
        }
    }
    assert_ne!(PlacementError::Collision.describe(), PlacementError::OutOfBounds.describe());
}
