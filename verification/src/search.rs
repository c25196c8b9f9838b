//! The depth-first search for a tiling.
//!
//! The search lays the blocks of a pool on the board one after the other.
//! Each block is laid with its first cell on the first empty cell of the
//! board; the blocks of the pool are tried in the order of their numbers and
//! each in its four rotations; a block that leads nowhere is lifted again.

use crate::block::Block;
use crate::board::{
    all_empty, first_empty, is_full, lemma_first_empty_is, lemma_put_then_remove, with_cells,
    Board, Grid, State,
};
use crate::error::SearchError;
use crate::point::{Cell, Point};
use crate::shape::{is_shape, placed, rotated_n};
use crate::tiling::{can_tile, lays, lemma_search_iff_can_tile, lemma_search_lays};
use std::collections::BTreeSet;
use vstd::prelude::*;

verus! {

broadcast use vstd::std_specs::btree::group_btree_axioms;

/// A shape and the cell on which its first cell lies.
pub type Placement = (Set<Cell>, Cell);

/// The shapes of a list of blocks.
pub open spec fn shapes_of(blocks: Seq<Block>) -> Seq<Set<Cell>> {
    blocks.map_values(|b: Block| b@)
}

/// The placements of a list of blocks with their anchors.
pub open spec fn placements_of(list: Seq<(Block, Point)>) -> Seq<Placement> {
    list.map_values(|e: (Block, Point)| (e.0@, e.1@))
}

/// The pool of all blocks: the numbers below `n`.
pub open spec fn numbers(n: nat) -> Set<usize> {
    Set::new(|id: usize| id < n)
}

/// The shape can be laid on the grid with its first cell on `anchor`: each
/// of its cells comes to lie on an empty cell.
pub open spec fn can_lay(g: Grid, shape: Set<Cell>, anchor: Cell) -> bool {
    all_empty(g, placed(shape, anchor))
}

/// The grid after the shape was laid on it with its first cell on `anchor`,
/// under the number `id`.
pub open spec fn laid(g: Grid, shape: Set<Cell>, anchor: Cell, id: usize) -> Grid {
    with_cells(g, placed(shape, anchor), State::Block(id))
}

/// What the search finds on the grid `g` with the blocks of the finite set
/// `pool`: the placements in the order in which they were made, and the grid
/// with all of them on it; `None` if the search comes to an end without
/// having laid every block.
///
/// With no block left the search is done. With no empty cell left, but a
/// block, it has failed. Otherwise the candidates for the first empty cell
/// are tried in their order.
pub open spec fn search(blocks: Seq<Set<Cell>>, pool: Set<usize>, g: Grid) -> Option<
    (Seq<Placement>, Grid),
>
    decreases pool.len(), 4 * blocks.len() + 1,
    when pool.finite()
{
    if pool.is_empty() {
        Some((Seq::empty(), g))
    } else if is_full(g) {
        None
    } else {
        search_from(blocks, pool, g, first_empty(g), 0)
    }
}

/// What the search finds when it lays a block on the cell `p`, from the
/// candidate with the number `n` on. The candidates are numbered in the
/// order in which they are tried: the candidate `4 * id + t - 1` is the
/// block with the number `id` after `t` quarter turns, for `t` from 1 to 4.
/// The first candidate whose block is in the pool, that can be laid, and
/// from which the search with the rest of the pool finds something decides.
pub open spec fn search_from(
    blocks: Seq<Set<Cell>>,
    pool: Set<usize>,
    g: Grid,
    p: Cell,
    n: nat,
) -> Option<(Seq<Placement>, Grid)>
    decreases pool.len(), 4 * blocks.len() - n,
    when pool.finite()
{
    if n >= 4 * blocks.len() {
        None
    } else {
        let id = (n / 4) as usize;
        let shape = rotated_n(blocks[id as int], (n % 4 + 1) as nat);
        if pool.contains(id) && can_lay(g, shape, p) {
            match search(blocks, pool.remove(id), laid(g, shape, p, id)) {
                Some(found) => Some((seq![(shape, p)] + found.0, found.1)),
                None => search_from(blocks, pool, g, p, n + 1),
            }
        } else {
            search_from(blocks, pool, g, p, n + 1)
        }
    }
}

/// The search passes over a block that is not in the pool.
proof fn lemma_skip(blocks: Seq<Set<Cell>>, pool: Set<usize>, g: Grid, p: Cell, id: usize)
    requires
        pool.finite(),
        !pool.contains(id),
        id < blocks.len(),
    ensures
        search_from(blocks, pool, g, p, (4 * id) as nat) == search_from(
            blocks,
            pool,
            g,
            p,
            (4 * id + 4) as nat,
        ),
{
    let n = (4 * id) as nat;
    assert(search_from(blocks, pool, g, p, n) == search_from(blocks, pool, g, p, n + 1)) by {
        assert((n / 4) as usize == id);
    }
    assert(search_from(blocks, pool, g, p, n + 1) == search_from(blocks, pool, g, p, n + 2)) by {
        assert(((n + 1) / 4) as usize == id);
    }
    assert(search_from(blocks, pool, g, p, n + 2) == search_from(blocks, pool, g, p, n + 3)) by {
        assert(((n + 2) / 4) as usize == id);
    }
    assert(search_from(blocks, pool, g, p, n + 3) == search_from(blocks, pool, g, p, n + 4)) by {
        assert(((n + 3) / 4) as usize == id);
    }
}

/// Lays the blocks of the pool on the board, depth first.
///
/// On success the pool is empty, the board holds every block, and the
/// result lists the blocks as they were laid, each turned as it lies, with
/// the cell on which its first cell lies. On failure the board and the pool
/// are as they were.
fn dfs(blocks: &[Block], available_blocks: &mut BTreeSet<usize>, board: &mut Board) -> (res:
    Result<Vec<(Block, Point)>, SearchError>)
    requires
        old(available_blocks)@.finite(),
    ensures
        final(board).spec_height() == old(board).spec_height(),
        final(board).spec_width() == old(board).spec_width(),
        match res {
            Ok(list) => {
                &&& search(shapes_of(blocks@), old(available_blocks)@, old(board)@) == Some(
                    (placements_of(list@), final(board)@),
                )
                &&& final(available_blocks)@.is_empty()
            },
            Err(_) => {
                &&& search(shapes_of(blocks@), old(available_blocks)@, old(board)@) is None
                &&& final(board)@ == old(board)@
                &&& final(available_blocks)@ == old(available_blocks)@
            },
        },
    decreases old(available_blocks)@.len(),
{
    let ghost shapes = shapes_of(blocks@);
    let ghost g = board@;
    let ghost pool = available_blocks@;
    if available_blocks.is_empty() {
        let list: Vec<(Block, Point)> = Vec::new();
        proof {
            assert(placements_of(list@) =~= Seq::empty());
        }
        return Ok(list);
    }
    let p = match board.first_empty_cell() {
        Some(p) => p,
        None => {
            return Err(SearchError::SolutionNotFound);
        },
    };
    proof {
        lemma_first_empty_is(g, p@);
    }
    let count = blocks.len();
    let mut i: usize = 0;
    while i < count
        invariant
            count == blocks@.len(),
            i <= count,
            pool == old(available_blocks)@,
            pool.finite(),
            available_blocks@ == pool,
            board@ == g,
            g == old(board)@,
            board.spec_height() == old(board).spec_height(),
            board.spec_width() == old(board).spec_width(),
            shapes == shapes_of(blocks@),
            search(shapes, pool, g) == search_from(shapes, pool, g, p@, (4 * i) as nat),
        decreases count - i,
    {
        if !available_blocks.contains(&i) {
            proof {
                lemma_skip(shapes, pool, g, p@, i);
            }
            i += 1;
            continue;
        }
        available_blocks.remove(&i);
        let mut block = blocks[i].rot();
        let mut t: usize = 1;
        proof {
            reveal_with_fuel(rotated_n, 2);
            assert(shapes[i as int] == blocks@[i as int]@);
        }
        loop
            invariant_except_break
                1 <= t <= 4,
                search(shapes, pool, g) == search_from(shapes, pool, g, p@, (4 * i + t - 1) as nat),
                block@ == rotated_n(shapes[i as int], t as nat),
            invariant
                count == blocks@.len(),
                i < count,
                pool == old(available_blocks)@,
                pool.finite(),
                pool.contains(i),
                available_blocks@ == pool.remove(i),
                board@ == g,
                g == old(board)@,
                board.spec_height() == old(board).spec_height(),
                board.spec_width() == old(board).spec_width(),
                shapes == shapes_of(blocks@),
            ensures
                search(shapes, pool, g) == search_from(shapes, pool, g, p@, (4 * i + 4) as nat),
            decreases 4 - t,
        {
            let ghost n = (4 * i + t - 1) as nat;
            let ghost shape = block@;
            proof {
                assert((n / 4) as usize == i);
                assert((n % 4 + 1) as nat == t as nat);
            }
            match board.put_block(&p, i, &block) {
                Ok(()) => {
                    proof {
                        assert(can_lay(g, shape, p@));
                        assert(board@ == laid(g, shape, p@, i));
                    }
                    match dfs(blocks, available_blocks, board) {
                        Ok(mut ans) => {
                            let ghost found = placements_of(ans@);
                            ans.insert(0, (block, p));
                            proof {
                                assert(placements_of(ans@) =~= seq![(shape, p@)] + found);
                            }
                            return Ok(ans);
                        },
                        Err(_) => {
                            let undone = board.remove_block(&p, &block);
                            proof {
                                lemma_put_then_remove(g, placed(shape, p@), i);
                                assert(undone is Ok);
                            }
                        },
                    }
                },
                Err(_) => {
                    proof {
                        assert(!can_lay(g, shape, p@));
                    }
                },
            }
            if t == 4 {
                break ;
            }
            block = block.rot();
            t += 1;
        }
        available_blocks.insert(i);
        proof {
            assert(available_blocks@ =~= pool);
        }
        i += 1;
    }
    Err(SearchError::SolutionNotFound)
}

/// Searches for a way to lay every block on the board so that no cell is
/// left empty, and returns the board with the blocks on it and the blocks as
/// they were laid: each turned as it lies, with the cell on which its first
/// cell lies, in the order of those cells.
///
/// The board that is handed in stays as it is. The blocks are numbered by
/// their places in `blocks`, and these numbers mark their cells on the board
/// that is returned. The search succeeds exactly where the blocks can tile
/// the board: it fails when it finds no way to lay every block, and when the
/// way that it finds leaves a cell empty.
pub fn try_fill_board(board: &Board, blocks: &[Block]) -> (res: Result<
    (Board, Vec<(Block, Point)>),
    SearchError,
>)
    ensures
        res is Ok <==> can_tile(shapes_of(blocks@), board@),
        match res {
            Ok((filled, list)) => {
                &&& search(shapes_of(blocks@), numbers(blocks@.len()), board@) == Some(
                    (placements_of(list@), filled@),
                )
                &&& lays(
                    shapes_of(blocks@),
                    numbers(blocks@.len()),
                    board@,
                    placements_of(list@),
                    filled@,
                )
                &&& is_full(filled@)
                &&& filled.spec_height() == board.spec_height()
                &&& filled.spec_width() == board.spec_width()
            },
            Err(_) => match search(shapes_of(blocks@), numbers(blocks@.len()), board@) {
                Some(found) => !is_full(found.1),
                None => true,
            },
        },
{
    let mut mut_board = board.clone();
    let n = blocks.len();
    let ghost shapes = shapes_of(blocks@);
    let mut available_blocks: BTreeSet<usize> = BTreeSet::new();
    proof {
        assert(available_blocks@ =~= numbers(0));
    }
    let mut i: usize = 0;
    while i < n
        invariant
            n == blocks@.len(),
            i <= n,
            available_blocks@ == numbers(i as nat),
            available_blocks@.finite(),
            shapes == shapes_of(blocks@),
            forall|k: int| 0 <= k < i ==> is_shape(#[trigger] shapes[k]),
        decreases n - i,
    {
        let block = &blocks[i];
        proof {
            use_type_invariant(block);
            block.lemma_shape();
        }
        available_blocks.insert(i);
        proof {
            assert(available_blocks@ =~= numbers((i + 1) as nat));
        }
        i += 1;
    }
    proof {
        use_type_invariant(board);
        board.lemma_grid();
        lemma_search_iff_can_tile(shapes, board@, board.spec_height(), board.spec_width());
    }
    match dfs(blocks, &mut available_blocks, &mut mut_board) {
        Ok(list) => {
            proof {
                lemma_search_lays(
                    shapes,
                    numbers(n as nat),
                    board@,
                    placements_of(list@),
                    mut_board@,
                );
            }
            match mut_board.first_empty_cell() {
                None => Ok((mut_board, list)),
                Some(p) => {
                    proof {
                        lemma_first_empty_is(mut_board@, p@);
                    }
                    Err(SearchError::SolutionNotFound)
                },
            }
        },
        Err(e) => Err(e),
    }
}

} // verus!
