//! What the search finds, and when it finds something.
//!
//! Nothing here is executable. [`lays`] says what a list of placements is
//! worth, [`tiles`] says what it is for blocks to cover a board, and the
//! lemmas relate the two to the search of [`crate::search`].

use crate::board::{
    all_empty, empties, empty_at, first_empty, in_grid, is_first_empty, is_full, is_grid,
    lemma_empties_finite, lemma_first_empty_exists, lemma_laid_empties, lemma_with_cells,
    state_at, with_cells, Grid, State,
};
use crate::point::{cell_le, Cell};
use crate::search::{can_lay, laid, numbers, search, search_from, Placement};
use crate::shape::{
    first_cell, is_shape, lemma_placed_finite, lemma_rotated_four, lemma_rotated_n_finite,
    lemma_rotated_n_shape, lemma_shape_bounded, placed, rotated_n,
};
use vstd::prelude::*;

verus! {

/// The placement `(shape, anchor)` is a step from the grid `g` with the
/// block with the number `id` after `t` quarter turns: the block is in the
/// pool, the shape is the turned block, the anchor is the first empty cell,
/// and the shape comes to lie on empty cells.
pub open spec fn is_step(
    blocks: Seq<Set<Cell>>,
    pool: Set<usize>,
    g: Grid,
    step: Placement,
    id: usize,
    t: nat,
) -> bool {
    &&& pool.contains(id)
    &&& id < blocks.len()
    &&& 1 <= t <= 4
    &&& step.0 == rotated_n(blocks[id as int], t)
    &&& is_first_empty(g, step.1)
    &&& can_lay(g, step.0, step.1)
}

/// The list of placements lays every block of the pool on the grid `g`, one
/// after the other, and `fin` is the grid with all of them on it: each
/// placement takes a block that is still in the pool, turned one to four
/// times, and lays it with its first cell on the first empty cell, on empty
/// cells, under the number of the block.
pub open spec fn lays(
    blocks: Seq<Set<Cell>>,
    pool: Set<usize>,
    g: Grid,
    list: Seq<Placement>,
    fin: Grid,
) -> bool
    decreases list.len(),
{
    if list.len() == 0 {
        pool.is_empty() && fin == g
    } else {
        exists|id: usize, t: nat|
            #[trigger] is_step(blocks, pool, g, list[0], id, t) && lays(
                blocks,
                pool.remove(id),
                laid(g, list[0].0, list[0].1, id),
                list.drop_first(),
                fin,
            )
    }
}

/// What the search finds lays every block of the pool.
pub proof fn lemma_search_lays(
    blocks: Seq<Set<Cell>>,
    pool: Set<usize>,
    g: Grid,
    list: Seq<Placement>,
    fin: Grid,
)
    requires
        pool.finite(),
        search(blocks, pool, g) == Some((list, fin)),
    ensures
        lays(blocks, pool, g, list, fin),
    decreases pool.len(), 4 * blocks.len() + 1,
{
    if !pool.is_empty() {
        lemma_first_empty_exists(g);
        lemma_search_from_lays(blocks, pool, g, 0, list, fin);
    }
}

/// What the search finds from the candidate `n` on lays every block of the
/// pool.
proof fn lemma_search_from_lays(
    blocks: Seq<Set<Cell>>,
    pool: Set<usize>,
    g: Grid,
    n: nat,
    list: Seq<Placement>,
    fin: Grid,
)
    requires
        pool.finite(),
        is_first_empty(g, first_empty(g)),
        search_from(blocks, pool, g, first_empty(g), n) == Some((list, fin)),
    ensures
        lays(blocks, pool, g, list, fin),
    decreases pool.len(), 4 * blocks.len() - n,
{
    let p = first_empty(g);
    let id = (n / 4) as usize;
    let t = (n % 4 + 1) as nat;
    let shape = rotated_n(blocks[id as int], t);
    let next = laid(g, shape, p, id);
    if pool.contains(id) && can_lay(g, shape, p) && search(blocks, pool.remove(id), next) is Some {
        let found = search(blocks, pool.remove(id), next)->0;
        lemma_search_lays(blocks, pool.remove(id), next, found.0, found.1);
        assert(list.drop_first() =~= found.0);
        assert(is_step(blocks, pool, g, list[0], id, t));
    } else {
        lemma_search_from_lays(blocks, pool, g, n + 1, list, fin);
    }
}

/// How the blocks lie: for the block with the number `id`, the entry with
/// that number holds the number of its quarter turns and the cell on which
/// its first cell lies.
pub type Arrangement = Seq<(nat, Cell)>;

/// The cells that the block with the number `id` covers in the arrangement.
pub open spec fn footprint(blocks: Seq<Set<Cell>>, arr: Arrangement, id: usize) -> Set<Cell> {
    placed(rotated_n(blocks[id as int], arr[id as int].0), arr[id as int].1)
}

/// The block with the number `id` is in the pool and covers the cell `c`.
pub open spec fn covers(
    blocks: Seq<Set<Cell>>,
    pool: Set<usize>,
    arr: Arrangement,
    id: usize,
    c: Cell,
) -> bool {
    pool.contains(id) && footprint(blocks, arr, id).contains(c)
}

/// The arrangement tiles the grid with the blocks of the pool: each block
/// of the pool is turned at most three times and lies on empty cells, no
/// two of them share a cell, and no empty cell is left.
pub open spec fn tiles(blocks: Seq<Set<Cell>>, pool: Set<usize>, g: Grid, arr: Arrangement) -> bool {
    &&& forall|id: usize| #[trigger]
        pool.contains(id) ==> arr[id as int].0 < 4 && all_empty(g, footprint(blocks, arr, id))
    &&& forall|i: usize, j: usize, c: Cell|
        i != j && #[trigger] covers(blocks, pool, arr, i, c) ==> !#[trigger] covers(
            blocks,
            pool,
            arr,
            j,
            c,
        )
    &&& forall|c: Cell| #[trigger]
        empty_at(g, c) ==> exists|id: usize| #[trigger] covers(blocks, pool, arr, id, c)
}

/// The pool is finite, and each of its numbers is the number of a block
/// that is a shape in normal form.
pub open spec fn pool_of_shapes(blocks: Seq<Set<Cell>>, pool: Set<usize>) -> bool {
    &&& pool.finite()
    &&& forall|id: usize| #[trigger]
        pool.contains(id) ==> id < blocks.len() && is_shape(blocks[id as int])
}

/// A shape that is laid down covers its anchor, and covers no cell before
/// its anchor.
pub proof fn lemma_placed_anchor(s: Set<Cell>, a: Cell)
    requires
        is_shape(s),
    ensures
        placed(s, a).contains(a),
        forall|c: Cell| #[trigger] placed(s, a).contains(c) ==> cell_le(a, c),
{
    lemma_shape_bounded(s);
    let f = first_cell(s);
    assert(s.contains(f));
    assert forall|c: Cell| #[trigger] placed(s, a).contains(c) implies cell_le(a, c) by {
        let d = (c.0 - (a.0 - f.0), c.1 - (a.1 - f.1));
        assert(s.contains(d));
        assert(cell_le(f, d));
    }
}

/// When one block of a tiling is laid, the others tile what is left.
pub proof fn lemma_tiles_rest(
    blocks: Seq<Set<Cell>>,
    pool: Set<usize>,
    g: Grid,
    arr: Arrangement,
    id: usize,
)
    requires
        tiles(blocks, pool, g, arr),
        pool.contains(id),
    ensures
        tiles(
            blocks,
            pool.remove(id),
            with_cells(g, footprint(blocks, arr, id), State::Block(id)),
            arr,
        ),
{
    let rest = pool.remove(id);
    let mine = footprint(blocks, arr, id);
    let next = with_cells(g, mine, State::Block(id));
    lemma_with_cells(g, mine, State::Block(id), 0, 0);
    assert forall|k: usize| #[trigger] rest.contains(k) implies arr[k as int].0 < 4 && all_empty(
        next,
        footprint(blocks, arr, k),
    ) by {
        assert(pool.contains(k));
        let theirs = footprint(blocks, arr, k);
        assert forall|c: Cell| #[trigger] theirs.contains(c) implies empty_at(next, c) by {
            assert(covers(blocks, pool, arr, k, c));
            assert(!covers(blocks, pool, arr, id, c));
            assert(empty_at(g, c));
            assert(state_at(next, c) == state_at(g, c));
        }
    }
    assert forall|a: usize, b: usize, c: Cell|
        a != b && #[trigger] covers(blocks, rest, arr, a, c) implies !#[trigger] covers(
        blocks,
        rest,
        arr,
        b,
        c,
    ) by {
        assert(covers(blocks, pool, arr, a, c));
        if covers(blocks, rest, arr, b, c) {
            assert(covers(blocks, pool, arr, b, c));
        }
    }
    assert forall|c: Cell| #[trigger] empty_at(next, c) implies exists|k: usize| #[trigger]
        covers(blocks, rest, arr, k, c) by {
        assert(in_grid(g, c));
        assert(state_at(next, c) == if mine.contains(c) {
            State::Block(id)
        } else {
            state_at(g, c)
        });
        assert(empty_at(g, c) && !mine.contains(c));
        let k = choose|k: usize| #[trigger] covers(blocks, pool, arr, k, c);
        assert(k != id);
        assert(covers(blocks, rest, arr, k, c));
    }
}

/// If a candidate further on finds something, the search from an earlier
/// candidate on finds something.
proof fn lemma_scan(
    blocks: Seq<Set<Cell>>,
    pool: Set<usize>,
    g: Grid,
    p: Cell,
    n: nat,
    goal: nat,
)
    requires
        pool.finite(),
        n <= goal < 4 * blocks.len(),
        search_from(blocks, pool, g, p, goal) is Some,
    ensures
        search_from(blocks, pool, g, p, n) is Some,
    decreases goal - n,
{
    if n < goal {
        lemma_scan(blocks, pool, g, p, n + 1, goal);
    }
}

/// A pool of shapes stays one when a block leaves it.
proof fn lemma_pool_rest(blocks: Seq<Set<Cell>>, pool: Set<usize>, id: usize)
    requires
        pool_of_shapes(blocks, pool),
    ensures
        pool_of_shapes(blocks, pool.remove(id)),
        pool.contains(id) ==> pool.remove(id).len() < pool.len(),
{
    let rest = pool.remove(id);
    assert forall|k: usize| #[trigger] rest.contains(k) implies k < blocks.len() && is_shape(
        blocks[k as int],
    ) by {
        assert(pool.contains(k));
    }
}

/// Where the blocks of the pool can tile the grid, the search lays every
/// block of the pool.
pub proof fn lemma_tiles_found(
    blocks: Seq<Set<Cell>>,
    pool: Set<usize>,
    g: Grid,
    arr: Arrangement,
)
    requires
        pool_of_shapes(blocks, pool),
        tiles(blocks, pool, g, arr),
    ensures
        search(blocks, pool, g) is Some,
    decreases pool.len(),
{
    if !pool.is_empty() {
        assert(!is_full(g)) by {
            let id = pool.choose();
            assert(pool.contains(id));
            lemma_rotated_n_shape(blocks[id as int], arr[id as int].0);
            lemma_placed_anchor(rotated_n(blocks[id as int], arr[id as int].0), arr[id as int].1);
            assert(footprint(blocks, arr, id).contains(arr[id as int].1));
            assert(empty_at(g, arr[id as int].1));
        }
        lemma_first_empty_exists(g);
        let p = first_empty(g);
        let id = choose|id: usize| #[trigger] covers(blocks, pool, arr, id, p);
        assert(pool.contains(id));
        let turns = arr[id as int].0;
        let a = arr[id as int].1;
        let shape = rotated_n(blocks[id as int], turns);
        lemma_rotated_n_shape(blocks[id as int], turns);
        lemma_placed_anchor(shape, a);
        assert(a == p) by {
            assert(footprint(blocks, arr, id).contains(a));
            assert(empty_at(g, a));
            assert(cell_le(p, a));
            assert(cell_le(a, p));
        }
        let t: nat = if turns == 0 {
            4
        } else {
            turns
        };
        assert(rotated_n(blocks[id as int], t) == shape) by {
            lemma_rotated_four(blocks[id as int]);
        }
        let goal = (4 * id + t - 1) as nat;
        assert((goal / 4) as usize == id && (goal % 4 + 1) as nat == t);
        let rest = pool.remove(id);
        let next = laid(g, shape, p, id);
        lemma_tiles_rest(blocks, pool, g, arr, id);
        lemma_pool_rest(blocks, pool, id);
        lemma_tiles_found(blocks, rest, next, arr);
        assert(can_lay(g, shape, p));
        assert(search_from(blocks, pool, g, p, goal) is Some);
        lemma_scan(blocks, pool, g, p, 0, goal);
    }
}

/// The number of cells of those blocks of the pool whose numbers are below
/// `n`, all together.
pub open spec fn area_below(blocks: Seq<Set<Cell>>, pool: Set<usize>, n: nat) -> nat
    decreases n,
{
    if n == 0 {
        0
    } else {
        area_below(blocks, pool, (n - 1) as nat) + if pool.contains((n - 1) as usize) {
            blocks[n - 1].len()
        } else {
            0
        }
    }
}

/// The number of cells of the blocks of the pool, all together.
pub open spec fn area(blocks: Seq<Set<Cell>>, pool: Set<usize>) -> nat {
    area_below(blocks, pool, blocks.len())
}

/// A pool without one of its blocks has the cells of that block less.
proof fn lemma_area_below_remove(blocks: Seq<Set<Cell>>, pool: Set<usize>, id: usize, n: nat)
    requires
        pool.contains(id),
        n <= usize::MAX + 1,
    ensures
        area_below(blocks, pool, n) == area_below(blocks, pool.remove(id), n) + if id < n {
            blocks[id as int].len()
        } else {
            0
        },
    decreases n,
{
    if n > 0 {
        lemma_area_below_remove(blocks, pool, id, (n - 1) as nat);
    }
}

/// A pool without one of its blocks has the cells of that block less.
pub proof fn lemma_area_remove(blocks: Seq<Set<Cell>>, pool: Set<usize>, id: usize)
    requires
        pool.contains(id),
        id < blocks.len() <= usize::MAX + 1,
    ensures
        area(blocks, pool) == area(blocks, pool.remove(id)) + blocks[id as int].len(),
{
    lemma_area_below_remove(blocks, pool, id, blocks.len());
}

/// A pool without blocks has no cells.
proof fn lemma_area_none(blocks: Seq<Set<Cell>>, pool: Set<usize>, n: nat)
    requires
        pool.is_empty(),
    ensures
        area_below(blocks, pool, n) == 0,
    decreases n,
{
    if n > 0 {
        lemma_area_none(blocks, pool, (n - 1) as nat);
    }
}

/// Blocks that were laid one after the other cover as many cells as they
/// have, all together: so many empty cells less are left.
pub proof fn lemma_lays_area(
    blocks: Seq<Set<Cell>>,
    pool: Set<usize>,
    g: Grid,
    list: Seq<Placement>,
    fin: Grid,
)
    requires
        pool_of_shapes(blocks, pool),
        blocks.len() <= usize::MAX + 1,
        lays(blocks, pool, g, list, fin),
        empties(g).finite(),
    ensures
        empties(fin).finite(),
        empties(fin).len() + area(blocks, pool) == empties(g).len(),
    decreases list.len(),
{
    if list.len() == 0 {
        lemma_area_none(blocks, pool, blocks.len());
    } else {
        let (id, t) = choose|id: usize, t: nat|
            #[trigger] is_step(blocks, pool, g, list[0], id, t) && lays(
                blocks,
                pool.remove(id),
                laid(g, list[0].0, list[0].1, id),
                list.drop_first(),
                fin,
            );
        let next = laid(g, list[0].0, list[0].1, id);
        lemma_pool_rest(blocks, pool, id);
        lemma_laid_empties(g, placed(list[0].0, list[0].1), id);
        lemma_lays_area(blocks, pool.remove(id), next, list.drop_first(), fin);
        lemma_area_remove(blocks, pool, id);
        lemma_rotated_n_finite(blocks[id as int], t);
        lemma_placed_finite(list[0].0, list[0].1);
    }
}

/// Blocks that tile a grid have as many cells, all together, as the grid has
/// empty cells.
pub proof fn lemma_tiles_area(
    blocks: Seq<Set<Cell>>,
    pool: Set<usize>,
    g: Grid,
    arr: Arrangement,
)
    requires
        pool_of_shapes(blocks, pool),
        blocks.len() <= usize::MAX + 1,
        tiles(blocks, pool, g, arr),
        empties(g).finite(),
    ensures
        empties(g).len() == area(blocks, pool),
    decreases pool.len(),
{
    if pool.is_empty() {
        assert forall|c: Cell| !empties(g).contains(c) by {
            if empty_at(g, c) {
                let id = choose|id: usize| #[trigger] covers(blocks, pool, arr, id, c);
            }
        }
        assert(empties(g) =~= Set::empty());
        lemma_area_none(blocks, pool, blocks.len());
    } else {
        let id = pool.choose();
        assert(pool.contains(id));
        let mine = footprint(blocks, arr, id);
        lemma_tiles_rest(blocks, pool, g, arr, id);
        lemma_pool_rest(blocks, pool, id);
        lemma_laid_empties(g, mine, id);
        lemma_tiles_area(blocks, pool.remove(id), with_cells(g, mine, State::Block(id)), arr);
        lemma_area_remove(blocks, pool, id);
        lemma_rotated_n_finite(blocks[id as int], arr[id as int].0);
        lemma_placed_finite(rotated_n(blocks[id as int], arr[id as int].0), arr[id as int].1);
    }
}

/// Where the blocks of the pool can tile the grid, the search lays every
/// block of the pool and leaves no cell empty.
pub proof fn lemma_tiles_filled(
    blocks: Seq<Set<Cell>>,
    pool: Set<usize>,
    g: Grid,
    arr: Arrangement,
    height: int,
    width: int,
)
    requires
        pool_of_shapes(blocks, pool),
        blocks.len() <= usize::MAX + 1,
        is_grid(g, height, width),
        tiles(blocks, pool, g, arr),
    ensures
        search(blocks, pool, g) matches Some(found) && is_full(found.1),
{
    lemma_tiles_found(blocks, pool, g, arr);
    let found = search(blocks, pool, g)->0;
    lemma_search_lays(blocks, pool, g, found.0, found.1);
    lemma_empties_finite(g, height, width);
    lemma_lays_area(blocks, pool, g, found.0, found.1);
    lemma_tiles_area(blocks, pool, g, arr);
    empties(found.1).lemma_len0_is_empty();
    assert forall|c: Cell| !empty_at(found.1, c) by {
        assert(!empties(found.1).contains(c));
    }
}

/// The blocks with the numbers below `blocks.len()` can tile the grid: there
/// is an arrangement in which each of them lies on empty cells, no two of
/// them share a cell, and no empty cell is left.
pub open spec fn can_tile(blocks: Seq<Set<Cell>>, g: Grid) -> bool {
    exists|arr: Arrangement| tiles(blocks, numbers(blocks.len()), g, arr)
}

/// Blocks that were laid one after the other so that no cell is left empty
/// tile the grid. The result is an arrangement in which they do.
pub proof fn lemma_lays_tiles(
    blocks: Seq<Set<Cell>>,
    pool: Set<usize>,
    g: Grid,
    list: Seq<Placement>,
    fin: Grid,
) -> (arr: Arrangement)
    requires
        pool_of_shapes(blocks, pool),
        lays(blocks, pool, g, list, fin),
        is_full(fin),
    ensures
        arr.len() == blocks.len(),
        tiles(blocks, pool, g, arr),
    decreases list.len(),
{
    if list.len() == 0 {
        let arr = Seq::new(blocks.len(), |i: int| (0nat, (0int, 0int)));
        assert forall|i: usize, c: Cell| !covers(blocks, pool, arr, i, c) by {}
        arr
    } else {
        let (id, t) = choose|id: usize, t: nat|
            #[trigger] is_step(blocks, pool, g, list[0], id, t) && lays(
                blocks,
                pool.remove(id),
                laid(g, list[0].0, list[0].1, id),
                list.drop_first(),
                fin,
            );
        let shape = list[0].0;
        let a = list[0].1;
        let mine = placed(shape, a);
        let next = laid(g, shape, a, id);
        let rest = pool.remove(id);
        lemma_pool_rest(blocks, pool, id);
        let others = lemma_lays_tiles(blocks, rest, next, list.drop_first(), fin);
        let turns: nat = if t == 4 { 0 } else { t };
        assert(rotated_n(blocks[id as int], turns) == shape) by {
            lemma_rotated_four(blocks[id as int]);
        }
        let arr = others.update(id as int, (turns, a));
        lemma_with_cells(g, mine, State::Block(id), 0, 0);
        assert(footprint(blocks, arr, id) == mine);
        assert forall|k: usize| k != id && #[trigger] pool.contains(k) implies footprint(
            blocks,
            arr,
            k,
        ) == footprint(blocks, others, k) by {}
        assert forall|k: usize| #[trigger] pool.contains(k) implies arr[k as int].0 < 4
            && all_empty(g, footprint(blocks, arr, k)) by {
            if k != id {
                assert(rest.contains(k));
                let theirs = footprint(blocks, others, k);
                assert(footprint(blocks, arr, k) == theirs);
                assert(all_empty(next, theirs));
                assert forall|c: Cell| #[trigger] theirs.contains(c) implies empty_at(g, c) by {
                    assert(empty_at(next, c));
                    assert(in_grid(g, c));
                    assert(state_at(next, c) == if mine.contains(c) {
                        State::Block(id)
                    } else {
                        state_at(g, c)
                    });
                }
            }
        }
        assert forall|x: usize, y: usize, c: Cell|
            x != y && #[trigger] covers(blocks, pool, arr, x, c) implies !#[trigger] covers(
            blocks,
            pool,
            arr,
            y,
            c,
        ) by {
            if covers(blocks, pool, arr, y, c) {
                assert(pool.contains(x) && pool.contains(y));
                if x != id && y != id {
                    assert(footprint(blocks, arr, x) == footprint(blocks, others, x));
                    assert(footprint(blocks, arr, y) == footprint(blocks, others, y));
                    assert(covers(blocks, rest, others, x, c));
                    assert(covers(blocks, rest, others, y, c));
                } else {
                    let k = if x == id { y } else { x };
                    assert(footprint(blocks, arr, k) == footprint(blocks, others, k));
                    assert(covers(blocks, rest, others, k, c));
                    assert(rest.contains(k));
                    assert(all_empty(next, footprint(blocks, others, k)));
                    assert(empty_at(next, c));
                    assert(mine.contains(c));
                    assert(empty_at(g, c));
                    assert(state_at(next, c) == State::Block(id));
                }
            }
        }
        assert forall|c: Cell| #[trigger] empty_at(g, c) implies exists|k: usize| #[trigger]
            covers(blocks, pool, arr, k, c) by {
            if mine.contains(c) {
                assert(covers(blocks, pool, arr, id, c));
            } else {
                assert(state_at(next, c) == state_at(g, c));
                assert(empty_at(next, c));
                let k = choose|k: usize| #[trigger] covers(blocks, rest, others, k, c);
                assert(k != id && pool.contains(k));
                assert(footprint(blocks, arr, k) == footprint(blocks, others, k));
                assert(covers(blocks, pool, arr, k, c));
            }
        }
        arr
    }
}

/// The numbers below `n` are finitely many.
pub proof fn lemma_numbers_finite(n: nat)
    ensures
        numbers(n).finite(),
    decreases n,
{
    if n == 0 {
        assert(numbers(n) =~= Set::empty());
    } else {
        lemma_numbers_finite((n - 1) as nat);
        if n - 1 <= usize::MAX {
            assert(numbers(n) =~= numbers((n - 1) as nat).insert((n - 1) as usize));
        } else {
            assert(numbers(n) =~= numbers((n - 1) as nat));
        }
    }
}

/// The search lays every block and leaves no cell empty exactly where the
/// blocks can tile the grid.
pub proof fn lemma_search_iff_can_tile(blocks: Seq<Set<Cell>>, g: Grid, height: int, width: int)
    requires
        forall|i: int| 0 <= i < blocks.len() ==> is_shape(#[trigger] blocks[i]),
        blocks.len() <= usize::MAX,
        is_grid(g, height, width),
    ensures
        can_tile(blocks, g) <==> (search(blocks, numbers(blocks.len()), g) matches Some(found)
            && is_full(found.1)),
{
    let pool = numbers(blocks.len());
    lemma_numbers_finite(blocks.len());
    assert(pool_of_shapes(blocks, pool));
    if can_tile(blocks, g) {
        let arr = choose|arr: Arrangement| tiles(blocks, pool, g, arr);
        lemma_tiles_filled(blocks, pool, g, arr, height, width);
    }
    if search(blocks, pool, g) matches Some(found) && is_full(found.1) {
        let found = search(blocks, pool, g)->0;
        lemma_search_lays(blocks, pool, g, found.0, found.1);
        let arr = lemma_lays_tiles(blocks, pool, g, found.0, found.1);
    }
}

} // verus!
