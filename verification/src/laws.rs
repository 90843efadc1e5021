//! What holds of every game, whatever is played.

use vstd::prelude::*;
use crate::board::{partition_of, GameBoard};
use crate::grid::Tiles;
use crate::level::{laid_out, lemma_shape, shape_spec};
use crate::maze::{grid_of, is_maze};
use crate::pipe::Pipe;
use crate::tracker::{all_cells, is_first, settled_wf};

verus! {

/// On a board whose regions are traced every cell holds an id from 1 to
/// `number_regions`, and two cells hold the same id exactly when they are
/// connected: the ids part the cells into the regions, each cell in one
/// of them.
pub proof fn lemma_regions_part_the_board(board: &GameBoard)
    requires
        board.traced(),
    ensures
        board.regions@.len() == board.pipes@.len(),
        forall|i: int|
            0 <= i < board.regions@.len() ==> 1 <= #[trigger] board.regions@[i] <= board.number_regions,
        partition_of(board.tiles(), board.regions@),
{
    let tiles = board.tiles();
    assert forall|i: int| 0 <= i < board.regions@.len() implies 1 <= #[trigger] board.regions@[i]
        <= board.number_regions by {
        assert(all_cells(tiles).contains(i));
    }
    assert forall|a: int, b: int| tiles.has(a) && tiles.has(b) implies (board.regions@[a]
        == board.regions@[b]) == #[trigger] tiles.connected(a, b) by {
        assert(all_cells(tiles).contains(a) && all_cells(tiles).contains(b));
    }
}

/// On a board whose regions are traced no id that waits in the pool is
/// held by a cell.
pub proof fn lemma_pool_is_free(board: &GameBoard)
    requires
        board.traced(),
    ensures
        forall|k: int, i: int|
            0 <= k < board.region_id_pool@.len() && 0 <= i < board.regions@.len()
                ==> #[trigger] board.region_id_pool@[k] != #[trigger] board.regions@[i],
{
    let tiles = board.tiles();
    assert forall|k: int, i: int|
        0 <= k < board.region_id_pool@.len() && 0 <= i < board.regions@.len() implies #[trigger] board.region_id_pool@[k]
        != #[trigger] board.regions@[i] by {
        assert(all_cells(tiles).contains(i));
        if board.region_id_pool@[k] == board.regions@[i] {
            assert(board.region_id_pool@.contains(board.regions@[i]));
        }
    }
}

/// Two ways of giving ids to the cells of one grid, each the same id
/// exactly to connected cells, group the cells alike: the ids may differ,
/// the groups do not. So the regions that `update_regions` keeps up to
/// date, turn after turn, are the regions that a full trace of the board
/// finds.
pub proof fn lemma_same_grouping(tiles: Tiles, one: Seq<u16>, other: Seq<u16>)
    requires
        partition_of(tiles, one),
        partition_of(tiles, other),
    ensures
        forall|a: int, b: int|
            tiles.has(a) && tiles.has(b) ==> (#[trigger] one[a] == #[trigger] one[b]) == (other[a]
                == other[b]),
{
    assert forall|a: int, b: int| tiles.has(a) && tiles.has(b) implies (#[trigger] one[a]
        == #[trigger] one[b]) == (other[a] == other[b]) by {
        assert((one[a] == one[b]) == tiles.connected(a, b));
        assert((other[a] == other[b]) == tiles.connected(a, b));
    }
}

/// Boards with the same tiles whose regions are traced group their cells
/// alike, however each came by its regions.
pub proof fn lemma_update_matches_trace(updated: &GameBoard, traced: &GameBoard)
    requires
        updated.traced(),
        traced.traced(),
        updated.tiles() == traced.tiles(),
    ensures
        forall|a: int, b: int|
            0 <= a < updated.pipes@.len() && 0 <= b < updated.pipes@.len() ==> (#[trigger] updated.regions@[a]
                == #[trigger] updated.regions@[b]) == (traced.regions@[a] == traced.regions@[b]),
{
    lemma_regions_part_the_board(updated);
    lemma_regions_part_the_board(traced);
    lemma_same_grouping(updated.tiles(), updated.regions@, traced.regions@);
    assert forall|a: int, b: int|
        0 <= a < updated.pipes@.len() && 0 <= b < updated.pipes@.len() implies (#[trigger] updated.regions@[a]
        == #[trigger] updated.regions@[b]) == (traced.regions@[a] == traced.regions@[b]) by {
        assert(updated.tiles().has(a) && updated.tiles().has(b));
    }
}

/// Whether `after` is what a click on a tile makes of the board `before`,
/// as `mouse_input` leaves it: in order, the tile turned, and regions and
/// colours brought up to date.
pub open spec fn click_made(before: &GameBoard, after: &GameBoard) -> bool {
    after.wf() && exists|i: int, right: bool| #[trigger] before.clicked(after, i, right)
}

/// After any number of clicks, each followed by its update, the regions
/// group the cells as a full trace of the board would, as it lies after
/// the last click.
pub proof fn lemma_clicks_match_trace(game: Seq<GameBoard>, traced: &GameBoard)
    requires
        game.len() >= 1,
        game[0].wf(),
        forall|k: int| 0 <= k < game.len() - 1 ==> click_made(#[trigger] &game[k], &game[k + 1]),
        traced.traced(),
        traced.tiles() == game.last().tiles(),
    ensures
        forall|a: int, b: int|
            0 <= a < traced.pipes@.len() && 0 <= b < traced.pipes@.len() ==> (#[trigger] game.last().regions@[a]
                == #[trigger] game.last().regions@[b]) == (traced.regions@[a] == traced.regions@[b]),
{
    let last = game.len() - 1;
    if last > 0 {
        assert(click_made(&game[last - 1], &game[last - 1 + 1]));
    }
    assert(game.last().wf());
    lemma_update_matches_trace(&game.last(), traced);
    assert(game.last().pipes@.len() == traced.pipes@.len()) by {
        assert(game.last().tiles().masks.len() == traced.tiles().masks.len());
    }
}

/// Every cell is connected to the first cell of its region.
pub proof fn lemma_first_cell(tiles: Tiles, cell: int) -> (first: int)
    requires
        tiles.wf(),
        tiles.has(cell),
    ensures
        0 <= first <= cell,
        is_first(tiles, first),
        tiles.connected(first, cell),
    decreases cell,
{
    if is_first(tiles, cell) {
        tiles.lemma_connected_self(cell);
        cell
    } else {
        let j = choose|j: int| 0 <= j < cell && tiles.connected(j, cell);
        let first = lemma_first_cell(tiles, j);
        tiles.lemma_connected_trans(first, j, cell);
        first
    }
}

/// Two full traces of the same tiles give every cell the same id and the
/// same colour: a second trace changes nothing.
pub proof fn lemma_trace_twice(first: &GameBoard, second: &GameBoard)
    requires
        first.freshly_traced(),
        second.freshly_traced(),
        first.tiles() == second.tiles(),
    ensures
        first.regions@ == second.regions@,
        first.colors() == second.colors(),
{
    let tiles = first.tiles();
    first.lemma_tiles_wf();
    lemma_regions_part_the_board(first);
    lemma_regions_part_the_board(second);
    assert forall|v: int| 0 <= v < first.regions@.len() implies first.regions@[v] == second.regions@[v] by {
        let f = lemma_first_cell(tiles, v);
        assert(tiles.has(f) && tiles.has(v));
        assert((first.regions@[f] == first.regions@[v]) == tiles.connected(f, v));
        assert((second.regions@[f] == second.regions@[v]) == tiles.connected(f, v));
    }
    assert(first.regions@ =~= second.regions@);
    assert(first.colors() =~= second.colors());
}

/// A board of one cell with a tile of one opening is never solved: the
/// opening faces the rim, however the tile is turned.
pub proof fn lemma_single_end_never_solved(board: &GameBoard)
    requires
        board.width == 1,
        board.height == 1,
        board.pipes@.len() == 1,
        board.pipes@[0].kind == crate::pipe::KIND_END,
        board.pipes@[0].wf(),
    ensures
        !board.solved(),
{
    let tiles = board.tiles();
    let dir = board.pipes@[0].dir;
    let mask = board.pipes@[0].mask();
    assert(tiles.masks[0] == mask);
    crate::pipe::lemma_turned(1, dir, dir);
    assert(crate::pipe::opens(1u8, 0u8)) by (bit_vector);
    assert(crate::pipe::opens(mask, dir));
    assert(tiles.has(0));
    assert(tiles.next(0, dir) is None);
    assert(!tiles.matched(0, dir));
}

/// Whether `after` is the board `before` one step later: a tile has been
/// clicked, or lives, score and tiles are as they were.
pub open spec fn played(before: &GameBoard, after: &GameBoard) -> bool {
    ||| exists|i: int, right: bool| #[trigger] before.clicked(after, i, right)
    ||| after.score == before.score
}

/// However many tiles are turned, and whichever way, the score never
/// falls.
pub proof fn lemma_score_never_falls(game: Seq<GameBoard>, early: int, late: int)
    requires
        forall|k: int| 0 <= k < game.len() - 1 ==> played(#[trigger] &game[k], &game[k + 1]),
        0 <= early <= late < game.len(),
    ensures
        game[early].score <= game[late].score,
    decreases late - early,
{
    if early < late {
        lemma_score_never_falls(game, early, late - 1);
        assert(played(&game[late - 1], &game[late - 1 + 1]));
    }
}

/// The tiles `pipes`, each turned back by its entry of `turns`.
pub open spec fn turned_back(pipes: Seq<Pipe>, turns: Seq<u8>) -> Seq<Pipe> {
    Seq::new(
        pipes.len(),
        |i: int|
            Pipe {
                dir: ((pipes[i].dir + 4 - turns[i]) % 4) as u8,
                kind: pipes[i].kind,
                target_color: pipes[i].target_color,
            },
    )
}

/// Every level can be solved: its tiles are those of a maze, turned, and
/// turned back they lie as in the maze, all connected and with no opening
/// left dangling.
pub proof fn lemma_level_can_be_solved(board: &GameBoard, maze: Seq<u8>, turns: Seq<u8>, goal: &GameBoard)
    requires
        is_maze(grid_of(board.width, board.height, maze)),
        maze.len() > 0,
        laid_out(board.pipes@, maze, turns),
        forall|i: int| 0 <= i < turns.len() ==> #[trigger] turns[i] < 4,
        goal.width == board.width,
        goal.height == board.height,
        goal.pipes@ == turned_back(board.pipes@, turns),
    ensures
        goal.solved(),
{
    assert forall|i: int| 0 <= i < maze.len() implies #[trigger] goal.tiles().masks[i] == maze[i] by {
        lemma_shape(maze[i]);
        assert(board.pipes@[i].kind == shape_spec(maze[i]).0);
        assert(goal.pipes@[i].dir == shape_spec(maze[i]).1);
    }
    assert(goal.tiles().masks =~= maze);
    assert(goal.tiles() == grid_of(board.width, board.height, maze));
}

/// The colouring after an update is determined by the board before it:
/// two colourings that `recolor` may leave are the same.
pub proof fn lemma_one_colouring(
    regions: Seq<u16>,
    colors: Seq<u16>,
    pool: Seq<u16>,
    top: int,
    to_check: Seq<(usize, u16)>,
    one: (Seq<u16>, Seq<u16>, int),
    other: (Seq<u16>, Seq<u16>, int),
)
    requires
        crate::colors::recolored_to(regions, colors, pool, top, to_check, one),
        crate::colors::recolored_to(regions, colors, pool, top, to_check, other),
    ensures
        one == other,
{
    let list = crate::colors::gathered(regions, colors, to_check, to_check.len() as int).0;
    let first = choose|sorted: Seq<(u16, u16, u32)>|
        crate::colors::sorted_stably(list, sorted) && one == #[trigger] crate::colors::recolored(
            regions,
            colors,
            pool,
            top,
            to_check,
            sorted,
        );
    let second = choose|sorted: Seq<(u16, u16, u32)>|
        crate::colors::sorted_stably(list, sorted) && other == #[trigger] crate::colors::recolored(
            regions,
            colors,
            pool,
            top,
            to_check,
            sorted,
        );
    assert forall|count: u32| #[trigger]
        crate::colors::entries_with(first, count) == crate::colors::entries_with(second, count) by {
        assert(crate::colors::entries_with(first, count) == crate::colors::entries_with(list, count));
        assert(crate::colors::entries_with(second, count) == crate::colors::entries_with(list, count));
    }
    crate::colors::lemma_sorted_unique(first, second);
}

} // verus!
