//! The board: the tiles of a level, the regions they form, and the state
//! of the game played on them.

use vstd::prelude::*;
use rand::rngs::SmallRng;
use crate::grid::Tiles;
use crate::pipe::Pipe;

verus! {

/// Where a game stands.
#[derive(Clone, Copy, Debug, PartialEq, Eq, Structural)]
pub enum Phase {
    /// Clicks turn tiles.
    Playing,
    /// The level is solved; the next one has not started yet.
    Won,
    /// No life is left; the game waits to be started again.
    Lost,
}

/// The board of a game.
pub struct GameBoard {
    /// Whether the shell plays sound effects.
    pub sound_effects: bool,
    /// The number of cells in a row.
    pub width: u8,
    /// The number of rows.
    pub height: u8,
    /// The tiles, row by row.
    pub pipes: Vec<Pipe>,
    /// For each cell the id of its region; 0 while it has none.
    pub regions: Vec<u16>,
    /// The ids that no cell holds and that are free to be handed out again.
    pub region_id_pool: Vec<u16>,
    /// The highest id handed out so far.
    pub number_regions: u16,
    /// The colours that no cell holds and that are free to be handed out
    /// again.
    pub color_pool: Vec<u16>,
    /// The highest colour handed out so far.
    pub number_colors: u16,
    /// Where the game stands.
    pub phase: Phase,
    /// The number of the level, counted from 1.
    pub level: u32,
    /// The lives left.
    pub life: u32,
    /// The score of the game.
    pub score: u32,
    /// The most links seen at once in this level.
    pub level_score: u32,
    /// The clicks made in this level.
    pub click_count: u32,
    /// The fewest clicks that solve this level.
    pub expect_min_click_count: u32,
    /// The source of chance for new levels.
    pub rng: SmallRng,
}

/// Whether `regions` groups the cells of `tiles` by connection: two cells
/// have the same id exactly when they are connected.
pub open spec fn partition_of(tiles: Tiles, regions: Seq<u16>) -> bool {
    &&& regions.len() == tiles.masks.len()
    &&& forall|a: int, b: int|
        tiles.has(a) && tiles.has(b) ==> (regions[a] == regions[b]) == #[trigger] tiles.connected(
            a,
            b,
        )
}

impl GameBoard {
    /// The open sides of all tiles as they lie.
    pub open spec fn tiles(&self) -> Tiles {
        Tiles {
            width: self.width as int,
            height: self.height as int,
            masks: Seq::new(self.pipes@.len(), |i: int| self.pipes@[i].mask()),
        }
    }

    /// The board holds one well-formed tile for each cell.
    pub open spec fn grid_wf(&self) -> bool {
        &&& self.pipes@.len() == self.width * self.height
        &&& forall|i: int| 0 <= i < self.pipes@.len() ==> (#[trigger] self.pipes@[i]).wf()
    }

    /// The tiles of a well-formed board make a well-formed grid.
    pub proof fn lemma_tiles_wf(&self)
        requires
            self.grid_wf(),
        ensures
            self.tiles().wf(),
    {
        assert forall|i: int| 0 <= i < self.tiles().masks.len() implies #[trigger] self.tiles().masks[i]
            < 16 by {
            assert(self.pipes@[i].wf());
            crate::pipe::lemma_turned(crate::pipe::base_mask(self.pipes@[i].kind), self.pipes@[i].dir, 0);
        }
    }

    /// A board has at most 255 times 255 cells.
    pub proof fn lemma_cells_bound(&self)
        requires
            self.grid_wf(),
        ensures
            self.pipes@.len() <= 65025,
    {
        assert(self.width * self.height <= 65025) by (nonlinear_arith)
            requires
                0 <= self.width <= 255,
                0 <= self.height <= 255,
        ;
    }

    /// Whether the board has the size and the tiles of `other`, each tile
    /// with its shape and turned as there; the colours may differ.
    pub open spec fn same_shapes(&self, other: &GameBoard) -> bool {
        &&& self.width == other.width
        &&& self.height == other.height
        &&& self.pipes@.len() == other.pipes@.len()
        &&& forall|i: int|
            0 <= i < self.pipes@.len() ==> (#[trigger] self.pipes@[i]).kind == other.pipes@[i].kind
                && self.pipes@[i].dir == other.pipes@[i].dir
    }

    /// Whether the game stands as in `other`: phase, level, lives, scores,
    /// clicks, the sound switch and the source of chance are the same.
    pub open spec fn same_game(&self, other: &GameBoard) -> bool {
        &&& self.sound_effects == other.sound_effects
        &&& self.phase == other.phase
        &&& self.level == other.level
        &&& self.life == other.life
        &&& self.score == other.score
        &&& self.level_score == other.level_score
        &&& self.click_count == other.click_count
        &&& self.expect_min_click_count == other.expect_min_click_count
        &&& self.rng == other.rng
    }

    /// Boards with the same shapes have the same open sides.
    pub proof fn lemma_same_tiles(&self, other: &GameBoard)
        requires
            self.same_shapes(other),
        ensures
            self.tiles() == other.tiles(),
            other.grid_wf() ==> self.grid_wf(),
    {
        assert(self.tiles().masks =~= other.tiles().masks);
        if other.grid_wf() {
            assert forall|i: int| 0 <= i < self.pipes@.len() implies (#[trigger] self.pipes@[i]).wf() by {
                assert(other.pipes@[i].wf());
            }
        }
    }

    /// The regions are traced: every cell holds the id of its region, an
    /// id from 1 to `number_regions`; two cells hold the same id exactly
    /// when they are connected; the pool holds each id from 1 to
    /// `number_regions` that no cell holds, once, and no other.
    pub open spec fn traced(&self) -> bool {
        &&& self.grid_wf()
        &&& crate::tracker::settled_wf(
            self.tiles(),
            self.regions@,
            self.region_id_pool@,
            self.number_regions as int,
            crate::tracker::all_cells(self.tiles()),
        )
    }

    /// The board is in order: the regions are traced and every cell is
    /// coloured by its region.
    pub open spec fn wf(&self) -> bool {
        self.traced() && self.colored()
    }

    /// Makes the maze for a level of `width` times `height` cells: a tree
    /// that spans the grid, with more links added at its dead ends, at most
    /// one for each. In the result every opening is matched, all cells are
    /// connected, and no dead end is left beside a cell that it could be
    /// linked with.
    pub fn gen_maze(width: u8, height: u8, rng: &mut SmallRng) -> (grid: Vec<u8>)
        requires
            width >= 1,
            height >= 1,
        ensures
            crate::maze::is_maze(crate::maze::grid_of(width, height, grid@)),
            exists|tree: Seq<u8>|
                {
                    &&& #[trigger] crate::maze::is_tree(crate::maze::grid_of(width, height, tree))
                    &&& crate::maze::dead_ends_linked(
                        crate::maze::grid_of(width, height, tree),
                        crate::maze::grid_of(width, height, grid@),
                    )
                },
    {
        let mut grid = crate::maze::grow_tree(width, height, rng);
        let ghost tree = grid@;
        crate::maze::remove_dead_ends(width, height, &mut grid, rng);
        assert(crate::maze::is_tree(crate::maze::grid_of(width, height, tree)));
        grid
    }
}

} // verus!
