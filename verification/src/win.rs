//! Counting the links of a board and telling when it is solved.
//!
//! A board is solved when it has cells, all of them connected, and no
//! opening is left dangling: each open side meets an open side of the cell
//! next door, and none faces the rim.

use vstd::prelude::*;
use crate::board::GameBoard;
use crate::grid::{neighbor_of, Tiles};
use crate::pipe::{opens, opposite, mask_opens};
use crate::tracker::{all_cells, held, settled_wf};

verus! {

impl Tiles {
    /// Whether cell `i` and the cell on its `side` agree: both are open
    /// towards each other or both are closed; where the grid ends there,
    /// whether the cell is closed towards that side.
    pub open spec fn agrees(self, i: int, side: u8) -> bool {
        match self.next(i, side) {
            Some(j) => opens(self.masks[i], side) == opens(self.masks[j], opposite(side)),
            None => !opens(self.masks[i], side),
        }
    }

    /// The number of links that lead east or south from the cells before
    /// `upto`. Each link of the grid leads east or south from one cell.
    pub open spec fn links_upto(self, upto: int) -> nat
        decreases upto,
    {
        if upto <= 0 {
            0
        } else {
            self.links_upto(upto - 1) + if self.link(upto - 1, 0) {
                1nat
            } else {
                0nat
            } + if self.link(upto - 1, 1) {
                1nat
            } else {
                0nat
            }
        }
    }

    /// The number of links of the grid.
    pub open spec fn link_count(self) -> nat {
        self.links_upto(self.masks.len() as int)
    }

    /// There are at most two links for each cell.
    pub proof fn lemma_links_bound(self, upto: int)
        requires
            0 <= upto,
        ensures
            self.links_upto(upto) <= 2 * upto,
        decreases upto,
    {
        if upto > 0 {
            self.lemma_links_bound(upto - 1);
        }
    }

    /// A cell that does not agree with the cell on one of its sides leaves
    /// an opening dangling.
    pub proof fn lemma_disagree(self, i: int, side: u8)
        requires
            self.wf(),
            self.has(i),
            side < 4,
            !self.agrees(i, side),
        ensures
            !self.all_matched(),
    {
        assert(self.width > 0) by (nonlinear_arith)
            requires
                0 <= self.width,
                0 <= i < self.width * self.height,
        ;
        if !self.matched(i, side) {
        } else {
            let j = self.next(i, side)->0;
            crate::grid::lemma_neighbor(self.width, self.height, i, side);
            assert(!self.matched(j, opposite(side)));
        }
    }

    /// Where the cells of the top row are closed to the north, those of
    /// the left column to the west, and each cell agrees with the cells to
    /// its east and south, no opening is left dangling.
    pub proof fn lemma_agreed(self)
        requires
            self.wf(),
            forall|i: int| 0 <= i < self.width && self.has(i) ==> !opens(#[trigger] self.masks[i], 3),
            forall|row: int|
                0 <= row < self.height ==> !opens(#[trigger] self.masks[row * self.width], 2),
            forall|i: int, side: u8| self.has(i) && side < 2 ==> #[trigger] self.agrees(i, side),
        ensures
            self.all_matched(),
    {
        assert forall|i: int, side: u8| self.has(i) && side < 4 implies #[trigger] self.matched(
            i,
            side,
        ) by {
            assert(self.width > 0) by (nonlinear_arith)
                requires
                    0 <= self.width,
                    0 <= i < self.width * self.height,
            ;
            if opens(self.masks[i], side) {
                if side < 2 {
                    assert(self.agrees(i, side));
                } else if self.next(i, side) is Some {
                    let j = self.next(i, side)->0;
                    crate::grid::lemma_neighbor(self.width, self.height, i, side);
                    assert(self.agrees(j, opposite(side)));
                } else if side == 2 {
                    let row = i / self.width;
                    vstd::arithmetic::div_mod::lemma_fundamental_div_mod(i, self.width);
                    assert(row * self.width == self.width * row) by (nonlinear_arith);
                    assert(0 <= row < self.height) by (nonlinear_arith)
                        requires
                            0 < self.width,
                            0 <= i < self.width * self.height,
                            i == self.width * row,
                    ;
                    assert(!opens(self.masks[row * self.width], 2));
                } else {
                    assert(!opens(self.masks[i], 3));
                }
            }
        }
    }
}

/// With the regions traced, exactly one id is in use, that is, one id more
/// has been handed out than waits in the pool, just when the grid has
/// cells and all of them are connected.
pub proof fn lemma_one_region(tiles: Tiles, regions: Seq<u16>, pool: Seq<u16>, watermark: int)
    requires
        tiles.wf(),
        0 <= watermark,
        settled_wf(tiles, regions, pool, watermark, all_cells(tiles)),
    ensures
        pool.len() <= watermark,
        (watermark - pool.len() == 1) == (tiles.masks.len() > 0 && tiles.all_connected()),
{
    let every = all_cells(tiles);
    let ids = vstd::set_lib::set_int_range(1, watermark + 1);
    vstd::set_lib::lemma_int_range(1, watermark + 1);
    let waiting = pool.map_values(|x: u16| x as int);
    assert(waiting.no_duplicates());
    waiting.unique_seq_to_set();
    let free = waiting.to_set();
    assert forall|id: int| free.contains(id) implies ids.contains(id) by {
        let k = choose|k: int| 0 <= k < waiting.len() && waiting[k] == id;
        assert(1 <= pool[k] <= watermark);
    }
    assert forall|v: int| tiles.has(v) implies ids.contains(regions[v] as int) && !free.contains(
        regions[v] as int,
    ) by {
        assert(every.contains(v));
        if free.contains(regions[v] as int) {
            let k = choose|k: int| 0 <= k < waiting.len() && waiting[k] == regions[v] as int;
            assert(pool[k] == regions[v]);
            assert(pool.contains(regions[v]));
        }
    }
    vstd::set_lib::lemma_len_subset(free, ids);
    if tiles.masks.len() > 0 && tiles.all_connected() {
        let id = regions[0] as int;
        assert(tiles.has(0));
        assert forall|other: int| ids.contains(other) implies free.insert(id).contains(other) by {
            assert(held(regions, pool, every, other));
            if exists|k: int| 0 <= k < pool.len() && #[trigger] pool[k] == other {
                let k = choose|k: int| 0 <= k < pool.len() && #[trigger] pool[k] == other;
                assert(waiting[k] == other);
            } else {
                let i = choose|i: int|
                    every.contains(i) && 0 <= i < regions.len() && #[trigger] regions[i] == other;
                assert(tiles.connected(0, i));
                assert(every.contains(0));
            }
        }
        assert(ids =~= free.insert(id));
    }
    if watermark - pool.len() == 1 {
        if tiles.masks.len() == 0 {
            assert forall|other: int| ids.contains(other) implies free.contains(other) by {
                assert(held(regions, pool, every, other));
                let k = choose|k: int| 0 <= k < pool.len() && #[trigger] pool[k] == other;
                assert(waiting[k] == other);
            }
            vstd::set_lib::lemma_len_subset(ids, free);
        }
        assert forall|a: int, b: int| tiles.has(a) && tiles.has(b) implies #[trigger] tiles.connected(
            a,
            b,
        ) by {
            assert(every.contains(a) && every.contains(b));
            if regions[a] != regions[b] {
                let two = free.insert(regions[a] as int).insert(regions[b] as int);
                assert(two.subset_of(ids));
                vstd::set_lib::lemma_len_subset(two, ids);
            }
        }
    }
}

impl GameBoard {
    /// The board is solved: it has cells, all of them are connected, and no
    /// opening is left dangling.
    pub open spec fn solved(&self) -> bool {
        &&& self.pipes@.len() > 0
        &&& self.tiles().all_connected()
        &&& self.tiles().all_matched()
    }

    /// Whether the board is solved.
    pub fn check_is_done(&self) -> (done: bool)
        requires
            self.traced(),
        ensures
            done == self.solved(),
    {
        let ghost tiles = self.tiles();
        proof {
            self.lemma_tiles_wf();
            self.lemma_cells_bound();
            lemma_one_region(tiles, self.regions@, self.region_id_pool@, self.number_regions as int);
        }
        if self.number_regions as usize != self.region_id_pool.len() + 1 {
            return false;
        }
        let width = self.width as usize;
        let cells = self.pipes.len();
        assert(width > 0) by (nonlinear_arith)
            requires
                cells > 0,
                cells == width * self.height,
        ;
        let mut curr: usize = 0;
        while curr < width
            invariant
                tiles == self.tiles(),
                tiles.wf(),
                self.grid_wf(),
                width == self.width,
                0 < width,
                cells == self.pipes@.len(),
                0 < cells,
                curr <= width,
                forall|i: int| 0 <= i < curr && tiles.has(i) ==> !opens(#[trigger] tiles.masks[i], 3),
            decreases width - curr,
        {
            assert(curr < cells) by (nonlinear_arith)
                requires
                    curr < width,
                    cells == width * self.height,
                    cells > 0,
            ;
            if self.pipes[curr].connects_towards(3) {
                proof {
                    assert(tiles.masks[curr as int] == self.pipes@[curr as int].mask());
                    assert(tiles.next(curr as int, 3) is None);
                    tiles.lemma_disagree(curr as int, 3);
                }
                return false;
            }
            assert(tiles.masks[curr as int] == self.pipes@[curr as int].mask());
            curr = curr + 1;
        }
        let mut row: usize = 0;
        while row < self.height as usize
            invariant
                tiles == self.tiles(),
                tiles.wf(),
                self.grid_wf(),
                width == self.width,
                0 < width,
                cells == self.pipes@.len(),
                row <= self.height,
                forall|r: int| 0 <= r < row ==> !opens(#[trigger] tiles.masks[r * tiles.width], 2),
            decreases self.height - row,
        {
            assert(row * width + width <= cells && row * width <= 65025) by (nonlinear_arith)
                requires
                    row < self.height,
                    cells == width * self.height,
                    0 < width <= 255,
                    self.height <= 255,
            ;
            let first = row * width;
            if self.pipes[first].connects_towards(2) {
                proof {
                    assert(tiles.masks[first as int] == self.pipes@[first as int].mask());
                    vstd::arithmetic::div_mod::lemma_fundamental_div_mod_converse(
                        first as int,
                        width as int,
                        row as int,
                        0,
                    );
                    assert(tiles.next(first as int, 2) is None);
                    tiles.lemma_disagree(first as int, 2);
                }
                return false;
            }
            assert(tiles.masks[first as int] == self.pipes@[first as int].mask());
            row = row + 1;
        }
        let mut curr: usize = 0;
        while curr < cells
            invariant
                tiles == self.tiles(),
                tiles.wf(),
                self.grid_wf(),
                cells == self.pipes@.len(),
                curr <= cells,
                forall|i: int, side: u8|
                    0 <= i < curr && side < 2 ==> #[trigger] tiles.agrees(i, side),
            decreases cells - curr,
        {
            let curr_dir = self.pipes[curr].open_sides();
            assert(tiles.masks[curr as int] == curr_dir);
            let mut side: u8 = 0;
            while side < 2
                invariant
                    tiles == self.tiles(),
                    tiles.wf(),
                    self.grid_wf(),
                    cells == self.pipes@.len(),
                    curr < cells,
                    side <= 2,
                    curr_dir == tiles.masks[curr as int],
                    forall|i: int, s: u8| 0 <= i < curr && s < 2 ==> #[trigger] tiles.agrees(i, s),
                    forall|s: u8| s < side ==> #[trigger] tiles.agrees(curr as int, s),
                decreases 2 - side,
            {
                match neighbor_of(self.width, self.height, curr, side) {
                    Some(next) => {
                        assert(tiles.masks[next as int] == self.pipes@[next as int].mask());
                        if mask_opens(curr_dir, side) != self.pipes[next].connects_towards(
                            crate::pipe::opposite_side(side),
                        ) {
                            proof {
                                tiles.lemma_disagree(curr as int, side);
                            }
                            return false;
                        }
                    },
                    None => {
                        if mask_opens(curr_dir, side) {
                            proof {
                                tiles.lemma_disagree(curr as int, side);
                            }
                            return false;
                        }
                    },
                }
                side = side + 1;
            }
            curr = curr + 1;
        }
        proof {
            tiles.lemma_agreed();
        }
        true
    }

    /// The number of links of the board: the pairs of cells next to each
    /// other that are open towards each other.
    pub fn count_connections(&self) -> (count: u32)
        requires
            self.grid_wf(),
        ensures
            count == self.tiles().link_count(),
    {
        let ghost tiles = self.tiles();
        proof {
            self.lemma_tiles_wf();
            self.lemma_cells_bound();
        }
        let cells = self.pipes.len();
        let mut count: u32 = 0;
        let mut curr: usize = 0;
        while curr < cells
            invariant
                tiles == self.tiles(),
                tiles.wf(),
                self.grid_wf(),
                cells == self.pipes@.len(),
                cells <= 65025,
                curr <= cells,
                count == tiles.links_upto(curr as int),
            decreases cells - curr,
        {
            proof {
                tiles.lemma_links_bound(curr as int);
            }
            let curr_dir = self.pipes[curr].open_sides();
            assert(tiles.masks[curr as int] == curr_dir);
            let mut side: u8 = 0;
            let ghost start = count;
            while side < 2
                invariant
                    tiles == self.tiles(),
                    tiles.wf(),
                    self.grid_wf(),
                    cells == self.pipes@.len(),
                    curr < cells,
                    side <= 2,
                    curr_dir == tiles.masks[curr as int],
                    start <= 2 * 65025,
                    count == start + if 0 < side && tiles.link(curr as int, 0) {
                        1int
                    } else {
                        0int
                    } + if 1 < side && tiles.link(curr as int, 1) {
                        1int
                    } else {
                        0int
                    },
                decreases 2 - side,
            {
                match neighbor_of(self.width, self.height, curr, side) {
                    Some(next) => {
                        assert(tiles.masks[next as int] == self.pipes@[next as int].mask());
                        if mask_opens(curr_dir, side) && self.pipes[next].connects_towards(
                            crate::pipe::opposite_side(side),
                        ) {
                            count = count + 1;
                        }
                    },
                    None => {},
                }
                side = side + 1;
            }
            curr = curr + 1;
        }
        count
    }
}

} // verus!
