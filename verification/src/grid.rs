//! The grid of cells and the links between them.
//!
//! Cells are numbered row by row from 0, so the cell in column `x` and row
//! `y` has the index `y * width + x`. Two cells next to each other are
//! linked when each is open towards the other, and connected when a chain
//! of links leads from one to the other.

use vstd::prelude::*;
use vstd::arithmetic::div_mod::{lemma_fundamental_div_mod, lemma_fundamental_div_mod_converse};
use crate::pipe::{opens, opposite};

verus! {

/// The cell next to cell `i` on `side`, in a grid of `cells` cells laid out
/// in rows of `width`, or `None` where the grid ends there.
pub open spec fn neighbor(width: int, cells: int, i: int, side: u8) -> Option<int> {
    if side == 0 {
        if i % width + 1 < width {
            Some(i + 1)
        } else {
            None
        }
    } else if side == 1 {
        if i + width < cells {
            Some(i + width)
        } else {
            None
        }
    } else if side == 2 {
        if i % width > 0 {
            Some(i - 1)
        } else {
            None
        }
    } else {
        if i >= width {
            Some(i - width)
        } else {
            None
        }
    }
}

/// A neighbour lies in the grid, is another cell, and has the first cell as
/// its neighbour on the opposite side.
pub proof fn lemma_neighbor(width: int, height: int, i: int, side: u8)
    requires
        0 < width,
        0 <= height,
        0 <= i < width * height,
        side < 4,
        neighbor(width, width * height, i, side) is Some,
    ensures
        0 <= neighbor(width, width * height, i, side)->0 < width * height,
        neighbor(width, width * height, i, side)->0 != i,
        neighbor(width, width * height, neighbor(width, width * height, i, side)->0, opposite(side))
            == Some(i),
{
    let cells = width * height;
    let row = i / width;
    let col = i % width;
    lemma_fundamental_div_mod(i, width);
    assert(i == width * row + col);
    assert(0 <= row < height) by (nonlinear_arith)
        requires
            0 < width,
            0 <= i < width * height,
            i == width * row + col,
            0 <= col < width,
    ;
    if side == 0 {
        lemma_fundamental_div_mod_converse(i + 1, width, row, col + 1);
        assert(width * row + col + 1 < width * height) by (nonlinear_arith)
            requires
                0 < width,
                0 <= row < height,
                col + 1 < width,
        ;
    } else if side == 1 {
        assert(width * (row + 1) == width * row + width) by (nonlinear_arith);
    } else if side == 2 {
        lemma_fundamental_div_mod_converse(i - 1, width, row, col - 1);
    } else {
        assert(width * (row - 1) == width * row - width) by (nonlinear_arith);
        assert(i - width + width < cells);
    }
}

/// Cells next to each other in a row differ by one, those in a column by
/// the width; so for rows of three or more the test that the two columns
/// differ by at most one, together with the bounds of the grid, picks
/// exactly the neighbours.
pub proof fn lemma_neighbor_by_columns(width: int, height: int, i: int, side: u8)
    requires
        3 <= width,
        0 <= height,
        0 <= i < width * height,
        side < 4,
    ensures
        ({
            let step = if side == 0 {
                1
            } else if side == 1 {
                width
            } else if side == 2 {
                -1
            } else {
                -width
            };
            let next = i + step;
            let apart = i % width - next % width;
            neighbor(width, width * height, i, side) == if 0 <= next < width * height && -1
                <= apart <= 1 {
                Some(next)
            } else {
                None::<int>
            }
        }),
{
    let row = i / width;
    let col = i % width;
    lemma_fundamental_div_mod(i, width);
    assert(i == width * row + col);
    assert(0 <= row < height) by (nonlinear_arith)
        requires
            0 < width,
            0 <= i < width * height,
            i == width * row + col,
            0 <= col < width,
    ;
    if side == 0 {
        if col + 1 < width {
            lemma_neighbor(width, height, i, side);
            lemma_fundamental_div_mod_converse(i + 1, width, row, col + 1);
        } else {
            assert(width * (row + 1) == width * row + width) by (nonlinear_arith);
            lemma_fundamental_div_mod_converse(i + 1, width, row + 1, 0);
        }
    } else if side == 1 {
        assert(width * (row + 1) == width * row + width) by (nonlinear_arith);
        lemma_fundamental_div_mod_converse(i + width, width, row + 1, col);
    } else if side == 2 {
        if col > 0 {
            lemma_fundamental_div_mod_converse(i - 1, width, row, col - 1);
        } else {
            assert(width * (row - 1) == width * row - width) by (nonlinear_arith);
            lemma_fundamental_div_mod_converse(i - 1, width, row - 1, width - 1);
        }
    } else {
        assert(width * (row - 1) == width * row - width) by (nonlinear_arith);
        lemma_fundamental_div_mod_converse(i - width, width, row - 1, col);
    }
}

/// The cell next to cell `i` on `side`, if the grid has one there.
pub fn neighbor_of(width: u8, height: u8, i: usize, side: u8) -> (next: Option<usize>)
    requires
        0 <= i < width * height,
        side < 4,
    ensures
        match next {
            Some(j) => neighbor(width as int, width * height, i as int, side) == Some(j as int)
                && j < width * height && j != i,
            None => neighbor(width as int, width * height, i as int, side) is None,
        },
{
    assert(width > 0) by (nonlinear_arith)
        requires
            0 <= i < width * height,
    ;
    assert(width * height <= 255 * 255) by (nonlinear_arith)
        requires
            0 <= width <= 255,
            0 <= height <= 255,
    ;
    let w: usize = width as usize;
    let cells: usize = w * (height as usize);
    let next = if side == 0 {
        if i % w + 1 < w {
            Some(i + 1)
        } else {
            None
        }
    } else if side == 1 {
        if i + w < cells {
            Some(i + w)
        } else {
            None
        }
    } else if side == 2 {
        if i % w > 0 {
            proof {
                if i == 0 {
                    vstd::arithmetic::div_mod::lemma_small_mod(0, w as nat);
                }
            }
            Some(i - 1)
        } else {
            None
        }
    } else {
        if i >= w {
            Some(i - w)
        } else {
            None
        }
    };
    proof {
        if next is Some {
            lemma_neighbor(width as int, height as int, i as int, side);
        }
    }
    next
}

/// The open sides of every cell of a grid.
pub struct Tiles {
    /// The number of cells in a row.
    pub width: int,
    /// The number of rows.
    pub height: int,
    /// For each cell, in row-major order, the mask of its open sides.
    pub masks: Seq<u8>,
}

impl Tiles {
    /// The grid has one mask of four bits for each of its cells, and no
    /// more than 255 cells in either direction.
    pub open spec fn wf(self) -> bool {
        &&& 0 <= self.width <= 255
        &&& 0 <= self.height <= 255
        &&& self.masks.len() == self.width * self.height
        &&& forall|i: int| 0 <= i < self.masks.len() ==> #[trigger] self.masks[i] < 16
    }

    /// Whether `i` is a cell of the grid.
    pub open spec fn has(self, i: int) -> bool {
        0 <= i < self.masks.len()
    }

    /// The cell next to `i` on `side`.
    pub open spec fn next(self, i: int, side: u8) -> Option<int> {
        neighbor(self.width, self.masks.len() as int, i, side)
    }

    /// Whether cell `i` has a neighbour on `side` and the two are open
    /// towards each other.
    pub open spec fn link(self, i: int, side: u8) -> bool {
        &&& self.has(i)
        &&& side < 4
        &&& self.next(i, side) is Some
        &&& opens(self.masks[i], side)
        &&& opens(self.masks[self.next(i, side)->0], opposite(side))
    }

    /// Whether cell `i` is linked to cell `j` across `side`.
    pub open spec fn joins(self, i: int, j: int, side: u8) -> bool {
        self.link(i, side) && self.next(i, side) == Some(j)
    }

    /// Whether the cells `i` and `j` lie next to each other and are open
    /// towards each other.
    #[verifier::opaque]
    pub open spec fn linked(self, i: int, j: int) -> bool {
        self.joins(i, j, 0) || self.joins(i, j, 1) || self.joins(i, j, 2) || self.joins(i, j, 3)
    }

    /// Whether `path` is a chain of linked cells.
    pub open spec fn is_path(self, path: Seq<int>) -> bool {
        &&& path.len() > 0
        &&& self.has(path[0])
        &&& forall|k: int| 0 <= k < path.len() - 1 ==> self.linked(#[trigger] path[k], path[k + 1])
    }

    /// Whether a chain of linked cells leads from `a` to `b`. Every cell is
    /// connected to itself.
    pub open spec fn connected(self, a: int, b: int) -> bool {
        exists|path: Seq<int>| #[trigger] self.is_path(path) && path[0] == a && path.last() == b
    }

    /// Whether no link leads out of the set `cells`.
    pub open spec fn closed(self, cells: Set<int>) -> bool {
        forall|u: int, v: int| cells.contains(u) && #[trigger] self.linked(u, v) ==> cells.contains(v)
    }

    /// Whether the side `side` of cell `i` is closed or meets an opening of
    /// the neighbour, so that nothing is left dangling there.
    pub open spec fn matched(self, i: int, side: u8) -> bool {
        opens(self.masks[i], side) ==> self.link(i, side)
    }

    /// Whether no opening of the grid is left dangling.
    pub open spec fn all_matched(self) -> bool {
        forall|i: int, side: u8| self.has(i) && side < 4 ==> #[trigger] self.matched(i, side)
    }

    /// Whether every cell is connected to every other.
    pub open spec fn all_connected(self) -> bool {
        forall|a: int, b: int| self.has(a) && self.has(b) ==> #[trigger] self.connected(a, b)
    }

    /// The grid with the mask of cell `i` replaced.
    pub open spec fn with_mask(self, i: int, mask: u8) -> Tiles {
        Tiles { width: self.width, height: self.height, masks: self.masks.update(i, mask) }
    }

    /// Cells joined across a side are linked.
    pub proof fn lemma_joins(self, i: int, j: int, side: u8)
        requires
            side < 4,
            self.joins(i, j, side),
        ensures
            self.linked(i, j),
    {
        reveal(Tiles::linked);
    }

    /// Linked cells are joined across one of the four sides.
    pub proof fn lemma_linked_side(self, i: int, j: int)
        requires
            self.linked(i, j),
        ensures
            self.joins(i, j, 0) || self.joins(i, j, 1) || self.joins(i, j, 2) || self.joins(i, j, 3),
    {
        reveal(Tiles::linked);
    }

    /// A link joins two cells of the grid, and joins them both ways.
    pub proof fn lemma_linked(self, i: int, j: int)
        requires
            self.wf(),
            self.linked(i, j),
        ensures
            self.has(i),
            self.has(j),
            i != j,
            self.linked(j, i),
    {
        reveal(Tiles::linked);
        assert(self.has(i));
        assert(0 <= i < self.width * self.height);
        assert(self.width > 0) by (nonlinear_arith)
            requires
                0 <= self.width,
                0 <= i < self.width * self.height,
        ;
        if self.joins(i, j, 0) {
            lemma_neighbor(self.width, self.height, i, 0);
            assert(self.joins(j, i, 2));
        } else if self.joins(i, j, 1) {
            lemma_neighbor(self.width, self.height, i, 1);
            assert(self.joins(j, i, 3));
        } else if self.joins(i, j, 2) {
            lemma_neighbor(self.width, self.height, i, 2);
            assert(self.joins(j, i, 0));
        } else {
            lemma_neighbor(self.width, self.height, i, 3);
            assert(self.joins(j, i, 1));
        }
    }

    /// Every cell is connected to itself.
    pub proof fn lemma_connected_self(self, a: int)
        requires
            self.has(a),
        ensures
            self.connected(a, a),
    {
        let path = seq![a];
        assert(self.is_path(path));
        assert(path[0] == a && path.last() == a);
    }

    /// A chain from `a` to `b` and a link from `b` to `c` make a chain from
    /// `a` to `c`.
    pub proof fn lemma_connected_step(self, a: int, b: int, c: int)
        requires
            self.connected(a, b),
            self.linked(b, c),
        ensures
            self.connected(a, c),
    {
        let path = choose|path: Seq<int>| #[trigger]
            self.is_path(path) && path[0] == a && path.last() == b;
        let longer = path.push(c);
        assert forall|k: int| 0 <= k < longer.len() - 1 implies self.linked(
            #[trigger] longer[k],
            longer[k + 1],
        ) by {
            if k < path.len() - 1 {
                assert(self.linked(path[k], path[k + 1]));
            }
        }
        assert(self.is_path(longer));
        assert(longer[0] == a && longer.last() == c);
    }

    /// Every cell of a chain that starts in a closed set lies in that set.
    proof fn lemma_path_stays(self, path: Seq<int>, cells: Set<int>, k: int)
        requires
            self.is_path(path),
            cells.contains(path[0]),
            self.closed(cells),
            0 <= k < path.len(),
        ensures
            cells.contains(path[k]),
        decreases k,
    {
        if k > 0 {
            self.lemma_path_stays(path, cells, k - 1);
            assert(self.linked(path[k - 1], path[k - 1 + 1]));
        }
    }

    /// A closed set that holds `a` holds every cell connected to `a`.
    pub proof fn lemma_connected_within(self, a: int, b: int, cells: Set<int>)
        requires
            self.connected(a, b),
            cells.contains(a),
            self.closed(cells),
        ensures
            cells.contains(b),
    {
        let path = choose|path: Seq<int>| #[trigger]
            self.is_path(path) && path[0] == a && path.last() == b;
        self.lemma_path_stays(path, cells, path.len() - 1);
    }

    /// Connected cells are cells of the grid.
    pub proof fn lemma_connected_has(self, a: int, b: int)
        requires
            self.wf(),
            self.connected(a, b),
        ensures
            self.has(a),
            self.has(b),
    {
        let cells = Set::new(|x: int| self.has(x));
        assert forall|u: int, v: int| cells.contains(u) && #[trigger] self.linked(u, v) implies cells.contains(
            v,
        ) by {
            self.lemma_linked(u, v);
        }
        let path = choose|path: Seq<int>| #[trigger]
            self.is_path(path) && path[0] == a && path.last() == b;
        self.lemma_connected_within(a, b, cells);
    }

    /// Chains can be joined end to end.
    pub proof fn lemma_connected_trans(self, a: int, b: int, c: int)
        requires
            self.connected(a, b),
            self.connected(b, c),
        ensures
            self.connected(a, c),
    {
        let cells = Set::new(|x: int| self.connected(a, x));
        assert forall|u: int, v: int| cells.contains(u) && #[trigger] self.linked(u, v) implies cells.contains(
            v,
        ) by {
            self.lemma_connected_step(a, u, v);
        }
        self.lemma_connected_within(b, c, cells);
    }

    /// Chains can be walked backwards.
    pub proof fn lemma_connected_sym(self, a: int, b: int)
        requires
            self.wf(),
            self.connected(a, b),
        ensures
            self.connected(b, a),
    {
        self.lemma_connected_has(a, b);
        let cells = Set::new(|x: int| self.connected(x, a));
        self.lemma_connected_self(a);
        assert forall|u: int, v: int| cells.contains(u) && #[trigger] self.linked(u, v) implies cells.contains(
            v,
        ) by {
            self.lemma_linked(u, v);
            self.lemma_connected_self(v);
            self.lemma_connected_step(v, v, u);
            self.lemma_connected_trans(v, u, a);
        }
        self.lemma_connected_within(a, b, cells);
    }

    /// The cell `c` and the cells next to it.
    pub open spec fn near(self, c: int) -> Set<int> {
        Set::new(
            |v: int|
                v == c || self.next(c, 0) == Some(v) || self.next(c, 1) == Some(v) || self.next(c, 2)
                    == Some(v) || self.next(c, 3) == Some(v),
        )
    }

    /// A link from or to `c` joins it to a cell next to it.
    pub proof fn lemma_linked_near(self, c: int, v: int)
        requires
            self.wf(),
            self.linked(c, v) || self.linked(v, c),
        ensures
            self.near(c).contains(v),
    {
        if self.linked(v, c) {
            self.lemma_linked(v, c);
        }
        self.lemma_linked_side(c, v);
    }

    /// Replacing the mask of `c` leaves the links between other cells as
    /// they are.
    pub proof fn lemma_linked_elsewhere(self, c: int, mask: u8, u: int, v: int)
        requires
            self.wf(),
            mask < 16,
            u != c,
            v != c,
            self.has(c),
        ensures
            self.with_mask(c, mask).wf(),
            self.with_mask(c, mask).linked(u, v) == self.linked(u, v),
    {
        let other = self.with_mask(c, mask);
        assert(other.wf());
        if self.linked(u, v) {
            self.lemma_linked(u, v);
        }
        if other.linked(u, v) {
            other.lemma_linked(u, v);
        }
        reveal(Tiles::linked);
    }

    /// Linked cells are connected.
    pub proof fn lemma_linked_connected(self, a: int, b: int)
        requires
            self.wf(),
            self.linked(a, b),
        ensures
            self.connected(a, b),
    {
        self.lemma_linked(a, b);
        self.lemma_connected_self(a);
        self.lemma_connected_step(a, a, b);
    }
}

} // verus!
