//! The maze that seeds a level.
//!
//! A maze is a grid of masks in which every opening meets an opening of
//! the cell next door and all cells are connected. It is grown cell by
//! cell from a random start, each new cell linked to a cell that the maze
//! holds already; then each dead end gets a second opening where it has a
//! neighbour to link with.

use vstd::prelude::*;
use rand::rngs::SmallRng;
use crate::grid::{lemma_neighbor, neighbor_of, Tiles};
use crate::pipe::{mask_opens, opens, opposite, opposite_side};
use crate::random::{gen_range, sample};
use crate::tracker::stacked;

verus! {

/// The mask `mask` with the side `side` opened.
pub open spec fn with_side(mask: u8, side: u8) -> u8 {
    mask | (1u8 << side)
}

/// Opening a side opens that side and no other, and leaves no mask empty.
pub proof fn lemma_with_side(mask: u8, side: u8, other: u8)
    requires
        mask < 16,
        side < 4,
        other < 4,
    ensures
        with_side(mask, side) < 16,
        with_side(mask, side) != 0,
        opens(with_side(mask, side), other) == (opens(mask, other) || other == side),
{
    assert((mask | (1u8 << side)) < 16 && (mask | (1u8 << side)) != 0) by (bit_vector)
        requires
            mask < 16,
            side < 4,
    ;
    assert(((mask | (1u8 << side)) & (1u8 << other) != 0) == ((mask & (1u8 << other) != 0) || other
        == side)) by (bit_vector)
        requires
            mask < 16,
            side < 4,
            other < 4,
    ;
}

/// A mask without openings opens no side.
pub proof fn lemma_blank(side: u8)
    requires
        side < 4,
    ensures
        !opens(0, side),
{
    assert(0u8 & (1u8 << side) == 0) by (bit_vector);
}

/// The grid of masks `masks` in rows of `width`.
pub open spec fn grid_of(width: u8, height: u8, masks: Seq<u8>) -> Tiles {
    Tiles { width: width as int, height: height as int, masks }
}

/// The grid `tiles` with a link added from cell `i` across `side`.
pub open spec fn joined(tiles: Tiles, i: int, side: u8) -> Tiles {
    let j = tiles.next(i, side)->0;
    Tiles {
        width: tiles.width,
        height: tiles.height,
        masks: tiles.masks.update(i, with_side(tiles.masks[i], side)).update(
            j,
            with_side(tiles.masks[j], opposite(side)),
        ),
    }
}

/// The number of cells without any opening.
pub open spec fn blanks(masks: Seq<u8>) -> nat
    decreases masks.len(),
{
    if masks.len() == 0 {
        0
    } else {
        blanks(masks.drop_last()) + if masks.last() == 0 {
            1nat
        } else {
            0nat
        }
    }
}

/// Replacing a mask by one with openings leaves no more blank cells than
/// before, and one fewer if the cell was blank.
proof fn lemma_blanks_update(masks: Seq<u8>, i: int, mask: u8)
    requires
        0 <= i < masks.len(),
        mask != 0,
    ensures
        blanks(masks.update(i, mask)) + if masks[i] == 0 {
            1nat
        } else {
            0nat
        } == blanks(masks),
    decreases masks.len(),
{
    let after = masks.update(i, mask);
    if i == masks.len() - 1 {
        assert(after.drop_last() =~= masks.drop_last());
    } else {
        lemma_blanks_update(masks.drop_last(), i, mask);
        assert(after.drop_last() =~= masks.drop_last().update(i, mask));
    }
}

/// A link added to a grid keeps the grid well formed and the links it had,
/// and keeps every opening matched if every opening was.
pub proof fn lemma_joined(tiles: Tiles, i: int, side: u8)
    requires
        tiles.wf(),
        tiles.has(i),
        side < 4,
        tiles.next(i, side) is Some,
    ensures
        joined(tiles, i, side).wf(),
        joined(tiles, i, side).linked(i, tiles.next(i, side)->0),
        forall|u: int, v: int| tiles.linked(u, v) ==> #[trigger] joined(tiles, i, side).linked(u, v),
        tiles.all_matched() ==> joined(tiles, i, side).all_matched(),
        forall|c: int, s: u8|
            tiles.has(c) && s < 4 ==> #[trigger] opens(joined(tiles, i, side).masks[c], s) == (opens(
                tiles.masks[c],
                s,
            ) || (c == i && s == side) || (c == tiles.next(i, side)->0 && s == opposite(side))),
{
    let j = tiles.next(i, side)->0;
    let after = joined(tiles, i, side);
    assert(tiles.width > 0) by (nonlinear_arith)
        requires
            0 <= tiles.width,
            0 <= i < tiles.width * tiles.height,
    ;
    lemma_neighbor(tiles.width, tiles.height, i, side);
    assert forall|c: int, s: u8| tiles.has(c) && s < 4 implies #[trigger] opens(after.masks[c], s) == (opens(
        tiles.masks[c],
        s,
    ) || (c == i && s == side) || (c == j && s == opposite(side))) && after.masks[c] < 16 by {
        lemma_with_side(tiles.masks[c], side, s);
        lemma_with_side(tiles.masks[c], opposite(side), s);
    }
    assert(after.wf()) by {
        assert forall|c: int| 0 <= c < after.masks.len() implies #[trigger] after.masks[c] < 16 by {
            assert(tiles.has(c));
            lemma_with_side(tiles.masks[c], side, 0);
            lemma_with_side(tiles.masks[c], opposite(side), 0);
        }
    }
    assert forall|c: int, s: u8| after.has(c) && s < 4 && tiles.link(c, s) implies after.link(c, s) by {
        lemma_neighbor(tiles.width, tiles.height, c, s);
        let d = tiles.next(c, s)->0;
        assert(opens(after.masks[c], s));
        assert(opens(after.masks[d], opposite(s)));
    }
    assert forall|u: int, v: int| tiles.linked(u, v) implies #[trigger] after.linked(u, v) by {
        tiles.lemma_linked_side(u, v);
        if tiles.joins(u, v, 0) {
            assert(tiles.link(u, 0));
            after.lemma_joins(u, v, 0);
        } else if tiles.joins(u, v, 1) {
            assert(tiles.link(u, 1));
            after.lemma_joins(u, v, 1);
        } else if tiles.joins(u, v, 2) {
            assert(tiles.link(u, 2));
            after.lemma_joins(u, v, 2);
        } else {
            assert(tiles.link(u, 3));
            after.lemma_joins(u, v, 3);
        }
    }
    assert(after.link(i, side)) by {
        assert(opens(after.masks[i], side));
        assert(opens(after.masks[j], opposite(side)));
    }
    after.lemma_joins(i, j, side);
    if tiles.all_matched() {
        assert forall|c: int, s: u8| after.has(c) && s < 4 implies #[trigger] after.matched(c, s) by {
            if opens(after.masks[c], s) {
                if opens(tiles.masks[c], s) {
                    assert(tiles.matched(c, s));
                    assert(after.link(c, s));
                } else if c == i && s == side {
                } else {
                    assert(c == j && s == opposite(side));
                    assert(after.next(j, opposite(side)) == Some(i));
                    assert(opens(after.masks[i], side));
                    assert(opposite(opposite(side)) == side);
                }
            }
        }
    }
}

/// A link added to a grid adds that link, seen from either cell, and no
/// other.
pub proof fn lemma_joined_link(tiles: Tiles, i: int, side: u8, c: int, s: u8)
    requires
        tiles.wf(),
        tiles.has(i),
        side < 4,
        tiles.next(i, side) is Some,
        tiles.has(c),
        s < 4,
    ensures
        joined(tiles, i, side).link(c, s) == (tiles.link(c, s) || (c == i && s == side) || (c
            == tiles.next(i, side)->0 && s == opposite(side))),
{
    let j = tiles.next(i, side)->0;
    let after = joined(tiles, i, side);
    assert(tiles.width > 0) by (nonlinear_arith)
        requires
            0 <= tiles.width,
            0 <= i < tiles.width * tiles.height,
    ;
    lemma_neighbor(tiles.width, tiles.height, i, side);
    lemma_joined(tiles, i, side);
    if tiles.next(c, s) is Some {
        let d = tiles.next(c, s)->0;
        lemma_neighbor(tiles.width, tiles.height, c, s);
        assert(opens(after.masks[c], s) == (opens(tiles.masks[c], s) || (c == i && s == side) || (c == j
            && s == opposite(side))));
        assert(opens(after.masks[d], opposite(s)) == (opens(tiles.masks[d], opposite(s)) || (d == i
            && opposite(s) == side) || (d == j && opposite(s) == opposite(side))));
        assert(opposite(opposite(s)) == s);
        assert(opposite(opposite(side)) == side);
    }
}

/// Cells linked after a link was added were linked before, or are the two
/// cells of the new link.
pub proof fn lemma_joined_linked(tiles: Tiles, i: int, side: u8, u: int, v: int)
    requires
        tiles.wf(),
        tiles.has(i),
        side < 4,
        tiles.next(i, side) is Some,
        joined(tiles, i, side).linked(u, v),
    ensures
        tiles.linked(u, v) || (u == i && v == tiles.next(i, side)->0) || (u == tiles.next(i, side)->0 && v
            == i),
{
    let j = tiles.next(i, side)->0;
    let after = joined(tiles, i, side);
    lemma_joined(tiles, i, side);
    assert(tiles.width > 0) by (nonlinear_arith)
        requires
            0 <= tiles.width,
            0 <= i < tiles.width * tiles.height,
    ;
    lemma_neighbor(tiles.width, tiles.height, i, side);
    after.lemma_linked(u, v);
    after.lemma_linked_side(u, v);
    assert(tiles.has(u));
    if after.joins(u, v, 0) {
        lemma_joined_link(tiles, i, side, u, 0);
        if tiles.link(u, 0) {
            tiles.lemma_joins(u, v, 0);
        }
    } else if after.joins(u, v, 1) {
        lemma_joined_link(tiles, i, side, u, 1);
        if tiles.link(u, 1) {
            tiles.lemma_joins(u, v, 1);
        }
    } else if after.joins(u, v, 2) {
        lemma_joined_link(tiles, i, side, u, 2);
        if tiles.link(u, 2) {
            tiles.lemma_joins(u, v, 2);
        }
    } else {
        lemma_joined_link(tiles, i, side, u, 3);
        if tiles.link(u, 3) {
            tiles.lemma_joins(u, v, 3);
        }
    }
}

/// The cell from which a link across `side` of cell `i` leads east or
/// south: the cell that the link is counted with.
pub open spec fn link_owner(tiles: Tiles, i: int, side: u8) -> int {
    if side < 2 {
        i
    } else {
        tiles.next(i, side)->0
    }
}

/// A link added where there was none is one link more among the links
/// counted up to a cell beyond its owner, and none among those counted up
/// to the owner.
pub proof fn lemma_joined_count(tiles: Tiles, i: int, side: u8, upto: int)
    requires
        tiles.wf(),
        tiles.has(i),
        side < 4,
        tiles.next(i, side) is Some,
        !tiles.link(i, side),
        0 <= upto <= tiles.masks.len(),
    ensures
        joined(tiles, i, side).links_upto(upto) == tiles.links_upto(upto) + if link_owner(tiles, i, side)
            < upto {
            1nat
        } else {
            0nat
        },
    decreases upto,
{
    if upto > 0 {
        let j = tiles.next(i, side)->0;
        let c = upto - 1;
        lemma_joined_count(tiles, i, side, upto - 1);
        lemma_joined_link(tiles, i, side, c, 0);
        lemma_joined_link(tiles, i, side, c, 1);
        assert(tiles.width > 0) by (nonlinear_arith)
            requires
                0 <= tiles.width,
                0 <= i < tiles.width * tiles.height,
        ;
        lemma_neighbor(tiles.width, tiles.height, i, side);
        if tiles.link(j, opposite(side)) {
            assert(opposite(opposite(side)) == side);
            assert(tiles.link(i, side));
        }
        let after = joined(tiles, i, side);
        let owner = link_owner(tiles, i, side);
        let owner_side = if side < 2 {
            side
        } else {
            opposite(side)
        };
        assert(i != j);
        assert(after.link(c, 0) == (tiles.link(c, 0) || (c == owner && owner_side == 0)));
        assert(after.link(c, 1) == (tiles.link(c, 1) || (c == owner && owner_side == 1)));
        assert(!tiles.link(owner, owner_side));
        assert(after.links_upto(upto) == after.links_upto(upto - 1) + if after.link(c, 0) {
            1nat
        } else {
            0nat
        } + if after.link(c, 1) {
            1nat
        } else {
            0nat
        });
        assert(tiles.links_upto(upto) == tiles.links_upto(upto - 1) + if tiles.link(c, 0) {
            1nat
        } else {
            0nat
        } + if tiles.link(c, 1) {
            1nat
        } else {
            0nat
        });
        assert(owner_side == 0 || owner_side == 1);
        if c == owner {
            assert(after.links_upto(upto) == tiles.links_upto(upto) + 1);
        } else {
            assert(after.link(c, 0) == tiles.link(c, 0));
            assert(after.link(c, 1) == tiles.link(c, 1));
        }
    } else {
        assert(joined(tiles, i, side).links_upto(upto) == 0);
        assert(tiles.links_upto(upto) == 0);
        assert(tiles.has(link_owner(tiles, i, side))) by {
            assert(tiles.width > 0) by (nonlinear_arith)
                requires
                    0 <= tiles.width,
                    0 <= i < tiles.width * tiles.height,
            ;
            lemma_neighbor(tiles.width, tiles.height, i, side);
        }
    }
}

/// Cells connected in a grid stay connected in a grid that has all its
/// links.
pub proof fn lemma_more_links(tiles: Tiles, more: Tiles, a: int, b: int)
    requires
        more.masks.len() == tiles.masks.len(),
        forall|u: int, v: int| tiles.linked(u, v) ==> #[trigger] more.linked(u, v),
        tiles.connected(a, b),
    ensures
        more.connected(a, b),
{
    let path = choose|path: Seq<int>| #[trigger] tiles.is_path(path) && path[0] == a && path.last() == b;
    more.lemma_connected_self(a);
    let reach = Set::new(|x: int| more.connected(a, x));
    assert forall|u: int, v: int| reach.contains(u) && #[trigger] tiles.linked(u, v) implies reach.contains(
        v,
    ) by {
        more.lemma_connected_step(a, u, v);
    }
    tiles.lemma_connected_within(a, b, reach);
}

/// Four different sides are all the sides there are.
pub proof fn lemma_all_sides(order: Seq<usize>, side: u8)
    requires
        order.len() == 4,
        order.no_duplicates(),
        forall|k: int| 0 <= k < 4 ==> #[trigger] order[k] < 4,
        side < 4,
    ensures
        exists|k: int| 0 <= k < 4 && #[trigger] order[k] == side,
{
    assert(order[0] < 4 && order[1] < 4 && order[2] < 4 && order[3] < 4);
    if order[0] != side && order[1] != side && order[2] != side && order[3] != side {
        assert(order[0] != order[1] && order[0] != order[2] && order[0] != order[3] && order[1]
            != order[2] && order[1] != order[3] && order[2] != order[3]);
    }
}

/// Whether the cell `i` may be linked across `side`: it has a neighbour
/// there, which is blank or, for a dead end, not linked to it yet.
pub open spec fn may_join(tiles: Tiles, i: int, side: u8, dead_end: bool) -> bool {
    &&& tiles.next(i, side) is Some
    &&& if dead_end {
        !opens(tiles.masks[tiles.next(i, side)->0], opposite(side))
    } else {
        tiles.masks[tiles.next(i, side)->0] == 0
    }
}

/// The first side in `order` across which the cell `curr` may be linked,
/// with the cell on that side.
pub fn pick_side(
    width: u8,
    height: u8,
    grid: &Vec<u8>,
    curr: usize,
    order: &Vec<usize>,
    dead_end: bool,
) -> (found: Option<(u8, usize)>)
    requires
        grid@.len() == width * height,
        curr < grid@.len(),
        forall|k: int| 0 <= k < order@.len() ==> #[trigger] order@[k] < 4,
    ensures
        match found {
            Some((side, next)) => {
                &&& side < 4
                &&& may_join(grid_of(width, height, grid@), curr as int, side, dead_end)
                &&& grid_of(width, height, grid@).next(curr as int, side) == Some(next as int)
                &&& next < grid@.len()
                &&& next != curr
                &&& exists|k: int|
                    {
                        &&& 0 <= k < order@.len()
                        &&& #[trigger] order@[k] == side
                        &&& forall|e: int|
                            0 <= e < k ==> !may_join(
                                grid_of(width, height, grid@),
                                curr as int,
                                #[trigger] order@[e] as u8,
                                dead_end,
                            )
                    }
            },
            None => forall|k: int|
                0 <= k < order@.len() ==> !may_join(
                    grid_of(width, height, grid@),
                    curr as int,
                    #[trigger] order@[k] as u8,
                    dead_end,
                ),
        },
{
    let ghost tiles = grid_of(width, height, grid@);
    let mut k: usize = 0;
    while k < order.len()
        invariant
            tiles == grid_of(width, height, grid@),
            grid@.len() == width * height,
            curr < grid@.len(),
            k <= order@.len(),
            forall|e: int| 0 <= e < order@.len() ==> #[trigger] order@[e] < 4,
            forall|e: int| 0 <= e < k ==> !may_join(tiles, curr as int, #[trigger] order@[e] as u8, dead_end),
        decreases order@.len() - k,
    {
        let side = order[k] as u8;
        match neighbor_of(width, height, curr, side) {
            Some(next) => {
                let free = if dead_end {
                    !mask_opens(grid[next], opposite_side(side))
                } else {
                    grid[next] == 0
                };
                if free {
                    assert(order@[k as int] == side);
                    return Some((side, next));
                }
            },
            None => {},
        }
        k = k + 1;
    }
    None
}

/// Links the cell `curr` with the cell `next` on its `side`.
pub fn join(width: u8, height: u8, grid: &mut Vec<u8>, curr: usize, next: usize, side: u8)
    requires
        grid_of(width, height, old(grid)@).wf(),
        curr < old(grid)@.len(),
        side < 4,
        grid_of(width, height, old(grid)@).next(curr as int, side) == Some(next as int),
    ensures
        grid_of(width, height, final(grid)@) == joined(grid_of(width, height, old(grid)@), curr as int, side),
{
    proof {
        lemma_neighbor(width as int, height as int, curr as int, side);
        assert(width > 0) by (nonlinear_arith)
            requires
                0 <= curr < width * height,
        ;
    }
    let other = opposite_side(side);
    let here = grid[curr] | (1u8 << side);
    grid[curr] = here;
    let there = grid[next] | (1u8 << other);
    grid[next] = there;
    assert(grid@ =~= joined(grid_of(width, height, old(grid)@), curr as int, side).masks);
}

/// How many steps east or west and north or south lie between two cells.
pub open spec fn apart(width: int, a: int, b: int) -> int {
    let dx = a % width - b % width;
    let dy = a / width - b / width;
    (if dx < 0 {
        -dx
    } else {
        dx
    }) + (if dy < 0 {
        -dy
    } else {
        dy
    })
}

/// A set of cells that holds one cell and, with each of its cells, the
/// cells next to it, holds every cell of the grid.
pub proof fn lemma_grid_spans(tiles: Tiles, cells: Set<int>, start: int, v: int)
    requires
        tiles.wf(),
        tiles.has(start),
        tiles.has(v),
        cells.contains(start),
        forall|c: int, side: u8|
            cells.contains(c) && tiles.has(c) && side < 4 && (#[trigger] tiles.next(c, side)) is Some
                ==> cells.contains(tiles.next(c, side)->0),
    ensures
        cells.contains(v),
    decreases apart(tiles.width, v, start),
{
    let w = tiles.width;
    assert(w > 0) by (nonlinear_arith)
        requires
            0 <= w,
            0 <= v < w * tiles.height,
    ;
    let x = v % w;
    let y = v / w;
    let sx = start % w;
    let sy = start / w;
    vstd::arithmetic::div_mod::lemma_fundamental_div_mod(v, w);
    vstd::arithmetic::div_mod::lemma_fundamental_div_mod(start, w);
    assert(0 <= y < tiles.height && 0 <= sy < tiles.height) by (nonlinear_arith)
        requires
            0 < w,
            0 <= v < w * tiles.height,
            0 <= start < w * tiles.height,
            v == w * y + x,
            start == w * sy + sx,
            0 <= x < w,
            0 <= sx < w,
    ;
    if x > sx {
        vstd::arithmetic::div_mod::lemma_fundamental_div_mod_converse(v - 1, w, y, x - 1);
        lemma_grid_spans(tiles, cells, start, v - 1);
        assert(tiles.next(v - 1, 0) == Some(v));
    } else if x < sx {
        vstd::arithmetic::div_mod::lemma_fundamental_div_mod_converse(v + 1, w, y, x + 1);
        assert(w * y + x + 1 < w * tiles.height) by (nonlinear_arith)
            requires
                0 < w,
                0 <= y < tiles.height,
                x + 1 < w,
        ;
        lemma_grid_spans(tiles, cells, start, v + 1);
        assert(tiles.next(v + 1, 2) == Some(v));
    } else if y > sy {
        assert(w * (y - 1) == w * y - w) by (nonlinear_arith);
        vstd::arithmetic::div_mod::lemma_fundamental_div_mod_converse(v - w, w, y - 1, x);
        lemma_grid_spans(tiles, cells, start, v - w);
        assert(tiles.next(v - w, 1) == Some(v));
    } else if y < sy {
        assert(w * (y + 1) == w * y + w) by (nonlinear_arith);
        vstd::arithmetic::div_mod::lemma_fundamental_div_mod_converse(v + w, w, y + 1, x);
        assert(w * (y + 1) + x < w * tiles.height) by (nonlinear_arith)
            requires
                0 < w,
                0 <= y + 1 < tiles.height,
                0 <= x < w,
        ;
        lemma_grid_spans(tiles, cells, start, v + w);
        assert(tiles.next(v + w, 3) == Some(v));
    } else {
        assert(v == start);
    }
}

/// Whether `ring` is a round trip: three or more different cells, each
/// linked to the next and the last to the first.
pub open spec fn is_cycle(tiles: Tiles, ring: Seq<int>) -> bool {
    &&& ring.len() >= 3
    &&& ring.no_duplicates()
    &&& forall|k: int| 0 <= k < ring.len() - 1 ==> tiles.linked(#[trigger] ring[k], ring[k + 1])
    &&& tiles.linked(ring.last(), ring[0])
}

/// Whether the links of the grid make no round trip.
pub open spec fn acyclic(tiles: Tiles) -> bool {
    forall|ring: Seq<int>| !#[trigger] is_cycle(tiles, ring)
}

/// Whether the grid is a tree that spans all cells: every opening is
/// matched, all cells are connected, there is one link fewer than cells,
/// and no round trip.
pub open spec fn is_tree(tiles: Tiles) -> bool {
    &&& tiles.wf()
    &&& tiles.all_matched()
    &&& tiles.all_connected()
    &&& tiles.link_count() + 1 == tiles.masks.len()
    &&& acyclic(tiles)
}

/// Whether `rank` puts the cells with openings in an order, by numbers
/// below `count`, in which no cell is linked to two cells before it.
pub open spec fn ranked(tiles: Tiles, rank: Seq<int>, count: int) -> bool {
    &&& rank.len() == tiles.masks.len()
    &&& forall|c: int| tiles.has(c) && tiles.masks[c] != 0 ==> 0 <= #[trigger] rank[c] < count
    &&& forall|a: int, b: int|
        tiles.has(a) && tiles.has(b) && a != b && tiles.masks[a] != 0 && tiles.masks[b] != 0
            ==> #[trigger] rank[a] != #[trigger] rank[b]
    &&& forall|c: int, a: int, b: int|
        #[trigger] tiles.linked(c, a) && #[trigger] tiles.linked(c, b) && rank[a] < rank[c] && rank[b]
            < rank[c] ==> a == b
}

/// Linked cells have openings.
pub proof fn lemma_linked_open(tiles: Tiles, u: int, v: int)
    requires
        tiles.wf(),
        tiles.linked(u, v),
    ensures
        tiles.masks[u] != 0,
        tiles.masks[v] != 0,
{
    tiles.lemma_linked(u, v);
    tiles.lemma_linked_side(u, v);
    tiles.lemma_linked_side(v, u);
    lemma_blank(0);
    lemma_blank(1);
    lemma_blank(2);
    lemma_blank(3);
}

/// Among the first cells of a ring one has the highest rank.
proof fn lemma_highest(ring: Seq<int>, rank: Seq<int>, upto: int) -> (top: int)
    requires
        0 <= upto < ring.len(),
    ensures
        0 <= top <= upto,
        forall|k: int| 0 <= k <= upto ==> rank[#[trigger] ring[k]] <= rank[ring[top]],
    decreases upto,
{
    if upto == 0 {
        0
    } else {
        let before = lemma_highest(ring, rank, upto - 1);
        if rank[ring[upto]] > rank[ring[before]] {
            upto
        } else {
            before
        }
    }
}

/// A grid whose cells are in an order in which no cell is linked to two
/// cells before it has no round trip: the last cell of a round trip would
/// be linked to two.
pub proof fn lemma_ranked_acyclic(tiles: Tiles, rank: Seq<int>, count: int)
    requires
        tiles.wf(),
        ranked(tiles, rank, count),
    ensures
        acyclic(tiles),
{
    assert forall|ring: Seq<int>| !#[trigger] is_cycle(tiles, ring) by {
        if is_cycle(tiles, ring) {
            let len = ring.len() as int;
            let top = lemma_highest(ring, rank, len - 1);
            let after = if top == len - 1 {
                0
            } else {
                top + 1
            };
            let before = if top == 0 {
                len - 1
            } else {
                top - 1
            };
            let c = ring[top];
            let a = ring[after];
            let b = ring[before];
            assert(tiles.linked(c, a)) by {
                if top < len - 1 {
                    assert(tiles.linked(ring[top], ring[top + 1]));
                }
            }
            assert(tiles.linked(b, c)) by {
                if top > 0 {
                    assert(tiles.linked(ring[top - 1], ring[top - 1 + 1]));
                }
            }
            tiles.lemma_linked(b, c);
            tiles.lemma_linked(c, a);
            lemma_linked_open(tiles, c, a);
            lemma_linked_open(tiles, c, b);
            assert(a != b && a != c && b != c);
            assert(rank[a] <= rank[c] && rank[b] <= rank[c]);
            assert(rank[a] != rank[c]);
            assert(rank[b] != rank[c]);
        }
    }
}

/// Where no cell but `start` is blank, the number of blank cells is one or
/// none.
pub proof fn lemma_blanks_only(masks: Seq<u8>, start: int)
    requires
        forall|c: int| 0 <= c < masks.len() && c != start ==> #[trigger] masks[c] != 0,
    ensures
        blanks(masks) == if 0 <= start < masks.len() && masks[start] == 0 {
            1nat
        } else {
            0nat
        },
    decreases masks.len(),
{
    if masks.len() > 0 {
        let rest = masks.drop_last();
        assert forall|c: int| 0 <= c < rest.len() && c != start implies #[trigger] rest[c] != 0 by {
            assert(rest[c] == masks[c]);
        }
        lemma_blanks_only(rest, start);
        if 0 <= start < rest.len() {
            assert(rest[start] == masks[start]);
        }
    }
}

/// A grid without links counts no links.
pub proof fn lemma_no_links(tiles: Tiles, upto: int)
    requires
        forall|c: int, s: u8| s < 4 ==> !#[trigger] tiles.link(c, s),
    ensures
        tiles.links_upto(upto) == 0,
    decreases upto,
{
    if upto > 0 {
        lemma_no_links(tiles, upto - 1);
        assert(!tiles.link(upto - 1, 0));
        assert(!tiles.link(upto - 1, 1));
    }
}

/// Where all cells are blank, their number is the number of blank cells.
pub proof fn lemma_blanks_all(masks: Seq<u8>)
    requires
        forall|c: int| 0 <= c < masks.len() ==> #[trigger] masks[c] == 0,
    ensures
        blanks(masks) == masks.len(),
    decreases masks.len(),
{
    if masks.len() > 0 {
        let rest = masks.drop_last();
        assert forall|c: int| 0 <= c < rest.len() implies #[trigger] rest[c] == 0 by {
            assert(rest[c] == masks[c]);
        }
        lemma_blanks_all(rest);
    }
}

/// Whether the grid is a tree in the making: a growing maze whose cells
/// are in the order `rank`, with one link fewer than cells with openings.
pub open spec fn sprouting(tiles: Tiles, start: int, rank: Seq<int>, count: int) -> bool {
    &&& growing(tiles, start)
    &&& ranked(tiles, rank, count)
    &&& count >= 1
    &&& rank[start] == 0
    &&& tiles.masks[start] == 0 ==> forall|c: int| tiles.has(c) ==> #[trigger] tiles.masks[c] == 0
    &&& tiles.link_count() + blanks(tiles.masks) + 1 == tiles.masks.len() + if tiles.masks[start] == 0 {
        1int
    } else {
        0int
    }
}

/// A link from a cell of a tree in the making to a blank cell next door
/// leaves a tree in the making, with the new cell last in the order.
pub proof fn lemma_sprouted(tiles: Tiles, start: int, rank: Seq<int>, count: int, curr: int, side: u8)
    requires
        sprouting(tiles, start, rank, count),
        tiles.has(curr),
        tiles.masks[curr] != 0 || curr == start,
        side < 4,
        tiles.next(curr, side) is Some,
        tiles.masks[tiles.next(curr, side)->0] == 0,
    ensures
        sprouting(joined(tiles, curr, side), start, rank.update(tiles.next(curr, side)->0, count), count + 1),
{
    let next = tiles.next(curr, side)->0;
    let after = joined(tiles, curr, side);
    let order = rank.update(next, count);
    assert(tiles.width > 0) by (nonlinear_arith)
        requires
            0 <= tiles.width,
            0 <= curr < tiles.width * tiles.height,
    ;
    lemma_neighbor(tiles.width, tiles.height, curr, side);
    lemma_grown(tiles, start, curr, side);
    lemma_joined(tiles, curr, side);
    lemma_with_side(tiles.masks[curr], side, 0);
    lemma_with_side(tiles.masks[next], opposite(side), 0);
    lemma_blank(opposite(side));
    assert(!tiles.link(curr, side));
    lemma_joined_count(tiles, curr, side, tiles.masks.len() as int);
    let here = with_side(tiles.masks[curr], side);
    let there = with_side(tiles.masks[next], opposite(side));
    lemma_blanks_update(tiles.masks, curr, here);
    lemma_blanks_update(tiles.masks.update(curr, here), next, there);
    assert(next != start) by {
        if next == start {
            assert(tiles.masks[start] == 0);
            assert(tiles.masks[curr] == 0);
        }
    }
    assert(after.masks[start] != 0) by {
        if tiles.masks[start] == 0 {
            assert(tiles.masks[curr] == 0);
        }
    }
    assert forall|c: int| after.has(c) && after.masks[c] != 0 implies 0 <= #[trigger] order[c] < count
        + 1 by {
        if c != next && c != curr {
            assert(tiles.masks[c] == after.masks[c]);
        }
    }
    assert forall|a: int, b: int|
        after.has(a) && after.has(b) && a != b && after.masks[a] != 0 && after.masks[b] != 0 implies #[trigger] order[a]
        != #[trigger] order[b] by {
        if a != next && a != curr {
            assert(tiles.masks[a] == after.masks[a]);
        }
        if b != next && b != curr {
            assert(tiles.masks[b] == after.masks[b]);
        }
        if tiles.masks[curr] == 0 {
            assert(tiles.masks[start] == 0);
        }
    }
    assert forall|c: int, a: int, b: int|
        #[trigger] after.linked(c, a) && #[trigger] after.linked(c, b) && order[a] < order[c] && order[b]
            < order[c] implies a == b by {
        lemma_joined_linked(tiles, curr, side, c, a);
        lemma_joined_linked(tiles, curr, side, c, b);
        lemma_linked_open(after, c, a);
        lemma_linked_open(after, c, b);
        after.lemma_linked(c, a);
        after.lemma_linked(c, b);
        if tiles.linked(c, a) {
            lemma_linked_open(tiles, c, a);
        }
        if tiles.linked(c, b) {
            lemma_linked_open(tiles, c, b);
        }
        if c == next {
        } else {
            assert(order[c] < count);
        }
    }
    assert(after.masks[start] == 0 ==> forall|c: int| after.has(c) ==> #[trigger] after.masks[c] == 0);
}

/// Whether the grid is a maze in the making: every opening is matched, and
/// every cell with an opening is connected to the cell `start`.
pub open spec fn growing(tiles: Tiles, start: int) -> bool {
    &&& tiles.wf()
    &&& tiles.has(start)
    &&& tiles.all_matched()
    &&& forall|c: int|
        tiles.has(c) && (#[trigger] tiles.masks[c] != 0 || c == start) ==> tiles.connected(start, c)
}

/// A link from a cell of a growing maze to a cell next door leaves a
/// growing maze, with fewer blank cells if the cell next door was blank.
pub proof fn lemma_grown(tiles: Tiles, start: int, curr: int, side: u8)
    requires
        growing(tiles, start),
        tiles.has(curr),
        tiles.masks[curr] != 0 || curr == start,
        side < 4,
        tiles.next(curr, side) is Some,
    ensures
        growing(joined(tiles, curr, side), start),
        joined(tiles, curr, side).masks[curr] != 0,
        joined(tiles, curr, side).masks[tiles.next(curr, side)->0] != 0,
        forall|c: int| tiles.has(c) && tiles.masks[c] != 0 ==> #[trigger] joined(tiles, curr, side).masks[c] != 0,
        blanks(joined(tiles, curr, side).masks) + (if tiles.masks[tiles.next(curr, side)->0] == 0 {
            1nat
        } else {
            0nat
        }) <= blanks(tiles.masks),
{
    let next = tiles.next(curr, side)->0;
    let after = joined(tiles, curr, side);
    assert(tiles.width > 0) by (nonlinear_arith)
        requires
            0 <= tiles.width,
            0 <= curr < tiles.width * tiles.height,
    ;
    lemma_neighbor(tiles.width, tiles.height, curr, side);
    lemma_joined(tiles, curr, side);
    lemma_with_side(tiles.masks[curr], side, 0);
    lemma_with_side(tiles.masks[next], opposite(side), 0);
    let here = with_side(tiles.masks[curr], side);
    let there = with_side(tiles.masks[next], opposite(side));
    lemma_blanks_update(tiles.masks, curr, here);
    lemma_blanks_update(tiles.masks.update(curr, here), next, there);
    assert forall|c: int| tiles.has(c) && tiles.masks[c] != 0 implies #[trigger] after.masks[c] != 0 by {}
    assert forall|c: int| after.has(c) && (#[trigger] after.masks[c] != 0 || c == start) implies after.connected(
        start,
        c,
    ) by {
        lemma_more_links(tiles, after, start, curr);
        if c == next {
            after.lemma_connected_step(start, curr, next);
        } else if c == curr {
        } else {
            lemma_more_links(tiles, after, start, c);
        }
    }
}

/// Grows a maze over the whole grid: starting from a random cell, a random
/// cell of the maze that still has a blank cell next to it is linked with
/// one of them, chosen at random, until no cell is blank. The result is a
/// tree that spans all cells.
pub fn grow_tree(width: u8, height: u8, rng: &mut SmallRng) -> (grid: Vec<u8>)
    requires
        width >= 1,
        height >= 1,
    ensures
        is_tree(grid_of(width, height, grid@)),
{
    assert(width * height <= 255 * 255 && width * height >= 1) by (nonlinear_arith)
        requires
            1 <= width <= 255,
            1 <= height <= 255,
    ;
    let cells: usize = width as usize * height as usize;
    let mut grid: Vec<u8> = vec![0u8; cells];
    let start = gen_range(rng, 0, cells);
    let mut path: Vec<usize> = Vec::new();
    path.push(start);
    let ghost mut rank: Seq<int> = Seq::new(cells as nat, |c: int| 0int);
    let ghost mut count: int = 1;
    proof {
        let tiles = grid_of(width, height, grid@);
        assert forall|c: int, s: u8| tiles.has(c) && s < 4 implies #[trigger] tiles.matched(c, s) by {
            lemma_blank(s);
        }
        tiles.lemma_connected_self(start as int);
        assert(path@[0] == start);
        assert(stacked(path@, start as int));
        lemma_blanks_all(grid@);
        assert forall|c: int, a: int| !#[trigger] tiles.linked(c, a) by {
            if tiles.linked(c, a) {
                tiles.lemma_linked(c, a);
                lemma_linked_open(tiles, c, a);
            }
        }
        assert(tiles.links_upto(cells as int) == 0) by {
            assert forall|c: int, s: u8| s < 4 implies !#[trigger] tiles.link(c, s) by {
                lemma_blank(s);
            }
            lemma_no_links(tiles, cells as int);
        }
    }
    while path.len() > 0
        invariant
            width >= 1,
            height >= 1,
            cells == width * height,
            grid@.len() == cells,
            start < cells,
            sprouting(grid_of(width, height, grid@), start as int, rank, count),
            forall|k: int|
                0 <= k < path@.len() ==> #[trigger] path@[k] < cells && (grid@[path@[k] as int] != 0
                    || path@[k] == start),
            forall|c: int, side: u8|
                0 <= c < cells && (grid@[c] != 0 || c == start) && !stacked(path@, c) && side < 4 && (
                #[trigger] grid_of(width, height, grid@).next(c, side)) is Some ==> grid@[grid_of(
                    width,
                    height,
                    grid@,
                ).next(c, side)->0] != 0,
        decreases 2 * blanks(grid@) + path@.len(),
    {
        let ghost tiles = grid_of(width, height, grid@);
        let ghost stack = path@;
        let r = gen_range(rng, 0, path.len());
        let curr = path[r];
        let order = sample(rng, 4, 4);
        match pick_side(width, height, &grid, curr, &order, false) {
            Some((side, next)) => {
                proof {
                    lemma_grown(tiles, start as int, curr as int, side);
                    lemma_sprouted(tiles, start as int, rank, count, curr as int, side);
                    rank = rank.update(next as int, count);
                    count = count + 1;
                }
                join(width, height, &mut grid, curr, next, side);
                path.push(next);
                proof {
                    let after = grid_of(width, height, grid@);
                    assert(after == joined(tiles, curr as int, side));
                    assert(path@[stack.len() as int] == next);
                    assert(stacked(path@, next as int));
                    assert forall|u: int| stacked(stack, u) implies stacked(path@, u) by {
                        let k = choose|k: int| 0 <= k < stack.len() && #[trigger] stack[k] as int == u;
                        assert(path@[k] as int == u);
                    }
                    assert(stack[r as int] == curr);
                    assert(stacked(stack, curr as int));
                    assert forall|c: int, s: u8|
                        0 <= c < cells && (grid@[c] != 0 || c == start) && !stacked(path@, c) && s < 4 && (
                        #[trigger] after.next(c, s)) is Some implies grid@[after.next(c, s)->0] != 0 by {
                        let j = after.next(c, s)->0;
                        assert(tiles.next(c, s) == Some(j));
                        assert(c != next && c != curr);
                        assert(tiles.masks[c] == after.masks[c]);
                        lemma_neighbor(width as int, height as int, c, s);
                        assert(tiles.masks[j] != 0);
                    }
                }
            },
            None => {
                path.swap_remove(r);
                proof {
                    assert forall|u: int| stacked(stack, u) implies stacked(path@, u) || u == curr by {
                        let k = choose|k: int| 0 <= k < stack.len() && #[trigger] stack[k] as int == u;
                        if k == stack.len() - 1 {
                            if r < stack.len() - 1 {
                                assert(path@[r as int] as int == u);
                            }
                        } else if k != r {
                            assert(path@[k] as int == u);
                        }
                    }
                    assert forall|k: int| 0 <= k < path@.len() implies #[trigger] path@[k] < cells && (grid@[path@[k] as int]
                        != 0 || path@[k] == start) by {
                        if k == r {
                            assert(stack[stack.len() - 1] < cells);
                        } else {
                            assert(stack[k] < cells);
                        }
                    }
                    assert forall|c: int, s: u8|
                        0 <= c < cells && (grid@[c] != 0 || c == start) && !stacked(path@, c) && s < 4 && (
                        #[trigger] tiles.next(c, s)) is Some implies grid@[tiles.next(c, s)->0] != 0 by {
                        if c == curr {
                            lemma_all_sides(order@, s);
                            let k = choose|k: int| 0 <= k < 4 && #[trigger] order@[k] == s;
                            assert(!may_join(tiles, curr as int, order@[k] as u8, false));
                        }
                    }
                }
            },
        }
    }
    proof {
        let tiles = grid_of(width, height, grid@);
        let made = Set::new(|c: int| tiles.has(c) && (grid@[c] != 0 || c == start));
        assert forall|c: int, side: u8|
            made.contains(c) && tiles.has(c) && side < 4 && (#[trigger] tiles.next(c, side)) is Some implies made.contains(
            tiles.next(c, side)->0,
        ) by {
            assert(!stacked(path@, c));
            lemma_neighbor(width as int, height as int, c, side);
        }
        assert forall|a: int, b: int| tiles.has(a) && tiles.has(b) implies #[trigger] tiles.connected(
            a,
            b,
        ) by {
            lemma_grid_spans(tiles, made, start as int, a);
            lemma_grid_spans(tiles, made, start as int, b);
            tiles.lemma_connected_sym(start as int, a);
            tiles.lemma_connected_trans(a, start as int, b);
        }
        assert forall|c: int| 0 <= c < grid@.len() && c != start implies #[trigger] grid@[c] != 0 by {
            lemma_grid_spans(tiles, made, start as int, c);
        }
        lemma_blanks_only(grid@, start as int);
        lemma_ranked_acyclic(tiles, rank, count);
    }
    grid
}

/// Whether the mask has exactly one opening.
pub open spec fn single(mask: u8) -> bool {
    mask == 0b0001 || mask == 0b0010 || mask == 0b0100 || mask == 0b1000
}

/// Opening one more side of a mask with one opening leaves two; opening a
/// side of a mask with two or more leaves two or more.
pub proof fn lemma_not_single(mask: u8, side: u8)
    requires
        mask < 16,
        side < 4,
        mask != 0,
        !single(mask) || !opens(mask, side),
    ensures
        !single(with_side(mask, side)),
{
    assert(!((mask | (1u8 << side)) == 1 || (mask | (1u8 << side)) == 2 || (mask | (1u8 << side)) == 4
        || (mask | (1u8 << side)) == 8)) by (bit_vector)
        requires
            mask < 16,
            side < 4,
            mask != 0,
            !(mask == 1 || mask == 2 || mask == 4 || mask == 8) || !(mask & (1u8 << side) != 0),
    ;
}

/// Whether no dead end could have been linked on: a cell with one opening
/// has one neighbour only.
pub open spec fn no_loose_end(tiles: Tiles, cell: int) -> bool {
    single(tiles.masks[cell]) ==> forall|side: u8|
        side < 4 && (#[trigger] tiles.next(cell, side)) is Some ==> opens(tiles.masks[cell], side)
}

/// Whether the grid is a maze: every opening is matched, all cells are
/// connected, and each cell with one opening has one neighbour only.
pub open spec fn is_maze(tiles: Tiles) -> bool {
    &&& tiles.wf()
    &&& tiles.all_matched()
    &&& tiles.all_connected()
    &&& forall|c: int| tiles.has(c) ==> #[trigger] no_loose_end(tiles, c)
}

/// In a grid whose cells are all connected, a cell without openings has no
/// neighbour.
pub proof fn lemma_blank_alone(tiles: Tiles, c: int, side: u8)
    requires
        tiles.wf(),
        tiles.all_connected(),
        tiles.has(c),
        tiles.masks[c] == 0,
        side < 4,
    ensures
        tiles.next(c, side) is None,
{
    if tiles.next(c, side) is Some {
        let j = tiles.next(c, side)->0;
        assert(tiles.width > 0) by (nonlinear_arith)
            requires
                0 <= tiles.width,
                0 <= c < tiles.width * tiles.height,
        ;
        lemma_neighbor(tiles.width, tiles.height, c, side);
        let alone = Set::new(|x: int| x == c);
        assert forall|u: int, v: int| alone.contains(u) && #[trigger] tiles.linked(u, v) implies alone.contains(
            v,
        ) by {
            tiles.lemma_linked_side(u, v);
            lemma_blank(0);
            lemma_blank(1);
            lemma_blank(2);
            lemma_blank(3);
        }
        assert(tiles.connected(c, j));
        tiles.lemma_connected_within(c, j, alone);
    }
}

/// The number of cells before `upto` that have exactly one opening.
pub open spec fn singles_upto(masks: Seq<u8>, upto: int) -> nat
    decreases upto,
{
    if upto <= 0 {
        0
    } else {
        singles_upto(masks, upto - 1) + if single(masks[upto - 1]) {
            1nat
        } else {
            0nat
        }
    }
}

/// The number of dead ends of the grid: its cells with exactly one opening.
pub open spec fn dead_ends(tiles: Tiles) -> nat {
    singles_upto(tiles.masks, tiles.masks.len() as int)
}

/// Whether `after` is `before` with links added at dead ends only: the
/// links of `before` are links of `after`, every other link of `after`
/// joins a dead end of `before` with a cell next to it, and there are at
/// most as many of these as `before` has dead ends.
pub open spec fn dead_ends_linked(before: Tiles, after: Tiles) -> bool {
    &&& forall|u: int, v: int| before.linked(u, v) ==> #[trigger] after.linked(u, v)
    &&& forall|u: int, v: int|
        #[trigger] after.linked(u, v) && !before.linked(u, v) ==> single(before.masks[u]) || single(
            before.masks[v],
        )
    &&& after.link_count() <= before.link_count() + dead_ends(before)
}

/// Gives each dead end a second opening where it can: the cells are taken
/// in order, and a cell with one opening is linked with a cell next door
/// that it is not linked with yet, chosen at random. The links that were
/// there stay; each new link starts at a cell that was a dead end, and no
/// such cell starts more than one.
pub fn remove_dead_ends(width: u8, height: u8, grid: &mut Vec<u8>, rng: &mut SmallRng)
    requires
        grid_of(width, height, old(grid)@).wf(),
        grid_of(width, height, old(grid)@).all_matched(),
        grid_of(width, height, old(grid)@).all_connected(),
    ensures
        is_maze(grid_of(width, height, final(grid)@)),
        dead_ends_linked(grid_of(width, height, old(grid)@), grid_of(width, height, final(grid)@)),
{
    let ghost first = grid_of(width, height, grid@);
    let cells = grid.len();
    let mut curr: usize = 0;
    proof {
        assert forall|c: int, s: u8|
            first.has(c) && first.masks[c] == 0 && s < 4 implies (#[trigger] first.next(c, s)) is None by {
            lemma_blank_alone(first, c, s);
        }
    }
    while curr < cells
        invariant
            cells == grid@.len(),
            cells == first.masks.len(),
            first.wf(),
            first == grid_of(width, height, old(grid)@),
            curr <= cells,
            grid_of(width, height, grid@).wf(),
            grid_of(width, height, grid@).all_matched(),
            grid_of(width, height, grid@).all_connected(),
            forall|u: int, v: int|
                first.linked(u, v) ==> #[trigger] grid_of(width, height, grid@).linked(u, v),
            forall|c: int| 0 <= c < cells ==> #[trigger] grid@[c] == first.masks[c] || !single(grid@[c]),
            forall|u: int, v: int|
                #[trigger] grid_of(width, height, grid@).linked(u, v) && !first.linked(u, v) ==> single(
                    first.masks[u],
                ) || single(first.masks[v]),
            grid_of(width, height, grid@).link_count() <= first.link_count() + singles_upto(
                first.masks,
                curr as int,
            ),
            forall|c: int, s: u8|
                0 <= c < cells && grid@[c] == 0 && s < 4 ==> (#[trigger] grid_of(
                    width,
                    height,
                    grid@,
                ).next(c, s)) is None,
            forall|c: int| 0 <= c < curr ==> #[trigger] no_loose_end(grid_of(width, height, grid@), c),
        decreases cells - curr,
    {
        let ghost tiles = grid_of(width, height, grid@);
        let mask = grid[curr];
        if mask == 0b0001 || mask == 0b0010 || mask == 0b0100 || mask == 0b1000 {
            let order = sample(rng, 4, 4);
            match pick_side(width, height, grid, curr, &order, true) {
                Some((side, next)) => {
                    proof {
                        lemma_joined(tiles, curr as int, side);
                        assert(width > 0) by (nonlinear_arith)
                            requires
                                0 <= curr < width * height,
                        ;
                        lemma_neighbor(width as int, height as int, curr as int, side);
                        assert(!opens(tiles.masks[curr as int], side)) by {
                            if opens(tiles.masks[curr as int], side) {
                                assert(tiles.matched(curr as int, side));
                            }
                        }
                        lemma_not_single(tiles.masks[curr as int], side);
                        assert(tiles.next(next as int, opposite(side)) is Some);
                        assert(tiles.masks[next as int] != 0);
                        lemma_not_single(tiles.masks[next as int], opposite(side));
                        assert(!tiles.link(curr as int, side));
                        lemma_joined_count(tiles, curr as int, side, cells as int);
                        assert(single(first.masks[curr as int]));
                    }
                    join(width, height, grid, curr, next, side);
                    proof {
                        let after = grid_of(width, height, grid@);
                        assert(after == joined(tiles, curr as int, side));
                        assert forall|c: int| 0 <= c < cells implies #[trigger] grid@[c] == first.masks[c]
                            || !single(grid@[c]) by {
                            if c != curr && c != next {
                                assert(grid@[c] == tiles.masks[c]);
                            }
                        }
                        assert forall|u: int, v: int|
                            #[trigger] after.linked(u, v) && !first.linked(u, v) implies single(first.masks[u])
                            || single(first.masks[v]) by {
                            lemma_joined_linked(tiles, curr as int, side, u, v);
                        }
                        assert forall|a: int, b: int| after.has(a) && after.has(b) implies #[trigger] after.connected(
                            a,
                            b,
                        ) by {
                            assert(tiles.connected(a, b));
                            lemma_more_links(tiles, after, a, b);
                        }
                        assert forall|c: int| 0 <= c < curr + 1 implies #[trigger] no_loose_end(after, c) by {
                            if c == curr {
                            } else if c == next {
                                assert(tiles.masks[next as int] != 0);
                                assert(no_loose_end(tiles, c));
                                if single(tiles.masks[c]) {
                                    assert(tiles.next(c, opposite(side)) is Some);
                                    assert(opens(tiles.masks[c], opposite(side)));
                                }
                                lemma_not_single(tiles.masks[c], opposite(side));
                            } else {
                                assert(after.masks[c] == tiles.masks[c]);
                                assert(no_loose_end(tiles, c));
                                assert forall|s: u8| s < 4 implies after.next(c, s) == tiles.next(c, s) by {}
                            }
                        }
                        assert forall|c: int, s: u8|
                            0 <= c < cells && grid@[c] == 0 && s < 4 implies (#[trigger] after.next(
                            c,
                            s,
                        )) is None by {
                            lemma_with_side(tiles.masks[c], side, 0);
                            lemma_with_side(tiles.masks[c], opposite(side), 0);
                            assert(tiles.masks[c] == 0);
                            assert(tiles.next(c, s) is None);
                        }
                    }
                },
                None => {
                    proof {
                        assert forall|s: u8| s < 4 && (#[trigger] tiles.next(curr as int, s)) is Some implies opens(
                            tiles.masks[curr as int],
                            s,
                        ) by {
                            lemma_all_sides(order@, s);
                            let k = choose|k: int| 0 <= k < 4 && #[trigger] order@[k] == s;
                            assert(!may_join(tiles, curr as int, order@[k] as u8, true));
                            let j = tiles.next(curr as int, s)->0;
                            assert(width > 0) by (nonlinear_arith)
                                requires
                                    0 <= curr < width * height,
                            ;
                            lemma_neighbor(width as int, height as int, curr as int, s);
                            assert(tiles.matched(j, opposite(s)));
                        }
                    }
                },
            }
        }
        curr = curr + 1;
    }
}

} // verus!
