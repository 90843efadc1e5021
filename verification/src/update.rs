//! Keeping the regions right after one tile has been turned.
//!
//! Turning a tile changes only the links of its own cell. So only the
//! regions of that cell and of the cells next to it can change: they are
//! given up, and traced anew from those cells. All other regions stay as
//! they are, with their ids.

use vstd::prelude::*;
use crate::board::GameBoard;
use crate::grid::{neighbor_of, Tiles};
use crate::colors::{cells_upto, faded, lemma_listed_at, lemma_listed_where, listed, tinted};
use crate::board::partition_of;
use crate::tracker::{all_cells, held, lemma_drawn, region_of, settled_wf};

verus! {

/// The cells that hold the id of the cell `c` or of a cell next to it.
pub open spec fn affected(tiles: Tiles, regions: Seq<u16>, c: int) -> Set<int> {
    Set::new(
        |v: int|
            tiles.has(v) && exists|k: int|
                tiles.near(c).contains(k) && tiles.has(k) && #[trigger] regions[k] == regions[v],
    )
}

/// The cells whose regions are traced once those of the first `upto` cells
/// of `starts` have been added to `base`.
pub open spec fn resettled(tiles: Tiles, base: Set<int>, starts: Seq<int>, upto: int) -> Set<int> {
    Set::new(
        |v: int|
            base.contains(v) || exists|j: int|
                0 <= j < upto && j < starts.len() && #[trigger] tiles.connected(starts[j], v),
    )
}

/// After the tile of `c` has been replaced, the cells that are not
/// affected are still settled, once the ids of `c` and of the cells next
/// to it have gone to the pool.
pub proof fn lemma_retired(
    tiles: Tiles,
    c: int,
    before: u8,
    regions0: Seq<u16>,
    pool0: Seq<u16>,
    watermark: int,
    regions1: Seq<u16>,
    pool1: Seq<u16>,
)
    requires
        tiles.wf(),
        tiles.has(c),
        before < 16,
        settled_wf(tiles.with_mask(c, before), regions0, pool0, watermark, all_cells(tiles)),
        regions1.len() == regions0.len(),
        forall|v: int|
            tiles.has(v) ==> #[trigger] regions1[v] == if tiles.near(c).contains(v) {
                0
            } else {
                regions0[v]
            },
        pool1.no_duplicates(),
        forall|x: u16|
            pool1.contains(x) == (pool0.contains(x) || exists|k: int|
                tiles.near(c).contains(k) && tiles.has(k) && #[trigger] regions0[k] == x),
    ensures
        settled_wf(
            tiles,
            regions1,
            pool1,
            watermark,
            all_cells(tiles).difference(affected(tiles, regions0, c)),
        ),
{
    let t0 = tiles.with_mask(c, before);
    let near = tiles.near(c);
    let aff = affected(tiles, regions0, c);
    let rest = all_cells(tiles).difference(aff);
    tiles.lemma_linked_elsewhere(c, before, c + 1, c + 1);
    assert(t0.wf());
    assert(all_cells(t0) =~= all_cells(tiles));
    assert(t0.near(c) =~= near);
    assert forall|k: int| near.contains(k) && tiles.has(k) implies aff.contains(k) by {
        let id = regions0[k];
        assert(tiles.near(c).contains(k) && tiles.has(k) && regions0[k] == id);
    }
    assert(near.contains(c));
    assert(aff.contains(c));
    assert forall|u: int, v: int| aff.contains(u) && #[trigger] tiles.linked(u, v) implies aff.contains(
        v,
    ) by {
        tiles.lemma_linked(u, v);
        if u == c {
            tiles.lemma_linked_near(c, v);
        } else if v == c {
        } else {
            tiles.lemma_linked_elsewhere(c, before, u, v);
            t0.lemma_linked_connected(u, v);
            assert(all_cells(tiles).contains(u) && all_cells(tiles).contains(v));
            assert(regions0[u] == regions0[v]);
            let k = choose|k: int|
                tiles.near(c).contains(k) && tiles.has(k) && #[trigger] regions0[k] == regions0[u];
            assert(regions0[k] == regions0[v]);
        }
    }
    assert(tiles.closed(aff));
    assert forall|a: int, b: int| rest.contains(a) && #[trigger] tiles.connected(a, b) implies rest.contains(
        b,
    ) by {
        tiles.lemma_connected_has(a, b);
        if aff.contains(b) {
            tiles.lemma_connected_sym(a, b);
            tiles.lemma_connected_within(b, a, aff);
        }
    }
    assert forall|a: int, b: int| rest.contains(a) && rest.contains(b) implies (regions1[a]
        == regions1[b]) == #[trigger] tiles.connected(a, b) by {
        assert(all_cells(tiles).contains(a) && all_cells(tiles).contains(b));
        assert(regions1[a] == regions0[a] && regions1[b] == regions0[b]);
        if tiles.connected(a, b) {
            let same = Set::new(|x: int| aff.contains(x) || (tiles.has(x) && regions0[x] == regions0[a]));
            assert forall|x: int, y: int| same.contains(x) && #[trigger] tiles.linked(x, y) implies same.contains(
                y,
            ) by {
                tiles.lemma_linked(x, y);
                if aff.contains(x) {
                } else if y == c {
                } else {
                    tiles.lemma_linked_elsewhere(c, before, x, y);
                    t0.lemma_linked_connected(x, y);
                    assert(all_cells(tiles).contains(x) && all_cells(tiles).contains(y));
                }
            }
            tiles.lemma_connected_within(a, b, same);
        }
        if regions0[a] == regions0[b] {
            assert(t0.connected(a, b));
            let reach = Set::new(
                |x: int| tiles.has(x) && regions0[x] == regions0[a] && tiles.connected(a, x),
            );
            tiles.lemma_connected_self(a);
            assert forall|x: int, y: int| reach.contains(x) && #[trigger] t0.linked(x, y) implies reach.contains(
                y,
            ) by {
                t0.lemma_linked(x, y);
                t0.lemma_linked_connected(x, y);
                assert(all_cells(tiles).contains(x) && all_cells(tiles).contains(y));
                assert(regions0[x] == regions0[y]);
                if aff.contains(x) {
                    let k = choose|k: int|
                        tiles.near(c).contains(k) && tiles.has(k) && #[trigger] regions0[k]
                            == regions0[x];
                    assert(regions0[k] == regions0[a]);
                }
                if aff.contains(y) {
                    let k = choose|k: int|
                        tiles.near(c).contains(k) && tiles.has(k) && #[trigger] regions0[k]
                            == regions0[y];
                    assert(regions0[k] == regions0[a]);
                }
                tiles.lemma_linked_elsewhere(c, before, x, y);
                tiles.lemma_connected_step(a, x, y);
            }
            t0.lemma_connected_within(a, b, reach);
        }
    }
    assert forall|k: int| 0 <= k < pool1.len() implies 1 <= #[trigger] pool1[k] <= watermark by {
        let x = pool1[k];
        assert(pool1.contains(x));
        if pool0.contains(x) {
            let j = choose|j: int| 0 <= j < pool0.len() && pool0[j] == x;
            assert(1 <= pool0[j] <= watermark);
        } else {
            let j = choose|j: int|
                tiles.near(c).contains(j) && tiles.has(j) && #[trigger] regions0[j] == x;
            assert(all_cells(tiles).contains(j));
        }
    }
    assert forall|i: int| #[trigger] rest.contains(i) implies tiles.has(i) && 1 <= regions1[i]
        <= watermark && !pool1.contains(regions1[i]) by {
        assert(all_cells(tiles).contains(i));
        assert(regions1[i] == regions0[i]);
        if pool1.contains(regions0[i]) {
            assert(!pool0.contains(regions0[i]));
            let k = choose|k: int|
                tiles.near(c).contains(k) && tiles.has(k) && #[trigger] regions0[k] == regions0[i];
            assert(aff.contains(i));
        }
    }
    assert forall|id: int| 1 <= id <= watermark implies #[trigger] held(regions1, pool1, rest, id) by {
        assert(held(regions0, pool0, all_cells(tiles), id));
        if exists|k: int| 0 <= k < pool0.len() && #[trigger] pool0[k] == id {
            let k = choose|k: int| 0 <= k < pool0.len() && #[trigger] pool0[k] == id;
            assert(pool0.contains(id as u16));
            assert(pool1.contains(id as u16));
            let j = choose|j: int| 0 <= j < pool1.len() && pool1[j] == id as u16;
            assert(pool1[j] == id);
        } else {
            let i = choose|i: int|
                all_cells(tiles).contains(i) && 0 <= i < regions0.len() && #[trigger] regions0[i]
                    == id;
            if aff.contains(i) {
                let k = choose|k: int|
                    tiles.near(c).contains(k) && tiles.has(k) && #[trigger] regions0[k]
                        == regions0[i];
                assert(pool1.contains(id as u16));
                let j = choose|j: int| 0 <= j < pool1.len() && pool1[j] == id as u16;
                assert(pool1[j] == id);
            } else {
                assert(rest.contains(i));
                assert(regions1[i] == id);
            }
        }
    }
}

/// A cell connected, as the tiles lie now, to an affected cell is affected.
pub proof fn lemma_retired_closed(
    tiles: Tiles,
    c: int,
    before: u8,
    regions0: Seq<u16>,
    pool0: Seq<u16>,
    watermark: int,
    a: int,
    b: int,
)
    requires
        tiles.wf(),
        tiles.has(c),
        before < 16,
        settled_wf(tiles.with_mask(c, before), regions0, pool0, watermark, all_cells(tiles)),
        affected(tiles, regions0, c).contains(a),
        tiles.connected(a, b),
    ensures
        affected(tiles, regions0, c).contains(b),
{
    let t0 = tiles.with_mask(c, before);
    let aff = affected(tiles, regions0, c);
    tiles.lemma_linked_elsewhere(c, before, c + 1, c + 1);
    assert(all_cells(t0) =~= all_cells(tiles));
    assert forall|k: int| tiles.near(c).contains(k) && tiles.has(k) implies aff.contains(k) by {
        let id = regions0[k];
        assert(tiles.near(c).contains(k) && tiles.has(k) && regions0[k] == id);
    }
    assert(tiles.near(c).contains(c));
    assert forall|u: int, v: int| aff.contains(u) && #[trigger] tiles.linked(u, v) implies aff.contains(
        v,
    ) by {
        tiles.lemma_linked(u, v);
        if u == c {
            tiles.lemma_linked_near(c, v);
        } else if v == c {
        } else {
            tiles.lemma_linked_elsewhere(c, before, u, v);
            t0.lemma_linked_connected(u, v);
            assert(all_cells(tiles).contains(u) && all_cells(tiles).contains(v));
            assert(regions0[u] == regions0[v]);
            let k = choose|k: int|
                tiles.near(c).contains(k) && tiles.has(k) && #[trigger] regions0[k] == regions0[u];
            assert(regions0[k] == regions0[v]);
        }
    }
    tiles.lemma_connected_within(a, b, aff);
}

/// Every affected cell is connected, as the tiles lie now, to `c` or to a
/// cell next to it.
pub proof fn lemma_affected_reached(
    tiles: Tiles,
    c: int,
    before: u8,
    regions0: Seq<u16>,
    pool0: Seq<u16>,
    watermark: int,
    v: int,
)
    requires
        tiles.wf(),
        tiles.has(c),
        before < 16,
        settled_wf(tiles.with_mask(c, before), regions0, pool0, watermark, all_cells(tiles)),
        affected(tiles, regions0, c).contains(v),
    ensures
        exists|k: int| tiles.near(c).contains(k) && tiles.has(k) && #[trigger] tiles.connected(k, v),
{
    let t0 = tiles.with_mask(c, before);
    let near = tiles.near(c);
    tiles.lemma_linked_elsewhere(c, before, c + 1, c + 1);
    assert(all_cells(t0) =~= all_cells(tiles));
    assert(t0.near(c) =~= near);
    let reach = Set::new(
        |x: int| exists|k: int| near.contains(k) && tiles.has(k) && #[trigger] tiles.connected(k, x),
    );
    let k0 = choose|k: int|
        tiles.near(c).contains(k) && tiles.has(k) && #[trigger] regions0[k] == regions0[v];
    assert(all_cells(tiles).contains(k0) && all_cells(tiles).contains(v));
    assert(t0.connected(k0, v));
    tiles.lemma_connected_self(k0);
    assert(reach.contains(k0));
    assert forall|x: int, w: int| reach.contains(x) && #[trigger] t0.linked(x, w) implies reach.contains(
        w,
    ) by {
        t0.lemma_linked(x, w);
        let k = choose|k: int| near.contains(k) && tiles.has(k) && #[trigger] tiles.connected(k, x);
        if w == c {
            tiles.lemma_connected_self(c);
            assert(near.contains(c));
        } else if x == c {
            t0.lemma_linked_near(c, w);
            tiles.lemma_connected_self(w);
        } else {
            tiles.lemma_linked_elsewhere(c, before, x, w);
            tiles.lemma_connected_step(k, x, w);
        }
    }
    t0.lemma_connected_within(k0, v, reach);
}

/// The ids of the regions as the tracker holds them: the id of each cell,
/// the pool of free ids, and the highest id handed out.
pub struct Ids {
    /// For each cell the id of its region; 0 while it has none.
    pub regions: Seq<u16>,
    /// The ids that wait to be handed out again.
    pub pool: Seq<u16>,
    /// The highest id handed out so far.
    pub top: int,
}

/// The cells that give up their ids when the tile of cell `i` is turned,
/// as far as the first `upto` steps go: the cells next to `i` on the sides
/// from the east clockwise, as far as the grid has them, then `i`.
pub open spec fn near_seq(tiles: Tiles, i: int, upto: int) -> Seq<int>
    decreases upto,
{
    if upto <= 0 {
        Seq::empty()
    } else if upto >= 5 {
        near_seq(tiles, i, upto - 1).push(i)
    } else if tiles.next(i, (upto - 1) as u8) is Some {
        near_seq(tiles, i, upto - 1).push(tiles.next(i, (upto - 1) as u8)->0)
    } else {
        near_seq(tiles, i, upto - 1)
    }
}

/// The cells `cells`, each with the id that `regions` has for it.
pub open spec fn noted(regions: Seq<u16>, cells: Seq<int>) -> Seq<(usize, u16)> {
    Seq::new(cells.len(), |j: int| (cells[j] as usize, regions[cells[j]]))
}

/// The pool `pool` after the ids noted in `notes` have gone to it, one
/// after the other, each unless it is 0 or waits there already.
pub open spec fn pooled(pool: Seq<u16>, notes: Seq<(usize, u16)>) -> Seq<u16>
    decreases notes.len(),
{
    if notes.len() == 0 {
        pool
    } else {
        let before = pooled(pool, notes.drop_last());
        let id = notes.last().1;
        if id != 0 && !before.contains(id) {
            before.push(id)
        } else {
            before
        }
    }
}

/// The first place of `id` in `pool`, or the length of `pool` if it is not
/// there.
pub open spec fn first_place(pool: Seq<u16>, id: u16) -> int
    decreases pool.len(),
{
    if pool.len() == 0 {
        0
    } else if pool[0] == id {
        0
    } else {
        1 + first_place(pool.skip(1), id)
    }
}

/// The place where an id stands first in a pool is its first place.
pub proof fn lemma_first_place(pool: Seq<u16>, id: u16, at: int)
    requires
        0 <= at < pool.len(),
        pool[at] == id,
        forall|k: int| 0 <= k < at ==> pool[k] != id,
    ensures
        first_place(pool, id) == at,
    decreases at,
{
    if at > 0 {
        let rest = pool.skip(1);
        assert(rest[at - 1] == id);
        assert forall|k: int| 0 <= k < at - 1 implies rest[k] != id by {
            assert(rest[k] == pool[k + 1]);
        }
        lemma_first_place(rest, id, at - 1);
        assert(pool[0] != id);
    }
}

/// What `next_region_id` hands out for the preference `preference`, and
/// the pool and the highest id that it leaves.
pub open spec fn draw(pool: Seq<u16>, top: int, preference: u16) -> (u16, Seq<u16>, int) {
    if pool.len() == 0 {
        ((top + 1) as u16, pool, top + 1)
    } else if preference != 0 && pool.contains(preference) {
        (preference, pool.update(first_place(pool, preference), pool.last()).drop_last(), top)
    } else {
        (pool.last(), pool.drop_last(), top)
    }
}

/// An id that was drawn is the one that `draw` tells.
pub proof fn lemma_draw(
    pool: Seq<u16>,
    top: int,
    preference: u16,
    id: u16,
    pool_after: Seq<u16>,
    top_after: int,
)
    requires
        crate::tracker::drawn(pool, top, preference, id, pool_after, top_after),
    ensures
        draw(pool, top, preference) == (id, pool_after, top_after),
{
    if pool.len() > 0 && preference != 0 && pool.contains(preference) {
        let at = choose|at: int|
            {
                &&& 0 <= at < pool.len()
                &&& pool[at] == preference
                &&& forall|k: int| 0 <= k < at ==> pool[k] != preference
                &&& pool_after == pool.update(at, pool.last()).drop_last()
            };
        lemma_first_place(pool, preference, at);
    }
}

/// The ids after the regions of the first `upto` cells noted in `notes`
/// have been traced anew, one after the other: a cell that holds no id
/// draws one, preferring the id noted with it, for itself and all cells
/// connected to it; a cell that holds an id by then is passed over.
pub open spec fn retraced(tiles: Tiles, start: Ids, notes: Seq<(usize, u16)>, upto: int) -> Ids
    decreases upto,
{
    if upto <= 0 {
        start
    } else {
        let before = retraced(tiles, start, notes, upto - 1);
        let cell = notes[upto - 1].0 as int;
        if before.regions[cell] == 0 {
            let drawn = draw(before.pool, before.top, notes[upto - 1].1);
            Ids {
                regions: Seq::new(
                    before.regions.len(),
                    |v: int|
                        if tiles.connected(cell, v) {
                            drawn.0
                        } else {
                            before.regions[v]
                        },
                ),
                pool: drawn.1,
                top: drawn.2,
            }
        } else {
            before
        }
    }
}

/// The notes after the regions of the first `upto` cells noted in `notes`
/// have been traced anew: a cell from which a region was traced is noted
/// with the id that it drew.
pub open spec fn renoted(tiles: Tiles, start: Ids, notes: Seq<(usize, u16)>, upto: int) -> Seq<(usize, u16)> {
    Seq::new(
        notes.len(),
        |j: int|
            {
                let before = retraced(tiles, start, notes, j);
                if j < upto && before.regions[notes[j].0 as int] == 0 {
                    (notes[j].0, draw(before.pool, before.top, notes[j].1).0)
                } else {
                    notes[j]
                }
            },
    )
}

/// The cells that give up their ids when the tile of cell `i` is turned,
/// each with the id it gives up.
pub open spec fn notes_near(tiles: Tiles, before: Ids, i: int) -> Seq<(usize, u16)> {
    noted(before.regions, near_seq(tiles, i, 5))
}

/// The ids after the cell `i` and the cells next to it have given up
/// theirs to the pool.
pub open spec fn given_up_ids(tiles: Tiles, before: Ids, i: int) -> Ids {
    Ids {
        regions: Seq::new(
            before.regions.len(),
            |v: int|
                if tiles.near(i).contains(v) {
                    0u16
                } else {
                    before.regions[v]
                },
        ),
        pool: pooled(before.pool, notes_near(tiles, before, i)),
        top: before.top,
    }
}

/// The ids after the tile of cell `i` has been turned and the regions
/// brought up to date: the cell and the cells next to it have given up
/// their ids to the pool, and their regions have been traced anew, in the
/// order of `near_seq`, each preferring the id that its cell gave up.
pub open spec fn turned_ids(tiles: Tiles, before: Ids, i: int) -> Ids {
    let notes = notes_near(tiles, before, i);
    retraced(tiles, given_up_ids(tiles, before, i), notes, notes.len() as int)
}

/// The cells that gave up their ids when the tile of cell `i` was turned,
/// each with the id that it drew if a region was traced from it, else with
/// the id that it gave up.
pub open spec fn turned_notes(tiles: Tiles, before: Ids, i: int) -> Seq<(usize, u16)> {
    let notes = notes_near(tiles, before, i);
    renoted(tiles, given_up_ids(tiles, before, i), notes, notes.len() as int)
}

/// The cells next to `c` on the sides before `side`, and `c` itself once
/// `side` is beyond the four sides.
pub open spec fn near_upto(tiles: Tiles, c: int, side: int) -> Set<int> {
    Set::new(
        |v: int|
            (0 < side && tiles.next(c, 0) == Some(v)) || (1 < side && tiles.next(c, 1) == Some(v)) || (2
                < side && tiles.next(c, 2) == Some(v)) || (3 < side && tiles.next(c, 3) == Some(v)) || (4
                < side && v == c),
    )
}

/// Whether `regions` and `pool` are what `regions0` and `pool0` become
/// when the cells of `gone` give up their ids: these cells hold 0, and
/// their ids wait in the pool.
pub open spec fn given_up(
    tiles: Tiles,
    regions0: Seq<u16>,
    pool0: Seq<u16>,
    gone: Set<int>,
    regions: Seq<u16>,
    pool: Seq<u16>,
) -> bool {
    &&& regions.len() == regions0.len()
    &&& forall|v: int|
        tiles.has(v) ==> #[trigger] regions[v] == if gone.contains(v) {
            0
        } else {
            regions0[v]
        }
    &&& pool.no_duplicates()
    &&& forall|x: u16|
        pool.contains(x) == (pool0.contains(x) || exists|k: int|
            gone.contains(k) && tiles.has(k) && #[trigger] regions0[k] == x)
}

/// One more cell gives up its id.
pub proof fn lemma_give_up(
    tiles: Tiles,
    regions0: Seq<u16>,
    pool0: Seq<u16>,
    gone: Set<int>,
    regions: Seq<u16>,
    pool: Seq<u16>,
    cell: int,
)
    requires
        given_up(tiles, regions0, pool0, gone, regions, pool),
        regions0.len() == tiles.masks.len(),
        tiles.has(cell),
        !gone.contains(cell),
        regions0[cell] != 0,
    ensures
        given_up(
            tiles,
            regions0,
            pool0,
            gone.insert(cell),
            regions.update(cell, 0),
            if pool.contains(regions0[cell]) {
                pool
            } else {
                pool.push(regions0[cell])
            },
        ),
{
    let id = regions0[cell];
    let after = if pool.contains(id) {
        pool
    } else {
        pool.push(id)
    };
    let more = gone.insert(cell);
    assert(regions[cell] == id);
    assert forall|x: u16|
        after.contains(x) == (pool0.contains(x) || exists|k: int|
            more.contains(k) && tiles.has(k) && #[trigger] regions0[k] == x) by {
        if after.contains(x) {
            if pool.contains(x) {
                if !pool0.contains(x) {
                    let k = choose|k: int| gone.contains(k) && tiles.has(k) && #[trigger] regions0[k] == x;
                    assert(more.contains(k));
                }
            } else {
                let j = choose|j: int| 0 <= j < after.len() && after[j] == x;
                if j < pool.len() {
                    assert(pool[j] == x);
                }
                assert(x == id);
                assert(more.contains(cell) && tiles.has(cell) && regions0[cell] == x);
            }
        }
        if pool0.contains(x) {
            assert(pool.contains(x));
            let j = choose|j: int| 0 <= j < pool.len() && pool[j] == x;
            assert(after[j] == x);
        }
        if exists|k: int| more.contains(k) && tiles.has(k) && #[trigger] regions0[k] == x {
            let k = choose|k: int| more.contains(k) && tiles.has(k) && #[trigger] regions0[k] == x;
            if k == cell {
                if pool.contains(id) {
                } else {
                    assert(after[pool.len() as int] == x);
                }
            } else {
                assert(gone.contains(k));
                assert(pool.contains(x));
                let j = choose|j: int| 0 <= j < pool.len() && pool[j] == x;
                assert(after[j] == x);
            }
        }
    }
}

/// The cells next to a cell on different sides are different cells.
pub proof fn lemma_near_apart(tiles: Tiles, c: int, a: u8, b: u8)
    requires
        tiles.wf(),
        tiles.has(c),
        a < 4,
        b < 4,
        a != b,
        tiles.next(c, a) is Some,
        tiles.next(c, b) is Some,
    ensures
        tiles.next(c, a) != tiles.next(c, b),
{
    if tiles.width == 1 {
        vstd::arithmetic::div_mod::lemma_fundamental_div_mod(c, 1);
    }
    assert(tiles.width > 0) by (nonlinear_arith)
        requires
            0 <= tiles.width,
            0 <= c < tiles.width * tiles.height,
    ;
}

/// After the regions near a turned tile have been traced anew, the cells
/// still show the colours they had; those outside the affected regions are
/// coloured as before, and every other region is noted in `to_check`.
pub proof fn lemma_faded(
    tiles: Tiles,
    c: int,
    regions0: Seq<u16>,
    regions1: Seq<u16>,
    colors: Seq<u16>,
    pool: Seq<u16>,
    top: int,
    spare: int,
    to_check: Seq<(usize, u16)>,
)
    requires
        regions0.len() == tiles.masks.len(),
        regions1.len() == regions0.len(),
        tinted(regions0, colors, pool, top, cells_upto(regions0.len() as int), spare),
        forall|v: int|
            tiles.has(v) && !affected(tiles, regions0, c).contains(v) ==> #[trigger] regions1[v] == regions0[v]
                && !listed(to_check, to_check.len() as int, regions1[v]),
        forall|v: int|
            affected(tiles, regions0, c).contains(v) ==> listed(
                to_check,
                to_check.len() as int,
                #[trigger] regions1[v],
            ),
    ensures
        faded(regions1, colors, pool, top, to_check, spare),
{
    let every = cells_upto(regions0.len() as int);
    let aff = affected(tiles, regions0, c);
    assert forall|i: int| 0 <= i < colors.len() implies #[trigger] colors[i] <= top && !pool.contains(
        colors[i],
    ) by {
        assert(every.contains(i));
    }
    assert forall|a: int, b: int|
        #![trigger colors[a], colors[b]]
        0 <= a < colors.len() && 0 <= b < colors.len() && !listed(to_check, to_check.len() as int, regions1[b]) implies (
    colors[a] == colors[b]) == (regions1[a] == regions1[b]) by {
        assert(every.contains(a) && every.contains(b));
        assert(tiles.has(a) && tiles.has(b));
        assert(!aff.contains(b));
        assert(regions1[b] == regions0[b]);
        if aff.contains(a) {
            assert(listed(to_check, to_check.len() as int, regions1[a]));
            if regions0[a] == regions0[b] {
                let k = choose|k: int|
                    tiles.near(c).contains(k) && tiles.has(k) && #[trigger] regions0[k] == regions0[a];
                assert(regions0[k] == regions0[b]);
                assert(aff.contains(b));
            }
        } else {
            assert(regions1[a] == regions0[a]);
        }
    }
    assert forall|x: int| 0 <= x <= top && x != spare implies #[trigger] crate::colors::shown(
        colors,
        pool,
        cells_upto(colors.len() as int),
        x,
    ) by {
        assert(crate::colors::shown(colors, pool, every, x));
    }
}

impl GameBoard {
    /// The ids of the regions as the board holds them.
    pub open spec fn ids(&self) -> Ids {
        Ids {
            regions: self.regions@,
            pool: self.region_id_pool@,
            top: self.number_regions as int,
        }
    }

    /// Whether the regions and the colours of the board are those that
    /// `update_regions` makes of the regions and colours of `before`, with
    /// the tiles as they lie on this board after the tile of cell `i` has
    /// been turned. The ids are those of `turned_ids`. The colours are
    /// those of `recolored`: the regions traced anew are coloured anew,
    /// from the notes of their cells' colours in sorted order.
    pub open spec fn updated_from(&self, before: &GameBoard, i: int) -> bool {
        &&& self.ids() == turned_ids(self.tiles(), before.ids(), i)
        &&& crate::colors::recolored_to(
            self.regions@,
            before.colors(),
            before.color_pool@,
            before.number_colors as int,
            turned_notes(self.tiles(), before.ids(), i),
            (self.colors(), self.color_pool@, self.number_colors as int),
        )
    }

    /// The regions were traced before the tile of cell `i` got the mask it
    /// has now: they are traced for the board with some other mask there.
    pub open spec fn stale_at(&self, i: int) -> bool {
        &&& self.grid_wf()
        &&& 0 <= i < self.pipes@.len()
        &&& exists|before: u8|
            before < 16 && #[trigger] settled_wf(
                self.tiles().with_mask(i, before),
                self.regions@,
                self.region_id_pool@,
                self.number_regions as int,
                all_cells(self.tiles()),
            )
    }

    /// Takes the id from `cell`: notes the cell with its id in `to_check`,
    /// puts the id into the pool, and leaves 0 in the cell.
    fn retire(&mut self, cell: usize, to_check: &mut Vec<(usize, u16)>)
        requires
            cell < old(self).regions@.len(),
        ensures
            *final(self) == (GameBoard {
                regions: final(self).regions,
                region_id_pool: final(self).region_id_pool,
                ..*old(self)
            }),
            final(self).regions@ == old(self).regions@.update(cell as int, 0),
            final(self).region_id_pool@ == if old(self).regions@[cell as int] != 0
                && !old(self).region_id_pool@.contains(
                old(self).regions@[cell as int],
            ) {
                old(self).region_id_pool@.push(old(self).regions@[cell as int])
            } else {
                old(self).region_id_pool@
            },
            final(to_check)@ == old(to_check)@.push((cell, old(self).regions@[cell as int])),
    {
        let region = self.regions[cell];
        to_check.push((cell, region));
        self.add_region_to_pool(region);
        self.regions[cell] = 0;
    }

    /// The cell `i` and the cells next to it give up their ids. The result
    /// lists these cells, each with the id it gave up: first the cells next
    /// to `i` from the east clockwise, then `i`.
    fn give_up_near(&mut self, i: usize) -> (to_check: Vec<(usize, u16)>)
        requires
            old(self).grid_wf(),
            i < old(self).pipes@.len(),
            old(self).regions@.len() == old(self).pipes@.len(),
            old(self).region_id_pool@.no_duplicates(),
            forall|v: int| 0 <= v < old(self).regions@.len() ==> old(self).regions@[v] != 0,
        ensures
            *final(self) == (GameBoard {
                regions: final(self).regions,
                region_id_pool: final(self).region_id_pool,
                ..*old(self)
            }),
            given_up(
                old(self).tiles(),
                old(self).regions@,
                old(self).region_id_pool@,
                old(self).tiles().near(i as int),
                final(self).regions@,
                final(self).region_id_pool@,
            ),
            forall|j: int|
                0 <= j < to_check@.len() ==> old(self).tiles().has((#[trigger] to_check@[j]).0 as int)
                    && old(self).tiles().near(i as int).contains(to_check@[j].0 as int) && to_check@[j].1
                    == old(self).regions@[to_check@[j].0 as int],
            forall|v: int|
                old(self).tiles().near(i as int).contains(v) ==> exists|j: int|
                    0 <= j < to_check@.len() && (#[trigger] to_check@[j]).0 == v,
            forall|j: int|
                0 <= j < to_check@.len() ==> final(self).region_id_pool@.contains((#[trigger] to_check@[j]).1),
            to_check@ == noted(old(self).regions@, near_seq(old(self).tiles(), i as int, 5)),
            final(self).region_id_pool@ == pooled(old(self).region_id_pool@, to_check@),
    {
        let ghost tiles = self.tiles();
        let ghost regions0 = self.regions@;
        let ghost pool0 = self.region_id_pool@;
        let ghost c = i as int;
        proof {
            self.lemma_tiles_wf();
            assert(near_upto(tiles, c, 0) =~= Set::<int>::empty());
        }
        let mut to_check: Vec<(usize, u16)> = Vec::with_capacity(5);
        let mut side: u8 = 0;
        while side < 4
            invariant
                *self == (GameBoard {
                    regions: self.regions,
                    region_id_pool: self.region_id_pool,
                    ..*old(self)
                }),
                tiles == self.tiles(),
                tiles.wf(),
                self.grid_wf(),
                c == i,
                tiles.has(c),
                side <= 4,
                regions0.len() == tiles.masks.len(),
                forall|v: int| tiles.has(v) ==> regions0[v] != 0,
                given_up(
                    tiles,
                    regions0,
                    pool0,
                    near_upto(tiles, c, side as int),
                    self.regions@,
                    self.region_id_pool@,
                ),
                forall|j: int|
                    0 <= j < to_check@.len() ==> tiles.has((#[trigger] to_check@[j]).0 as int) && near_upto(
                        tiles,
                        c,
                        side as int,
                    ).contains(to_check@[j].0 as int) && to_check@[j].1 == regions0[to_check@[j].0 as int],
                forall|v: int|
                    near_upto(tiles, c, side as int).contains(v) ==> exists|j: int|
                        0 <= j < to_check@.len() && (#[trigger] to_check@[j]).0 == v,
                to_check@ == noted(regions0, near_seq(tiles, c, side as int)),
                self.region_id_pool@ == pooled(pool0, to_check@),
            decreases 4 - side,
        {
            let ghost gone = near_upto(tiles, c, side as int);
            let ghost noted = to_check@;
            let ghost order = near_seq(tiles, c, side as int);
            match neighbor_of(self.width, self.height, i, side) {
                Some(next) => {
                    proof {
                        assert(tiles.next(c, side) == Some(next as int));
                        assert(!gone.contains(next as int)) by {
                            if side > 0 && tiles.next(c, 0) is Some {
                                lemma_near_apart(tiles, c, 0, side);
                            }
                            if side > 1 && tiles.next(c, 1) is Some {
                                lemma_near_apart(tiles, c, 1, side);
                            }
                            if side > 2 && tiles.next(c, 2) is Some {
                                lemma_near_apart(tiles, c, 2, side);
                            }
                        }
                        lemma_give_up(
                            tiles,
                            regions0,
                            pool0,
                            gone,
                            self.regions@,
                            self.region_id_pool@,
                            next as int,
                        );
                    }
                    self.retire(next, &mut to_check);
                    proof {
                        let more = near_upto(tiles, c, side + 1);
                        assert(more =~= gone.insert(next as int));
                        assert(to_check@[noted.len() as int].0 == next);
                        assert(near_seq(tiles, c, side + 1) == order.push(next as int));
                        assert(to_check@ =~= crate::update::noted(regions0, order.push(next as int)));
                        assert(to_check@.drop_last() =~= noted);
                        assert forall|v: int| #[trigger] more.contains(v) implies exists|j: int|
                            0 <= j < to_check@.len() && (#[trigger] to_check@[j]).0 == v by {
                            if v == next {
                            } else {
                                let j = choose|j: int| 0 <= j < noted.len() && (#[trigger] noted[j]).0 == v;
                                assert(to_check@[j].0 == v);
                            }
                        }
                    }
                },
                None => {
                    proof {
                        assert(near_upto(tiles, c, side + 1) =~= gone);
                        assert(near_seq(tiles, c, side + 1) == order);
                    }
                },
            }
            side = side + 1;
        }
        let ghost gone = near_upto(tiles, c, 4);
        let ghost noted = to_check@;
        let ghost order = near_seq(tiles, c, 4);
        proof {
            assert(!gone.contains(c)) by {
                if tiles.next(c, 0) is Some {
                    crate::grid::lemma_neighbor(tiles.width, tiles.height, c, 0);
                }
                if tiles.next(c, 1) is Some {
                    crate::grid::lemma_neighbor(tiles.width, tiles.height, c, 1);
                }
                if tiles.next(c, 2) is Some {
                    crate::grid::lemma_neighbor(tiles.width, tiles.height, c, 2);
                }
                if tiles.next(c, 3) is Some {
                    crate::grid::lemma_neighbor(tiles.width, tiles.height, c, 3);
                }
            }
            lemma_give_up(tiles, regions0, pool0, gone, self.regions@, self.region_id_pool@, c);
        }
        self.retire(i, &mut to_check);
        proof {
            let near = tiles.near(c);
            assert(near =~= gone.insert(c));
            assert(to_check@[noted.len() as int].0 == i);
            assert(near_seq(tiles, c, 5) == order.push(c));
            assert(to_check@ =~= crate::update::noted(regions0, order.push(c)));
            assert(to_check@.drop_last() =~= noted);
            assert forall|v: int| near.contains(v) implies exists|j: int|
                0 <= j < to_check@.len() && (#[trigger] to_check@[j]).0 == v by {
                if v == c {
                } else {
                    let j = choose|j: int| 0 <= j < noted.len() && (#[trigger] noted[j]).0 == v;
                    assert(to_check@[j].0 == v);
                }
            }
            assert forall|j: int| 0 <= j < to_check@.len() implies self.region_id_pool@.contains(
                (#[trigger] to_check@[j]).1,
            ) by {
                let k = to_check@[j].0 as int;
                assert(near.contains(k) && tiles.has(k) && regions0[k] == to_check@[j].1);
            }
        }
        to_check
    }

    /// Traces anew the region of each cell of `to_check` that holds no id,
    /// in the order of the list, preferring the id noted with the cell, and
    /// notes the id that the cell's region got. The cells of `rest` are
    /// settled already and stay as they are.
    fn retrace(
        &mut self,
        to_check: &mut Vec<(usize, u16)>,
        Ghost(rest): Ghost<Set<int>>,
        Ghost(regions0): Ghost<Seq<u16>>,
    )
        requires
            old(self).grid_wf(),
            regions0.len() == old(self).regions@.len(),
            forall|j: int|
                0 <= j < old(to_check)@.len() ==> (#[trigger] old(to_check)@[j]).1 == regions0[old(
                    to_check,
                )@[j].0 as int] && old(to_check)@[j].1 != 0 && old(self).region_id_pool@.contains(
                    old(to_check)@[j].1,
                ),
            forall|v: int|
                rest.contains(v) && 0 <= v < regions0.len() ==> #[trigger] old(self).regions@[v] == regions0[v],
            settled_wf(
                old(self).tiles(),
                old(self).regions@,
                old(self).region_id_pool@,
                old(self).number_regions as int,
                rest,
            ),
            forall|j: int|
                0 <= j < old(to_check)@.len() ==> old(self).tiles().has(
                    (#[trigger] old(to_check)@[j]).0 as int,
                ) && !rest.contains(old(to_check)@[j].0 as int) && old(self).regions@[old(
                    to_check,
                )@[j].0 as int] == 0,
        ensures
            *final(self) == (GameBoard {
                regions: final(self).regions,
                region_id_pool: final(self).region_id_pool,
                number_regions: final(self).number_regions,
                ..*old(self)
            }),
            final(to_check)@.len() == old(to_check)@.len(),
            forall|j: int|
                0 <= j < old(to_check)@.len() ==> (#[trigger] final(to_check)@[j]).0 == old(to_check)@[j].0,
            settled_wf(
                old(self).tiles(),
                final(self).regions@,
                final(self).region_id_pool@,
                final(self).number_regions as int,
                resettled(
                    old(self).tiles(),
                    rest,
                    Seq::new(old(to_check)@.len(), |j: int| old(to_check)@[j].0 as int),
                    old(to_check)@.len() as int,
                ),
            ),
            forall|v: int|
                rest.contains(v) && 0 <= v < old(self).regions@.len() ==> #[trigger] final(self).regions@[v]
                    == old(self).regions@[v],
            final(self).number_regions >= old(self).number_regions,
            forall|j: int|
                0 <= j < old(to_check)@.len() ==> (#[trigger] final(to_check)@[j]).1 == final(self).regions@[old(
                    to_check,
                )@[j].0 as int] || final(to_check)@[j].1 == old(to_check)@[j].1,
            forall|j: int|
                0 <= j < old(to_check)@.len() ==> listed(
                    final(to_check)@,
                    old(to_check)@.len() as int,
                    #[trigger] final(self).regions@[old(to_check)@[j].0 as int],
                ),
            partition_of(old(self).tiles(), regions0) ==> forall|v: int|
                resettled(
                    old(self).tiles(),
                    rest,
                    Seq::new(old(to_check)@.len(), |j: int| old(to_check)@[j].0 as int),
                    old(to_check)@.len() as int,
                ).contains(v) && 0 <= v < regions0.len() ==> #[trigger] final(self).regions@[v] == regions0[v],
            (Ids {
                regions: final(self).regions@,
                pool: final(self).region_id_pool@,
                top: final(self).number_regions as int,
            }) == retraced(
                old(self).tiles(),
                (Ids {
                    regions: old(self).regions@,
                    pool: old(self).region_id_pool@,
                    top: old(self).number_regions as int,
                }),
                old(to_check)@,
                old(to_check)@.len() as int,
            ),
            final(to_check)@ == renoted(
                old(self).tiles(),
                (Ids {
                    regions: old(self).regions@,
                    pool: old(self).region_id_pool@,
                    top: old(self).number_regions as int,
                }),
                old(to_check)@,
                old(to_check)@.len() as int,
            ),
    {
        let ghost entry = Ids {
            regions: self.regions@,
            pool: self.region_id_pool@,
            top: self.number_regions as int,
        };
        let ghost tiles = self.tiles();
        let ghost retired = self.regions@;
        let ghost starts = Seq::new(to_check@.len(), |j: int| to_check@[j].0 as int);
        proof {
            self.lemma_tiles_wf();
            assert(resettled(tiles, rest, starts, 0) =~= rest);
            assert(to_check@ =~= renoted(tiles, entry, to_check@, 0));
        }
        let mut k: usize = 0;
        while k < to_check.len()
            invariant
                *self == (GameBoard {
                    regions: self.regions,
                    region_id_pool: self.region_id_pool,
                    number_regions: self.number_regions,
                    ..*old(self)
                }),
                tiles == self.tiles(),
                tiles.wf(),
                self.grid_wf(),
                k <= to_check@.len(),
                starts.len() == to_check@.len(),
                starts.len() == old(to_check)@.len(),
                forall|j: int| 0 <= j < starts.len() ==> (#[trigger] to_check@[j]).0 == starts[j],
                forall|j: int|
                    0 <= j < starts.len() ==> (#[trigger] old(to_check)@[j]).0 == starts[j],
                forall|j: int|
                    0 <= j < starts.len() ==> tiles.has(#[trigger] starts[j]) && !rest.contains(starts[j]),
                self.regions@.len() == retired.len(),
                regions0.len() == retired.len(),
                self.number_regions >= old(self).number_regions,
                settled_wf(
                    tiles,
                    self.regions@,
                    self.region_id_pool@,
                    self.number_regions as int,
                    resettled(tiles, rest, starts, k as int),
                ),
                forall|j: int|
                    0 <= j < starts.len() ==> (self.regions@[#[trigger] starts[j]] == 0) == !resettled(
                        tiles,
                        rest,
                        starts,
                        k as int,
                    ).contains(starts[j]),
                forall|v: int|
                    rest.contains(v) && 0 <= v < retired.len() ==> #[trigger] self.regions@[v]
                        == retired[v],
                forall|j: int|
                    0 <= j < starts.len() ==> (#[trigger] old(to_check)@[j]).1 == regions0[starts[j]] && old(
                        to_check,
                    )@[j].1 != 0,
                partition_of(tiles, regions0) ==> forall|v: int|
                    resettled(tiles, rest, starts, k as int).contains(v) && 0 <= v < regions0.len()
                        ==> #[trigger] self.regions@[v] == regions0[v],
                partition_of(tiles, regions0) ==> forall|j: int|
                    0 <= j < starts.len() && !resettled(tiles, rest, starts, k as int).contains(
                        #[trigger] starts[j],
                    ) ==> self.region_id_pool@.contains(regions0[starts[j]]),
                forall|j: int|
                    0 <= j < k ==> (#[trigger] to_check@[j]).1 == self.regions@[starts[j]] || to_check@[j].1
                        == old(to_check)@[j].1,
                forall|j: int| k <= j < starts.len() ==> #[trigger] to_check@[j] == old(to_check)@[j],
                forall|j: int|
                    0 <= j < k ==> listed(to_check@, k as int, #[trigger] self.regions@[starts[j]]),
                (Ids {
                    regions: self.regions@,
                    pool: self.region_id_pool@,
                    top: self.number_regions as int,
                }) == retraced(tiles, entry, old(to_check)@, k as int),
                to_check@ == renoted(tiles, entry, old(to_check)@, k as int),
            decreases to_check@.len() - k,
        {
            let ghost settled = resettled(tiles, rest, starts, k as int);
            let (curr, region) = to_check[k];
            assert(curr == starts[k as int]);
            assert(tiles.has(starts[k as int]));
            proof {
                tiles.lemma_connected_self(curr as int);
            }
            let ghost noted = to_check@;
            if self.regions[curr] == 0 {
                let ghost earlier = self.regions@;
                let ghost pool_then = self.region_id_pool@;
                let ghost watermark_then = self.number_regions as int;
                let id = self.settle(curr, region, Ghost(settled));
                to_check[k] = (curr, id);
                proof {
                    let further = resettled(tiles, rest, starts, k + 1);
                    assert(self.tiles() == tiles);
                    assert(to_check@[k as int].1 == id);
                    assert(self.regions@[curr as int] == id);
                    lemma_draw(
                        pool_then,
                        watermark_then,
                        region,
                        id,
                        self.region_id_pool@,
                        self.number_regions as int,
                    );
                    assert(old(to_check)@[k as int] == (curr, region));
                    assert(self.regions@ =~= retraced(tiles, entry, old(to_check)@, k + 1).regions);
                    assert(to_check@ =~= renoted(tiles, entry, old(to_check)@, k + 1));
                    assert forall|j: int| 0 <= j < k implies self.regions@[starts[j]] == earlier[starts[j]] by {
                        tiles.lemma_connected_self(starts[j]);
                        assert(tiles.connected(starts[j], starts[j]));
                        assert(settled.contains(starts[j]));
                        assert(!region_of(tiles, curr as int).contains(starts[j]));
                    }
                    assert forall|j: int| 0 <= j < k + 1 implies listed(
                        to_check@,
                        k + 1,
                        #[trigger] self.regions@[starts[j]],
                    ) by {
                        if j < k {
                            assert(listed(noted, k as int, earlier[starts[j]]));
                            let l = lemma_listed_where(noted, k as int, earlier[starts[j]]);
                            assert(to_check@[l].1 == self.regions@[starts[j]]);
                            lemma_listed_at(to_check@, k + 1, l);
                        } else {
                            assert(to_check@[k as int].1 == self.regions@[starts[j]]);
                            lemma_listed_at(to_check@, k + 1, k as int);
                        }
                    }
                    assert forall|v: int| #[trigger] further.contains(v) == settled.union(
                        region_of(tiles, curr as int),
                    ).contains(v) by {
                        if further.contains(v) && !rest.contains(v) {
                            let j = choose|j: int|
                                0 <= j < k + 1 && j < starts.len() && #[trigger] tiles.connected(
                                    starts[j],
                                    v,
                                );
                            if j < k {
                                assert(settled.contains(v));
                            }
                        }
                        if settled.contains(v) && !rest.contains(v) {
                            let j = choose|j: int|
                                0 <= j < k && j < starts.len() && #[trigger] tiles.connected(starts[j], v);
                            assert(further.contains(v));
                        }
                        if region_of(tiles, curr as int).contains(v) {
                            assert(tiles.connected(starts[k as int], v));
                        }
                    }
                    assert(further =~= settled.union(region_of(tiles, curr as int)));
                    assert forall|j: int| 0 <= j < starts.len() implies (self.regions@[#[trigger] starts[j]]
                        == 0) == !further.contains(starts[j]) by {
                        let v = starts[j];
                        if tiles.connected(curr as int, v) {
                            assert(region_of(tiles, curr as int).contains(v));
                        } else {
                            assert(!region_of(tiles, curr as int).contains(v));
                            assert(self.regions@[v] == earlier[v]);
                        }
                    }
                    assert forall|v: int| rest.contains(v) && 0 <= v < retired.len() implies #[trigger] self.regions@[v]
                        == retired[v] by {
                        assert(settled.contains(v));
                        assert(!region_of(tiles, curr as int).contains(v));
                        assert(earlier[v] == retired[v]);
                    }
                    if partition_of(tiles, regions0) {
                        assert(region == regions0[curr as int]);
                        assert(pool_then.contains(region));
                        lemma_drawn(
                            pool_then,
                            watermark_then,
                            region,
                            id,
                            self.region_id_pool@,
                            self.number_regions as int,
                        );
                        assert(id == region);
                        assert forall|v: int|
                            further.contains(v) && 0 <= v < regions0.len() implies #[trigger] self.regions@[v]
                            == regions0[v] by {
                            if region_of(tiles, curr as int).contains(v) {
                                assert(tiles.connected(curr as int, v));
                                assert(regions0[curr as int] == regions0[v]);
                            } else {
                                assert(settled.contains(v));
                            }
                        }
                        assert forall|j: int|
                            0 <= j < starts.len() && !further.contains(#[trigger] starts[j]) implies self.region_id_pool@.contains(
                            regions0[starts[j]],
                        ) by {
                            assert(!settled.contains(starts[j]));
                            assert(pool_then.contains(regions0[starts[j]]));
                            if regions0[starts[j]] == id {
                                assert((regions0[curr as int] == regions0[starts[j]]) == tiles.connected(
                                    curr as int,
                                    starts[j],
                                ));
                                assert(region_of(tiles, curr as int).contains(starts[j]));
                            }
                        }
                    }
                }
            } else {
                proof {
                    let further = resettled(tiles, rest, starts, k + 1);
                    assert(settled.contains(curr as int));
                    assert(!rest.contains(starts[k as int]));
                    assert(old(to_check)@[k as int].0 == curr);
                    assert(to_check@ =~= renoted(tiles, entry, old(to_check)@, k + 1));
                    let first = choose|j: int|
                        0 <= j < k && j < starts.len() && #[trigger] tiles.connected(starts[j], curr as int);
                    tiles.lemma_connected_self(starts[first]);
                    assert(tiles.connected(starts[first], starts[first]));
                    assert(settled.contains(starts[first]));
                    assert(self.regions@[starts[first]] == self.regions@[curr as int]);
                    assert forall|j: int| 0 <= j < k + 1 implies listed(
                        to_check@,
                        k + 1,
                        #[trigger] self.regions@[starts[j]],
                    ) by {
                        let id = if j < k {
                            self.regions@[starts[j]]
                        } else {
                            self.regions@[starts[first]]
                        };
                        let at = if j < k {
                            j
                        } else {
                            first
                        };
                        assert(listed(to_check@, k as int, self.regions@[starts[at]]));
                        let l = lemma_listed_where(to_check@, k as int, self.regions@[starts[at]]);
                        assert(to_check@[l].1 == self.regions@[starts[j]]);
                        lemma_listed_at(to_check@, k + 1, l);
                    }
                    assert forall|v: int| #[trigger] further.contains(v) == settled.contains(v) by {
                        if further.contains(v) && !rest.contains(v) {
                            let j = choose|j: int|
                                0 <= j < k + 1 && j < starts.len() && #[trigger] tiles.connected(
                                    starts[j],
                                    v,
                                );
                            if j < k {
                                assert(settled.contains(v));
                            }
                        }
                        if settled.contains(v) && !rest.contains(v) {
                            let j = choose|j: int|
                                0 <= j < k && j < starts.len() && #[trigger] tiles.connected(starts[j], v);
                            assert(further.contains(v));
                        }
                    }
                    assert(further =~= settled);
                }
            }
            k = k + 1;
        }
    }

    /// The cell `i`, whose tile has been turned, and the cells next to it
    /// give up their ids, and their regions are traced anew. The result
    /// lists these cells, each with the id that its region got if the
    /// region was traced from it, else with the id it gave up.
    pub fn retrace_near(&mut self, i: usize) -> (to_check: Vec<(usize, u16)>)
        requires
            old(self).stale_at(i as int),
        ensures
            *final(self) == (GameBoard {
                regions: final(self).regions,
                region_id_pool: final(self).region_id_pool,
                number_regions: final(self).number_regions,
                ..*old(self)
            }),
            final(self).traced(),
            final(self).number_regions >= old(self).number_regions,
            forall|v: int|
                0 <= v < old(self).pipes@.len() && !affected(old(self).tiles(), old(self).regions@, i as int).contains(
                    v,
                ) ==> #[trigger] final(self).regions@[v] == old(self).regions@[v] && !listed(
                    to_check@,
                    to_check@.len() as int,
                    final(self).regions@[v],
                ),
            forall|v: int|
                affected(old(self).tiles(), old(self).regions@, i as int).contains(v) ==> listed(
                    to_check@,
                    to_check@.len() as int,
                    #[trigger] final(self).regions@[v],
                ),
            partition_of(old(self).tiles(), old(self).regions@) ==> final(self).regions@ == old(self).regions@,
            (Ids {
                regions: final(self).regions@,
                pool: final(self).region_id_pool@,
                top: final(self).number_regions as int,
            }) == turned_ids(
                old(self).tiles(),
                (Ids {
                    regions: old(self).regions@,
                    pool: old(self).region_id_pool@,
                    top: old(self).number_regions as int,
                }),
                i as int,
            ),
            to_check@ == turned_notes(
                old(self).tiles(),
                (Ids {
                    regions: old(self).regions@,
                    pool: old(self).region_id_pool@,
                    top: old(self).number_regions as int,
                }),
                i as int,
            ),
    {
        let ghost tiles = self.tiles();
        let ghost regions0 = self.regions@;
        let ghost pool0 = self.region_id_pool@;
        let ghost before = choose|before: u8|
            before < 16 && #[trigger] settled_wf(
                self.tiles().with_mask(i as int, before),
                self.regions@,
                self.region_id_pool@,
                self.number_regions as int,
                all_cells(self.tiles()),
            );
        let ghost c = i as int;
        let ghost rest = all_cells(tiles).difference(affected(tiles, regions0, c));
        proof {
            self.lemma_tiles_wf();
            assert forall|v: int| 0 <= v < regions0.len() implies regions0[v] != 0 by {
                assert(all_cells(tiles).contains(v));
            }
        }
        let mut to_check = self.give_up_near(i);
        let ghost starts = Seq::new(to_check@.len(), |j: int| to_check@[j].0 as int);
        proof {
            assert(self.tiles() == tiles);
            lemma_retired(
                tiles,
                c,
                before,
                regions0,
                pool0,
                self.number_regions as int,
                self.regions@,
                self.region_id_pool@,
            );
            assert forall|j: int| 0 <= j < to_check@.len() implies !rest.contains(
                (#[trigger] to_check@[j]).0 as int,
            ) by {
                let v = to_check@[j].0 as int;
                let id = regions0[v];
                assert(tiles.near(c).contains(v) && tiles.has(v) && regions0[v] == id);
            }
            assert forall|v: int| tiles.near(c).contains(v) implies exists|j: int|
                0 <= j < starts.len() && (#[trigger] starts[j]) == v by {
                let j = choose|j: int| 0 <= j < to_check@.len() && (#[trigger] to_check@[j]).0 == v;
                assert(starts[j] == v);
            }
        }
        let ghost noted = to_check@;
        let ghost after_retire = self.regions@;
        proof {
            assert(after_retire =~= Seq::new(
                regions0.len(),
                |v: int|
                    if tiles.near(c).contains(v) {
                        0u16
                    } else {
                        regions0[v]
                    },
            ));
        }
        self.retrace(&mut to_check, Ghost(rest), Ghost(regions0));
        proof {
            assert(Seq::new(noted.len(), |j: int| noted[j].0 as int) =~= starts);
            let last = resettled(tiles, rest, starts, starts.len() as int);
            assert(last =~= all_cells(tiles)) by {
                assert forall|v: int| tiles.has(v) implies last.contains(v) by {
                    if !rest.contains(v) {
                        assert(all_cells(tiles).contains(v));
                        lemma_affected_reached(tiles, c, before, regions0, pool0, old(self).number_regions as int, v);
                        let n = choose|n: int|
                            tiles.near(c).contains(n) && tiles.has(n) && #[trigger] tiles.connected(n, v);
                        let j = choose|j: int| 0 <= j < starts.len() && (#[trigger] starts[j]) == n;
                        assert(tiles.connected(starts[j], v));
                    }
                }
            }
            assert(settled_wf(
                tiles,
                self.regions@,
                self.region_id_pool@,
                self.number_regions as int,
                all_cells(tiles),
            ));
            assert(forall|v: int|
                all_cells(tiles).difference(affected(tiles, regions0, c)).contains(v) && 0 <= v < regions0.len()
                    ==> #[trigger] self.regions@[v] == after_retire[v]);
            assert(forall|v: int|
                tiles.has(v) ==> #[trigger] after_retire[v] == if tiles.near(c).contains(v) {
                    0
                } else {
                    regions0[v]
                });
            assert(forall|j: int|
                0 <= j < noted.len() ==> (#[trigger] to_check@[j]).1 == self.regions@[noted[j].0 as int]
                    || to_check@[j].1 == noted[j].1);
            assert(forall|j: int|
                0 <= j < noted.len() ==> listed(
                    to_check@,
                    noted.len() as int,
                    #[trigger] self.regions@[noted[j].0 as int],
                ));
            self.lemma_noted(
                tiles,
                c,
                before,
                regions0,
                pool0,
                old(self).number_regions as int,
                after_retire,
                noted,
                to_check@,
            );
            if partition_of(tiles, regions0) {
                assert forall|v: int| 0 <= v < regions0.len() implies self.regions@[v] == regions0[v] by {
                    assert(last.contains(v));
                }
                assert(self.regions@ =~= regions0);
            }
        }
        to_check
    }

    /// Brings the regions and their colours up to date after the tile of
    /// cell `i` has been turned. The cell and the cells next to it give up
    /// their ids, and their regions are traced anew, each with the id that
    /// its first cell had before if that id is still free. Then these
    /// regions are coloured anew. Cells that held none of the ids given up
    /// keep their id and their colour.
    pub fn update_regions(&mut self, i: usize)
        requires
            old(self).stale_at(i as int),
            old(self).colored(),
        ensures
            final(self).same_game(old(self)),
            final(self).same_shapes(old(self)),
            final(self).tiles() == old(self).tiles(),
            final(self).wf(),
            final(self).number_regions >= old(self).number_regions,
            final(self).number_colors >= old(self).number_colors,
            final(self).updated_from(old(self), i as int),
            partition_of(old(self).tiles(), old(self).regions@) ==> final(self).regions@ == old(self).regions@
                && final(self).pipes@ == old(self).pipes@,
            forall|v: int|
                0 <= v < old(self).pipes@.len() && !affected(old(self).tiles(), old(self).regions@, i as int).contains(
                    v,
                ) ==> #[trigger] final(self).regions@[v] == old(self).regions@[v],
            forall|v: int|
                0 <= v < old(self).pipes@.len() && !affected(old(self).tiles(), old(self).regions@, i as int).contains(
                    v,
                ) ==> (#[trigger] final(self).pipes@[v]).target_color == old(self).pipes@[v].target_color,
    {
        let ghost tiles = self.tiles();
        let ghost regions0 = self.regions@;
        let ghost spare = choose|spare: int| #[trigger]
            tinted(
                regions0,
                old(self).colors(),
                old(self).color_pool@,
                old(self).number_colors as int,
                cells_upto(old(self).pipes@.len() as int),
                spare,
            );
        let to_check = self.retrace_near(i);
        proof {
            assert(self.colors() == old(self).colors());
            lemma_faded(
                tiles,
                i as int,
                regions0,
                self.regions@,
                self.colors(),
                self.color_pool@,
                self.number_colors as int,
                spare,
                to_check@,
            );
            self.lemma_cells_bound();
        }
        let ghost traced = *self;
        self.recolor(&to_check, Ghost(spare));
        proof {
            self.lemma_same_tiles(&traced);
            assert(self.regions@ == traced.regions@);
            assert forall|v: int|
                0 <= v < old(self).pipes@.len() && !affected(tiles, regions0, i as int).contains(v) implies (#[trigger] self.pipes@[v]).target_color
                == old(self).pipes@[v].target_color by {
                assert(self.colors()[v] == traced.colors()[v]);
            }
            if partition_of(tiles, regions0) {
                let colors0 = old(self).colors();
                let every = cells_upto(old(self).pipes@.len() as int);
                assert forall|a: int, b: int|
                    #![trigger colors0[a], colors0[b]]
                    0 <= a < colors0.len() && 0 <= b < colors0.len() implies (colors0[a] == colors0[b]) == (
                regions0[a] == regions0[b]) by {
                    assert(every.contains(a) && every.contains(b));
                }
                assert(crate::colors::true_colors(traced.regions@, traced.colors()));
                assert forall|v: int| 0 <= v < old(self).pipes@.len() implies self.pipes@[v] == old(
                    self,
                ).pipes@[v] by {
                    assert(self.colors()[v] == colors0[v]);
                    assert(self.pipes@[v].kind == old(self).pipes@[v].kind);
                }
                assert(self.pipes@ =~= old(self).pipes@);
            }
        }
    }

    /// After the regions near the cell `c` have been traced anew, the id
    /// of every affected cell is noted in the list, and no id of another
    /// cell is.
    proof fn lemma_noted(
        &self,
        tiles: Tiles,
        c: int,
        before: u8,
        regions0: Seq<u16>,
        pool0: Seq<u16>,
        watermark: int,
        retired: Seq<u16>,
        noted: Seq<(usize, u16)>,
        to_check: Seq<(usize, u16)>,
    )
        requires
            tiles.wf(),
            tiles.has(c),
            before < 16,
            settled_wf(tiles.with_mask(c, before), regions0, pool0, watermark, all_cells(tiles)),
            settled_wf(
                tiles,
                self.regions@,
                self.region_id_pool@,
                self.number_regions as int,
                all_cells(tiles),
            ),
            to_check.len() == noted.len(),
            forall|j: int|
                0 <= j < noted.len() ==> tiles.has((#[trigger] noted[j]).0 as int) && tiles.near(c).contains(
                    noted[j].0 as int,
                ) && noted[j].1 == regions0[noted[j].0 as int],
            forall|v: int|
                tiles.near(c).contains(v) ==> exists|j: int| 0 <= j < noted.len() && (#[trigger] noted[j]).0 == v,
            forall|v: int|
                all_cells(tiles).difference(affected(tiles, regions0, c)).contains(v) && 0 <= v < regions0.len()
                    ==> #[trigger] self.regions@[v] == retired[v],
            forall|v: int|
                tiles.has(v) ==> #[trigger] retired[v] == if tiles.near(c).contains(v) {
                    0
                } else {
                    regions0[v]
                },
            forall|j: int|
                0 <= j < noted.len() ==> (#[trigger] to_check[j]).1 == self.regions@[noted[j].0 as int]
                    || to_check[j].1 == noted[j].1,
            forall|j: int|
                0 <= j < noted.len() ==> listed(
                    to_check,
                    noted.len() as int,
                    #[trigger] self.regions@[noted[j].0 as int],
                ),
        ensures
            forall|v: int|
                tiles.has(v) && !affected(tiles, regions0, c).contains(v) ==> #[trigger] self.regions@[v]
                    == regions0[v] && !listed(to_check, to_check.len() as int, self.regions@[v]),
            forall|v: int|
                affected(tiles, regions0, c).contains(v) ==> listed(
                    to_check,
                    to_check.len() as int,
                    #[trigger] self.regions@[v],
                ),
    {
        let aff = affected(tiles, regions0, c);
        let every = all_cells(tiles);
        assert forall|k: int| tiles.near(c).contains(k) && tiles.has(k) implies aff.contains(k) by {
            let id = regions0[k];
            assert(tiles.near(c).contains(k) && tiles.has(k) && regions0[k] == id);
        }
        assert forall|v: int| aff.contains(v) implies listed(
            to_check,
            to_check.len() as int,
            #[trigger] self.regions@[v],
        ) by {
            lemma_affected_reached(tiles, c, before, regions0, pool0, watermark, v);
            let n = choose|n: int| tiles.near(c).contains(n) && tiles.has(n) && #[trigger] tiles.connected(n, v);
            let j = choose|j: int| 0 <= j < noted.len() && (#[trigger] noted[j]).0 == n;
            assert(every.contains(n) && every.contains(v));
            assert(self.regions@[n] == self.regions@[v]);
            assert(listed(to_check, noted.len() as int, self.regions@[noted[j].0 as int]));
        }
        assert forall|v: int| tiles.has(v) && !aff.contains(v) implies #[trigger] self.regions@[v]
            == regions0[v] && !listed(to_check, to_check.len() as int, self.regions@[v]) by {
            assert(every.difference(aff).contains(v));
            assert(!tiles.near(c).contains(v));
            assert(self.regions@[v] == retired[v]);
            if listed(to_check, to_check.len() as int, self.regions@[v]) {
                let l = lemma_listed_where(to_check, to_check.len() as int, self.regions@[v]);
                let n = noted[l].0 as int;
                assert(aff.contains(n));
                assert(every.contains(n) && every.contains(v));
                if to_check[l].1 == self.regions@[n] {
                    assert(tiles.connected(n, v));
                    let t0 = tiles.with_mask(c, before);
                    lemma_retired_closed(tiles, c, before, regions0, pool0, watermark, n, v);
                } else {
                    assert(regions0[n] == regions0[v]);
                    assert(tiles.near(c).contains(n) && tiles.has(n) && regions0[n] == regions0[v]);
                }
            }
        }
    }
}

} // verus!
