//! The tracker of regions: which cells are connected, under which id.
//!
//! A region is a set of cells that are connected to each other and to no
//! other cell. Each region has an id of its own, a small number from 1 up.
//! Ids that no region holds any more wait in a pool to be handed out again.

use vstd::prelude::*;
use crate::board::GameBoard;
use crate::grid::Tiles;

verus! {

/// The number of entries of `seen` that are not set.
pub open spec fn unseen(seen: Seq<bool>) -> nat
    decreases seen.len(),
{
    if seen.len() == 0 {
        0
    } else {
        unseen(seen.drop_last()) + if seen.last() {
            0nat
        } else {
            1nat
        }
    }
}

/// Setting an entry that was not set leaves one unset entry fewer.
proof fn lemma_unseen_set(seen: Seq<bool>, i: int)
    requires
        0 <= i < seen.len(),
        !seen[i],
    ensures
        unseen(seen.update(i, true)) + 1 == unseen(seen),
    decreases seen.len(),
{
    let after = seen.update(i, true);
    if i == seen.len() - 1 {
        assert(after.drop_last() =~= seen.drop_last());
    } else {
        lemma_unseen_set(seen.drop_last(), i);
        assert(after.drop_last() =~= seen.drop_last().update(i, true));
    }
}

/// Whether the cell `u` is among `stack`.
pub open spec fn stacked(stack: Seq<usize>, u: int) -> bool {
    exists|k: int| 0 <= k < stack.len() && #[trigger] stack[k] as int == u
}

/// Whether the id `id` waits in `pool` or is held by a cell of `settled`.
pub open spec fn held(regions: Seq<u16>, pool: Seq<u16>, settled: Set<int>, id: int) -> bool {
    ||| exists|k: int| 0 <= k < pool.len() && #[trigger] pool[k] == id
    ||| exists|i: int| settled.contains(i) && 0 <= i < regions.len() && #[trigger] regions[i] == id
}

/// What the tracker keeps true of the cells in `settled`, the cells whose
/// region has been traced:
/// - such a cell holds an id from 1 to `watermark` that does not wait in the
///   pool;
/// - two such cells hold the same id exactly when they are connected;
/// - every cell connected to such a cell is such a cell;
/// - the pool holds ids from 1 to `watermark`, none of them twice;
/// - every id from 1 to `watermark` waits in the pool or is held by such a
///   cell.
pub open spec fn settled_wf(
    tiles: Tiles,
    regions: Seq<u16>,
    pool: Seq<u16>,
    watermark: int,
    settled: Set<int>,
) -> bool {
    &&& regions.len() == tiles.masks.len()
    &&& pool.no_duplicates()
    &&& forall|k: int| 0 <= k < pool.len() ==> 1 <= #[trigger] pool[k] <= watermark
    &&& forall|i: int| #[trigger]
        settled.contains(i) ==> tiles.has(i) && 1 <= regions[i] <= watermark && !pool.contains(
            regions[i],
        )
    &&& forall|id: int| 1 <= id <= watermark ==> #[trigger] held(regions, pool, settled, id)
    &&& forall|a: int, b: int|
        settled.contains(a) && settled.contains(b) ==> (regions[a] == regions[b])
            == #[trigger] tiles.connected(a, b)
    &&& forall|a: int, b: int|
        settled.contains(a) && #[trigger] tiles.connected(a, b) ==> settled.contains(b)
}

/// The cells connected to `cell`.
pub open spec fn region_of(tiles: Tiles, cell: int) -> Set<int> {
    Set::new(|v: int| tiles.connected(cell, v))
}

/// All cells of the grid.
pub open spec fn all_cells(tiles: Tiles) -> Set<int> {
    Set::new(|v: int| tiles.has(v))
}

/// What `next_region_id` does: from the pool `pool` and the highest id
/// `watermark` it hands out `id` for the preference `preference`, and
/// leaves the pool `pool_after` and the highest id `watermark_after`.
pub open spec fn drawn(
    pool: Seq<u16>,
    watermark: int,
    preference: u16,
    id: u16,
    pool_after: Seq<u16>,
    watermark_after: int,
) -> bool {
    if pool.len() == 0 {
        id == watermark + 1 && watermark_after == id && pool_after == pool
    } else if preference != 0 && pool.contains(preference) {
        &&& id == preference
        &&& watermark_after == watermark
        &&& exists|at: int|
            {
                &&& 0 <= at < pool.len()
                &&& pool[at] == preference
                &&& forall|k: int| 0 <= k < at ==> pool[k] != preference
                &&& pool_after == pool.update(at, pool.last()).drop_last()
            }
    } else {
        id == pool.last() && watermark_after == watermark && pool_after == pool.drop_last()
    }
}

/// An id drawn from a pool without repeats leaves the pool without the id
/// and without repeats.
pub proof fn lemma_drawn(
    pool: Seq<u16>,
    watermark: int,
    preference: u16,
    id: u16,
    pool_after: Seq<u16>,
    watermark_after: int,
)
    requires
        drawn(pool, watermark, preference, id, pool_after, watermark_after),
        pool.no_duplicates(),
        pool.len() > 0,
    ensures
        pool.contains(id),
        pool_after.no_duplicates(),
        forall|x: u16| pool_after.contains(x) == (pool.contains(x) && x != id),
{
    let last = pool.len() - 1;
    if preference != 0 && pool.contains(preference) {
        let at = choose|at: int|
            {
                &&& 0 <= at < pool.len()
                &&& pool[at] == preference
                &&& forall|k: int| 0 <= k < at ==> pool[k] != preference
                &&& pool_after == pool.update(at, pool.last()).drop_last()
            };
        assert forall|x: u16| pool_after.contains(x) == (pool.contains(x) && x != id) by {
            if pool_after.contains(x) {
                let k = choose|k: int| 0 <= k < pool_after.len() && pool_after[k] == x;
                if k == at {
                    assert(pool[last] == x);
                } else {
                    assert(pool[k] == x);
                }
            }
            if pool.contains(x) && x != id {
                let k = choose|k: int| 0 <= k < pool.len() && pool[k] == x;
                if k == last {
                    assert(pool_after[at] == x);
                } else {
                    assert(pool_after[k] == x);
                }
            }
        }
    } else {
        assert(pool[last] == id);
        assert forall|x: u16| pool_after.contains(x) == (pool.contains(x) && x != id) by {
            if pool_after.contains(x) {
                let k = choose|k: int| 0 <= k < pool_after.len() && pool_after[k] == x;
                assert(pool[k] == x);
            }
            if pool.contains(x) && x != id {
                let k = choose|k: int| 0 <= k < pool.len() && pool[k] == x;
                assert(pool_after[k] == x);
            }
        }
    }
}

/// With an empty pool every id up to the highest is held by a settled
/// cell, so there are at least as many settled cells as ids.
pub proof fn lemma_ids_fit(
    tiles: Tiles,
    regions: Seq<u16>,
    pool: Seq<u16>,
    watermark: int,
    settled: Set<int>,
    cell: int,
)
    requires
        settled_wf(tiles, regions, pool, watermark, settled),
        pool.len() == 0,
        0 <= watermark,
        tiles.has(cell),
        !settled.contains(cell),
    ensures
        watermark < tiles.masks.len(),
{
    let cells = tiles.masks.len() as int;
    let room = vstd::set_lib::set_int_range(0, cells).remove(cell);
    vstd::set_lib::lemma_int_range(0, cells);
    assert(settled.subset_of(room));
    vstd::set_lib::lemma_len_subset(settled, room);
    let id_of = |i: int| regions[i] as int;
    let ids = settled.map(id_of);
    vstd::set_lib::lemma_map_size_bound(settled, ids, id_of);
    let wanted = vstd::set_lib::set_int_range(1, watermark + 1);
    vstd::set_lib::lemma_int_range(1, watermark + 1);
    assert forall|id: int| wanted.contains(id) implies ids.contains(id) by {
        assert(held(regions, pool, settled, id));
        let i = choose|i: int| settled.contains(i) && 0 <= i < regions.len() && #[trigger] regions[i] == id;
        assert(id_of(i) == id);
    }
    vstd::set_lib::lemma_len_subset(wanted, ids);
}

/// Tracing the region of a cell that was not settled, under an id just
/// drawn, settles that region and keeps the rest settled.
pub proof fn lemma_settle(
    tiles: Tiles,
    regions: Seq<u16>,
    pool: Seq<u16>,
    watermark: int,
    settled: Set<int>,
    cell: int,
    preference: u16,
    id: u16,
    regions_after: Seq<u16>,
    pool_after: Seq<u16>,
    watermark_after: int,
)
    requires
        tiles.wf(),
        settled_wf(tiles, regions, pool, watermark, settled),
        0 <= watermark,
        tiles.has(cell),
        !settled.contains(cell),
        drawn(pool, watermark, preference, id, pool_after, watermark_after),
        regions_after.len() == regions.len(),
        forall|v: int|
            0 <= v < regions.len() ==> #[trigger] regions_after[v] == if tiles.connected(cell, v) {
                id
            } else {
                regions[v]
            },
    ensures
        settled_wf(tiles, regions_after, pool_after, watermark_after, settled.union(region_of(tiles, cell))),
        forall|v: int| region_of(tiles, cell).contains(v) ==> !settled.contains(v),
        watermark <= watermark_after,
        1 <= id <= watermark_after,
{
    let region = region_of(tiles, cell);
    let after = settled.union(region);
    tiles.lemma_connected_self(cell);
    assert forall|v: int| region.contains(v) implies !settled.contains(v) && tiles.has(v) by {
        tiles.lemma_connected_sym(cell, v);
        tiles.lemma_connected_has(cell, v);
    }
    if pool.len() > 0 {
        lemma_drawn(pool, watermark, preference, id, pool_after, watermark_after);
        let k = choose|k: int| 0 <= k < pool.len() && pool[k] == id;
        assert(1 <= pool[k] <= watermark);
    }
    assert forall|k: int| 0 <= k < pool_after.len() implies 1 <= #[trigger] pool_after[k]
        <= watermark_after by {
        if pool.len() > 0 {
            assert(pool_after.contains(pool_after[k]));
            assert(pool.contains(pool_after[k]));
            let j = choose|j: int| 0 <= j < pool.len() && pool[j] == pool_after[k];
            assert(1 <= pool[j] <= watermark);
        }
    }
    assert forall|i: int| #[trigger] after.contains(i) implies tiles.has(i) && 1 <= regions_after[i]
        <= watermark_after && !pool_after.contains(regions_after[i]) by {
        if region.contains(i) {
        } else {
            assert(settled.contains(i));
            assert(!tiles.connected(cell, i));
        }
    }
    assert forall|other: int| 1 <= other <= watermark_after implies #[trigger] held(
        regions_after,
        pool_after,
        after,
        other,
    ) by {
        if other == id {
            assert(after.contains(cell));
            assert(regions_after[cell] == id);
        } else {
            assert(held(regions, pool, settled, other));
            if exists|k: int| 0 <= k < pool.len() && #[trigger] pool[k] == other {
                let k = choose|k: int| 0 <= k < pool.len() && #[trigger] pool[k] == other;
                assert(pool.contains(other as u16));
                assert(pool_after.contains(other as u16));
                let j = choose|j: int| 0 <= j < pool_after.len() && pool_after[j] == other as u16;
                assert(pool_after[j] == other);
            } else {
                let i = choose|i: int|
                    settled.contains(i) && 0 <= i < regions.len() && #[trigger] regions[i] == other;
                assert(after.contains(i));
                assert(!tiles.connected(cell, i));
                assert(regions_after[i] == other);
            }
        }
    }
    assert forall|a: int, b: int| after.contains(a) && after.contains(b) implies (regions_after[a]
        == regions_after[b]) == #[trigger] tiles.connected(a, b) by {
        if region.contains(a) && region.contains(b) {
            tiles.lemma_connected_sym(cell, a);
            tiles.lemma_connected_trans(a, cell, b);
        } else if region.contains(a) {
            assert(settled.contains(b));
            assert(!pool.contains(regions[b]));
            if tiles.connected(a, b) {
                tiles.lemma_connected_trans(cell, a, b);
            }
        } else if region.contains(b) {
            assert(settled.contains(a));
            assert(!pool.contains(regions[a]));
            if tiles.connected(a, b) {
                tiles.lemma_connected_sym(a, b);
                tiles.lemma_connected_trans(cell, b, a);
            }
        } else {
            assert(settled.contains(a) && settled.contains(b));
        }
    }
    assert forall|a: int, b: int| after.contains(a) && #[trigger] tiles.connected(a, b) implies after.contains(
        b,
    ) by {
        if region.contains(a) {
            tiles.lemma_connected_trans(cell, a, b);
        }
    }
}

/// Whether no cell before `cell` is connected to it, so that `cell` is the
/// first cell of its region.
pub open spec fn is_first(tiles: Tiles, cell: int) -> bool {
    forall|j: int| 0 <= j < cell ==> !tiles.connected(j, cell)
}

/// The number of regions that begin before the cell `upto`.
pub open spec fn firsts(tiles: Tiles, upto: int) -> int
    decreases upto,
{
    if upto <= 0 {
        0
    } else {
        firsts(tiles, upto - 1) + if is_first(tiles, upto - 1) {
            1int
        } else {
            0int
        }
    }
}

/// The cells connected to a cell before `upto`.
pub open spec fn covered(tiles: Tiles, upto: int) -> Set<int> {
    Set::new(|v: int| exists|c: int| 0 <= c < upto && #[trigger] tiles.connected(c, v))
}

/// Whether `item` is among `items`.
pub fn holds(items: &Vec<u16>, item: u16) -> (found: bool)
    ensures
        found == items@.contains(item),
{
    let mut k: usize = 0;
    while k < items.len()
        invariant
            k <= items@.len(),
            forall|j: int| 0 <= j < k ==> items@[j] != item,
        decreases items@.len() - k,
    {
        if items[k] == item {
            return true;
        }
        k = k + 1;
    }
    false
}

impl GameBoard {
    /// Hands out an id for a region. With an empty pool it is the one after
    /// the highest handed out so far. Otherwise it comes from the pool:
    /// `preference` if that is not 0 and waits there, else the id that the
    /// pool got last.
    pub fn next_region_id(&mut self, preference: u16) -> (id: u16)
        requires
            old(self).region_id_pool@.len() == 0 ==> old(self).number_regions < u16::MAX,
        ensures
            *final(self) == (GameBoard {
                region_id_pool: final(self).region_id_pool,
                number_regions: final(self).number_regions,
                ..*old(self)
            }),
            old(self).region_id_pool@.len() == 0 ==> {
                &&& id == old(self).number_regions + 1
                &&& final(self).number_regions == id
                &&& final(self).region_id_pool@ == old(self).region_id_pool@
            },
            old(self).region_id_pool@.len() > 0 ==> final(self).number_regions == old(self).number_regions,
            old(self).region_id_pool@.len() > 0 && (preference == 0
                || !old(self).region_id_pool@.contains(preference)) ==> {
                &&& id == old(self).region_id_pool@.last()
                &&& final(self).region_id_pool@ == old(self).region_id_pool@.drop_last()
            },
            preference != 0 && old(self).region_id_pool@.contains(preference) ==> {
                &&& id == preference
                &&& exists|at: int|
                    {
                        &&& 0 <= at < old(self).region_id_pool@.len()
                        &&& old(self).region_id_pool@[at] == preference
                        &&& forall|k: int| 0 <= k < at ==> old(self).region_id_pool@[k] != preference
                        &&& final(self).region_id_pool@ == old(self).region_id_pool@.update(
                            at,
                            old(self).region_id_pool@.last(),
                        ).drop_last()
                    }
            },
    {
        if self.region_id_pool.is_empty() {
            self.number_regions = self.number_regions + 1;
            self.number_regions
        } else if preference == 0 {
            let ghost pool = self.region_id_pool@;
            let id = self.region_id_pool.pop().unwrap();
            assert(self.region_id_pool@ =~= pool.drop_last());
            id
        } else {
            let ghost pool = self.region_id_pool@;
            let mut i: usize = 0;
            while i < self.region_id_pool.len()
                invariant
                    *self == *old(self),
                    preference != 0,
                    pool == self.region_id_pool@,
                    i <= pool.len(),
                    forall|k: int| 0 <= k < i ==> pool[k] != preference,
                decreases pool.len() - i,
            {
                if self.region_id_pool[i] == preference {
                    assert(pool[i as int] == preference);
                    self.region_id_pool.swap_remove(i);
                    return preference;
                }
                i = i + 1;
            }
            let id = self.region_id_pool.pop().unwrap();
            assert(self.region_id_pool@ =~= pool.drop_last());
            id
        }
    }

    /// Puts the id `region` into the pool, unless it is 0 or waits there
    /// already.
    pub fn add_region_to_pool(&mut self, region: u16)
        ensures
            *final(self) == (GameBoard { region_id_pool: final(self).region_id_pool, ..*old(self) }),
            final(self).region_id_pool@ == if region != 0 && !old(self).region_id_pool@.contains(
                region,
            ) {
                old(self).region_id_pool@.push(region)
            } else {
                old(self).region_id_pool@
            },
    {
        if region != 0 && !holds(&self.region_id_pool, region) {
            self.region_id_pool.push(region);
        }
    }

    /// Traces the region of `cell`, which no traced region holds yet, under
    /// an id drawn with `preference`.
    pub(crate) fn settle(&mut self, cell: usize, preference: u16, Ghost(settled): Ghost<Set<int>>) -> (id:
        u16)
        requires
            old(self).grid_wf(),
            settled_wf(
                old(self).tiles(),
                old(self).regions@,
                old(self).region_id_pool@,
                old(self).number_regions as int,
                settled,
            ),
            cell < old(self).pipes@.len(),
            !settled.contains(cell as int),
        ensures
            *final(self) == (GameBoard {
                regions: final(self).regions,
                region_id_pool: final(self).region_id_pool,
                number_regions: final(self).number_regions,
                ..*old(self)
            }),
            settled_wf(
                old(self).tiles(),
                final(self).regions@,
                final(self).region_id_pool@,
                final(self).number_regions as int,
                settled.union(region_of(old(self).tiles(), cell as int)),
            ),
            drawn(
                old(self).region_id_pool@,
                old(self).number_regions as int,
                preference,
                id,
                final(self).region_id_pool@,
                final(self).number_regions as int,
            ),
            forall|v: int|
                0 <= v < old(self).regions@.len() ==> #[trigger] final(self).regions@[v]
                    == if old(self).tiles().connected(cell as int, v) {
                    id
                } else {
                    old(self).regions@[v]
                },
            forall|v: int| region_of(old(self).tiles(), cell as int).contains(v) ==> !settled.contains(v),
            id >= 1,
    {
        proof {
            self.lemma_tiles_wf();
            self.lemma_cells_bound();
            if self.region_id_pool@.len() == 0 {
                lemma_ids_fit(
                    self.tiles(),
                    self.regions@,
                    self.region_id_pool@,
                    self.number_regions as int,
                    settled,
                    cell as int,
                );
            }
        }
        let id = self.next_region_id(preference);
        assert(self.tiles() == old(self).tiles());
        self.trace_region(cell, id);
        proof {
            assert(self.tiles() == old(self).tiles());
            lemma_settle(
                old(self).tiles(),
                old(self).regions@,
                old(self).region_id_pool@,
                old(self).number_regions as int,
                settled,
                cell as int,
                preference,
                id,
                self.regions@,
                self.region_id_pool@,
                self.number_regions as int,
            );
        }
        id
    }

    /// The regions and colours are as a full trace leaves them: the regions
    /// are numbered from 1 in the order of their first cells, each is shown
    /// in the colour one below its id, and no id and no colour waits in a
    /// pool.
    pub open spec fn freshly_traced(&self) -> bool {
        &&& self.wf()
        &&& self.region_id_pool@.len() == 0
        &&& self.number_regions == firsts(self.tiles(), self.pipes@.len() as int)
        &&& forall|c: int|
            0 <= c < self.pipes@.len() && is_first(self.tiles(), c) ==> #[trigger] self.regions@[c] == firsts(
                self.tiles(),
                c,
            ) + 1
        &&& self.color_pool@.len() == 0
        &&& self.number_colors == self.number_regions
        &&& forall|c: int|
            0 <= c < self.pipes@.len() ==> (#[trigger] self.pipes@[c]).target_color == self.regions@[c] - 1
    }

    /// Traces all regions anew. Earlier ids and colours are forgotten: the
    /// regions are numbered from 1 in the order of their first cells, and
    /// each takes the colour one below its id.
    pub fn trace_regions(&mut self)
        requires
            old(self).grid_wf(),
        ensures
            final(self).same_game(old(self)),
            final(self).same_shapes(old(self)),
            final(self).tiles() == old(self).tiles(),
            final(self).freshly_traced(),
    {
        let ghost tiles = self.tiles();
        proof {
            self.lemma_tiles_wf();
            self.lemma_cells_bound();
        }
        let cells = self.pipes.len();
        self.regions = vec![0u16; cells];
        self.region_id_pool.clear();
        self.number_regions = 0;
        let mut i: usize = 0;
        assert(covered(tiles, 0) =~= Set::<int>::empty());
        while i < cells
            invariant
                *self == (GameBoard {
                    regions: self.regions,
                    region_id_pool: self.region_id_pool,
                    number_regions: self.number_regions,
                    ..*old(self)
                }),
                tiles == self.tiles(),
                tiles.wf(),
                self.grid_wf(),
                cells == self.pipes@.len(),
                i <= cells,
                settled_wf(
                    tiles,
                    self.regions@,
                    self.region_id_pool@,
                    self.number_regions as int,
                    covered(tiles, i as int),
                ),
                self.region_id_pool@.len() == 0,
                self.number_regions == firsts(tiles, i as int),
                forall|v: int|
                    0 <= v < cells ==> (#[trigger] self.regions@[v] == 0) == !covered(
                        tiles,
                        i as int,
                    ).contains(v),
                forall|c: int|
                    0 <= c < i && is_first(tiles, c) ==> #[trigger] self.regions@[c] == firsts(tiles, c)
                        + 1,
            decreases cells - i,
        {
            let ghost before = covered(tiles, i as int);
            proof {
                tiles.lemma_connected_self(i as int);
            }
            if self.regions[i] == 0 {
                proof {
                    assert forall|j: int| 0 <= j < i implies !tiles.connected(j, i as int) by {
                        if tiles.connected(j, i as int) {
                            assert(before.contains(i as int));
                        }
                    }
                    assert(is_first(tiles, i as int));
                }
                let ghost earlier = self.regions@;
                let id = self.settle(i, 0, Ghost(before));
                proof {
                    assert(self.tiles() == tiles);
                    assert forall|v: int| covered(tiles, i + 1).contains(v) == before.union(
                        region_of(tiles, i as int),
                    ).contains(v) by {
                        if covered(tiles, i + 1).contains(v) {
                            let c = choose|c: int| 0 <= c < i + 1 && #[trigger] tiles.connected(c, v);
                            if c < i {
                                assert(before.contains(v));
                            }
                        }
                        if before.contains(v) {
                            let c = choose|c: int| 0 <= c < i && #[trigger] tiles.connected(c, v);
                            assert(covered(tiles, i + 1).contains(v));
                        }
                        if region_of(tiles, i as int).contains(v) {
                            assert(tiles.connected(i as int, v));
                            assert(covered(tiles, i + 1).contains(v));
                        }
                    }
                    assert(covered(tiles, i + 1) =~= before.union(region_of(tiles, i as int)));
                    assert forall|c: int| 0 <= c < i + 1 && is_first(tiles, c) implies #[trigger] self.regions@[c]
                        == firsts(tiles, c) + 1 by {
                        if c < i {
                            tiles.lemma_connected_self(c);
                            assert(before.contains(c));
                            assert(earlier[c] == firsts(tiles, c) + 1);
                            assert(!region_of(tiles, i as int).contains(c));
                        }
                    }
                    assert forall|v: int| 0 <= v < cells implies (#[trigger] self.regions@[v] == 0)
                        == !covered(tiles, i + 1).contains(v) by {
                        if tiles.connected(i as int, v) {
                            assert(region_of(tiles, i as int).contains(v));
                        } else {
                            assert(!region_of(tiles, i as int).contains(v));
                        }
                    }
                }
            } else {
                proof {
                    assert(before.contains(i as int));
                    let c = choose|c: int| 0 <= c < i && #[trigger] tiles.connected(c, i as int);
                    assert(!is_first(tiles, i as int));
                    assert forall|v: int| covered(tiles, i + 1).contains(v) == before.contains(v) by {
                        if covered(tiles, i + 1).contains(v) {
                            let d = choose|d: int| 0 <= d < i + 1 && #[trigger] tiles.connected(d, v);
                            if d == i {
                                tiles.lemma_connected_trans(c, i as int, v);
                            }
                            assert(before.contains(v));
                        }
                        if before.contains(v) {
                            let d = choose|d: int| 0 <= d < i && #[trigger] tiles.connected(d, v);
                            assert(covered(tiles, i + 1).contains(v));
                        }
                    }
                    assert(covered(tiles, i + 1) =~= before);
                }
            }
            i = i + 1;
        }
        proof {
            assert forall|v: int| covered(tiles, cells as int).contains(v) == all_cells(tiles).contains(
                v,
            ) by {
                if covered(tiles, cells as int).contains(v) {
                    let c = choose|c: int| 0 <= c < cells && #[trigger] tiles.connected(c, v);
                    tiles.lemma_connected_has(c, v);
                }
                if tiles.has(v) {
                    tiles.lemma_connected_self(v);
                }
            }
            assert(covered(tiles, cells as int) =~= all_cells(tiles));
        }
        self.color_pool.clear();
        self.number_colors = self.number_regions;
        let mut i: usize = 0;
        while i < cells
            invariant
                self.same_game(old(self)),
                self.same_shapes(old(self)),
                self.grid_wf(),
                cells == self.pipes@.len(),
                self.regions@.len() == cells,
                i <= cells,
                forall|v: int| 0 <= v < cells ==> 1 <= #[trigger] self.regions@[v],
                settled_wf(
                    tiles,
                    self.regions@,
                    self.region_id_pool@,
                    self.number_regions as int,
                    all_cells(tiles),
                ),
                self.region_id_pool@.len() == 0,
                self.number_regions == firsts(tiles, cells as int),
                forall|c: int|
                    0 <= c < cells && is_first(tiles, c) ==> #[trigger] self.regions@[c] == firsts(
                        tiles,
                        c,
                    ) + 1,
                self.color_pool@.len() == 0,
                self.number_colors == self.number_regions,
                forall|c: int|
                    0 <= c < i ==> (#[trigger] self.pipes@[c]).target_color == self.regions@[c] - 1,
            decreases cells - i,
        {
            assert(all_cells(tiles).contains(i as int));
            let color = self.regions[i] - 1;
            self.pipes[i].change_color(color);
            i = i + 1;
        }
        proof {
            self.lemma_same_tiles(old(self));
            assert forall|i: int| 0 <= i < cells implies 1 <= #[trigger] self.regions@[i]
                <= self.number_regions by {
                assert(all_cells(tiles).contains(i));
            }
            assert forall|id: int| 1 <= id <= self.number_regions implies #[trigger] crate::colors::in_use(
                self.regions@,
                id,
            ) by {
                assert(held(self.regions@, self.region_id_pool@, all_cells(tiles), id));
                let i = choose|i: int|
                    all_cells(tiles).contains(i) && 0 <= i < self.regions@.len() && #[trigger] self.regions@[i]
                        == id;
            }
            assert(self.color_pool@ =~= Seq::<u16>::empty());
            crate::colors::lemma_numbered_colors(self.regions@, self.colors(), self.number_regions as int);
        }
    }

    /// Gives the id `region` to the cell `start` and to every cell connected
    /// to it, and leaves all other cells as they are.
    pub fn trace_region(&mut self, start: usize, region: u16)
        requires
            old(self).grid_wf(),
            old(self).regions@.len() == old(self).pipes@.len(),
            start < old(self).pipes@.len(),
        ensures
            *final(self) == (GameBoard { regions: final(self).regions, ..*old(self) }),
            final(self).regions@.len() == old(self).regions@.len(),
            forall|v: int|
                0 <= v < old(self).regions@.len() ==> #[trigger] final(self).regions@[v]
                    == if old(self).tiles().connected(start as int, v) {
                    region
                } else {
                    old(self).regions@[v]
                },
    {
        let ghost tiles = self.tiles();
        let cells = self.pipes.len();
        proof {
            self.lemma_tiles_wf();
            tiles.lemma_connected_self(start as int);
        }
        let mut explore: Vec<usize> = Vec::new();
        explore.push(start);
        self.regions[start] = region;
        let mut visited: Vec<bool> = vec![false; cells];
        visited[start] = true;
        proof {
            lemma_unseen_set(Seq::new(cells as nat, |i: int| false), start as int);
            assert(Seq::new(cells as nat, |i: int| false).update(start as int, true) =~= visited@);
            assert(explore@[0] == start);
        }
        while explore.len() > 0
            invariant
                *self == (GameBoard { regions: self.regions, ..*old(self) }),
                tiles == self.tiles(),
                tiles.wf(),
                self.grid_wf(),
                cells == self.pipes@.len(),
                self.regions@.len() == cells,
                old(self).regions@.len() == cells,
                visited@.len() == cells,
                start < cells,
                forall|k: int|
                    0 <= k < explore@.len() ==> #[trigger] explore@[k] < cells && visited@[explore@[k] as int],
                forall|v: int| 0 <= v < cells && #[trigger] visited@[v] ==> tiles.connected(start as int, v),
                visited@[start as int],
                forall|v: int|
                    0 <= v < cells ==> #[trigger] self.regions@[v] == if visited@[v] {
                        region
                    } else {
                        old(self).regions@[v]
                    },
                forall|u: int, v: int|
                    0 <= u < cells && visited@[u] && #[trigger] tiles.linked(u, v) ==> (0 <= v < cells
                        && visited@[v]) || stacked(explore@, u),
            decreases 2 * unseen(visited@) + explore@.len(),
        {
            let ghost before = explore@;
            let ghost seen_before = visited@;
            let curr = explore.pop().unwrap();
            assert(before[before.len() - 1] == curr);
            assert forall|u: int| stacked(before, u) implies stacked(explore@, u) || u == curr by {
                let k = choose|k: int| 0 <= k < before.len() && #[trigger] before[k] as int == u;
                if k < before.len() - 1 {
                    assert(explore@[k] as int == u);
                }
            }
            let mut side: u8 = 0;
            while side < 4
                invariant
                    *self == (GameBoard { regions: self.regions, ..*old(self) }),
                    tiles == self.tiles(),
                    tiles.wf(),
                    self.grid_wf(),
                    cells == self.pipes@.len(),
                    self.regions@.len() == cells,
                    old(self).regions@.len() == cells,
                    visited@.len() == cells,
                    start < cells,
                    curr < cells,
                    side <= 4,
                    forall|k: int|
                        0 <= k < explore@.len() ==> #[trigger] explore@[k] < cells && visited@[explore@[k] as int],
                    forall|v: int|
                        0 <= v < cells && #[trigger] visited@[v] ==> tiles.connected(start as int, v),
                    visited@[start as int],
                    visited@[curr as int],
                    forall|v: int|
                        0 <= v < cells ==> #[trigger] self.regions@[v] == if visited@[v] {
                            region
                        } else {
                            old(self).regions@[v]
                        },
                    forall|u: int, v: int|
                        0 <= u < cells && visited@[u] && #[trigger] tiles.linked(u, v) ==> (0 <= v
                            < cells && visited@[v]) || stacked(explore@, u) || u == curr,
                    forall|v: int, s: u8|
                        s < side && #[trigger] tiles.joins(curr as int, v, s) ==> 0 <= v < cells && visited@[v],
                    2 * unseen(visited@) + explore@.len() < 2 * unseen(seen_before) + before.len(),
                decreases 4 - side,
            {
                let ghost seen_then = visited@;
                let ghost stack_then = explore@;
                let next_cell = crate::grid::neighbor_of(self.width, self.height, curr, side);
                match next_cell {
                    Some(next) => {
                        let shared = self.pipes[curr].shares_edge_with(&self.pipes[next], side);
                        proof {
                            assert(tiles.masks[curr as int] == self.pipes@[curr as int].mask());
                            assert(tiles.masks[next as int] == self.pipes@[next as int].mask());
                            assert(tiles.next(curr as int, side) == Some(next as int));
                            assert(shared == tiles.link(curr as int, side));
                        }
                        if shared && !visited[next] {
                            proof {
                                tiles.lemma_joins(curr as int, next as int, side);
                                tiles.lemma_connected_step(start as int, curr as int, next as int);
                                lemma_unseen_set(visited@, next as int);
                            }
                            explore.push(next);
                            self.regions[next] = region;
                            visited[next] = true;
                            proof {
                                assert(explore@[stack_then.len() as int] == next);
                                assert(stacked(explore@, next as int));
                                assert(visited@ =~= seen_then.update(next as int, true));
                                assert(explore@ =~= stack_then.push(next));
                            }
                        }
                    },
                    None => {
                        assert(!tiles.link(curr as int, side));
                    },
                }
                proof {
                    assert forall|u: int| stacked(stack_then, u) implies stacked(explore@, u) by {
                        let k = choose|k: int|
                            0 <= k < stack_then.len() && #[trigger] stack_then[k] as int == u;
                        assert(explore@[k] as int == u);
                    }
                    assert forall|v: int| 0 <= v < cells && seen_then[v] implies visited@[v] by {}
                    assert forall|v: int, s: u8|
                        s < side + 1 && #[trigger] tiles.joins(curr as int, v, s) implies 0 <= v < cells
                        && visited@[v] by {
                        if s < side {
                            assert(seen_then[v]);
                        }
                    }
                    assert forall|u: int, v: int|
                        0 <= u < cells && visited@[u] && #[trigger] tiles.linked(u, v) implies (0 <= v
                        < cells && visited@[v]) || stacked(explore@, u) || u == curr by {
                        if seen_then[u] {
                            assert((0 <= v < cells && seen_then[v]) || stacked(stack_then, u) || u
                                == curr);
                        }
                    }
                }
                side = side + 1;
            }
            proof {
                assert forall|u: int, v: int|
                    0 <= u < cells && visited@[u] && #[trigger] tiles.linked(u, v) implies (0 <= v
                    < cells && visited@[v]) || stacked(explore@, u) by {
                    if u == curr {
                        tiles.lemma_linked_side(u, v);
                    }
                }
            }
        }
        proof {
            let seen = Set::new(|v: int| 0 <= v < cells && visited@[v]);
            assert forall|u: int, v: int| seen.contains(u) && #[trigger] tiles.linked(u, v) implies seen.contains(
                v,
            ) by {
                tiles.lemma_linked(u, v);
                if stacked(explore@, u) {
                }
            }
            assert forall|v: int| 0 <= v < cells implies visited@[v] == tiles.connected(
                start as int,
                v,
            ) by {
                if tiles.connected(start as int, v) {
                    tiles.lemma_connected_within(start as int, v, seen);
                }
            }
        }
    }
}

} // verus!
