//! The colours of the regions.
//!
//! Each region is shown in a colour of its own. Colours are numbers, from
//! 0 up; those that no region shows any more wait in a pool to be handed
//! out again. When regions change, each new region takes over, where it
//! can, the colour that most of its cells had before.

use vstd::prelude::*;
use crate::board::GameBoard;
use crate::pipe::Pipe;
use crate::tracker::holds;

verus! {

/// The colours that the tiles head for.
pub open spec fn colors_of(pipes: Seq<Pipe>) -> Seq<u16> {
    Seq::new(pipes.len(), |i: int| pipes[i].target_color)
}

/// Whether the colour `color` waits in `pool` or is shown by a cell of
/// `done`.
pub open spec fn shown(colors: Seq<u16>, pool: Seq<u16>, done: Set<int>, color: int) -> bool {
    ||| exists|k: int| 0 <= k < pool.len() && #[trigger] pool[k] == color
    ||| exists|i: int| done.contains(i) && 0 <= i < colors.len() && #[trigger] colors[i] == color
}

/// What holds of the colours of the cells in `done`, the cells that are
/// coloured by their regions:
/// - such a cell shows a colour up to `top` that does not wait in the
///   pool;
/// - two such cells show the same colour exactly when they hold the same
///   region id;
/// - the pool holds colours up to `top`, none of them twice;
/// - every colour up to `top`, but for `spare`, waits in the pool or is
///   shown by such a cell.
pub open spec fn tinted(
    regions: Seq<u16>,
    colors: Seq<u16>,
    pool: Seq<u16>,
    top: int,
    done: Set<int>,
    spare: int,
) -> bool {
    &&& colors.len() == regions.len()
    &&& pool.no_duplicates()
    &&& forall|k: int| 0 <= k < pool.len() ==> #[trigger] pool[k] <= top
    &&& forall|i: int| #[trigger]
        done.contains(i) ==> 0 <= i < colors.len() && colors[i] <= top && !pool.contains(colors[i])
    &&& forall|a: int, b: int|
        #![trigger done.contains(a), done.contains(b)]
        done.contains(a) && done.contains(b) ==> (colors[a] == colors[b]) == (regions[a] == regions[b])
    &&& 0 <= spare <= top
    &&& forall|c: int| 0 <= c <= top && c != spare ==> #[trigger] shown(colors, pool, done, c)
}

/// The cells from 0 up to, but not including, `cells`.
pub open spec fn cells_upto(cells: int) -> Set<int> {
    Set::new(|i: int| 0 <= i < cells)
}

/// With an empty pool every colour up to the highest but one is shown by a
/// coloured cell, so there are at least as many coloured cells as the
/// number of the highest colour.
pub proof fn lemma_colors_fit(
    regions: Seq<u16>,
    colors: Seq<u16>,
    pool: Seq<u16>,
    top: int,
    done: Set<int>,
    spare: int,
    cell: int,
)
    requires
        tinted(regions, colors, pool, top, done, spare),
        pool.len() == 0,
        0 <= cell < colors.len(),
        !done.contains(cell),
    ensures
        top < colors.len(),
{
    let cells = colors.len() as int;
    let room = vstd::set_lib::set_int_range(0, cells).remove(cell);
    vstd::set_lib::lemma_int_range(0, cells);
    assert(done.subset_of(room));
    vstd::set_lib::lemma_len_subset(done, room);
    let color_of = |i: int| colors[i] as int;
    let held = done.map(color_of);
    vstd::set_lib::lemma_map_size_bound(done, held, color_of);
    let wanted = vstd::set_lib::set_int_range(0, top + 1).remove(spare);
    vstd::set_lib::lemma_int_range(0, top + 1);
    assert forall|c: int| wanted.contains(c) implies held.contains(c) by {
        assert(shown(colors, pool, done, c));
        let i = choose|i: int| done.contains(i) && 0 <= i < colors.len() && #[trigger] colors[i] == c;
        assert(color_of(i) == c);
    }
    vstd::set_lib::lemma_len_subset(wanted, held);
}

/// Whether some cell holds the region id `id`.
pub open spec fn in_use(regions: Seq<u16>, id: int) -> bool {
    exists|i: int| 0 <= i < regions.len() && #[trigger] regions[i] == id
}

/// Regions numbered from 1 without a gap, each in the colour one below its
/// id, are coloured; the colour that is spare is the number of regions.
pub proof fn lemma_numbered_colors(regions: Seq<u16>, colors: Seq<u16>, watermark: int)
    requires
        0 <= watermark,
        colors.len() == regions.len(),
        forall|i: int| 0 <= i < regions.len() ==> 1 <= #[trigger] regions[i] <= watermark,
        forall|i: int| 0 <= i < regions.len() ==> #[trigger] colors[i] == regions[i] - 1,
        forall|id: int| 1 <= id <= watermark ==> #[trigger] in_use(regions, id),
    ensures
        tinted(regions, colors, Seq::<u16>::empty(), watermark, cells_upto(regions.len() as int), watermark),
{
    let every = cells_upto(regions.len() as int);
    let pool = Seq::<u16>::empty();
    assert forall|c: int| 0 <= c <= watermark && c != watermark implies #[trigger] shown(
        colors,
        pool,
        every,
        c,
    ) by {
        assert(in_use(regions, c + 1));
        let i = choose|i: int| 0 <= i < regions.len() && #[trigger] regions[i] == c + 1;
        assert(every.contains(i));
        assert(colors[i] == c);
    }
    assert forall|a: int, b: int|
        #![trigger every.contains(a), every.contains(b)]
        every.contains(a) && every.contains(b) implies (colors[a] == colors[b]) == (regions[a] == regions[b]) by {
        assert(colors[a] == regions[a] - 1);
        assert(colors[b] == regions[b] - 1);
    }
}

impl GameBoard {
    /// A board with the regions, colours and pool of colours of a coloured
    /// board is coloured.
    pub proof fn lemma_colored_as(&self, other: &GameBoard)
        requires
            other.colored(),
            self.regions@ == other.regions@,
            self.pipes@.len() == other.pipes@.len(),
            forall|i: int|
                0 <= i < self.pipes@.len() ==> (#[trigger] self.pipes@[i]).target_color == other.pipes@[i].target_color,
            self.color_pool@ == other.color_pool@,
            self.number_colors == other.number_colors,
        ensures
            self.colored(),
    {
        let spare = choose|spare: int| #[trigger]
            tinted(
                other.regions@,
                other.colors(),
                other.color_pool@,
                other.number_colors as int,
                cells_upto(other.pipes@.len() as int),
                spare,
            );
        assert(self.colors() =~= other.colors());
        assert(tinted(
            self.regions@,
            self.colors(),
            self.color_pool@,
            self.number_colors as int,
            cells_upto(self.pipes@.len() as int),
            spare,
        ));
    }

    /// The colours that the tiles head for.
    pub open spec fn colors(&self) -> Seq<u16> {
        colors_of(self.pipes@)
    }

    /// Every cell is coloured by its region: two cells show the same colour
    /// exactly when they hold the same region id, no colour shown waits in
    /// the pool, the pool holds no colour twice, and all colours up to
    /// `number_colors` but one are shown or wait in the pool.
    pub open spec fn colored(&self) -> bool {
        exists|spare: int| #[trigger]
            tinted(
                self.regions@,
                self.colors(),
                self.color_pool@,
                self.number_colors as int,
                cells_upto(self.pipes@.len() as int),
                spare,
            )
    }

    /// Hands out a colour: the one that the pool got last, or with an empty
    /// pool the one after the highest handed out so far.
    pub fn next_color(&mut self) -> (color: u16)
        requires
            old(self).color_pool@.len() == 0 ==> old(self).number_colors < u16::MAX,
        ensures
            *final(self) == (GameBoard {
                color_pool: final(self).color_pool,
                number_colors: final(self).number_colors,
                ..*old(self)
            }),
            old(self).color_pool@.len() == 0 ==> {
                &&& color == old(self).number_colors + 1
                &&& final(self).number_colors == color
                &&& final(self).color_pool@ == old(self).color_pool@
            },
            old(self).color_pool@.len() > 0 ==> {
                &&& color == old(self).color_pool@.last()
                &&& final(self).number_colors == old(self).number_colors
                &&& final(self).color_pool@ == old(self).color_pool@.drop_last()
            },
    {
        if self.color_pool.is_empty() {
            self.number_colors = self.number_colors + 1;
            self.number_colors
        } else {
            let ghost pool = self.color_pool@;
            let color = self.color_pool.pop().unwrap();
            assert(self.color_pool@ =~= pool.drop_last());
            color
        }
    }

    /// Puts the colour `color` into the pool, unless it waits there
    /// already.
    pub fn add_color_to_pool(&mut self, color: u16)
        ensures
            *final(self) == (GameBoard { color_pool: final(self).color_pool, ..*old(self) }),
            final(self).color_pool@ == if old(self).color_pool@.contains(color) {
                old(self).color_pool@
            } else {
                old(self).color_pool@.push(color)
            },
    {
        if !holds(&self.color_pool, color) {
            self.color_pool.push(color);
        }
    }

    /// Takes the colour `color` out of the pool, where it waits: the colour
    /// that the pool got last takes its place.
    pub fn remove_color_from_pool(&mut self, color: u16)
        requires
            old(self).color_pool@.contains(color),
        ensures
            *final(self) == (GameBoard { color_pool: final(self).color_pool, ..*old(self) }),
            exists|at: int|
                {
                    &&& 0 <= at < old(self).color_pool@.len()
                    &&& old(self).color_pool@[at] == color
                    &&& forall|k: int| 0 <= k < at ==> old(self).color_pool@[k] != color
                    &&& final(self).color_pool@ == old(self).color_pool@.update(
                        at,
                        old(self).color_pool@.last(),
                    ).drop_last()
                },
    {
        let ghost pool = self.color_pool@;
        let mut i: usize = 0;
        while i < self.color_pool.len()
            invariant
                *self == *old(self),
                pool == self.color_pool@,
                pool.contains(color),
                i <= pool.len(),
                forall|k: int| 0 <= k < i ==> pool[k] != color,
            ensures
                i < pool.len(),
                pool[i as int] == color,
            decreases pool.len() - i,
        {
            if self.color_pool[i] == color {
                break;
            }
            i = i + 1;
        }
        self.color_pool.swap_remove(i);
    }

    /// Lets every cell of the region `region` head for the colour `color`.
    pub fn paint(&mut self, region: u16, color: u16)
        requires
            old(self).regions@.len() == old(self).pipes@.len(),
        ensures
            final(self).same_game(old(self)),
            final(self).same_shapes(old(self)),
            final(self).regions == old(self).regions,
            final(self).region_id_pool == old(self).region_id_pool,
            final(self).number_regions == old(self).number_regions,
            final(self).color_pool == old(self).color_pool,
            final(self).number_colors == old(self).number_colors,
            forall|i: int|
                0 <= i < old(self).pipes@.len() ==> (#[trigger] final(self).pipes@[i]).target_color
                    == if old(self).regions@[i]
                    == region {
                    color
                } else {
                    old(self).pipes@[i].target_color
                },
    {
        let cells = self.pipes.len();
        let mut i: usize = 0;
        while i < cells
            invariant
                self.same_game(old(self)),
                self.same_shapes(old(self)),
                self.regions == old(self).regions,
                self.region_id_pool == old(self).region_id_pool,
                self.number_regions == old(self).number_regions,
                self.color_pool == old(self).color_pool,
                self.number_colors == old(self).number_colors,
                cells == self.pipes@.len(),
                self.regions@.len() == cells,
                i <= cells,
                forall|k: int|
                    0 <= k < cells ==> (#[trigger] self.pipes@[k]).target_color == if k < i && self.regions@[k]
                        == region {
                        color
                    } else {
                        old(self).pipes@[k].target_color
                    },
            decreases cells - i,
        {
            if self.regions[i] == region {
                self.pipes[i].change_color(color);
            }
            i = i + 1;
        }
    }
}

/// Whether some cell holds the region id `id`.
pub open spec fn live(regions: Seq<u16>, id: u16) -> bool {
    exists|v: int| 0 <= v < regions.len() && #[trigger] regions[v] == id
}

/// Whether `id` is noted with one of the first `upto` cells of `to_check`.
#[verifier::opaque]
pub open spec fn listed(to_check: Seq<(usize, u16)>, upto: int, id: u16) -> bool {
    exists|j: int| 0 <= j < upto && j < to_check.len() && (#[trigger] to_check[j]).1 == id
}

/// The id noted with a cell of the list is listed.
pub proof fn lemma_listed_at(to_check: Seq<(usize, u16)>, upto: int, at: int)
    requires
        0 <= at < upto,
        at < to_check.len(),
    ensures
        listed(to_check, upto, to_check[at].1),
{
    reveal(listed);
}

/// An id is listed with the first cells and one more if it is listed with
/// the first cells or noted with that one.
pub proof fn lemma_listed_step(to_check: Seq<(usize, u16)>, upto: int, id: u16)
    requires
        0 <= upto < to_check.len(),
    ensures
        listed(to_check, upto + 1, id) == (listed(to_check, upto, id) || id == to_check[upto].1),
{
    reveal(listed);
    if listed(to_check, upto + 1, id) {
        let l = choose|j: int| 0 <= j < upto + 1 && j < to_check.len() && (#[trigger] to_check[j]).1 == id;
        if l < upto {
            assert(listed(to_check, upto, id));
        }
    }
    if listed(to_check, upto, id) {
        let l = choose|j: int| 0 <= j < upto && j < to_check.len() && (#[trigger] to_check[j]).1 == id;
        assert(to_check[l].1 == id);
    }
    if id == to_check[upto].1 {
        assert(listed(to_check, upto + 1, id));
    }
}

/// A listed id is noted with a cell of the list.
pub proof fn lemma_listed_where(to_check: Seq<(usize, u16)>, upto: int, id: u16) -> (at: int)
    requires
        listed(to_check, upto, id),
    ensures
        0 <= at < upto,
        at < to_check.len(),
        to_check[at].1 == id,
{
    reveal(listed);
    choose|j: int| 0 <= j < upto && j < to_check.len() && (#[trigger] to_check[j]).1 == id
}

/// Whether `color` is shown by a cell whose region id is among `ids`.
pub open spec fn worn_by(regions: Seq<u16>, colors: Seq<u16>, ids: Seq<u16>, color: u16) -> bool {
    exists|v: int| 0 <= v < regions.len() && ids.contains(regions[v]) && #[trigger] colors[v] == color
}

/// Whether `color` is shown by a cell before `upto` that holds the region
/// id `id`.
pub open spec fn worn_upto(regions: Seq<u16>, colors: Seq<u16>, id: u16, upto: int, color: u16) -> bool {
    exists|v: int| 0 <= v < upto && v < regions.len() && regions[v] == id && #[trigger] colors[v] == color
}

/// Whether a cell that holds the region id `id` shows `color`.
#[verifier::opaque]
pub open spec fn worn_in(regions: Seq<u16>, colors: Seq<u16>, id: u16, color: u16) -> bool {
    exists|v: int| 0 <= v < regions.len() && regions[v] == id && #[trigger] colors[v] == color
}

/// Whether `list` holds a note for the region `id`.
#[verifier::opaque]
pub open spec fn noted_for(list: Seq<(u16, u16, u32)>, id: u16) -> bool {
    exists|k: int| 0 <= k < list.len() && (#[trigger] list[k]).0 == id
}

/// The colour of a cell is shown in the cell's region.
pub proof fn lemma_worn_at(regions: Seq<u16>, colors: Seq<u16>, v: int)
    requires
        0 <= v < regions.len(),
    ensures
        worn_in(regions, colors, regions[v], colors[v]),
{
    reveal(worn_in);
}

/// A colour shown in a region is the colour of one of its cells.
pub proof fn lemma_worn_where(regions: Seq<u16>, colors: Seq<u16>, id: u16, color: u16) -> (v: int)
    requires
        worn_in(regions, colors, id, color),
    ensures
        0 <= v < regions.len(),
        regions[v] == id,
        colors[v] == color,
{
    reveal(worn_in);
    choose|v: int| 0 <= v < regions.len() && regions[v] == id && #[trigger] colors[v] == color
}

/// A note of the list is a note for its region.
pub proof fn lemma_noted_at(list: Seq<(u16, u16, u32)>, k: int)
    requires
        0 <= k < list.len(),
    ensures
        noted_for(list, list[k].0),
{
    reveal(noted_for);
}

/// A region with a note has it at some place of the list.
pub proof fn lemma_noted_where(list: Seq<(u16, u16, u32)>, id: u16) -> (k: int)
    requires
        noted_for(list, id),
    ensures
        0 <= k < list.len(),
        list[k].0 == id,
{
    reveal(noted_for);
    choose|k: int| 0 <= k < list.len() && (#[trigger] list[k]).0 == id
}

/// Whether every cell shows the colour of its region and of no other:
/// two cells show the same colour exactly when they hold the same id.
pub open spec fn true_colors(regions: Seq<u16>, colors: Seq<u16>) -> bool {
    &&& colors.len() == regions.len()
    &&& forall|a: int, b: int|
        #![trigger colors[a], colors[b]]
        0 <= a < colors.len() && 0 <= b < colors.len() ==> (colors[a] == colors[b]) == (regions[a]
            == regions[b])
}

/// Whether the notes of `list` are true of cells that show the colours of
/// their regions: every note names a colour shown in its region, and every
/// region of `used` has a note.
pub open spec fn noted_truly(
    regions: Seq<u16>,
    colors: Seq<u16>,
    list: Seq<(u16, u16, u32)>,
    used: Seq<u16>,
) -> bool {
    &&& true_colors(regions, colors)
    &&& forall|k: int| 0 <= k < list.len() ==> worn_in(regions, colors, (#[trigger] list[k]).0, list[k].1)
    &&& forall|r: u16| used.contains(r) ==> #[trigger] noted_for(list, r)
}

/// The first entry of `list` from `start` on that notes the colour
/// `color`.
pub fn find_color(list: &Vec<(u16, u16, u32)>, start: usize, color: u16) -> (found: Option<usize>)
    requires
        start <= list@.len(),
    ensures
        match found {
            Some(at) => start <= at < list@.len() && list@[at as int].1 == color && forall|k: int|
                start <= k < at ==> (#[trigger] list@[k]).1 != color,
            None => forall|k: int| start <= k < list@.len() ==> (#[trigger] list@[k]).1 != color,
        },
{
    let mut at: usize = start;
    while at < list.len()
        invariant
            start <= at <= list@.len(),
            forall|k: int| start <= k < at ==> (#[trigger] list@[k]).1 != color,
        decreases list@.len() - at,
    {
        if list[at].1 == color {
            return Some(at);
        }
        at = at + 1;
    }
    None
}

/// The first place of `id` in `ids`.
pub fn find_id(ids: &Vec<u16>, id: u16) -> (found: Option<usize>)
    ensures
        match found {
            Some(at) => at < ids@.len() && ids@[at as int] == id && forall|k: int|
                0 <= k < at ==> ids@[k] != id,
            None => !ids@.contains(id),
        },
{
    let mut at: usize = 0;
    while at < ids.len()
        invariant
            at <= ids@.len(),
            forall|k: int| 0 <= k < at ==> ids@[k] != id,
        decreases ids@.len() - at,
    {
        if ids[at] == id {
            return Some(at);
        }
        at = at + 1;
    }
    None
}

/// The entries of `list` with the count `count`, in their order.
pub open spec fn entries_with(list: Seq<(u16, u16, u32)>, count: u32) -> Seq<(u16, u16, u32)>
    decreases list.len(),
{
    if list.len() == 0 {
        Seq::empty()
    } else if list.last().2 == count {
        entries_with(list.drop_last(), count).push(list.last())
    } else {
        entries_with(list.drop_last(), count)
    }
}

/// The entries with a count in two lists joined are those of the first
/// list followed by those of the second.
pub proof fn lemma_entries_joined(a: Seq<(u16, u16, u32)>, b: Seq<(u16, u16, u32)>, count: u32)
    ensures
        entries_with(a + b, count) == entries_with(a, count) + entries_with(b, count),
    decreases b.len(),
{
    if b.len() == 0 {
        assert(a + b =~= a);
        assert(entries_with(a, count) + entries_with(b, count) =~= entries_with(a, count));
    } else {
        assert((a + b).drop_last() =~= a + b.drop_last());
        lemma_entries_joined(a, b.drop_last(), count);
        assert((a + b).last() == b.last());
        if b.last().2 == count {
            assert((entries_with(a, count) + entries_with(b.drop_last(), count)).push(b.last())
                =~= entries_with(a, count) + entries_with(b.drop_last(), count).push(b.last()));
        }
    }
}

/// A list in which no entry has the count has no entries with it.
pub proof fn lemma_entries_none(list: Seq<(u16, u16, u32)>, count: u32)
    requires
        forall|k: int| 0 <= k < list.len() ==> (#[trigger] list[k]).2 != count,
    ensures
        entries_with(list, count) == Seq::<(u16, u16, u32)>::empty(),
    decreases list.len(),
{
    if list.len() > 0 {
        assert forall|k: int| 0 <= k < list.drop_last().len() implies (#[trigger] list.drop_last()[k]).2
            != count by {
            assert(list.drop_last()[k] == list[k]);
        }
        lemma_entries_none(list.drop_last(), count);
        assert(list.last() == list[list.len() - 1]);
    }
}

/// Moving an entry towards the front, past entries with higher counts
/// only, leaves the entries with each count in their order.
pub proof fn lemma_entries_moved(whole: Seq<(u16, u16, u32)>, from: int, to: int, count: u32)
    requires
        0 <= to <= from < whole.len(),
        forall|k: int| to <= k < from ==> (#[trigger] whole[k]).2 > whole[from].2,
    ensures
        entries_with(whole.remove(from).insert(to, whole[from]), count) == entries_with(whole, count),
{
    let entry = whole[from];
    let head = whole.subrange(0, to);
    let passed = whole.subrange(to, from);
    let tail = whole.subrange(from + 1, whole.len() as int);
    let one = seq![entry];
    let moved = whole.remove(from).insert(to, entry);
    assert(whole =~= ((head + passed) + one) + tail);
    assert(moved =~= ((head + one) + passed) + tail);
    lemma_entries_joined((head + passed) + one, tail, count);
    lemma_entries_joined(head + passed, one, count);
    lemma_entries_joined(head, passed, count);
    lemma_entries_joined((head + one) + passed, tail, count);
    lemma_entries_joined(head + one, passed, count);
    lemma_entries_joined(head, one, count);
    if entry.2 == count {
        assert forall|k: int| 0 <= k < passed.len() implies (#[trigger] passed[k]).2 != count by {
            assert(passed[k] == whole[to + k]);
        }
        lemma_entries_none(passed, count);
        assert(entries_with(head, count) + entries_with(one, count) + Seq::<(u16, u16, u32)>::empty()
            =~= entries_with(head, count) + Seq::<(u16, u16, u32)>::empty() + entries_with(one, count));
    } else {
        lemma_entries_none(one, count);
        assert(entries_with(head, count) + entries_with(one, count) + entries_with(passed, count)
            =~= entries_with(head, count) + entries_with(passed, count) + entries_with(one, count));
    }
}

/// A count with entries in a list is the count of one of the notes.
pub proof fn lemma_entries_some(list: Seq<(u16, u16, u32)>, count: u32) -> (at: int)
    requires
        entries_with(list, count).len() > 0,
    ensures
        0 <= at < list.len(),
        list[at].2 == count,
    decreases list.len(),
{
    if list.last().2 == count {
        list.len() - 1
    } else {
        let at = lemma_entries_some(list.drop_last(), count);
        assert(list.drop_last()[at] == list[at]);
        at
    }
}

/// Lists of the same length, both sorted by their counts, that have the
/// same entries in the same order for every count are the same list. So
/// the notes have one sorted order only, and the colouring that follows
/// from it is the only one.
pub proof fn lemma_sorted_unique(one: Seq<(u16, u16, u32)>, other: Seq<(u16, u16, u32)>)
    requires
        one.len() == other.len(),
        forall|a: int, b: int| 0 <= a <= b < one.len() ==> (#[trigger] one[a]).2 <= (#[trigger] one[b]).2,
        forall|a: int, b: int|
            0 <= a <= b < other.len() ==> (#[trigger] other[a]).2 <= (#[trigger] other[b]).2,
        forall|count: u32| #[trigger] entries_with(one, count) == entries_with(other, count),
    ensures
        one == other,
    decreases one.len(),
{
    if one.len() == 0 {
        assert(one =~= other);
    } else {
        let last = one.len() - 1;
        let high = one.last().2;
        let top = other.last().2;
        assert(entries_with(one, high) == entries_with(one.drop_last(), high).push(one.last()));
        assert(entries_with(other, top) == entries_with(other.drop_last(), top).push(other.last()));
        assert(entries_with(other, high) == entries_with(one, high));
        assert(entries_with(one, top) == entries_with(other, top));
        let here = lemma_entries_some(other, high);
        assert(other[here].2 <= other[last].2);
        let there = lemma_entries_some(one, top);
        assert(one[there].2 <= one[last].2);
        assert(high == top);
        assert(entries_with(one, high).last() == one.last());
        assert(entries_with(other, high).last() == other.last());
        assert(one.last() == other.last());
        let front = one.drop_last();
        let back = other.drop_last();
        assert forall|count: u32| #[trigger] entries_with(front, count) == entries_with(back, count) by {
            assert(entries_with(one, count) == entries_with(other, count));
            if count == high {
                assert(entries_with(one, count).drop_last() =~= entries_with(front, count));
                assert(entries_with(other, count).drop_last() =~= entries_with(back, count));
            }
        }
        assert forall|a: int, b: int| 0 <= a <= b < front.len() implies (#[trigger] front[a]).2 <= (
        #[trigger] front[b]).2 by {
            assert(front[a] == one[a] && front[b] == one[b]);
        }
        assert forall|a: int, b: int| 0 <= a <= b < back.len() implies (#[trigger] back[a]).2 <= (
        #[trigger] back[b]).2 by {
            assert(back[a] == other[a] && back[b] == other[b]);
        }
        lemma_sorted_unique(front, back);
        assert(one =~= front.push(one.last()));
        assert(other =~= back.push(other.last()));
    }
}

/// Sorts the entries by their counts, lowest first; entries with the same
/// count stay in their order.
pub fn sort_by_count(list: &mut Vec<(u16, u16, u32)>)
    ensures
        final(list)@.len() == old(list)@.len(),
        final(list)@.to_multiset() == old(list)@.to_multiset(),
        forall|a: int, b: int|
            0 <= a <= b < final(list)@.len() ==> (#[trigger] final(list)@[a]).2 <= (#[trigger] final(list)@[b]).2,
        forall|count: u32| #[trigger] entries_with(final(list)@, count) == entries_with(old(list)@, count),
{
    let mut i: usize = 1;
    while i < list.len()
        invariant
            list@.len() == old(list)@.len(),
            list@.to_multiset() == old(list)@.to_multiset(),
            1 <= i,
            forall|a: int, b: int|
                0 <= a <= b < i && b < list@.len() ==> (#[trigger] list@[a]).2 <= (#[trigger] list@[b]).2,
            forall|count: u32| #[trigger] entries_with(list@, count) == entries_with(old(list)@, count),
        decreases list@.len() - i,
    {
        let ghost whole = list@;
        let entry = list.remove(i);
        let ghost rest = list@;
        let mut at: usize = i;
        while at > 0 && list[at - 1].2 > entry.2
            invariant
                list@ == rest,
                at <= i,
                i <= rest.len(),
                forall|k: int| at <= k < i ==> (#[trigger] rest[k]).2 > entry.2,
            decreases at,
        {
            at = at - 1;
        }
        list.insert(at, entry);
        proof {
            vstd::seq_lib::to_multiset_remove(whole, i as int);
            vstd::seq_lib::to_multiset_insert(rest, at as int, entry);
            assert(whole.to_multiset().count(entry) > 0) by {
                vstd::seq_lib::to_multiset_contains(whole, entry);
                assert(whole[i as int] == entry);
                assert(whole.contains(entry));
            }
            assert(rest.to_multiset().insert(entry) =~= whole.to_multiset());
            assert forall|k: int| at <= k < i implies (#[trigger] whole[k]).2 > whole[i as int].2 by {
                assert(rest[k] == whole[k]);
            }
            assert forall|count: u32| #[trigger] entries_with(list@, count) == entries_with(old(list)@, count) by {
                lemma_entries_moved(whole, i as int, at as int, count);
                assert(entries_with(whole, count) == entries_with(old(list)@, count));
            }
            assert forall|a: int, b: int| 0 <= a <= b < i + 1 && b < list@.len() implies (#[trigger] list@[a]).2
                <= (#[trigger] list@[b]).2 by {
                let before = |k: int|
                    if k < at {
                        k
                    } else {
                        k - 1
                    };
                if a != at {
                    assert(list@[a] == rest[before(a)]);
                    assert(rest[before(a)] == whole[before(a)]);
                }
                if b != at {
                    assert(list@[b] == rest[before(b)]);
                    assert(rest[before(b)] == whole[before(b)]);
                }
                if a < at && b == at && at > 0 {
                    assert(rest[at - 1].2 <= entry.2);
                    assert(whole[a].2 <= whole[at - 1].2);
                }
            }
        }
        i = i + 1;
    }
}

/// Taking an entry out of a pool without repeats, the last entry filling
/// its place, leaves the pool without that entry and without repeats.
pub proof fn lemma_taken(pool: Seq<u16>, at: int)
    requires
        pool.no_duplicates(),
        0 <= at < pool.len(),
    ensures
        pool.update(at, pool.last()).drop_last().no_duplicates(),
        forall|x: u16|
            pool.update(at, pool.last()).drop_last().contains(x) == (pool.contains(x) && x != pool[at]),
{
    let after = pool.update(at, pool.last()).drop_last();
    let last = pool.len() - 1;
    assert forall|x: u16| after.contains(x) == (pool.contains(x) && x != pool[at]) by {
        if after.contains(x) {
            let k = choose|k: int| 0 <= k < after.len() && after[k] == x;
            if k == at {
                assert(pool[last] == x);
            } else {
                assert(pool[k] == x);
            }
        }
        if pool.contains(x) && x != pool[at] {
            let k = choose|k: int| 0 <= k < pool.len() && pool[k] == x;
            if k == last {
                assert(after[at] == x);
            } else {
                assert(after[k] == x);
            }
        }
    }
}

/// The first place from `from` on where `list` has a note of the colour
/// `color`, or the length of `list` if it has none.
pub open spec fn first_note(list: Seq<(u16, u16, u32)>, from: int, color: u16) -> int
    decreases list.len() - from,
{
    if from >= list.len() {
        list.len() as int
    } else if list[from].1 == color {
        from
    } else {
        first_note(list, from + 1, color)
    }
}

/// The place where a colour is noted first from `from` on is its first
/// note; where it is not noted, that is the length of the list.
pub proof fn lemma_first_note(list: Seq<(u16, u16, u32)>, from: int, color: u16, at: int)
    requires
        0 <= from <= at <= list.len(),
        at < list.len() ==> list[at].1 == color,
        forall|k: int| from <= k < at ==> (#[trigger] list[k]).1 != color,
    ensures
        first_note(list, from, color) == at,
    decreases at - from,
{
    if from < at {
        assert(list[from].1 != color);
        lemma_first_note(list, from + 1, color, at);
    }
}

/// The notes `list` after one more cell of the region `region` has been
/// seen to show `color`: the note of that colour among the notes from
/// `start` on counts one more, or a new note is added.
pub open spec fn noted_cell(list: Seq<(u16, u16, u32)>, start: int, region: u16, color: u16) -> Seq<
    (u16, u16, u32),
> {
    let at = first_note(list, start, color);
    if at < list.len() {
        list.update(at, (list[at].0, list[at].1, (list[at].2 + 1) as u32))
    } else {
        list.push((region, color, 1u32))
    }
}

/// The notes `list` after the cells before `upto` that hold the region id
/// `region` have been seen, one after the other.
pub open spec fn noted_region(
    regions: Seq<u16>,
    colors: Seq<u16>,
    list: Seq<(u16, u16, u32)>,
    start: int,
    region: u16,
    upto: int,
) -> Seq<(u16, u16, u32)>
    decreases upto,
{
    if upto <= 0 {
        list
    } else {
        let before = noted_region(regions, colors, list, start, region, upto - 1);
        if regions[upto - 1] == region {
            noted_cell(before, start, region, colors[upto - 1])
        } else {
            before
        }
    }
}

/// The notes and the region ids that `gather_colors` finds for the first
/// `upto` cells of `to_check`: each id noted there that has cells and was
/// not found before adds its notes and itself.
pub open spec fn gathered(regions: Seq<u16>, colors: Seq<u16>, to_check: Seq<(usize, u16)>, upto: int) -> (
    Seq<(u16, u16, u32)>,
    Seq<u16>,
)
    decreases upto,
{
    if upto <= 0 {
        (Seq::empty(), Seq::empty())
    } else {
        let before = gathered(regions, colors, to_check, upto - 1);
        let region = to_check[upto - 1].1;
        if before.1.contains(region) || !live(regions, region) {
            before
        } else {
            (
                noted_region(regions, colors, before.0, before.0.len() as int, region, regions.len() as int),
                before.1.push(region),
            )
        }
    }
}

/// The pool `pool` after the colours of the notes `list` have gone to it,
/// one after the other, each unless it waits there already.
pub open spec fn pooled_colors(pool: Seq<u16>, list: Seq<(u16, u16, u32)>) -> Seq<u16>
    decreases list.len(),
{
    if list.len() == 0 {
        pool
    } else {
        let before = pooled_colors(pool, list.drop_last());
        if before.contains(list.last().1) {
            before
        } else {
            before.push(list.last().1)
        }
    }
}

/// A region without cells adds no notes.
pub proof fn lemma_noted_region_none(
    regions: Seq<u16>,
    colors: Seq<u16>,
    list: Seq<(u16, u16, u32)>,
    start: int,
    region: u16,
    upto: int,
)
    requires
        upto <= regions.len(),
        !live(regions, region),
    ensures
        noted_region(regions, colors, list, start, region, upto) == list,
    decreases upto,
{
    if upto > 0 {
        lemma_noted_region_none(regions, colors, list, start, region, upto - 1);
        assert(regions[upto - 1] != region);
    }
}

/// Lists that note the same colours at the same places send the same
/// colours to the pool.
pub proof fn lemma_pooled_colors(pool: Seq<u16>, one: Seq<(u16, u16, u32)>, other: Seq<(u16, u16, u32)>)
    requires
        one.len() == other.len(),
        forall|k: int| 0 <= k < one.len() ==> (#[trigger] one[k]).1 == other[k].1,
    ensures
        pooled_colors(pool, one) == pooled_colors(pool, other),
    decreases one.len(),
{
    if one.len() > 0 {
        assert forall|k: int| 0 <= k < one.drop_last().len() implies (#[trigger] one.drop_last()[k]).1
            == other.drop_last()[k].1 by {
            assert(one.drop_last()[k] == one[k]);
            assert(other.drop_last()[k] == other[k]);
        }
        lemma_pooled_colors(pool, one.drop_last(), other.drop_last());
        assert(one.last() == one[one.len() - 1]);
        assert(other.last() == other[one.len() - 1]);
    }
}

/// The colours `colors` with the cells of the region `region` painted in
/// `color`.
pub open spec fn painted(regions: Seq<u16>, colors: Seq<u16>, region: u16, color: u16) -> Seq<u16> {
    Seq::new(
        colors.len(),
        |i: int|
            if regions[i] == region {
                color
            } else {
                colors[i]
            },
    )
}

/// The list `pool` without `item` at its first place: the last entry
/// takes that place.
pub open spec fn taken(pool: Seq<u16>, item: u16) -> Seq<u16> {
    pool.update(crate::update::first_place(pool, item), pool.last()).drop_last()
}

/// How far the colouring has come: the colours of the cells, the pool of
/// free colours, the highest colour handed out, the regions that wait for
/// a colour, and the colours that a note has been read for.
pub struct Shades {
    /// The colour of each cell.
    pub colors: Seq<u16>,
    /// The colours that wait to be handed out.
    pub pool: Seq<u16>,
    /// The highest colour handed out so far.
    pub top: int,
    /// The ids of the regions that wait for a colour.
    pub waiting: Seq<u16>,
    /// The colours of the notes read so far.
    pub seen: Seq<u16>,
}

/// The colouring after the last `read` notes of `sorted` have been read,
/// from the end: a note whose colour was seen before is passed over; the
/// others give their colour to their region if that waits for one, and
/// the colour leaves the pool.
pub open spec fn assigned(regions: Seq<u16>, start: Shades, sorted: Seq<(u16, u16, u32)>, read: int) -> Shades
    decreases read,
{
    if read <= 0 {
        start
    } else {
        let before = assigned(regions, start, sorted, read - 1);
        let note = sorted[sorted.len() - read];
        if before.seen.contains(note.1) {
            before
        } else if before.waiting.contains(note.0) {
            Shades {
                colors: painted(regions, before.colors, note.0, note.1),
                pool: taken(before.pool, note.1),
                top: before.top,
                waiting: taken(before.waiting, note.0),
                seen: before.seen.push(note.1),
            }
        } else {
            Shades { seen: before.seen.push(note.1), ..before }
        }
    }
}

/// Reading notes hands out no new colour.
pub proof fn lemma_assigned_top(regions: Seq<u16>, start: Shades, sorted: Seq<(u16, u16, u32)>, read: int)
    ensures
        assigned(regions, start, sorted, read).top == start.top,
    decreases read,
{
    if read > 0 {
        lemma_assigned_top(regions, start, sorted, read - 1);
    }
}

/// The colours, the pool and the highest colour after the first `upto`
/// regions of `waiting` have got a colour each: the colour that the pool got
/// last, or with an empty pool the one after the highest.
pub open spec fn filled(
    regions: Seq<u16>,
    colors: Seq<u16>,
    pool: Seq<u16>,
    top: int,
    waiting: Seq<u16>,
    upto: int,
) -> (Seq<u16>, Seq<u16>, int)
    decreases upto,
{
    if upto <= 0 {
        (colors, pool, top)
    } else {
        let before = filled(regions, colors, pool, top, waiting, upto - 1);
        if before.1.len() == 0 {
            (painted(regions, before.0, waiting[upto - 1], (before.2 + 1) as u16), before.1, before.2 + 1)
        } else {
            (painted(regions, before.0, waiting[upto - 1], before.1.last()), before.1.drop_last(), before.2)
        }
    }
}

/// Whether `sorted` holds the notes of `list` by their counts, lowest
/// first, those with the same count in the order they have in `list`.
pub open spec fn sorted_stably(list: Seq<(u16, u16, u32)>, sorted: Seq<(u16, u16, u32)>) -> bool {
    &&& sorted.len() == list.len()
    &&& forall|a: int, b: int|
        0 <= a <= b < sorted.len() ==> (#[trigger] sorted[a]).2 <= (#[trigger] sorted[b]).2
    &&& forall|count: u32| #[trigger] entries_with(sorted, count) == entries_with(list, count)
}

/// The colouring that `recolor` leaves, given the notes in their sorted
/// order: the colours of the noted regions go to the pool, the notes are
/// read, and the regions left without a colour get one each.
pub open spec fn recolored(
    regions: Seq<u16>,
    colors: Seq<u16>,
    pool: Seq<u16>,
    top: int,
    to_check: Seq<(usize, u16)>,
    sorted: Seq<(u16, u16, u32)>,
) -> (Seq<u16>, Seq<u16>, int) {
    let found = gathered(regions, colors, to_check, to_check.len() as int);
    let start = Shades {
        colors,
        pool: pooled_colors(pool, found.0),
        top,
        waiting: found.1,
        seen: Seq::empty(),
    };
    let read = assigned(regions, start, sorted, sorted.len() as int);
    filled(regions, read.colors, read.pool, read.top, read.waiting, read.waiting.len() as int)
}

/// Whether `after` is a colouring that `recolor` may leave: the one that
/// the notes lead to in their sorted order.
pub open spec fn recolored_to(
    regions: Seq<u16>,
    colors: Seq<u16>,
    pool: Seq<u16>,
    top: int,
    to_check: Seq<(usize, u16)>,
    after: (Seq<u16>, Seq<u16>, int),
) -> bool {
    exists|sorted: Seq<(u16, u16, u32)>|
        sorted_stably(gathered(regions, colors, to_check, to_check.len() as int).0, sorted) && after
            == #[trigger] recolored(regions, colors, pool, top, to_check, sorted)
}

impl GameBoard {
    /// Notes, for each region whose id comes with `to_check` and that has
    /// cells, the colours that its cells show, each with the number of
    /// cells that show it, and puts these colours into the pool. The
    /// result is the list of the notes, region by region, and the ids of
    /// these regions.
    pub fn gather_colors(&mut self, to_check: &Vec<(usize, u16)>) -> (found: (Vec<(u16, u16, u32)>, Vec<u16>))
        requires
            old(self).regions@.len() == old(self).pipes@.len(),
            old(self).pipes@.len() <= 65025,
            old(self).color_pool@.no_duplicates(),
        ensures
            *final(self) == (GameBoard { color_pool: final(self).color_pool, ..*old(self) }),
            final(self).color_pool@.no_duplicates(),
            forall|x: u16|
                final(self).color_pool@.contains(x) == (old(self).color_pool@.contains(x) || worn_by(
                    old(self).regions@,
                    old(self).colors(),
                    found.1@,
                    x,
                )),
            found.1@.no_duplicates(),
            forall|r: u16|
                found.1@.contains(r) == (live(old(self).regions@, r) && listed(
                    to_check@,
                    to_check@.len() as int,
                    r,
                )),
            forall|k: int|
                0 <= k < found.0@.len() ==> final(self).color_pool@.contains((#[trigger] found.0@[k]).1),
            forall|k: int|
                0 <= k < found.0@.len() ==> worn_in(
                    old(self).regions@,
                    old(self).colors(),
                    (#[trigger] found.0@[k]).0,
                    found.0@[k].1,
                ),
            forall|r: u16| found.1@.contains(r) ==> #[trigger] noted_for(found.0@, r),
            (found.0@, found.1@) == gathered(
                old(self).regions@,
                old(self).colors(),
                to_check@,
                to_check@.len() as int,
            ),
            final(self).color_pool@ == pooled_colors(old(self).color_pool@, found.0@),
    {
        let ghost regions = self.regions@;
        let ghost colors = self.colors();
        let ghost pool0 = self.color_pool@;
        let cells = self.pipes.len();
        let mut list: Vec<(u16, u16, u32)> = Vec::new();
        let mut start: usize = 0;
        let mut used_regions: Vec<u16> = Vec::new();
        let mut j: usize = 0;
        proof {
            assert forall|r: u16| !listed(to_check@, 0, r) by {
                if listed(to_check@, 0, r) {
                    let l = lemma_listed_where(to_check@, 0, r);
                }
            }
        }
        while j < to_check.len()
            invariant
                *self == (GameBoard { color_pool: self.color_pool, ..*old(self) }),
                regions == self.regions@,
                colors == self.colors(),
                cells == self.pipes@.len(),
                regions.len() == cells,
                cells <= 65025,
                j <= to_check@.len(),
                start == list@.len(),
                self.color_pool@.no_duplicates(),
                forall|x: u16|
                    #[trigger] self.color_pool@.contains(x) == (pool0.contains(x) || worn_by(
                        regions,
                        colors,
                        used_regions@,
                        x,
                    )),
                used_regions@.no_duplicates(),
                forall|r: u16|
                    #[trigger] used_regions@.contains(r) == (live(regions, r) && listed(to_check@, j as int, r)),
                forall|k: int| 0 <= k < list@.len() ==> self.color_pool@.contains((#[trigger] list@[k]).1),
                forall|k: int|
                    0 <= k < list@.len() ==> worn_in(regions, colors, (#[trigger] list@[k]).0, list@[k].1),
                forall|r: u16| used_regions@.contains(r) ==> #[trigger] noted_for(list@, r),
                (list@, used_regions@) == gathered(regions, colors, to_check@, j as int),
                self.color_pool@ == pooled_colors(pool0, list@),
            decreases to_check@.len() - j,
        {
            let region = to_check[j].1;
            let ghost used_before = used_regions@;
            let ghost list_before = list@;
            if !holds(&used_regions, region) {
                used_regions.push(region);
                let mut has_some_region = false;
                let mut i: usize = 0;
                proof {
                    assert forall|x: u16| !worn_upto(regions, colors, region, 0, x) by {}
                    assert forall|x: u16| #[trigger]
                        self.color_pool@.contains(x) == (pool0.contains(x) || worn_by(
                            regions,
                            colors,
                            used_before,
                            x,
                        ) || worn_upto(regions, colors, region, 0, x)) by {}
                }
                while i < cells
                    invariant
                        *self == (GameBoard { color_pool: self.color_pool, ..*old(self) }),
                        regions == self.regions@,
                        colors == self.colors(),
                        cells == self.pipes@.len(),
                        regions.len() == cells,
                        cells <= 65025,
                        i <= cells,
                        start <= list@.len(),
                        self.color_pool@.no_duplicates(),
                        forall|x: u16|
                            #[trigger] self.color_pool@.contains(x) == (pool0.contains(x) || worn_by(
                                regions,
                                colors,
                                used_before,
                                x,
                            ) || worn_upto(regions, colors, region, i as int, x)),
                        has_some_region == exists|v: int| 0 <= v < i && #[trigger] regions[v] == region,
                        forall|k: int|
                            0 <= k < list@.len() ==> self.color_pool@.contains((#[trigger] list@[k]).1),
                        forall|k: int| start <= k < list@.len() ==> (#[trigger] list@[k]).2 <= i,
                        forall|k: int|
                            0 <= k < list@.len() ==> worn_in(
                                regions,
                                colors,
                                (#[trigger] list@[k]).0,
                                list@[k].1,
                            ),
                        forall|r: u16| used_before.contains(r) ==> #[trigger] noted_for(list@, r),
                        has_some_region ==> noted_for(list@, region),
                        forall|k: int| start <= k < list@.len() ==> (#[trigger] list@[k]).0 == region,
                        list@ == noted_region(regions, colors, list_before, start as int, region, i as int),
                        self.color_pool@ == pooled_colors(pool0, list@),
                        start == list_before.len(),
                    decreases cells - i,
                {
                    let ghost pool = self.color_pool@;
                    let ghost matched = self.regions@[i as int] == region;
                    let ghost shade = colors[i as int];
                    let ghost notes_then = list@;
                    if self.regions[i] == region {
                        has_some_region = true;
                        let color = self.pipes[i].target_color;
                        assert(colors[i as int] == color);
                        let ghost notes = list@;
                        match find_color(&list, start, color) {
                            Some(at) => {
                                let (r, c, n) = list[at];
                                list[at] = (r, c, n + 1);
                                proof {
                                    lemma_first_note(notes, start as int, color, at as int);
                                    lemma_pooled_colors(pool0, notes, list@);
                                    assert(list@ =~= noted_cell(notes, start as int, region, color));
                                }
                            },
                            None => {
                                list.push((region, color, 1));
                                self.add_color_to_pool(color);
                                proof {
                                    lemma_worn_at(regions, colors, i as int);
                                    lemma_noted_at(list@, notes.len() as int);
                                    lemma_first_note(notes, start as int, color, notes.len() as int);
                                    assert(list@ =~= noted_cell(notes, start as int, region, color));
                                    assert(list@.drop_last() =~= notes);
                                }
                            },
                        }
                        proof {
                            assert forall|k: int| 0 <= k < notes.len() implies (#[trigger] list@[k]).0
                                == notes[k].0 && list@[k].1 == notes[k].1 by {}
                            assert forall|r: u16| noted_for(notes, r) implies noted_for(list@, r) by {
                                let k = lemma_noted_where(notes, r);
                                assert(list@[k].0 == r);
                                lemma_noted_at(list@, k);
                            }
                            assert forall|k: int| 0 <= k < list@.len() implies worn_in(
                                regions,
                                colors,
                                (#[trigger] list@[k]).0,
                                list@[k].1,
                            ) by {
                                if k < notes.len() {
                                    assert(worn_in(regions, colors, notes[k].0, notes[k].1));
                                }
                            }
                            lemma_noted_at(list@, list@.len() - 1);
                            assert(list@[list@.len() - 1].0 == region);
                            assert(worn_upto(regions, colors, region, i + 1, color));
                            assert(self.color_pool@.contains(color)) by {
                                if !pool.contains(color) {
                                    assert(self.color_pool@[pool.len() as int] == color);
                                }
                            }
                            assert forall|x: u16| pool.contains(x) implies self.color_pool@.contains(x) by {
                                let k = choose|k: int| 0 <= k < pool.len() && pool[k] == x;
                                assert(self.color_pool@[k] == x);
                            }
                            assert forall|x: u16| self.color_pool@.contains(x) implies pool.contains(x) || x
                                == color by {
                                let k = choose|k: int| 0 <= k < self.color_pool@.len() && self.color_pool@[k] == x;
                                if k < pool.len() {
                                    assert(pool[k] == x);
                                }
                            }
                        }
                    }
                    proof {
                        assert forall|x: u16| worn_upto(regions, colors, region, i + 1, x) == (worn_upto(
                            regions,
                            colors,
                            region,
                            i as int,
                            x,
                        ) || (regions[i as int] == region && colors[i as int] == x)) by {
                            if worn_upto(regions, colors, region, i + 1, x) {
                                let v = choose|v: int|
                                    0 <= v < i + 1 && v < regions.len() && regions[v] == region && #[trigger] colors[v] == x;
                                if v < i {
                                    assert(worn_upto(regions, colors, region, i as int, x));
                                }
                            }
                            if worn_upto(regions, colors, region, i as int, x) {
                                let v = choose|v: int|
                                    0 <= v < i && v < regions.len() && regions[v] == region && #[trigger] colors[v] == x;
                                assert(worn_upto(regions, colors, region, i + 1, x));
                            }
                        }
                        assert forall|r: u16| used_before.contains(r) implies #[trigger] noted_for(list@, r) by {
                            assert(noted_for(notes_then, r));
                            let k = lemma_noted_where(notes_then, r);
                            assert(list@[k].0 == r);
                            lemma_noted_at(list@, k);
                        }
                        assert forall|x: u16| #[trigger]
                            self.color_pool@.contains(x) == (pool.contains(x) || (matched && x == shade)) by {
                            if !matched {
                                assert(self.color_pool@ == pool);
                            }
                        }
                        assert forall|x: u16| #[trigger]
                            self.color_pool@.contains(x) == (pool0.contains(x) || worn_by(
                                regions,
                                colors,
                                used_before,
                                x,
                            ) || worn_upto(regions, colors, region, i + 1, x)) by {
                            assert(pool.contains(x) == (pool0.contains(x) || worn_by(
                                regions,
                                colors,
                                used_before,
                                x,
                            ) || worn_upto(regions, colors, region, i as int, x)));
                        }
                    }
                    i = i + 1;
                }
                let ghost pooled = self.color_pool@;
                proof {
                    assert forall|x: u16| #[trigger]
                        pooled.contains(x) == (pool0.contains(x) || worn_by(regions, colors, used_before, x)
                            || worn_upto(regions, colors, region, cells as int, x)) by {}
                }
                if !has_some_region {
                    used_regions.pop();
                    proof {
                        assert(used_regions@ =~= used_before);
                        assert(used_regions@ == used_before);
                        assert(!live(regions, region));
                        lemma_noted_region_none(regions, colors, list_before, start as int, region, cells as int);
                        assert forall|x: u16| !worn_upto(regions, colors, region, cells as int, x) by {}
                        assert forall|x: u16| #[trigger]
                            self.color_pool@.contains(x) == (pool0.contains(x) || worn_by(
                                regions,
                                colors,
                                used_regions@,
                                x,
                            )) by {
                            assert(pooled.contains(x) == (pool0.contains(x) || worn_by(
                                regions,
                                colors,
                                used_before,
                                x,
                            ) || worn_upto(regions, colors, region, cells as int, x)));
                        }
                    }
                } else {
                    proof {
                        let used = used_regions@;
                        assert(used == used_before.push(region));
                        assert(live(regions, region));
                        assert forall|r: u16| used.contains(r) == (used_before.contains(r) || r == region) by {
                            if used.contains(r) {
                                let k = choose|k: int| 0 <= k < used.len() && used[k] == r;
                                if k < used_before.len() {
                                    assert(used_before[k] == r);
                                }
                            }
                            if used_before.contains(r) {
                                let k = choose|k: int| 0 <= k < used_before.len() && used_before[k] == r;
                                assert(used[k] == r);
                            }
                            if r == region {
                                assert(used[used_before.len() as int] == r);
                            }
                        }
                        assert forall|x: u16| worn_by(regions, colors, used, x) == (worn_by(
                            regions,
                            colors,
                            used_before,
                            x,
                        ) || worn_upto(regions, colors, region, cells as int, x)) by {
                            if worn_by(regions, colors, used, x) {
                                let v = choose|v: int|
                                    0 <= v < regions.len() && used.contains(regions[v]) && #[trigger] colors[v] == x;
                                if regions[v] == region {
                                    assert(worn_upto(regions, colors, region, cells as int, x));
                                } else {
                                    assert(used_before.contains(regions[v]));
                                    assert(worn_by(regions, colors, used_before, x));
                                }
                            }
                            if worn_by(regions, colors, used_before, x) {
                                let v = choose|v: int|
                                    0 <= v < regions.len() && used_before.contains(regions[v]) && #[trigger] colors[v]
                                        == x;
                                assert(used.contains(regions[v]));
                                assert(worn_by(regions, colors, used, x));
                            }
                            if worn_upto(regions, colors, region, cells as int, x) {
                                let v = choose|v: int|
                                    0 <= v < cells && v < regions.len() && regions[v] == region && #[trigger] colors[v]
                                        == x;
                                assert(used.contains(regions[v]));
                                assert(worn_by(regions, colors, used, x));
                            }
                        }
                        assert forall|x: u16| #[trigger]
                            self.color_pool@.contains(x) == (pool0.contains(x) || worn_by(
                                regions,
                                colors,
                                used,
                                x,
                            )) by {
                            assert(pooled.contains(x) == (pool0.contains(x) || worn_by(
                                regions,
                                colors,
                                used_before,
                                x,
                            ) || worn_upto(regions, colors, region, cells as int, x)));
                        }
                    }
                }
                start = list.len();
            }
            proof {
                let used = used_regions@;
                assert forall|r: u16| #[trigger]
                    used.contains(r) == (live(regions, r) && listed(to_check@, j + 1, r)) by {
                    assert(used_before.contains(r) == (live(regions, r) && listed(to_check@, j as int, r)));
                    lemma_listed_step(to_check@, j as int, r);
                    if used_before.contains(region) {
                        assert(used == used_before);
                    } else if live(regions, region) {
                        assert(used.contains(r) == (used_before.contains(r) || r == region));
                    } else {
                        assert(used == used_before);
                    }
                }
            }
            j = j + 1;
        }
        (list, used_regions)
    }
}

/// The cells whose region id is not among `waiting`.
pub open spec fn settled_cells(regions: Seq<u16>, waiting: Seq<u16>) -> Set<int> {
    Set::new(|v: int| 0 <= v < regions.len() && !waiting.contains(regions[v]))
}

/// Whether `pool_after` and `top_after` are what the pool `pool` and the
/// highest colour `top` become when `color` is handed out: taken from the
/// pool, or the colour after the highest one.
pub open spec fn handed(pool: Seq<u16>, top: int, color: u16, pool_after: Seq<u16>, top_after: int) -> bool {
    ||| {
        &&& pool.contains(color)
        &&& top_after == top
        &&& pool_after.no_duplicates()
        &&& forall|x: u16| #[trigger] pool_after.contains(x) == (pool.contains(x) && x != color)
    }
    ||| {
        &&& pool_after == pool
        &&& color == top + 1
        &&& top_after == top + 1
    }
}

/// Painting a region that was not coloured, in a colour just handed out,
/// colours that region and keeps the rest coloured.
pub proof fn lemma_painted(
    regions: Seq<u16>,
    colors: Seq<u16>,
    pool: Seq<u16>,
    top: int,
    done: Set<int>,
    spare: int,
    region: u16,
    color: u16,
    colors_after: Seq<u16>,
    pool_after: Seq<u16>,
    top_after: int,
    done_after: Set<int>,
)
    requires
        tinted(regions, colors, pool, top, done, spare),
        forall|i: int| done.contains(i) ==> regions[i] != region,
        live(regions, region),
        forall|v: int|
            #[trigger] done_after.contains(v) == (done.contains(v) || (0 <= v < regions.len() && regions[v]
                == region)),
        colors_after.len() == colors.len(),
        forall|i: int|
            0 <= i < colors.len() ==> #[trigger] colors_after[i] == if regions[i] == region {
                color
            } else {
                colors[i]
            },
        handed(pool, top, color, pool_after, top_after),
    ensures
        tinted(regions, colors_after, pool_after, top_after, done_after, spare),
{
    let v0 = choose|v: int| 0 <= v < regions.len() && #[trigger] regions[v] == region;
    assert forall|k: int| 0 <= k < pool_after.len() implies #[trigger] pool_after[k] <= top_after by {
        assert(pool_after.contains(pool_after[k]));
        if pool_after != pool {
            let j = choose|j: int| 0 <= j < pool.len() && pool[j] == pool_after[k];
            assert(pool[j] <= top);
        }
    }
    if pool.contains(color) {
        let j = choose|j: int| 0 <= j < pool.len() && pool[j] == color;
        assert(pool[j] <= top);
    }
    assert forall|i: int| #[trigger] done_after.contains(i) implies 0 <= i < colors_after.len()
        && colors_after[i] <= top_after && !pool_after.contains(colors_after[i]) by {
        if done.contains(i) {
            assert(colors_after[i] == colors[i]);
            assert(!pool.contains(colors[i]));
            if pool_after.contains(colors[i]) {
                let j = choose|j: int| 0 <= j < pool_after.len() && pool_after[j] == colors[i];
                assert(pool_after[j] <= top);
            }
        } else {
            assert(colors_after[i] == color);
            if pool_after == pool && pool_after.contains(color) {
                let j = choose|j: int| 0 <= j < pool.len() && pool[j] == color;
                assert(pool[j] <= top);
            }
        }
    }
    assert forall|a: int, b: int|
        #![trigger done_after.contains(a), done_after.contains(b)]
        done_after.contains(a) && done_after.contains(b) implies (colors_after[a] == colors_after[b]) == (
    regions[a] == regions[b]) by {
        if done.contains(a) && done.contains(b) {
        } else if done.contains(a) {
            assert(!pool.contains(colors[a]));
            assert(colors[a] <= top);
        } else if done.contains(b) {
            assert(!pool.contains(colors[b]));
            assert(colors[b] <= top);
        }
    }
    assert forall|c: int| 0 <= c <= top_after && c != spare implies #[trigger] shown(
        colors_after,
        pool_after,
        done_after,
        c,
    ) by {
        if c == color {
            assert(done_after.contains(v0));
            assert(colors_after[v0] == c);
        } else {
            assert(shown(colors, pool, done, c));
            if exists|k: int| 0 <= k < pool.len() && #[trigger] pool[k] == c {
                let k = choose|k: int| 0 <= k < pool.len() && #[trigger] pool[k] == c;
                assert(pool.contains(c as u16));
                assert(pool_after.contains(c as u16));
                let j = choose|j: int| 0 <= j < pool_after.len() && pool_after[j] == c as u16;
                assert(pool_after[j] == c);
            } else {
                let i = choose|i: int| done.contains(i) && 0 <= i < colors.len() && #[trigger] colors[i] == c;
                assert(done_after.contains(i));
                assert(colors_after[i] == c);
            }
        }
    }
}

/// What holds of the colours when regions have changed and the cells
/// still show the colours they had: the cells of the regions that are not
/// noted in `to_check` are coloured by their regions, in colours that no
/// cell of a noted region shows; no colour shown waits in the pool.
pub open spec fn faded(
    regions: Seq<u16>,
    colors: Seq<u16>,
    pool: Seq<u16>,
    top: int,
    to_check: Seq<(usize, u16)>,
    spare: int,
) -> bool {
    &&& colors.len() == regions.len()
    &&& pool.no_duplicates()
    &&& forall|k: int| 0 <= k < pool.len() ==> #[trigger] pool[k] <= top
    &&& forall|i: int| 0 <= i < colors.len() ==> #[trigger] colors[i] <= top && !pool.contains(colors[i])
    &&& forall|a: int, b: int|
        #![trigger colors[a], colors[b]]
        0 <= a < colors.len() && 0 <= b < colors.len() && !listed(to_check, to_check.len() as int, regions[b])
            ==> (colors[a] == colors[b]) == (regions[a] == regions[b])
    &&& 0 <= spare <= top
    &&& forall|c: int|
        0 <= c <= top && c != spare ==> #[trigger] shown(colors, pool, cells_upto(colors.len() as int), c)
}

/// Once the colours of the noted regions wait in the pool, the other cells
/// are coloured.
pub proof fn lemma_gathered(
    regions: Seq<u16>,
    colors: Seq<u16>,
    pool: Seq<u16>,
    top: int,
    to_check: Seq<(usize, u16)>,
    spare: int,
    used: Seq<u16>,
    pool_after: Seq<u16>,
)
    requires
        faded(regions, colors, pool, top, to_check, spare),
        pool_after.no_duplicates(),
        forall|x: u16| #[trigger] pool_after.contains(x) == (pool.contains(x) || worn_by(regions, colors, used, x)),
        forall|r: u16|
            #[trigger] used.contains(r) == (live(regions, r) && listed(to_check, to_check.len() as int, r)),
    ensures
        tinted(regions, colors, pool_after, top, settled_cells(regions, used), spare),
{
    let done = settled_cells(regions, used);
    assert forall|k: int| 0 <= k < pool_after.len() implies #[trigger] pool_after[k] <= top by {
        let x = pool_after[k];
        assert(pool_after.contains(x));
        if pool.contains(x) {
            let j = choose|j: int| 0 <= j < pool.len() && pool[j] == x;
            assert(pool[j] <= top);
        } else {
            let v = choose|v: int|
                0 <= v < regions.len() && used.contains(regions[v]) && #[trigger] colors[v] == x;
        }
    }
    assert forall|i: int| 0 <= i < regions.len() && !used.contains(regions[i]) implies !listed(
        to_check,
        to_check.len() as int,
        regions[i],
    ) by {
        assert(live(regions, regions[i]));
    }
    assert forall|i: int| #[trigger] done.contains(i) implies 0 <= i < colors.len() && colors[i] <= top
        && !pool_after.contains(colors[i]) by {
        if worn_by(regions, colors, used, colors[i]) {
            let v = choose|v: int|
                0 <= v < regions.len() && used.contains(regions[v]) && #[trigger] colors[v] == colors[i];
            assert((colors[v] == colors[i]) == (regions[v] == regions[i]));
        }
    }
    assert forall|a: int, b: int|
        #![trigger done.contains(a), done.contains(b)]
        done.contains(a) && done.contains(b) implies (colors[a] == colors[b]) == (regions[a] == regions[b]) by {
        assert((colors[a] == colors[b]) == (regions[a] == regions[b]));
    }
    assert forall|c: int| 0 <= c <= top && c != spare implies #[trigger] shown(colors, pool_after, done, c) by {
        assert(shown(colors, pool, cells_upto(colors.len() as int), c));
        if exists|k: int| 0 <= k < pool.len() && #[trigger] pool[k] == c {
            let k = choose|k: int| 0 <= k < pool.len() && #[trigger] pool[k] == c;
            assert(pool.contains(c as u16));
            assert(pool_after.contains(c as u16));
            let j = choose|j: int| 0 <= j < pool_after.len() && pool_after[j] == c as u16;
            assert(pool_after[j] == c);
        } else {
            let i = choose|i: int|
                cells_upto(colors.len() as int).contains(i) && 0 <= i < colors.len() && #[trigger] colors[i]
                    == c;
            if used.contains(regions[i]) {
                assert(worn_by(regions, colors, used, c as u16));
                assert(pool_after.contains(c as u16));
                let j = choose|j: int| 0 <= j < pool_after.len() && pool_after[j] == c as u16;
                assert(pool_after[j] == c);
            } else {
                assert(done.contains(i));
            }
        }
    }
}

impl GameBoard {
    /// Gives the regions of `used_regions` the colours noted for them in
    /// `list`, as far as that goes: the notes are taken from the end; a
    /// note whose colour an earlier note had is passed over; the others
    /// give their colour to their region, if that has none yet, and the
    /// colour leaves the pool. The regions that got a colour leave
    /// `used_regions`.
    pub(crate) fn assign_colors(
        &mut self,
        list: &mut Vec<(u16, u16, u32)>,
        used_regions: &mut Vec<u16>,
        Ghost(spare): Ghost<int>,
    )
        requires
            old(self).regions@.len() == old(self).pipes@.len(),
            old(used_regions)@.no_duplicates(),
            forall|k: int|
                0 <= k < old(used_regions)@.len() ==> live(
                    old(self).regions@,
                    #[trigger] old(used_regions)@[k],
                ),
            tinted(
                old(self).regions@,
                old(self).colors(),
                old(self).color_pool@,
                old(self).number_colors as int,
                settled_cells(old(self).regions@, old(used_regions)@),
                spare,
            ),
            forall|k: int|
                0 <= k < old(list)@.len() ==> old(self).color_pool@.contains((#[trigger] old(list)@[k]).1),
        ensures
            final(self).same_game(old(self)),
            final(self).same_shapes(old(self)),
            final(self).regions == old(self).regions,
            final(self).region_id_pool == old(self).region_id_pool,
            final(self).number_regions == old(self).number_regions,
            final(self).number_colors == old(self).number_colors,
            final(used_regions)@.no_duplicates(),
            forall|k: int|
                0 <= k < final(used_regions)@.len() ==> live(old(self).regions@, #[trigger] final(used_regions)@[k])
                    && old(used_regions)@.contains(final(used_regions)@[k]),
            tinted(
                old(self).regions@,
                final(self).colors(),
                final(self).color_pool@,
                old(self).number_colors as int,
                settled_cells(old(self).regions@, final(used_regions)@),
                spare,
            ),
            forall|v: int|
                settled_cells(old(self).regions@, old(used_regions)@).contains(v) ==> #[trigger] final(self).colors()[v]
                    == old(self).colors()[v],
            noted_truly(old(self).regions@, old(self).colors(), old(list)@, old(used_regions)@)
                ==> final(used_regions)@.len() == 0 && final(self).colors() == old(self).colors(),
            ({
                let read = assigned(
                    old(self).regions@,
                    (Shades {
                        colors: old(self).colors(),
                        pool: old(self).color_pool@,
                        top: old(self).number_colors as int,
                        waiting: old(used_regions)@,
                        seen: Seq::empty(),
                    }),
                    old(list)@,
                    old(list)@.len() as int,
                );
                &&& final(self).colors() == read.colors
                &&& final(self).color_pool@ == read.pool
                &&& final(used_regions)@ == read.waiting
            }),
    {
        let ghost regions = self.regions@;
        let ghost colors0 = self.colors();
        let ghost sorted = list@;
        let ghost begin = Shades {
            colors: self.colors(),
            pool: self.color_pool@,
            top: self.number_colors as int,
            waiting: used_regions@,
            seen: Seq::empty(),
        };
        let ghost stable = noted_truly(regions, colors0, list@, used_regions@);
        let ghost top = self.number_colors as int;
        let ghost first_done = settled_cells(regions, used_regions@);
        let mut used_colors: Vec<u16> = Vec::new();
        while list.len() > 0
            invariant
                self.same_game(old(self)),
                self.same_shapes(old(self)),
                self.regions == old(self).regions,
                self.region_id_pool == old(self).region_id_pool,
                self.number_regions == old(self).number_regions,
                self.number_colors == old(self).number_colors,
                regions == self.regions@,
                regions.len() == self.pipes@.len(),
                top == self.number_colors,
                first_done == settled_cells(regions, old(used_regions)@),
                used_regions@.no_duplicates(),
                forall|k: int|
                    0 <= k < used_regions@.len() ==> live(regions, #[trigger] used_regions@[k]) && old(
                        used_regions,
                    )@.contains(used_regions@[k]),
                tinted(
                    regions,
                    self.colors(),
                    self.color_pool@,
                    top,
                    settled_cells(regions, used_regions@),
                    spare,
                ),
                forall|k: int|
                    0 <= k < list@.len() && !used_colors@.contains((#[trigger] list@[k]).1)
                        ==> self.color_pool@.contains(list@[k].1),
                forall|v: int| first_done.contains(v) ==> #[trigger] self.colors()[v] == old(self).colors()[v],
                forall|v: int| first_done.contains(v) ==> settled_cells(regions, used_regions@).contains(v),
                colors0 == old(self).colors(),
                list@.len() <= sorted.len(),
                forall|k: int| 0 <= k < list@.len() ==> #[trigger] list@[k] == sorted[k],
                (Shades {
                    colors: self.colors(),
                    pool: self.color_pool@,
                    top: top,
                    waiting: used_regions@,
                    seen: used_colors@,
                }) == assigned(regions, begin, sorted, sorted.len() - list@.len()),
                stable ==> true_colors(regions, colors0),
                stable ==> self.colors() == colors0,
                stable ==> forall|k: int|
                    0 <= k < list@.len() ==> worn_in(regions, colors0, (#[trigger] list@[k]).0, list@[k].1),
                stable ==> forall|r: u16| used_regions@.contains(r) ==> #[trigger] noted_for(list@, r),
                stable ==> forall|v: int|
                    0 <= v < regions.len() && used_colors@.contains(#[trigger] colors0[v]) ==> !used_regions@.contains(
                        regions[v],
                    ),
            decreases list@.len(),
        {
            let ghost notes = list@;
            let ghost waiting_then = used_regions@;
            let ghost seen_then = used_colors@;
            let (region, color, _) = list.pop().unwrap();
            assert(notes[notes.len() - 1].1 == color);
            assert(notes[notes.len() - 1].0 == region);
            assert forall|k: int| 0 <= k < list@.len() implies list@[k] == notes[k] by {}
            let ghost wearer = if stable {
                lemma_worn_where(regions, colors0, region, color)
            } else {
                0
            };
            proof {
                if stable && used_colors@.contains(color) {
                    assert(used_colors@.contains(colors0[wearer]));
                    assert(!used_regions@.contains(region));
                }
            }
            if !holds(&used_colors, color) {
                let ghost seen = used_colors@;
                used_colors.push(color);
                proof {
                    assert(self.color_pool@.contains(color));
                    assert forall|x: u16| used_colors@.contains(x) == (seen.contains(x) || x == color) by {
                        if used_colors@.contains(x) {
                            let k = choose|k: int| 0 <= k < used_colors@.len() && used_colors@[k] == x;
                            if k < seen.len() {
                                assert(seen[k] == x);
                            }
                        }
                        if seen.contains(x) {
                            let k = choose|k: int| 0 <= k < seen.len() && seen[k] == x;
                            assert(used_colors@[k] == x);
                        }
                        if x == color {
                            assert(used_colors@[seen.len() as int] == x);
                        }
                    }
                }
                match find_id(used_regions, region) {
                    Some(at) => {
                        let ghost waiting = used_regions@;
                        let ghost pool = self.color_pool@;
                        let ghost colors = self.colors();
                        let ghost done = settled_cells(regions, waiting);
                        used_regions.swap_remove(at);
                        self.remove_color_from_pool(color);
                        self.paint(region, color);
                        proof {
                            let spot = choose|spot: int|
                                {
                                    &&& 0 <= spot < pool.len()
                                    &&& pool[spot] == color
                                    &&& forall|k: int| 0 <= k < spot ==> pool[k] != color
                                    &&& self.color_pool@ == pool.update(spot, pool.last()).drop_last()
                                };
                            lemma_taken(pool, spot);
                            lemma_taken(waiting, at as int);
                            let done_after = settled_cells(regions, used_regions@);
                            assert(live(regions, waiting[at as int]));
                            assert forall|i: int| done.contains(i) implies regions[i] != region by {
                                assert(waiting.contains(region));
                            }
                            assert forall|v: int| #[trigger]
                                done_after.contains(v) == (done.contains(v) || (0 <= v < regions.len() && regions[v]
                                    == region)) by {}
                            assert(self.colors().len() == colors.len());
                            assert forall|i: int| 0 <= i < colors.len() implies #[trigger] self.colors()[i]
                                == if regions[i] == region {
                                color
                            } else {
                                colors[i]
                            } by {}
                            lemma_painted(
                                regions,
                                colors,
                                pool,
                                top,
                                done,
                                spare,
                                region,
                                color,
                                self.colors(),
                                self.color_pool@,
                                top,
                                done_after,
                            );
                            assert forall|k: int|
                                0 <= k < used_regions@.len() implies live(regions, #[trigger] used_regions@[k])
                                && old(used_regions)@.contains(used_regions@[k]) by {
                                assert(used_regions@.contains(used_regions@[k]));
                                assert(waiting.contains(used_regions@[k]));
                                let e = choose|e: int| 0 <= e < waiting.len() && waiting[e] == used_regions@[k];
                                assert(live(regions, waiting[e]));
                            }
                            assert forall|v: int| first_done.contains(v) implies #[trigger] self.colors()[v]
                                == old(self).colors()[v] && done_after.contains(v) by {
                                assert(done.contains(v));
                                assert(colors[v] == old(self).colors()[v]);
                            }
                            assert forall|x: u16| #[trigger] used_regions@.contains(x) == (waiting.contains(x) && x
                                != region) by {}
                            crate::update::lemma_first_place(pool, color, spot);
                            crate::update::lemma_first_place(waiting, region, at as int);
                            assert(self.colors() =~= painted(regions, colors, region, color));
                            if stable {
                                assert forall|i: int| 0 <= i < colors0.len() implies self.colors()[i]
                                    == colors0[i] by {
                                    if regions[i] == region {
                                        assert((colors0[i] == colors0[wearer]) == (regions[i] == regions[wearer]));
                                    }
                                }
                                assert(self.colors() =~= colors0);
                            }
                        }
                    },
                    None => {},
                }
            }
            proof {
                if stable {
                    assert(!used_regions@.contains(region)) by {
                        if waiting_then.contains(region) && used_regions@.contains(region) {
                            assert(!seen_then.contains(color));
                        }
                    }
                    assert forall|r: u16| used_regions@.contains(r) implies #[trigger] noted_for(list@, r) by {
                        assert(waiting_then.contains(r)) by {
                            if used_regions@ != waiting_then {
                                let at = choose|at: int| 0 <= at < waiting_then.len() && waiting_then[at] == region;
                            }
                        }
                        let k = lemma_noted_where(notes, r);
                        assert(k < notes.len() - 1);
                        assert(list@[k].0 == r);
                        lemma_noted_at(list@, k);
                    }
                    assert forall|v: int|
                        0 <= v < regions.len() && used_colors@.contains(#[trigger] colors0[v]) implies !used_regions@.contains(
                        regions[v],
                    ) by {
                        if colors0[v] == color {
                            assert((colors0[v] == colors0[wearer]) == (regions[v] == regions[wearer]));
                        } else {
                            assert(seen_then.contains(colors0[v]));
                            assert(!waiting_then.contains(regions[v]));
                        }
                    }
                    assert forall|k: int| 0 <= k < list@.len() implies worn_in(
                        regions,
                        colors0,
                        (#[trigger] list@[k]).0,
                        list@[k].1,
                    ) by {
                        assert(worn_in(regions, colors0, notes[k].0, notes[k].1));
                    }
                }
            }
        }
        proof {
            if stable && used_regions@.len() > 0 {
                assert(used_regions@.contains(used_regions@[0]));
                let k = lemma_noted_where(list@, used_regions@[0]);
            }
        }
    }

    /// Gives each region of `used_regions`, in their order, a colour of
    /// its own: one from the pool, else the colour after the highest one.
    pub(crate) fn fill_colors(&mut self, used_regions: &Vec<u16>, Ghost(spare): Ghost<int>)
        requires
            old(self).regions@.len() == old(self).pipes@.len(),
            old(self).pipes@.len() <= 65025,
            used_regions@.no_duplicates(),
            forall|k: int| 0 <= k < used_regions@.len() ==> live(old(self).regions@, #[trigger] used_regions@[k]),
            tinted(
                old(self).regions@,
                old(self).colors(),
                old(self).color_pool@,
                old(self).number_colors as int,
                settled_cells(old(self).regions@, used_regions@),
                spare,
            ),
        ensures
            final(self).same_game(old(self)),
            final(self).same_shapes(old(self)),
            final(self).regions == old(self).regions,
            final(self).region_id_pool == old(self).region_id_pool,
            final(self).number_regions == old(self).number_regions,
            final(self).number_colors >= old(self).number_colors,
            tinted(
                old(self).regions@,
                final(self).colors(),
                final(self).color_pool@,
                final(self).number_colors as int,
                cells_upto(old(self).pipes@.len() as int),
                spare,
            ),
            forall|v: int|
                settled_cells(old(self).regions@, used_regions@).contains(v) ==> #[trigger] final(self).colors()[v]
                    == old(self).colors()[v],
            used_regions@.len() == 0 ==> final(self).colors() == old(self).colors(),
            (final(self).colors(), final(self).color_pool@, final(self).number_colors as int) == filled(
                old(self).regions@,
                old(self).colors(),
                old(self).color_pool@,
                old(self).number_colors as int,
                used_regions@,
                used_regions@.len() as int,
            ),
    {
        let ghost regions = self.regions@;
        let ghost first_done = settled_cells(regions, used_regions@);
        let mut k: usize = 0;
        assert(used_regions@.skip(0) =~= used_regions@);
        while k < used_regions.len()
            invariant
                self.same_game(old(self)),
                self.same_shapes(old(self)),
                self.regions == old(self).regions,
                self.region_id_pool == old(self).region_id_pool,
                self.number_regions == old(self).number_regions,
                self.number_colors >= old(self).number_colors,
                regions == self.regions@,
                regions.len() == self.pipes@.len(),
                regions.len() <= 65025,
                k <= used_regions@.len(),
                used_regions@.no_duplicates(),
                forall|e: int| 0 <= e < used_regions@.len() ==> live(regions, #[trigger] used_regions@[e]),
                first_done == settled_cells(regions, used_regions@),
                tinted(
                    regions,
                    self.colors(),
                    self.color_pool@,
                    self.number_colors as int,
                    settled_cells(regions, used_regions@.skip(k as int)),
                    spare,
                ),
                forall|v: int| first_done.contains(v) ==> #[trigger] self.colors()[v] == old(self).colors()[v],
                forall|v: int|
                    first_done.contains(v) ==> settled_cells(regions, used_regions@.skip(k as int)).contains(v),
                used_regions@.len() == 0 ==> self.colors() == old(self).colors(),
                (self.colors(), self.color_pool@, self.number_colors as int) == filled(
                    regions,
                    old(self).colors(),
                    old(self).color_pool@,
                    old(self).number_colors as int,
                    used_regions@,
                    k as int,
                ),
            decreases used_regions@.len() - k,
        {
            let region = used_regions[k];
            let ghost left = used_regions@.skip(k as int);
            let ghost done = settled_cells(regions, left);
            let ghost pool = self.color_pool@;
            let ghost colors = self.colors();
            let ghost top = self.number_colors as int;
            proof {
                assert(left[0] == region);
                assert(left.contains(region));
                assert(live(regions, used_regions@[k as int]));
                let v = choose|v: int| 0 <= v < regions.len() && #[trigger] regions[v] == region;
                assert(!done.contains(v));
                if pool.len() == 0 {
                    lemma_colors_fit(regions, colors, pool, top, done, spare, v);
                }
            }
            let color = self.next_color();
            self.paint(region, color);
            proof {
                let further = used_regions@.skip(k + 1);
                let done_after = settled_cells(regions, further);
                if pool.len() > 0 {
                    lemma_taken(pool, pool.len() - 1);
                    assert(pool.update(pool.len() - 1, pool.last()).drop_last() =~= pool.drop_last());
                    assert(pool[pool.len() - 1] == color);
                    assert(pool.contains(color));
                }
                assert(handed(pool, top, color, self.color_pool@, self.number_colors as int));
                assert(self.colors() =~= painted(regions, colors, region, color));
                assert forall|x: u16| left.contains(x) == (further.contains(x) || x == region) by {
                    if left.contains(x) {
                        let e = choose|e: int| 0 <= e < left.len() && left[e] == x;
                        if e > 0 {
                            assert(further[e - 1] == x);
                        }
                    }
                    if further.contains(x) {
                        let e = choose|e: int| 0 <= e < further.len() && further[e] == x;
                        assert(left[e + 1] == x);
                    }
                }
                assert(!further.contains(region)) by {
                    if further.contains(region) {
                        let e = choose|e: int| 0 <= e < further.len() && further[e] == region;
                        assert(used_regions@[k + 1 + e] == region);
                    }
                }
                assert forall|i: int| done.contains(i) implies regions[i] != region by {}
                assert forall|v: int| #[trigger]
                    done_after.contains(v) == (done.contains(v) || (0 <= v < regions.len() && regions[v]
                        == region)) by {}
                assert(self.colors().len() == colors.len());
                assert forall|i: int| 0 <= i < colors.len() implies #[trigger] self.colors()[i] == if regions[i]
                    == region {
                    color
                } else {
                    colors[i]
                } by {}
                lemma_painted(
                    regions,
                    colors,
                    pool,
                    top,
                    done,
                    spare,
                    region,
                    color,
                    self.colors(),
                    self.color_pool@,
                    self.number_colors as int,
                    done_after,
                );
                assert forall|v: int| first_done.contains(v) implies #[trigger] self.colors()[v] == old(
                    self,
                ).colors()[v] && done_after.contains(v) by {
                    assert(done.contains(v));
                    assert(colors[v] == old(self).colors()[v]);
                }
            }
            k = k + 1;
        }
        proof {
            assert(used_regions@.skip(used_regions@.len() as int) =~= Seq::<u16>::empty());
            assert(settled_cells(regions, Seq::<u16>::empty()) =~= cells_upto(regions.len() as int));
        }
    }

    /// Colours the regions anew whose ids are noted in `to_check`. The
    /// colours that their cells show go to the pool. Then the regions take
    /// colours from among them: the colour that the most cells of one
    /// region show goes to that region, then the next, as long as region
    /// and colour are both still free. A region left without takes any
    /// colour from the pool, or a new one. All other cells keep their
    /// colour.
    pub(crate) fn recolor(&mut self, to_check: &Vec<(usize, u16)>, Ghost(spare): Ghost<int>)
        requires
            old(self).regions@.len() == old(self).pipes@.len(),
            old(self).pipes@.len() <= 65025,
            faded(
                old(self).regions@,
                old(self).colors(),
                old(self).color_pool@,
                old(self).number_colors as int,
                to_check@,
                spare,
            ),
        ensures
            final(self).same_game(old(self)),
            final(self).same_shapes(old(self)),
            final(self).regions == old(self).regions,
            final(self).region_id_pool == old(self).region_id_pool,
            final(self).number_regions == old(self).number_regions,
            final(self).number_colors >= old(self).number_colors,
            tinted(
                old(self).regions@,
                final(self).colors(),
                final(self).color_pool@,
                final(self).number_colors as int,
                cells_upto(old(self).pipes@.len() as int),
                spare,
            ),
            forall|v: int|
                0 <= v < old(self).regions@.len() && !listed(to_check@, to_check@.len() as int, old(self).regions@[v])
                    ==> #[trigger] final(self).colors()[v] == old(self).colors()[v],
            true_colors(old(self).regions@, old(self).colors()) ==> final(self).colors() == old(self).colors(),
            recolored_to(
                old(self).regions@,
                old(self).colors(),
                old(self).color_pool@,
                old(self).number_colors as int,
                to_check@,
                (final(self).colors(), final(self).color_pool@, final(self).number_colors as int),
            ),
    {
        let ghost regions = self.regions@;
        let ghost colors = self.colors();
        let (mut list, mut used_regions) = self.gather_colors(to_check);
        proof {
            assert(self.colors() == colors);
            lemma_gathered(
                regions,
                colors,
                old(self).color_pool@,
                self.number_colors as int,
                to_check@,
                spare,
                used_regions@,
                self.color_pool@,
            );
            assert forall|k: int| 0 <= k < used_regions@.len() implies live(
                regions,
                #[trigger] used_regions@[k],
            ) by {
                assert(used_regions@.contains(used_regions@[k]));
            }
        }
        let ghost notes = list@;
        let ghost first_done = settled_cells(regions, used_regions@);
        sort_by_count(&mut list);
        proof {
            assert forall|k: int| 0 <= k < list@.len() implies self.color_pool@.contains(
                (#[trigger] list@[k]).1,
            ) by {
                vstd::seq_lib::to_multiset_contains(list@, list@[k]);
                vstd::seq_lib::to_multiset_contains(notes, list@[k]);
                assert(list@.contains(list@[k]));
                assert(notes.contains(list@[k]));
                let e = choose|e: int| 0 <= e < notes.len() && notes[e] == list@[k];
                assert(self.color_pool@.contains(notes[e].1));
            }
            assert forall|v: int|
                0 <= v < regions.len() && !listed(to_check@, to_check@.len() as int, regions[v]) implies first_done.contains(
                v,
            ) by {}
            assert forall|k: int| 0 <= k < list@.len() implies worn_in(
                regions,
                colors,
                (#[trigger] list@[k]).0,
                list@[k].1,
            ) by {
                vstd::seq_lib::to_multiset_contains(list@, list@[k]);
                vstd::seq_lib::to_multiset_contains(notes, list@[k]);
                assert(list@.contains(list@[k]));
                let e = choose|e: int| 0 <= e < notes.len() && notes[e] == list@[k];
                assert(worn_in(regions, colors, notes[e].0, notes[e].1));
            }
            assert forall|r: u16| used_regions@.contains(r) implies #[trigger] noted_for(list@, r) by {
                let e = lemma_noted_where(notes, r);
                vstd::seq_lib::to_multiset_contains(list@, notes[e]);
                vstd::seq_lib::to_multiset_contains(notes, notes[e]);
                assert(notes.contains(notes[e]));
                let k = choose|k: int| 0 <= k < list@.len() && list@[k] == notes[e];
                lemma_noted_at(list@, k);
            }
        }
        let ghost mid = *self;
        let ghost sorted = list@;
        let ghost found = used_regions@;
        self.assign_colors(&mut list, &mut used_regions, Ghost(spare));
        let ghost late = *self;
        self.fill_colors(&used_regions, Ghost(spare));
        proof {
            assert(sorted_stably(notes, sorted));
            let start = Shades {
                colors,
                pool: pooled_colors(old(self).color_pool@, notes),
                top: old(self).number_colors as int,
                waiting: found,
                seen: Seq::empty(),
            };
            assert(gathered(regions, colors, to_check@, to_check@.len() as int) == (notes, found));
            assert(mid.colors() == colors);
            assert(mid.color_pool@ == start.pool);
            let read = assigned(regions, start, sorted, sorted.len() as int);
            lemma_assigned_top(regions, start, sorted, sorted.len() as int);
            assert(late.colors() == read.colors);
            assert(late.color_pool@ == read.pool);
            assert(used_regions@ == read.waiting);
            assert(late.number_colors as int == read.top);
            assert((self.colors(), self.color_pool@, self.number_colors as int) == recolored(
                regions,
                colors,
                old(self).color_pool@,
                old(self).number_colors as int,
                to_check@,
                sorted,
            ));
            assert forall|v: int|
                0 <= v < regions.len() && !listed(to_check@, to_check@.len() as int, regions[v]) implies #[trigger] self.colors()[v]
                == colors[v] by {
                assert(first_done.contains(v));
                assert(late.colors()[v] == mid.colors()[v]);
                assert(settled_cells(regions, used_regions@).contains(v)) by {
                    if used_regions@.contains(regions[v]) {
                        let k = choose|k: int| 0 <= k < used_regions@.len() && used_regions@[k] == regions[v];
                    }
                }
            }
        }
    }
}

} // verus!
