//! Drag and drop on the grid and the dock: paging at an edge, the gap that
//! opens under a drag, what a drop folds onto, and what every drop does.
//!
//! Where a drag is in pixels stays outside. What comes in is which cell it is
//! over and on which side of its middle; moments are milliseconds on one clock.
use vstd::prelude::*;
use crate::apps::EntryKind;
use crate::content;
use crate::content::{SECTION_APPS, SECTION_INSTALL};
use crate::text;

verus! {

/// Time between two page turns while a drag is held at an edge.
pub const DRAG_PAGE_COOLDOWN: u64 = 700;

// ---------------------------------------------------------------------------
// Paging at an edge
// ---------------------------------------------------------------------------

/// Drive the clock of a drag held at an edge: entering the edge arms it,
/// leaving it disarms it, and while it is held it fires every
/// [`DRAG_PAGE_COOLDOWN`]. `dir` is 0 away from the edges.
pub fn edge_page_due(timer: &mut Option<u64>, dir: i64, now: u64) -> (r: bool)
    ensures
        (r, *final(timer)) == edge_clock(*old(timer), dir, now),
{
    if dir == 0 {
        *timer = None;
        return false;
    }
    match *timer {
        Some(t) => {
            if now.saturating_sub(t) >= DRAG_PAGE_COOLDOWN {
                *timer = Some(now);
                true
            } else {
                false
            }
        },
        None => {
            *timer = Some(now);
            false
        },
    }
}

/// The clock of a drag held at an edge: when it fires, and what it is then.
pub open spec fn edge_clock(timer: Option<u64>, dir: i64, now: u64) -> (bool, Option<u64>) {
    if dir == 0 {
        (false, None)
    } else {
        match timer {
            Some(t) => if now - t >= DRAG_PAGE_COOLDOWN {
                (true, Some(now))
            } else {
                (false, Some(t))
            },
            None => (false, Some(now)),
        }
    }
}

/// A held drag turns pages at a pace: between two moments at which its clock
/// fires lies a whole cooldown, and it does not fire when it is armed.
pub proof fn law_a_held_drag_pages_at_a_pace(
    timer: Option<u64>,
    first: u64,
    second: u64,
    dir: i64,
    later_dir: i64,
)
    requires
        first <= second,
        edge_clock(edge_clock(timer, dir, first).1, later_dir, second).0,
        edge_clock(timer, dir, first).0 || timer is None,
    ensures
        second - first >= DRAG_PAGE_COOLDOWN,
{
}

/// A drag that is held at an edge for a whole cooldown turns the page, and the
/// wait begins anew; one that has left the edge does not, and has to be held anew.
pub proof fn law_a_held_drag_turns_the_page(
    timer: Option<u64>,
    first: u64,
    second: u64,
    dir: i64,
    later_dir: i64,
)
    requires
        first <= second,
        dir != 0,
    ensures
        ({
            let held = edge_clock(edge_clock(None, dir, first).1, later_dir, second);
            &&& held.0 <==> later_dir != 0 && second - first >= DRAG_PAGE_COOLDOWN
            &&& held.1 == (if later_dir == 0 {
                None
            } else if held.0 {
                Some(second)
            } else {
                Some(first)
            })
        }),
        edge_clock(timer, 0, first) == (false, None::<u64>),
{
}

// ---------------------------------------------------------------------------
// The gap in the grid
// ---------------------------------------------------------------------------

/// What is dragged, as far as the grid asks.
#[derive(Debug, Clone, Copy, PartialEq, Eq)]
pub struct DragItem {
    pub kind: Option<EntryKind>,
    pub from_dock: bool,
    /// A web application from the catalog, which has no cell in the grid yet.
    pub catalog_webapp: bool,
}

/// Whether a drag brings a new item into the grid, rather than moving one of
/// its own.
pub open spec fn inserts(d: DragItem) -> bool {
    d.from_dock || d.kind == Some(EntryKind::Package) || d.catalog_webapp
}

/// Whether a drag can aim at the grid: the grid is at rest, and what is dragged
/// is something that stands in it.
pub open spec fn aims_at_grid(d: DragItem, resting: bool, orig: Option<usize>) -> bool {
    &&& resting
    &&& if inserts(d) {
        d.kind == Some(EntryKind::App) || d.kind == Some(EntryKind::Package) || d.kind == Some(
            EntryKind::Group,
        )
    } else {
        orig is Some && (d.kind == Some(EntryKind::App) || d.kind == Some(EntryKind::Group))
    }
}

/// Whether a drag can aim at the grid. `orig` is the place of the dragged item
/// among the visible ones.
pub fn grid_drag(d: &DragItem, resting: bool, orig: Option<usize>) -> (r: bool)
    ensures
        r == aims_at_grid(*d, resting, orig),
{
    if !resting {
        return false;
    }
    let (app, package, group): (bool, bool, bool) = match d.kind {
        Some(EntryKind::App) => (true, false, false),
        Some(EntryKind::Package) => (false, true, false),
        Some(EntryKind::Group) => (false, false, true),
        _ => (false, false, false),
    };
    if d.from_dock || package || d.catalog_webapp {
        app || package || group
    } else {
        orig.is_some() && (app || group)
    }
}

/// One past the last occupied slot of the page that begins at `start`, the item
/// `orig` not counted; the page's first slot where it is empty.
pub open spec fn append_slot(
    slots: Seq<usize>,
    orig: Option<usize>,
    start: int,
    cap: int,
) -> int
    decreases slots.len(),
{
    if slots.len() == 0 {
        start
    } else {
        let before = append_slot(slots.drop_last(), orig, start, cap);
        let s = slots.last() as int;
        if orig != Some((slots.len() - 1) as usize) && start <= s < start + cap && s + 1
            > before {
            s + 1
        } else {
            before
        }
    }
}

/// The last slot of that page that a drag can land in: a move within the page
/// neither grows nor shrinks it.
pub open spec fn last_landable(
    append: int,
    orig_slot: Option<usize>,
    start: int,
    cap: int,
) -> int {
    match orig_slot {
        Some(o) => if start <= o < start + cap {
            let last = if append > 0 {
                append - 1
            } else {
                0
            };
            if last > o {
                last
            } else {
                o as int
            }
        } else {
            append
        },
        None => append,
    }
}

/// How many slots a moved item's gap travels: it moves only once the pointer has
/// passed the middle of a neighbour. The pointer is over cell `d`;
/// `right` says whether it is at or past the cell's middle, `beyond` whether it
/// is past it.
pub open spec fn gap_steps(d: int, o: int, right: bool, beyond: bool) -> int {
    let forward = d - o - (if right {
        0int
    } else {
        1
    });
    let backward = o - d - (if beyond {
        1int
    } else {
        0
    });
    if forward >= 1 {
        forward
    } else if backward >= 1 {
        -backward
    } else {
        0
    }
}

/// A value kept between two bounds, the lower one first.
pub open spec fn clamped(x: int, lo: int, hi: int) -> int {
    if x < lo {
        lo
    } else if x > hi {
        hi
    } else {
        x
    }
}

/// The slot that the gap wants under the pointer.
pub open spec fn gap_slot(
    slots: Seq<usize>,
    orig: Option<usize>,
    orig_slot: Option<usize>,
    cap: int,
    d: int,
    right: bool,
    beyond: bool,
) -> int {
    let start = (d / cap) * cap;
    let append = append_slot(slots, orig, start, cap);
    match orig_slot {
        Some(o) => clamped(
            o + gap_steps(d, o as int, right, beyond),
            start,
            last_landable(append, orig_slot, start, cap),
        ),
        None => {
            let seam = d + (if right {
                1int
            } else {
                0
            });
            if seam < append {
                seam
            } else {
                append
            }
        },
    }
}

/// The slot of the dragged item.
pub open spec fn slot_at(slots: Seq<usize>, orig: Option<usize>) -> Option<usize> {
    match orig {
        Some(o) => if o < slots.len() {
            Some(slots[o as int])
        } else {
            None
        },
        None => None,
    }
}

fn slot_of(slots: &[usize], orig: Option<usize>) -> (r: Option<usize>)
    ensures
        r == slot_at(slots@, orig),
{
    match orig {
        Some(o) => {
            if o < slots.len() {
                Some(slots[o])
            } else {
                None
            }
        },
        None => None,
    }
}

proof fn lemma_append_bounds(slots: Seq<usize>, orig: Option<usize>, start: int, cap: int)
    requires
        0 <= start,
        0 < cap,
    ensures
        start <= append_slot(slots, orig, start, cap) <= start + cap,
        forall|i: int|
            0 <= i < slots.len() && orig != Some(i as usize) && start <= #[trigger] slots[i] < start
                + cap && slots.len() <= usize::MAX ==> slots[i] < append_slot(
                slots,
                orig,
                start,
                cap,
            ),
    decreases slots.len(),
{
    if slots.len() > 0 {
        let d = slots.drop_last();
        lemma_append_bounds(d, orig, start, cap);
        assert forall|i: int|
            0 <= i < slots.len() && orig != Some(i as usize) && start <= #[trigger] slots[i] < start
                + cap && slots.len() <= usize::MAX implies slots[i] < append_slot(
            slots,
            orig,
            start,
            cap,
        ) by {
            if i < d.len() {
                assert(d[i] == slots[i]);
            }
        }
    }
}

fn append_of(slots: &[usize], orig: Option<usize>, start: usize, cap: usize) -> (r: usize)
    requires
        0 < cap,
        start + cap <= usize::MAX,
    ensures
        r == append_slot(slots@, orig, start as int, cap as int),
        start <= r <= start + cap,
{
    let mut best: usize = start;
    assert(slots@.take(0) == Seq::<usize>::empty());
    for j in 0..slots.len()
        invariant
            0 < cap,
            start + cap <= usize::MAX,
            best == append_slot(slots@.take(j as int), orig, start as int, cap as int),
            start <= best <= start + cap,
    {
        assert(slots@.take(j + 1).drop_last() == slots@.take(j as int));
        assert(slots@.take(j + 1).last() == slots@[j as int]);
        let s: usize = slots[j];
        let own: bool = match orig {
            Some(o) => o == j,
            None => false,
        };
        if !own && s >= start && s < start + cap && s + 1 > best {
            best = s + 1;
        }
    }
    assert(slots@.take(slots@.len() as int) == slots@);
    best
}

fn landable(append: usize, orig_slot: Option<usize>, start: usize, cap: usize) -> (r: usize)
    requires
        start + cap <= usize::MAX,
    ensures
        r == last_landable(append as int, orig_slot, start as int, cap as int),
{
    match orig_slot {
        Some(o) => {
            if start <= o && o < start + cap {
                let last: usize = append.saturating_sub(1);
                if last > o {
                    last
                } else {
                    o
                }
            } else {
                append
            }
        },
        None => append,
    }
}

/// Where a drag aims: the gap that has opened for it, and since when it has
/// been held at an edge.
#[derive(Debug, Clone, Copy, PartialEq, Eq)]
pub struct GridTarget {
    pub reorder_slot: Option<usize>,
    pub page_at: Option<u64>,
}

/// What a step of a drag asks for.
#[derive(Debug, Clone, Copy, PartialEq, Eq)]
pub struct DragStep {
    /// Whether the drag aims at the grid at all.
    pub aims: bool,
    /// Turn the page this way.
    pub turn: Option<i64>,
    /// Draw again.
    pub dirty: bool,
}

impl GridTarget {
    /// A drag moves at `now`; `dir` is the edge that it is held at. Where it
    /// does not aim at the grid the gap closes. With more than one page a held
    /// edge turns them.
    pub fn hold(
        &mut self,
        d: &DragItem,
        resting: bool,
        orig: Option<usize>,
        n_pages: usize,
        dir: i64,
        now: u64,
    ) -> (r: DragStep)
        ensures
            r.aims == aims_at_grid(*d, resting, orig),
            !r.aims ==> final(self).reorder_slot is None && final(self).page_at is None && r.turn
                is None && !r.dirty,
            r.aims ==> final(self).reorder_slot == old(self).reorder_slot && {
                let due = n_pages > 1 && dir != 0 && (old(self).page_at matches Some(t) && now >= t
                    && now - t >= DRAG_PAGE_COOLDOWN);
                &&& r.turn == (if due {
                    Some(dir)
                } else {
                    None
                })
                &&& r.dirty == (n_pages > 1 && dir != 0)
                &&& final(self).page_at == (if n_pages <= 1 || dir == 0 {
                    None
                } else if due || old(self).page_at is None {
                    Some(now)
                } else {
                    old(self).page_at
                })
            },
    {
        if !grid_drag(d, resting, orig) {
            self.reorder_slot = None;
            self.page_at = None;
            return DragStep { aims: false, turn: None, dirty: false };
        }
        if n_pages > 1 {
            let mut timer: Option<u64> = self.page_at;
            let due: bool = edge_page_due(&mut timer, dir, now);
            self.page_at = timer;
            DragStep {
                aims: true,
                turn: if due {
                    Some(dir)
                } else {
                    None
                },
                dirty: dir != 0,
            }
        } else {
            self.page_at = None;
            DragStep { aims: true, turn: None, dirty: false }
        }
    }

    /// The drag is over cell `d` of the grid: open the gap there. Returns
    /// whether it moved.
    pub fn aim_at_cell(
        &mut self,
        slots: &[usize],
        orig: Option<usize>,
        cap: usize,
        d: usize,
        right: bool,
        beyond: bool,
    ) -> (r: bool)
        requires
            0 < cap,
            d + cap + 1 <= isize::MAX,
            forall|i: int| 0 <= i < slots@.len() ==> #[trigger] slots@[i] < isize::MAX,
        ensures
            final(self).page_at == old(self).page_at,
            final(self).reorder_slot matches Some(w) && w == gap_slot(
                slots@,
                orig,
                slot_at(slots@, orig),
                cap as int,
                d as int,
                right,
                beyond,
            ),
            r == (old(self).reorder_slot != final(self).reorder_slot),
    {
        let orig_slot = slot_of(slots, orig);
        proof {
            let q = d as int / cap as int;
            vstd::arithmetic::div_mod::lemma_fundamental_div_mod(d as int, cap as int);
            vstd::arithmetic::mul::lemma_mul_is_commutative(cap as int, q);
            assert(0 <= q * cap <= d) by {
                vstd::arithmetic::div_mod::lemma_div_pos_is_pos(d as int, cap as int);
                vstd::arithmetic::mul::lemma_mul_nonnegative(q, cap as int);
                vstd::arithmetic::div_mod::lemma_mod_bound(d as int, cap as int);
            }
        }
        let start: usize = (d / cap) * cap;
        let append: usize = append_of(slots, orig, start, cap);
        let want: usize = match orig_slot {
            Some(o) => {
                let last: usize = landable(append, orig_slot, start, cap);
                let forward: isize = d as isize - o as isize - (if right {
                    0
                } else {
                    1
                });
                let backward: isize = o as isize - d as isize - (if beyond {
                    1
                } else {
                    0
                });
                let at: isize = if forward >= 1 {
                    o as isize + forward
                } else if backward >= 1 {
                    o as isize - backward
                } else {
                    o as isize
                };
                assert(at == o + gap_steps(d as int, o as int, right, beyond));
                if at < start as isize {
                    start
                } else if at > last as isize {
                    last
                } else {
                    at as usize
                }
            },
            None => {
                let seam: usize = if right {
                    d + 1
                } else {
                    d
                };
                if seam < append {
                    seam
                } else {
                    append
                }
            },
        };
        let moved: bool = match self.reorder_slot {
            Some(s) => s != want,
            None => true,
        };
        self.reorder_slot = Some(want);
        moved
    }

    /// The drag is off the grid. Beside it, in the zone that turns pages, the
    /// gap is at the end of the page that shows; elsewhere it goes home.
    /// Returns whether it moved.
    pub fn aim_off_grid(
        &mut self,
        slots: &[usize],
        orig: Option<usize>,
        cap: usize,
        page: usize,
        beside: bool,
    ) -> (r: bool)
        requires
            0 < cap,
            page * cap + cap <= usize::MAX,
        ensures
            final(self).page_at == old(self).page_at,
            ({
                let start = page * cap;
                let append = append_slot(slots@, orig, start, cap as int);
                let home = slot_at(slots@, orig);
                if beside {
                    final(self).reorder_slot matches Some(w) && w == last_landable(
                        append,
                        home,
                        start,
                        cap as int,
                    )
                } else {
                    final(self).reorder_slot == home
                }
            }),
            r == (old(self).reorder_slot != final(self).reorder_slot),
    {
        let orig_slot = slot_of(slots, orig);
        let want: Option<usize> = if beside {
            assert(page * cap >= 0) by {
                vstd::arithmetic::mul::lemma_mul_nonnegative(page as int, cap as int);
            }
            let start: usize = page * cap;
            let append: usize = append_of(slots, orig, start, cap);
            Some(landable(append, orig_slot, start, cap))
        } else {
            orig_slot
        };
        let moved: bool = match (self.reorder_slot, want) {
            (Some(a), Some(b)) => a != b,
            (None, None) => false,
            _ => true,
        };
        self.reorder_slot = want;
        moved
    }
}

/// The grid as a drag sees it.
#[derive(Debug, Clone, Copy)]
pub struct GridView<'a> {
    /// The slot of each visible item.
    pub slots: &'a [usize],
    /// The entries of the visible items.
    pub visible: &'a [usize],
    /// The kinds of all entries.
    pub kinds: &'a [EntryKind],
    /// How many slots a page has.
    pub cap: usize,
    pub n_pages: usize,
    /// Whether the grid is at rest.
    pub resting: bool,
    /// Whether a box is open over it.
    pub box_open: bool,
}

/// Where the pointer is while it drags.
#[derive(Debug, Clone, Copy, PartialEq, Eq, Structural)]
pub enum DragPoint {
    /// Over a cell: in its right half, beyond its middle, and on the middle
    /// where a drop folds.
    Cell { cell: usize, right: bool, beyond: bool, centred: bool },
    /// Beside the grid, in the zone that turns pages, with this page showing.
    Beside(usize),
    /// Away from the grid.
    Off,
}

/// What a move of a drag over the grid asks for.
#[derive(Debug, Clone, Copy, PartialEq, Eq)]
pub struct GridAim {
    /// The section and the cell that a drop would fold onto, to be ringed. The
    /// cell is the place among the visible items.
    pub fold: Option<(usize, usize)>,
    /// Turn the page this way.
    pub turn: Option<i64>,
    /// Draw again.
    pub dirty: bool,
}

/// The gap that a fold is judged by: the open one, else home.
pub open spec fn resting_gap(gap: Option<usize>, home: Option<usize>) -> Option<usize> {
    if gap is Some {
        gap
    } else {
        home
    }
}

/// The gap while a fold target is under the pointer: the grid rests, a moved
/// item's gap at home and a new item's where it is.
pub open spec fn gap_while_folding(gap: Option<usize>, home: Option<usize>) -> Option<usize> {
    if home is Some {
        home
    } else {
        gap
    }
}

/// The place of the item that a drag of `item` would fold onto at `point`,
/// with the gap at `gap`. Boxes do not nest.
pub open spec fn ring_place(
    item: DragItem,
    dragged: usize,
    orig: Option<usize>,
    view: GridView,
    point: DragPoint,
    gap: Option<usize>,
) -> Option<usize> {
    match point {
        DragPoint::Cell { cell, centred, .. } => if item.kind == Some(EntryKind::Group) {
            None
        } else {
            fold_place(
                view.box_open,
                Some(cell),
                centred,
                resting_gap(gap, slot_at(view.slots@, orig)),
                view.slots@,
                view.visible@,
                view.kinds@,
                dragged,
            )
        },
        _ => None,
    }
}

/// Whether `after` is where the gap goes from `gap` as a drag moves to `point`.
pub open spec fn gap_moves(
    item: DragItem,
    dragged: usize,
    orig: Option<usize>,
    view: GridView,
    point: DragPoint,
    gap: Option<usize>,
    after: Option<usize>,
) -> bool {
    let home = slot_at(view.slots@, orig);
    let cap = view.cap as int;
    match point {
        DragPoint::Cell { cell, right, beyond, .. } => if ring_place(
            item,
            dragged,
            orig,
            view,
            point,
            gap,
        ) is Some {
            after == gap_while_folding(gap, home)
        } else {
            after matches Some(w) && w == gap_slot(
                view.slots@,
                orig,
                home,
                cap,
                cell as int,
                right,
                beyond,
            )
        },
        DragPoint::Beside(page) => after matches Some(w) && w == last_landable(
            append_slot(view.slots@, orig, page * cap, cap),
            home,
            page * cap,
            cap,
        ),
        DragPoint::Off => after == home,
    }
}

impl GridTarget {
    /// Follow a drag of the entry `dragged` over the grid; `orig` is its place
    /// among the visible items, `dir` the edge that it is held at. The gap
    /// follows the pointer. Over the middle of an item that a drop would fold
    /// onto, that item is ringed instead, and the grid rests.
    pub fn update_grid_target(
        &mut self,
        item: &DragItem,
        dragged: usize,
        orig: Option<usize>,
        view: &GridView,
        point: DragPoint,
        dir: i64,
        now: u64,
    ) -> (r: GridAim)
        requires
            0 < view.cap,
            forall|i: int| 0 <= i < view.slots@.len() ==> #[trigger] view.slots@[i] < isize::MAX,
            point matches DragPoint::Cell { cell, .. } ==> cell + view.cap + 1 <= isize::MAX,
            point matches DragPoint::Beside(page) ==> page * view.cap + view.cap <= usize::MAX,
        ensures
            !aims_at_grid(*item, view.resting, orig) ==> {
                &&& final(self).reorder_slot is None
                &&& final(self).page_at is None
                &&& r == (GridAim { fold: None, turn: None, dirty: false })
            },
            aims_at_grid(*item, view.resting, orig) ==> {
                let dir_held = if view.n_pages > 1 {
                    dir
                } else {
                    0
                };
                let clock = edge_clock(old(self).page_at, dir_held, now);
                &&& final(self).page_at == clock.1
                &&& r.turn == (if clock.0 {
                    Some(dir)
                } else {
                    None
                })
                &&& r.fold == (match ring_place(
                    *item,
                    dragged,
                    orig,
                    *view,
                    point,
                    old(self).reorder_slot,
                ) {
                    Some(j) => Some((SECTION_APPS, j)),
                    None => None,
                })
                &&& gap_moves(
                    *item,
                    dragged,
                    orig,
                    *view,
                    point,
                    old(self).reorder_slot,
                    final(self).reorder_slot,
                )
                &&& r.dirty == (dir_held != 0 || r.fold is Some || final(self).reorder_slot
                    != old(self).reorder_slot)
            },
    {
        let step = self.hold(item, view.resting, orig, view.n_pages, dir, now);
        if !step.aims {
            return GridAim { fold: None, turn: None, dirty: false };
        }
        let home = slot_of(view.slots, orig);
        match point {
            DragPoint::Cell { cell, right, beyond, centred } => {
                let gap: Option<usize> = match self.reorder_slot {
                    Some(g) => Some(g),
                    None => home,
                };
                let group: bool = match item.kind {
                    Some(EntryKind::Group) => true,
                    _ => false,
                };
                let place: Option<usize> = if group {
                    None
                } else {
                    place_of_fold(
                        view.box_open,
                        Some(cell),
                        centred,
                        gap,
                        view.slots,
                        view.visible,
                        view.kinds,
                        dragged,
                    )
                };
                if let Some(j) = place {
                    if home.is_some() {
                        self.reorder_slot = home;
                    }
                    return GridAim { fold: Some((SECTION_APPS, j)), turn: step.turn, dirty: true };
                }
                let moved: bool = self.aim_at_cell(
                    view.slots,
                    orig,
                    view.cap,
                    cell,
                    right,
                    beyond,
                );
                GridAim { fold: None, turn: step.turn, dirty: step.dirty || moved }
            },
            DragPoint::Beside(page) => {
                let moved: bool = self.aim_off_grid(view.slots, orig, view.cap, page, true);
                GridAim { fold: None, turn: step.turn, dirty: step.dirty || moved }
            },
            DragPoint::Off => {
                let moved: bool = self.aim_off_grid(view.slots, orig, view.cap, 0, false);
                GridAim { fold: None, turn: step.turn, dirty: step.dirty || moved }
            },
        }
    }
}

/// What is ringed is what a drop folds onto: with the gap where the ring leaves
/// it, a drop at the same point folds onto the ringed item. Every item has a
/// slot of its own.
pub proof fn law_a_ringed_item_takes_the_drop(
    item: DragItem,
    dragged: usize,
    orig: Option<usize>,
    view: GridView,
    point: DragPoint,
    gap: Option<usize>,
    after: Option<usize>,
)
    requires
        view.slots@.len() <= usize::MAX,
        view.slots@.no_duplicates(),
        orig matches Some(o) ==> o < view.visible@.len() && view.visible@[o as int] == dragged,
        ring_place(item, dragged, orig, view, point, gap) is Some,
        gap_moves(item, dragged, orig, view, point, gap, after),
    ensures
        point matches DragPoint::Cell { cell, centred, .. } && fold_place(
            view.box_open,
            Some(cell),
            centred,
            after,
            view.slots@,
            view.visible@,
            view.kinds@,
            dragged,
        ) == ring_place(item, dragged, orig, view, point, gap),
{
    if let DragPoint::Cell { cell, .. } = point {
        content::lemma_first_place(view.slots@, cell);
        if let Some(h) = slot_at(view.slots@, orig) {
            let j = ring_place(item, dragged, orig, view, point, gap)->Some_0;
            assert(view.slots@[j as int] == cell);
            if h == cell {
                assert(view.slots@[orig->Some_0 as int] == cell);
                assert(j == orig->Some_0);
            }
        }
    }
}

/// The gap never leaves the page under the pointer: it is a slot of that page,
/// or for an item that the page gains, one past its last occupied one.
pub proof fn law_the_gap_stays_on_its_page(
    slots: Seq<usize>,
    orig: Option<usize>,
    cap: int,
    d: int,
    right: bool,
    beyond: bool,
)
    requires
        0 < cap,
        0 <= d,
    ensures
        ({
            let start = (d / cap) * cap;
            let g = gap_slot(slots, orig, slot_at(slots, orig), cap, d, right, beyond);
            start <= g <= start + cap
        }),
{
    let start = (d / cap) * cap;
    vstd::arithmetic::div_mod::lemma_div_pos_is_pos(d, cap);
    vstd::arithmetic::mul::lemma_mul_nonnegative(d / cap, cap);
    lemma_append_bounds(slots, orig, start, cap);
    vstd::arithmetic::div_mod::lemma_fundamental_div_mod(d, cap);
    vstd::arithmetic::mul::lemma_mul_is_commutative(cap, d / cap);
    vstd::arithmetic::div_mod::lemma_mod_bound(d, cap);
}

/// Picking an item up moves nothing: over its own cell the gap is its own slot,
/// wherever in the cell the pointer is.
pub proof fn law_picking_up_moves_nothing(o: int, right: bool, beyond: bool)
    requires
        beyond ==> right,
    ensures
        gap_steps(o, o, right, beyond) == 0,
{
}

/// A neighbour holds still until the pointer has crossed its middle, on both
/// sides alike.
pub proof fn law_neighbours_hold_until_their_middle(o: int)
    ensures
        gap_steps(o + 1, o, false, false) == 0,
        gap_steps(o + 1, o, true, true) == 1,
        gap_steps(o - 1, o, true, true) == 0,
        gap_steps(o - 1, o, false, false) == -1,
{
}

/// Where the append slot of a page comes from: it is the page's first slot, or one
/// past a slot of another item on the page.
proof fn lemma_append_is_taken(slots: Seq<usize>, orig: Option<usize>, start: int, cap: int) -> (i: int)
    requires
        0 <= start,
        0 < cap,
    ensures
        append_slot(slots, orig, start, cap) == start || {
            &&& 0 <= i < slots.len()
            &&& orig != Some(i as usize)
            &&& start <= slots[i] < start + cap
            &&& append_slot(slots, orig, start, cap) == slots[i] + 1
        },
    decreases slots.len(),
{
    if slots.len() == 0 {
        0
    } else {
        let d = slots.drop_last();
        let i = lemma_append_is_taken(d, orig, start, cap);
        let s = slots.last() as int;
        if orig != Some((slots.len() - 1) as usize) && start <= s < start + cap && s + 1
            > append_slot(d, orig, start, cap) {
            slots.len() - 1
        } else {
            if 0 <= i < d.len() {
                assert(d[i] == slots[i]);
            }
            i
        }
    }
}

proof fn lemma_page_of(x: int, cap: int)
    requires
        0 <= x,
        0 < cap,
    ensures
        0 <= (x / cap) * cap <= x < (x / cap) * cap + cap,
{
    vstd::arithmetic::div_mod::lemma_fundamental_div_mod(x, cap);
    vstd::arithmetic::mul::lemma_mul_is_commutative(cap, x / cap);
    vstd::arithmetic::div_mod::lemma_mod_bound(x, cap);
    vstd::arithmetic::div_mod::lemma_div_pos_is_pos(x, cap);
    vstd::arithmetic::mul::lemma_mul_nonnegative(x / cap, cap);
}

/// The gap of an item that is moved follows the pointer over any distance, on both
/// sides alike. Over a cell in front of the item's own slot the gap is that cell, or
/// the next one once the pointer is beyond its middle. Over a cell behind it that
/// another item holds, the gap is that cell, or the one before it until the pointer
/// has reached its middle. Over its own cell it is at home.
pub proof fn law_the_gap_follows_the_pointer(
    slots: Seq<usize>,
    orig: usize,
    cap: int,
    d: int,
    right: bool,
    beyond: bool,
)
    requires
        0 < cap,
        0 <= d,
        orig < slots.len() <= usize::MAX,
        beyond ==> right,
        d / cap == slots[orig as int] as int / cap,
    ensures
        ({
            let o = slots[orig as int] as int;
            let g = gap_slot(slots, Some(orig), slot_at(slots, Some(orig)), cap, d, right, beyond);
            &&& d == o ==> g == o
            &&& d < o && !beyond ==> g == d
            &&& d < o && beyond ==> g == d + 1
            &&& forall|i: int|
                0 <= i < slots.len() && #[trigger] slots[i] == d && d > o ==> g == (if right {
                    d
                } else {
                    d - 1
                })
        }),
{
    let o = slots[orig as int] as int;
    let start = (d / cap) * cap;
    lemma_page_of(d, cap);
    lemma_page_of(o, cap);
    lemma_append_bounds(slots, Some(orig), start, cap);
    assert forall|i: int|
        0 <= i < slots.len() && #[trigger] slots[i] == d && d > o implies gap_slot(
        slots,
        Some(orig),
        slot_at(slots, Some(orig)),
        cap,
        d,
        right,
        beyond,
    ) == (if right {
        d
    } else {
        d - 1
    }) by {
        assert(i != orig);
        assert(Some(orig) != Some(i as usize));
        assert(slots[i] < append_slot(slots, Some(orig), start, cap));
    }
}

/// The gap of an item moved onto another page follows the pointer there too, over
/// the items that the page holds: it is on the side of the item under the pointer
/// that the pointer is on, and never before the page's first slot.
pub proof fn law_the_gap_follows_the_pointer_across_pages(
    slots: Seq<usize>,
    orig: usize,
    cap: int,
    i: int,
    right: bool,
    beyond: bool,
)
    requires
        0 < cap,
        orig < slots.len() <= usize::MAX,
        0 <= i < slots.len(),
        beyond ==> right,
        slots[i] as int / cap != slots[orig as int] as int / cap,
    ensures
        ({
            let d = slots[i] as int;
            let g = gap_slot(slots, Some(orig), slot_at(slots, Some(orig)), cap, d, right, beyond);
            let first = (d / cap) * cap;
            if d < slots[orig as int] {
                g == (if beyond {
                    d + 1
                } else {
                    d
                })
            } else {
                g == (if right || d == first {
                    d
                } else {
                    d - 1
                })
            }
        }),
{
    let o = slots[orig as int] as int;
    let d = slots[i] as int;
    let start = (d / cap) * cap;
    lemma_page_of(d, cap);
    lemma_page_of(o, cap);
    lemma_append_bounds(slots, Some(orig), start, cap);
    assert(i != orig);
    assert(Some(orig) != Some(i as usize));
    assert(slots[i] < append_slot(slots, Some(orig), start, cap));
    if start <= o < start + cap {
        vstd::arithmetic::div_mod::lemma_fundamental_div_mod_converse(
            o,
            cap,
            d / cap,
            o - start,
        );
    }
}

/// An item that is new to the grid goes to the side of the item under the pointer
/// that the pointer is on.
pub proof fn law_a_new_item_goes_to_the_pointers_side(
    slots: Seq<usize>,
    cap: int,
    i: int,
    right: bool,
    beyond: bool,
)
    requires
        0 < cap,
        slots.len() <= usize::MAX,
        0 <= i < slots.len(),
    ensures
        gap_slot(slots, None, slot_at(slots, None), cap, slots[i] as int, right, beyond) == slots[i]
            + (if right {
            1int
        } else {
            0
        }),
{
    let d = slots[i] as int;
    let start = (d / cap) * cap;
    lemma_page_of(d, cap);
    lemma_append_bounds(slots, None, start, cap);
    assert(slots[i] < append_slot(slots, None, start, cap));
}

/// Behind the items of a page the gap closes up to them: for an item of that page
/// it is the last slot taken there, for any other item the one behind that, or the
/// page's first slot where the page is empty. So it is beside the grid, in the
/// zone that turns pages.
pub proof fn law_the_gap_closes_up_to_the_items(
    slots: Seq<usize>,
    orig: Option<usize>,
    cap: int,
    d: int,
    right: bool,
    beyond: bool,
)
    requires
        0 < cap,
        0 <= d,
        slots.len() <= usize::MAX,
        orig matches Some(o) ==> o < slots.len(),
        beyond ==> right,
        forall|i: int|
            0 <= i < slots.len() && (#[trigger] slots[i]) as int / cap == d / cap ==> slots[i] < d,
    ensures
        ({
            let first = (d / cap) * cap;
            let own = orig matches Some(o) && slots[o as int] as int / cap == d / cap;
            let over = gap_slot(slots, orig, slot_at(slots, orig), cap, d, right, beyond);
            let beside = last_landable(
                append_slot(slots, orig, first, cap),
                slot_at(slots, orig),
                first,
                cap,
            );
            &&& own ==> over == beside && slots.contains(over as usize) && over >= 0
            &&& !own ==> beside == first || exists|i: int|
                0 <= i < slots.len() && (#[trigger] slots[i]) + 1 == beside
            &&& forall|i: int|
                0 <= i < slots.len() && (#[trigger] slots[i]) as int / cap == d / cap ==> slots[i]
                    < beside || own && slots[i] == beside
            &&& orig is None ==> over == beside
        }),
{
    let first = (d / cap) * cap;
    lemma_page_of(d, cap);
    lemma_append_bounds(slots, orig, first, cap);
    let k = lemma_append_is_taken(slots, orig, first, cap);
    let append = append_slot(slots, orig, first, cap);
    assert forall|i: int| 0 <= i < slots.len() implies ((#[trigger] slots[i]) as int / cap == d / cap)
        == (first <= slots[i] < first + cap) by {
        lemma_page_of(slots[i] as int, cap);
        if first <= slots[i] < first + cap {
            vstd::arithmetic::div_mod::lemma_fundamental_div_mod_converse(
                slots[i] as int,
                cap,
                d / cap,
                slots[i] - first,
            );
        }
    }
    if let Some(o) = orig {
        let s = slots[o as int];
        if first <= s < first + cap {
            assert(s < d);
            assert forall|i: int|
                0 <= i < slots.len() && first <= #[trigger] slots[i] < first + cap implies slots[i]
                < append || slots[i] == s by {
                if i != o {
                    assert(orig != Some(i as usize));
                }
            }
        } else {
            assert forall|i: int|
                0 <= i < slots.len() && first <= #[trigger] slots[i] < first + cap implies slots[i]
                < append by {
                assert(i != o);
                assert(orig != Some(i as usize));
            }
        }
    }
}

/// Away from the grid the gap of an item goes home, and over the middle of an item
/// that takes the drop the grid rests: the gap of a moved item is at home, and that
/// of a new one stays.
pub proof fn law_the_gap_goes_home(
    item: DragItem,
    dragged: usize,
    orig: Option<usize>,
    view: GridView,
    point: DragPoint,
    gap: Option<usize>,
    after: Option<usize>,
)
    requires
        gap_moves(item, dragged, orig, view, point, gap, after),
        orig matches Some(o) ==> o < view.slots@.len(),
    ensures
        point is Off ==> after == (match orig {
            Some(o) => Some(view.slots@[o as int]),
            None => None,
        }),
        ring_place(item, dragged, orig, view, point, gap) is Some ==> after == (match orig {
            Some(o) => Some(view.slots@[o as int]),
            None => gap,
        }),
{
}

/// A drop folds onto an item exactly where it is over the middle of that item's
/// cell, the gap is elsewhere, no box is open, and the item is another application
/// or box. Every item has a slot of its own.
pub proof fn law_a_drop_folds_onto_what_it_is_over(
    box_open: bool,
    cell: Option<usize>,
    centred: bool,
    gap: Option<usize>,
    slots: Seq<usize>,
    visible: Seq<usize>,
    kinds: Seq<EntryKind>,
    dragged: usize,
    j: usize,
)
    requires
        slots.len() <= usize::MAX,
        slots.no_duplicates(),
        forall|i: int| 0 <= i < visible.len() ==> #[trigger] visible[i] < kinds.len(),
    ensures
        fold_place(box_open, cell, centred, gap, slots, visible, kinds, dragged) == Some(j) <==> {
            &&& !box_open
            &&& centred
            &&& j < slots.len()
            &&& j < visible.len()
            &&& cell == Some(slots[j as int])
            &&& gap is Some
            &&& gap != cell
            &&& visible[j as int] != dragged
            &&& kinds[visible[j as int] as int] == EntryKind::App || kinds[visible[j as int] as int]
                == EntryKind::Group
        },
{
    if let Some(c) = cell {
        content::lemma_first_place(slots, c);
        if j < slots.len() && slots[j as int] == c {
            if let Some(k) = content::first_place(slots, c) {
                assert(slots[k as int] == slots[j as int]);
                assert(k == j);
            }
        }
    }
}

/// An item is ringed where a drop would fold onto it, judged by the open gap, or
/// by the item's home while none is open. A box is never folded.
pub proof fn law_boxes_do_not_nest(
    item: DragItem,
    dragged: usize,
    orig: Option<usize>,
    view: GridView,
    cell: usize,
    right: bool,
    beyond: bool,
    centred: bool,
    gap: Option<usize>,
)
    ensures
        ({
            let point = DragPoint::Cell { cell, right, beyond, centred };
            let ring = ring_place(item, dragged, orig, view, point, gap);
            let home = match orig {
                Some(o) => if o < view.slots@.len() {
                    Some(view.slots@[o as int])
                } else {
                    None
                },
                None => None,
            };
            let judged = |g: Option<usize>| fold_place(
                view.box_open,
                Some(cell),
                centred,
                g,
                view.slots@,
                view.visible@,
                view.kinds@,
                dragged,
            );
            &&& item.kind == Some(EntryKind::Group) ==> ring is None
            &&& item.kind != Some(EntryKind::Group) && gap is Some ==> ring == judged(gap)
            &&& item.kind != Some(EntryKind::Group) && gap is None ==> ring == judged(home)
        }),
{
}

/// What can be dragged over the grid: an application or a box of the grid, and an
/// application, a box or a package that comes into it; a file never, and nothing
/// while the grid is not at rest.
pub proof fn law_what_aims_at_the_grid(d: DragItem, orig: Option<usize>)
    ensures
        !aims_at_grid(d, false, orig),
        d.kind == Some(EntryKind::File) || d.kind == Some(EntryKind::Asset) || d.kind is None
            ==> !aims_at_grid(d, true, orig),
        d.kind == Some(EntryKind::Package) ==> aims_at_grid(d, true, orig),
        d.kind == Some(EntryKind::App) || d.kind == Some(EntryKind::Group) ==> (aims_at_grid(
            d,
            true,
            orig,
        ) <==> orig is Some || d.from_dock || d.catalog_webapp),
{
}

// ---------------------------------------------------------------------------
// Drops
// ---------------------------------------------------------------------------

/// What a drop is decided by.
#[derive(Debug, Clone, Copy, PartialEq, Eq)]
pub struct DropFacts {
    pub kind: Option<EntryKind>,
    /// Whether the button was released, rather than the pointer lost.
    pub released: bool,
    /// The place in the dock that the drop is at.
    pub insert: Option<usize>,
    /// The section that the drop is at, by its height alone.
    pub section: Option<usize>,
    /// Whether the drop is outside the card.
    pub outside: bool,
    pub from_dock: bool,
    /// For a package that is already being installed: whether that has failed.
    pub pending_failed: Option<bool>,
    /// Whether it is being installed or removed right now.
    pub busy: bool,
    /// Whether it was installed by the launcher, so that it can be removed.
    pub removable: bool,
    pub catalog_webapp: bool,
    pub installed_webapp: bool,
    /// The item of the grid that the drop would fold onto.
    pub fold: Option<usize>,
    /// Whether the drop is on the bin in the dock.
    pub on_trash: bool,
    /// Whether the grid is at rest.
    pub resting: bool,
}

/// What a drop does.
#[derive(Debug, Clone, Copy, PartialEq, Eq, Structural)]
pub enum DropAction {
    /// Nothing: the icon goes back.
    SnapBack,
    /// Take away a package whose installation failed.
    DismissPending,
    /// Run a package without installing it.
    TryPackage,
    /// Install a package into a box with the item.
    InstallBoxed(usize),
    /// Install a package where the gap is.
    InstallInGrid,
    /// Install a package at a place in the dock.
    InstallOnDock(usize),
    /// Remove an application.
    Uninstall,
    /// Run a web application without installing it.
    TryWebapp,
    WebappBoxed(usize),
    WebappInGrid,
    WebappOnDock(usize),
    /// Put a file into the bin.
    TrashFile,
    /// Try to place it in the grid, then to fold it onto the dock, as far as
    /// each is allowed; then [`after_gesture`].
    Gesture { grid: bool, dock: bool },
}

/// The section where the button was released.
pub open spec fn drop_section(f: DropFacts) -> Option<usize> {
    if f.released {
        f.section
    } else {
        None
    }
}

/// What the drop of a package does. One that is being installed already can
/// only be dismissed, and only once that has failed.
pub open spec fn package_drop(f: DropFacts) -> DropAction {
    let outside = f.released && f.outside;
    let on_apps = drop_section(f) == Some(SECTION_APPS);
    if f.pending_failed is Some {
        if f.pending_failed == Some(true) && outside {
            DropAction::DismissPending
        } else {
            DropAction::SnapBack
        }
    } else if outside && !f.busy {
        DropAction::TryPackage
    } else if on_apps && f.fold is Some {
        DropAction::InstallBoxed(f.fold->Some_0)
    } else if on_apps {
        DropAction::InstallInGrid
    } else if f.released && f.insert is Some && !f.busy {
        DropAction::InstallOnDock(f.insert->Some_0)
    } else {
        DropAction::SnapBack
    }
}

/// What the drop of a web application from the catalog does.
pub open spec fn catalog_drop(f: DropFacts) -> DropAction {
    let on_apps = drop_section(f) == Some(SECTION_APPS);
    if f.released && f.outside {
        DropAction::TryWebapp
    } else if on_apps && f.fold is Some {
        DropAction::WebappBoxed(f.fold->Some_0)
    } else if on_apps {
        DropAction::WebappInGrid
    } else if f.released && f.insert is Some {
        DropAction::WebappOnDock(f.insert->Some_0)
    } else {
        DropAction::SnapBack
    }
}

/// What a drop does.
pub open spec fn dropped(f: DropFacts) -> DropAction {
    let on_install = drop_section(f) == Some(SECTION_INSTALL);
    let app = f.kind == Some(EntryKind::App);
    if f.kind == Some(EntryKind::Package) {
        package_drop(f)
    } else if app && on_install && f.removable && !f.busy {
        DropAction::Uninstall
    } else if app && f.catalog_webapp {
        catalog_drop(f)
    } else if app && on_install && f.installed_webapp {
        DropAction::Uninstall
    } else if f.kind == Some(EntryKind::File) && f.released && f.on_trash {
        DropAction::TrashFile
    } else {
        DropAction::Gesture {
            grid: f.released && f.insert is None && (app || f.kind == Some(EntryKind::Group))
                && f.resting,
            dock: f.released && f.resting && app,
        }
    }
}

/// Decide what a drop does.
pub fn drop_drag(f: &DropFacts) -> (r: DropAction)
    ensures
        r == dropped(*f),
{
    let section: Option<usize> = if f.released {
        f.section
    } else {
        None
    };
    let on_apps: bool = match section {
        Some(s) => s == SECTION_APPS,
        None => false,
    };
    let on_install: bool = match section {
        Some(s) => s == SECTION_INSTALL,
        None => false,
    };
    let outside: bool = f.released && f.outside;
    let (app, file, group): (bool, bool, bool) = match f.kind {
        Some(EntryKind::Package) => {
            if let Some(failed) = f.pending_failed {
                return if failed && outside {
                    DropAction::DismissPending
                } else {
                    DropAction::SnapBack
                };
            }
            if outside && !f.busy {
                return DropAction::TryPackage;
            }
            if on_apps {
                return match f.fold {
                    Some(t) => DropAction::InstallBoxed(t),
                    None => DropAction::InstallInGrid,
                };
            }
            return match f.insert {
                Some(slot) => if f.released && !f.busy {
                    DropAction::InstallOnDock(slot)
                } else {
                    DropAction::SnapBack
                },
                None => DropAction::SnapBack,
            };
        },
        Some(EntryKind::App) => (true, false, false),
        Some(EntryKind::File) => (false, true, false),
        Some(EntryKind::Group) => (false, false, true),
        _ => (false, false, false),
    };
    if app && on_install && f.removable && !f.busy {
        return DropAction::Uninstall;
    }
    if app && f.catalog_webapp {
        if outside {
            return DropAction::TryWebapp;
        }
        if on_apps {
            return match f.fold {
                Some(t) => DropAction::WebappBoxed(t),
                None => DropAction::WebappInGrid,
            };
        }
        return match f.insert {
            Some(slot) => if f.released {
                DropAction::WebappOnDock(slot)
            } else {
                DropAction::SnapBack
            },
            None => DropAction::SnapBack,
        };
    }
    if app && on_install && f.installed_webapp {
        return DropAction::Uninstall;
    }
    if file && f.released && f.on_trash {
        return DropAction::TrashFile;
    }
    DropAction::Gesture {
        grid: f.released && f.insert.is_none() && (app || group) && f.resting,
        dock: f.released && f.resting && app,
    }
}

/// What is left to do with a drop that neither the grid nor a fold took.
#[derive(Debug, Clone, Copy, PartialEq, Eq, Structural)]
pub enum PlaceAction {
    /// The icon goes back.
    SnapBack,
    /// Pin it at this place in the dock.
    Pin(usize),
    /// Unpin it: a pinned path has no other home.
    Unpin,
}

/// What is left to do with a drop that neither the grid nor a fold took.
pub open spec fn left_over(f: DropFacts) -> PlaceAction {
    match f.insert {
        Some(slot) => PlaceAction::Pin(slot),
        None => if f.from_dock && f.released && f.kind == Some(EntryKind::File) {
            PlaceAction::Unpin
        } else {
            PlaceAction::SnapBack
        },
    }
}

/// What is left to do with a drop that neither the grid nor a fold took.
pub fn after_gesture(f: &DropFacts) -> (r: PlaceAction)
    ensures
        r == (match f.insert {
            Some(slot) => PlaceAction::Pin(slot),
            None => if f.from_dock && f.released && f.kind == Some(EntryKind::File) {
                PlaceAction::Unpin
            } else {
                PlaceAction::SnapBack
            },
        }),
        r == left_over(*f),
{
    match f.insert {
        Some(slot) => PlaceAction::Pin(slot),
        None => {
            let file: bool = match f.kind {
                Some(EntryKind::File) => true,
                _ => false,
            };
            if f.from_dock && f.released && file {
                PlaceAction::Unpin
            } else {
                PlaceAction::SnapBack
            }
        },
    }
}

/// A drag that ends because the pointer left installs, runs and removes
/// nothing.
pub proof fn law_a_lost_pointer_changes_no_package(f: DropFacts)
    requires
        !f.released,
    ensures
        dropped(f) != DropAction::TryPackage,
        dropped(f) != DropAction::DismissPending,
        dropped(f) != DropAction::InstallInGrid,
        !(dropped(f) is InstallBoxed),
        !(dropped(f) is InstallOnDock),
        dropped(f) != DropAction::Uninstall,
        dropped(f) != DropAction::TryWebapp,
        dropped(f) != DropAction::WebappInGrid,
        !(dropped(f) is WebappBoxed),
        !(dropped(f) is WebappOnDock),
        dropped(f) != DropAction::TrashFile,
        dropped(f) matches DropAction::Gesture { grid, dock } ==> !grid && !dock,
{
}

/// A package that is let go inside the card is installed where it is: in the grid,
/// in a box with the application that it is on, or in the dock. Elsewhere it goes
/// back. In the dock it has to wait while it is busy.
pub proof fn law_a_package_is_installed_where_it_is_dropped(f: DropFacts)
    requires
        f.kind == Some(EntryKind::Package),
        f.pending_failed is None,
        f.released,
        !f.outside,
    ensures
        f.section == Some(SECTION_APPS) ==> match f.fold {
            Some(t) => dropped(f) == DropAction::InstallBoxed(t),
            None => dropped(f) == DropAction::InstallInGrid,
        },
        f.section != Some(SECTION_APPS) ==> match f.insert {
            Some(place) => dropped(f) == (if f.busy {
                DropAction::SnapBack
            } else {
                DropAction::InstallOnDock(place)
            }),
            None => dropped(f) == DropAction::SnapBack,
        },
{
}

/// A package that is let go outside the card is run without being installed. One
/// whose installation is under way goes back wherever it is dropped, and once that
/// has failed a drop outside takes it away.
pub proof fn law_a_package_dropped_outside_is_tried(f: DropFacts)
    requires
        f.kind == Some(EntryKind::Package),
        f.released,
    ensures
        f.outside && f.pending_failed is None && !f.busy ==> dropped(f) == DropAction::TryPackage,
        f.outside && f.pending_failed == Some(true) ==> dropped(f) == DropAction::DismissPending,
        f.pending_failed == Some(false) ==> dropped(f) == DropAction::SnapBack,
        f.pending_failed is Some && !f.outside ==> dropped(f) == DropAction::SnapBack,
{
}

/// A web application of the catalog is added where it is dropped, as a package is,
/// and one that is let go outside the card is run.
pub proof fn law_a_webapp_is_added_where_it_is_dropped(f: DropFacts)
    requires
        f.kind == Some(EntryKind::App),
        f.catalog_webapp,
        !f.removable,
        f.released,
    ensures
        f.outside ==> dropped(f) == DropAction::TryWebapp,
        !f.outside && f.section == Some(SECTION_APPS) ==> match f.fold {
            Some(t) => dropped(f) == DropAction::WebappBoxed(t),
            None => dropped(f) == DropAction::WebappInGrid,
        },
        !f.outside && f.section != Some(SECTION_APPS) ==> match f.insert {
            Some(place) => dropped(f) == DropAction::WebappOnDock(place),
            None => dropped(f) == DropAction::SnapBack,
        },
{
}

/// An application that the launcher can remove is removed by a drop on the Install
/// section: a package while nothing else is done with it, a web application that
/// is installed at any time.
pub proof fn law_an_app_dropped_on_install_is_removed(f: DropFacts)
    requires
        f.kind == Some(EntryKind::App),
        f.released,
        f.section == Some(SECTION_INSTALL),
    ensures
        f.removable && !f.busy ==> dropped(f) == DropAction::Uninstall,
        f.installed_webapp && !f.catalog_webapp ==> dropped(f) == DropAction::Uninstall,
{
}

/// A file on the bin is thrown away. What is no package, and is neither removed nor
/// added, is placed by gesture: applications and boxes in a grid at rest unless the
/// drop is in the dock, and only applications are folded onto the dock.
pub proof fn law_other_drops_are_gestures(f: DropFacts)
    requires
        f.released,
        f.kind != Some(EntryKind::Package),
        f.kind == Some(EntryKind::App) ==> !f.catalog_webapp && f.section != Some(SECTION_INSTALL),
    ensures
        f.kind == Some(EntryKind::File) && f.on_trash ==> dropped(f) == DropAction::TrashFile,
        f.kind == Some(EntryKind::File) && !f.on_trash ==> dropped(f) == (DropAction::Gesture {
            grid: false,
            dock: false,
        }),
        f.kind == Some(EntryKind::Group) ==> dropped(f) == (DropAction::Gesture {
            grid: f.resting && f.insert is None,
            dock: false,
        }),
        f.kind == Some(EntryKind::App) ==> dropped(f) == (DropAction::Gesture {
            grid: f.resting && f.insert is None,
            dock: f.resting,
        }),
{
}

/// What nothing took is pinned where it was dropped in the dock. Elsewhere it goes
/// back, but for a pinned file or directory that is dragged out: it is unpinned.
pub proof fn law_a_drop_in_the_dock_pins(f: DropFacts, place: usize)
    ensures
        left_over(DropFacts { insert: Some(place), ..f }) == PlaceAction::Pin(place),
        left_over(DropFacts { insert: None, ..f }) == PlaceAction::Unpin <==> f.kind == Some(
            EntryKind::File,
        ) && f.from_dock && f.released,
        !(left_over(DropFacts { insert: None, ..f }) is Pin),
{
}

/// The section that is highlighted takes the drop: a package let go over it is
/// installed, an application let go over it is removed. A section is highlighted
/// for every package over Apps, and for every application over Install that can be
/// removed.
pub proof fn law_the_highlighted_section_takes_the_drop(f: DropFacts)
    requires
        f.released,
        !f.busy,
        !f.catalog_webapp,
        f.pending_failed is None,
    ensures
        ({
            let lit = accepting(f.outside, f.section, f.kind, f.removable, f.installed_webapp);
            &&& lit == Some(SECTION_APPS) ==> dropped(f) == DropAction::InstallInGrid || dropped(f)
                is InstallBoxed
            &&& lit == Some(SECTION_INSTALL) ==> dropped(f) == DropAction::Uninstall
            &&& lit is Some ==> lit == f.section && (lit == Some(SECTION_APPS) || lit == Some(
                SECTION_INSTALL,
            ))
            &&& !f.outside && (dropped(f) == DropAction::InstallInGrid || dropped(f) is InstallBoxed
                || dropped(f) == DropAction::Uninstall) ==> lit is Some
            &&& f.outside ==> lit is None
        }),
{
}

/// Only what the launcher installed can be removed by a drop.
pub proof fn law_only_own_apps_are_removed(f: DropFacts)
    requires
        dropped(f) == DropAction::Uninstall,
    ensures
        f.kind == Some(EntryKind::App),
        f.removable || f.installed_webapp,
        f.released,
        f.section == Some(SECTION_INSTALL),
{
}

/// How an application is removed.
#[derive(Debug)]
pub enum Removal {
    /// Not at all.
    Keep,
    /// As the declared package with this attribute.
    Package(String),
    /// As a web application.
    Webapp,
}

/// How an application is removed: not while it is busy; as a package where the
/// launcher installed it and its attribute is known; else as a web application.
pub fn uninstall_app(
    busy: bool,
    removable: bool,
    attr: Option<String>,
    installed_webapp: bool,
) -> (r: Removal)
    ensures
        match r {
            Removal::Keep => busy || !(removable && attr is Some) && !installed_webapp,
            Removal::Package(a) => !busy && removable && attr == Some(a),
            Removal::Webapp => !busy && !(removable && attr is Some) && installed_webapp,
        },
        busy ==> r is Keep,
        !busy && removable && attr is Some ==> r is Package,
        !busy && installed_webapp ==> !(r is Keep),
{
    if busy {
        return Removal::Keep;
    }
    if removable {
        if let Some(a) = attr {
            return Removal::Package(a);
        }
    }
    if installed_webapp {
        Removal::Webapp
    } else {
        Removal::Keep
    }
}

/// The section that would take the dragged entry, for its highlight.
pub open spec fn accepting(
    outside: bool,
    section: Option<usize>,
    kind: Option<EntryKind>,
    removable: bool,
    installed_webapp: bool,
) -> Option<usize> {
    if outside {
        None
    } else if kind == Some(EntryKind::Package) && section == Some(SECTION_APPS) {
        section
    } else if kind == Some(EntryKind::App) && section == Some(SECTION_INSTALL) && (removable
        || installed_webapp) {
        section
    } else {
        None
    }
}

/// The section that would take the dragged entry.
pub fn drag_drop_section(
    outside: bool,
    section: Option<usize>,
    kind: Option<EntryKind>,
    removable: bool,
    installed_webapp: bool,
) -> (r: Option<usize>)
    ensures
        r == accepting(outside, section, kind, removable, installed_webapp),
{
    if outside {
        return None;
    }
    let s: usize = match section {
        Some(s) => s,
        None => return None,
    };
    match kind {
        Some(EntryKind::Package) => {
            if s == SECTION_APPS {
                Some(s)
            } else {
                None
            }
        },
        Some(EntryKind::App) => {
            if s == SECTION_INSTALL && (removable || installed_webapp) {
                Some(s)
            } else {
                None
            }
        },
        _ => None,
    }
}

/// Whether an entry can be folded onto: another one than the dragged, and an
/// application or a box.
pub open spec fn takes_fold(t: usize, kinds: Seq<EntryKind>, dragged: usize) -> bool {
    &&& t != dragged
    &&& t < kinds.len()
    &&& kinds[t as int] == EntryKind::App || kinds[t as int] == EntryKind::Group
}

/// The place among the visible items of the one that a drop over a cell folds
/// onto: not into the gap, only on the middle of a cell (`centred`), and only
/// onto what takes it. An open box places its members its own way.
pub open spec fn fold_place(
    box_open: bool,
    cell: Option<usize>,
    centred: bool,
    gap: Option<usize>,
    slots: Seq<usize>,
    visible: Seq<usize>,
    kinds: Seq<EntryKind>,
    dragged: usize,
) -> Option<usize> {
    if box_open || !centred || cell is None || gap is None || cell == gap {
        None
    } else {
        match content::first_place(slots, cell->Some_0) {
            Some(j) => if j < visible.len() && takes_fold(visible[j as int], kinds, dragged) {
                Some(j)
            } else {
                None
            },
            None => None,
        }
    }
}

fn place_of_fold(
    box_open: bool,
    cell: Option<usize>,
    centred: bool,
    gap: Option<usize>,
    slots: &[usize],
    visible: &[usize],
    kinds: &[EntryKind],
    dragged: usize,
) -> (r: Option<usize>)
    ensures
        r == fold_place(box_open, cell, centred, gap, slots@, visible@, kinds@, dragged),
{
    if box_open || !centred {
        return None;
    }
    let d: usize = match cell {
        Some(d) => d,
        None => return None,
    };
    match gap {
        Some(g) => {
            if g == d {
                return None;
            }
        },
        None => return None,
    }
    let j: usize = match content::place_in(slots, d) {
        Some(j) => j,
        None => return None,
    };
    if j >= visible.len() {
        return None;
    }
    let t: usize = visible[j];
    if t == dragged || t >= kinds.len() {
        return None;
    }
    match kinds[t] {
        EntryKind::App => Some(j),
        EntryKind::Group => Some(j),
        _ => None,
    }
}

/// The item that a drop over a cell folds onto.
pub fn grid_fold_at(
    box_open: bool,
    cell: Option<usize>,
    centred: bool,
    gap: Option<usize>,
    slots: &[usize],
    visible: &[usize],
    kinds: &[EntryKind],
    dragged: usize,
) -> (r: Option<usize>)
    ensures
        r == (match fold_place(
            box_open,
            cell,
            centred,
            gap,
            slots@,
            visible@,
            kinds@,
            dragged,
        ) {
            Some(j) => Some(visible@[j as int]),
            None => None,
        }),
{
    match place_of_fold(box_open, cell, centred, gap, slots, visible, kinds, dragged) {
        Some(j) => Some(visible[j]),
        None => None,
    }
}

/// What a drop in the grid does.
#[derive(Debug, Clone, Copy, PartialEq, Eq, Structural)]
pub enum GridDrop {
    /// It is not in the grid.
    Elsewhere,
    /// Remove the application: it is on the bin.
    Uninstall,
    /// Fold it onto the item.
    Fold(usize),
    /// Move it within the open box, before this member.
    MoveMember(usize),
    /// Place it at this slot.
    Place(usize),
}

/// What a drop in the grid is decided by.
#[derive(Debug, Clone, Copy, PartialEq, Eq)]
pub struct GridFacts {
    pub kind: Option<EntryKind>,
    /// Whether the drop is over the grid, or beside it where pages turn.
    pub over: bool,
    /// The place of the item among the visible ones; none for one from
    /// elsewhere.
    pub orig: Option<usize>,
    pub orig_slot: Option<usize>,
    pub gap: Option<usize>,
    /// The slot behind the last one.
    pub span: usize,
    pub fold: Option<usize>,
    /// Whether the fold target is the bin.
    pub fold_is_trash: bool,
    /// How many members the open box has, where one is open.
    pub open_members: Option<usize>,
}

/// The slot where a drop lands: the gap, else home, else behind the last.
pub open spec fn landing(f: GridFacts) -> usize {
    match f.gap {
        Some(g) => g,
        None => match f.orig_slot {
            Some(o) => o,
            None => f.span,
        },
    }
}

/// What a drop in the grid does.
pub open spec fn grid_dropped(f: GridFacts) -> GridDrop {
    if !f.over {
        GridDrop::Elsewhere
    } else if f.kind == Some(EntryKind::App) && f.fold is Some {
        if f.fold_is_trash {
            GridDrop::Uninstall
        } else {
            GridDrop::Fold(f.fold->Some_0)
        }
    } else if f.open_members is Some {
        let slot = landing(f);
        let at = slot + (if f.orig is Some && slot >= f.orig->Some_0 {
            1int
        } else {
            0
        });
        GridDrop::MoveMember(
            if at < f.open_members->Some_0 {
                at as usize
            } else {
                f.open_members->Some_0
            },
        )
    } else {
        GridDrop::Place(landing(f))
    }
}

/// A drop in the grid lands in the gap that is open for it. Without one an item of
/// the grid stays at home, and a new one goes behind the last. An application over
/// one that takes it folds, and over the bin it is removed.
pub proof fn law_a_drop_lands_in_the_gap(f: GridFacts)
    ensures
        !f.over ==> grid_dropped(f) == GridDrop::Elsewhere,
        f.over && f.kind == Some(EntryKind::App) && f.fold is Some && f.fold_is_trash
            ==> grid_dropped(f) == GridDrop::Uninstall,
        f.over && f.kind == Some(EntryKind::App) && f.fold is Some && !f.fold_is_trash
            ==> grid_dropped(f) == GridDrop::Fold(f.fold->Some_0),
        f.over && f.open_members is None && (f.kind != Some(EntryKind::App) || f.fold is None) ==> {
            &&& f.gap is Some ==> grid_dropped(f) == GridDrop::Place(f.gap->Some_0)
            &&& f.gap is None && f.orig_slot is Some ==> grid_dropped(f) == GridDrop::Place(
                f.orig_slot->Some_0,
            )
            &&& f.gap is None && f.orig_slot is None ==> grid_dropped(f) == GridDrop::Place(f.span)
        },
{
}

/// A member that is moved within its box lands where the gap is: it goes before the
/// member that stands in the gap's slot once it has itself been taken out, or to
/// the end.
pub proof fn law_a_member_lands_in_the_gap(f: GridFacts, n: usize, gap: usize)
    requires
        f.over,
        f.kind != Some(EntryKind::App) || f.fold is None,
        f.open_members == Some(n),
        f.gap == Some(gap),
        n < usize::MAX,
    ensures
        ({
            let at = grid_dropped(f)->MoveMember_0;
            &&& grid_dropped(f) is MoveMember
            &&& at <= n
            &&& f.orig is None ==> at == gap || at == n <= gap
            &&& f.orig matches Some(o) ==> o < n && gap < n ==> at - (if at > o {
                1int
            } else {
                0
            }) == gap
        }),
{
}

/// Decide what a drop in the grid does. Returns it, and whether the item leaves
/// the dock: one that has no cell in the grid does, once it lands there.
pub fn handle_grid_drop(f: &GridFacts) -> (r: (GridDrop, bool))
    ensures
        r.0 == grid_dropped(*f),
        r.1 == (f.over && f.orig is None),
{
    if !f.over {
        return (GridDrop::Elsewhere, false);
    }
    let unpins: bool = f.orig.is_none();
    let slot: usize = match f.gap {
        Some(g) => g,
        None => match f.orig_slot {
            Some(o) => o,
            None => f.span,
        },
    };
    let app: bool = match f.kind {
        Some(EntryKind::App) => true,
        _ => false,
    };
    if app {
        if let Some(t) = f.fold {
            return if f.fold_is_trash {
                (GridDrop::Uninstall, unpins)
            } else {
                (GridDrop::Fold(t), unpins)
            };
        }
    }
    if let Some(n) = f.open_members {
        let past: bool = match f.orig {
            Some(o) => slot >= o,
            None => false,
        };
        let at: usize = if slot >= n {
            n
        } else if past {
            slot + 1
        } else {
            slot
        };
        return (GridDrop::MoveMember(at), unpins);
    }
    (GridDrop::Place(slot), unpins)
}

/// Where a drop onto an entry goes, if it folds.
#[derive(Debug, Clone, Copy, PartialEq, Eq, Structural)]
pub enum BoxFold {
    /// It does not fold.
    No,
    /// Join the box at this place of the list of boxes.
    Join(usize),
    /// Make a box of the two.
    Create,
}

/// What a fold onto an entry does: onto a box that exists it joins, onto an
/// application it makes a box.
pub open spec fn folded(
    id: Seq<char>,
    kind: Option<EntryKind>,
    boxes: Seq<Seq<char>>,
) -> BoxFold {
    if kind == Some(EntryKind::Group) && text::begins_with(id, "group:"@) {
        match text::first_text(boxes, text::without_prefix(id, "group:"@)) {
            Some(g) => BoxFold::Join(g),
            None => BoxFold::No,
        }
    } else if kind == Some(EntryKind::App) {
        BoxFold::Create
    } else {
        BoxFold::No
    }
}

/// A fold onto the cell of a box joins that box, the first of its id. A fold onto an
/// application makes a box, and no other entry is folded onto.
pub proof fn law_a_fold_joins_the_box_it_is_on(
    id: Seq<char>,
    kind: Option<EntryKind>,
    boxes: Seq<Seq<char>>,
    g: usize,
)
    requires
        g < boxes.len() <= usize::MAX,
        forall|k: int| 0 <= k < g ==> #[trigger] boxes[k] != boxes[g as int],
    ensures
        folded("group:"@ + boxes[g as int], Some(EntryKind::Group), boxes) == BoxFold::Join(g),
        folded(id, Some(EntryKind::App), boxes) == BoxFold::Create,
        kind != Some(EntryKind::App) && kind != Some(EntryKind::Group) ==> folded(id, kind, boxes)
            == BoxFold::No,
        folded(id, Some(EntryKind::Group), boxes) matches BoxFold::Join(j) ==> j < boxes.len() && id
            == "group:"@ + boxes[j as int],
        folded(id, Some(EntryKind::Group), boxes) != BoxFold::Create,
{
    let full = "group:"@ + boxes[g as int];
    let p = "group:"@;
    assert(full.take(p.len() as int) == p);
    assert(full.skip(p.len() as int) == boxes[g as int]);
    text::lemma_first_text(boxes, boxes[g as int]);
    assert(boxes.contains(boxes[g as int]));
    assert(text::begins_with(full, p));
    text::lemma_first_text(boxes, text::without_prefix(id, p));
    if text::begins_with(id, p) {
        assert(id == p + id.skip(p.len() as int));
    }
}

/// What a fold onto the entry `id` does. `boxes` holds the ids of the boxes.
pub fn fold_box_for(id: &str, kind: Option<EntryKind>, boxes: &[String]) -> (r: BoxFold)
    ensures
        r == folded(id@, kind, text::texts(boxes@)),
{
    match kind {
        Some(EntryKind::Group) => {
            if text::starts_with(id, "group:") {
                let gid = text::drop_prefix(id, "group:");
                match text::place_of_text(boxes, &gid) {
                    Some(g) => BoxFold::Join(g),
                    None => BoxFold::No,
                }
            } else {
                BoxFold::No
            }
        },
        Some(EntryKind::App) => BoxFold::Create,
        _ => BoxFold::No,
    }
}

/// How a drop onto an icon of the dock ends.
#[derive(Debug, Clone, Copy, PartialEq, Eq, Structural)]
pub enum DockFold {
    /// It is no fold.
    No,
    /// Remove the application: it is on the bin.
    Uninstall,
    /// Join the box at this place of the list of boxes.
    Join(usize),
    /// Make a box of the two, pinned at this place, which the target had.
    Create(usize),
}

/// How a drop onto an icon of the dock ends.
pub open spec fn dock_folded(
    target: Option<usize>,
    dragged: usize,
    target_id: Seq<char>,
    is_trash: bool,
    kind: Option<EntryKind>,
    boxes: Seq<Seq<char>>,
    pins: Seq<Seq<char>>,
) -> DockFold {
    if target is None || target == Some(dragged) {
        DockFold::No
    } else if is_trash {
        DockFold::Uninstall
    } else {
        match folded(target_id, kind, boxes) {
            BoxFold::No => DockFold::No,
            BoxFold::Join(g) => DockFold::Join(g),
            BoxFold::Create => DockFold::Create(
                match text::first_text(pins, target_id) {
                    Some(i) => i,
                    None => pins.len() as usize,
                },
            ),
        }
    }
}

/// A drop onto the bin removes, and one onto a box joins it. One onto another
/// application makes a box: where that application is pinned the box takes its
/// place, else it is pinned behind all. Nothing is folded onto itself.
pub proof fn law_a_new_box_takes_the_place_of_its_target(
    target: usize,
    dragged: usize,
    id: Seq<char>,
    kind: Option<EntryKind>,
    boxes: Seq<Seq<char>>,
    pins: Seq<Seq<char>>,
)
    requires
        pins.len() <= usize::MAX,
        target != dragged,
    ensures
        dock_folded(Some(dragged), dragged, id, false, kind, boxes, pins) == DockFold::No,
        dock_folded(None, dragged, id, false, kind, boxes, pins) == DockFold::No,
        dock_folded(Some(target), dragged, id, true, kind, boxes, pins) == DockFold::Uninstall,
        dock_folded(Some(target), dragged, id, false, kind, boxes, pins) matches DockFold::Join(g)
            ==> folded(id, kind, boxes) == BoxFold::Join(g),
        folded(id, kind, boxes) is Join ==> dock_folded(
            Some(target),
            dragged,
            id,
            false,
            kind,
            boxes,
            pins,
        ) is Join,
        ({
            let made = dock_folded(
                Some(target),
                dragged,
                id,
                false,
                Some(EntryKind::App),
                boxes,
                pins,
            );
            made matches DockFold::Create(i) && if pins.contains(id) {
                i < pins.len() && pins[i as int] == id
            } else {
                i == pins.len()
            }
        }),
{
    text::lemma_first_text(pins, id);
}

/// How a drop onto an icon of the dock ends: onto the bin it removes, onto a box
/// it joins, onto another application it makes a box, pinned where the target
/// was, or at the end. `target` is the entry under the drop.
pub fn handle_dock_fold(
    target: Option<usize>,
    dragged: usize,
    target_id: &str,
    is_trash: bool,
    kind: Option<EntryKind>,
    boxes: &[String],
    pins: &[String],
) -> (r: DockFold)
    ensures
        r == (if target is None || target == Some(dragged) {
            DockFold::No
        } else if is_trash {
            DockFold::Uninstall
        } else {
            match folded(target_id@, kind, text::texts(boxes@)) {
                BoxFold::No => DockFold::No,
                BoxFold::Join(g) => DockFold::Join(g),
                BoxFold::Create => DockFold::Create(
                    match text::first_text(text::texts(pins@), target_id@) {
                        Some(i) => i,
                        None => pins@.len() as usize,
                    },
                ),
            }
        }),
        r == dock_folded(
            target,
            dragged,
            target_id@,
            is_trash,
            kind,
            text::texts(boxes@),
            text::texts(pins@),
        ),
{
    match target {
        Some(t) => {
            if t == dragged {
                return DockFold::No;
            }
        },
        None => return DockFold::No,
    }
    if is_trash {
        return DockFold::Uninstall;
    }
    match fold_box_for(target_id, kind, boxes) {
        BoxFold::No => DockFold::No,
        BoxFold::Join(g) => DockFold::Join(g),
        BoxFold::Create => match text::place_of_text(pins, target_id) {
            Some(i) => DockFold::Create(i),
            None => DockFold::Create(pins.len()),
        },
    }
}

/// The slug of a web application that is not installed. `slug` is the slug that
/// the entry's id names, if it names one.
pub fn catalog_webapp_slug(slug: &Option<String>, installed: &[String]) -> (r: Option<String>)
    ensures
        text::text_in(r) == (if slug is Some && !text::texts(installed@).contains(
            slug->Some_0@,
        ) {
            text::text_in(*slug)
        } else {
            None
        }),
{
    match slug {
        Some(s) => {
            if text::any_same(installed, s) {
                None
            } else {
                Some(text::copy_text(s))
            }
        },
        None => None,
    }
}

/// The slug of a web application that is installed.
pub fn installed_webapp_slug(slug: &Option<String>, installed: &[String]) -> (r: Option<String>)
    ensures
        text::text_in(r) == (if slug is Some && text::texts(installed@).contains(
            slug->Some_0@,
        ) {
            text::text_in(*slug)
        } else {
            None
        }),
{
    match slug {
        Some(s) => {
            if text::any_same(installed, s) {
                Some(text::copy_text(s))
            } else {
                None
            }
        },
        None => None,
    }
}

/// The first `n` of the dock's entries other than `skip`.
pub open spec fn dock_prefix(order: Seq<usize>, skip: Option<usize>, n: int) -> Seq<usize>
    decreases order.len(),
{
    if order.len() == 0 {
        Seq::empty()
    } else {
        let before = dock_prefix(order.drop_last(), skip, n);
        if Some(order.last()) != skip && before.len() < n {
            before.push(order.last())
        } else {
            before
        }
    }
}

/// Whether the entry `skip` first stands in the dock before place `insert`.
pub open spec fn stands_before(order: Seq<usize>, skip: Option<usize>, insert: int) -> bool {
    exists|i: int|
        0 <= i < insert && i < order.len() && skip == Some(#[trigger] order[i])
}

/// What is pinned before a drop in the dock are the dock's entries other than the
/// dragged one, in their order, as many as stand before the drop.
pub proof fn law_the_dock_keeps_its_order(order: Seq<usize>, skip: Option<usize>, n: int)
    requires
        0 <= n,
    ensures
        ({
            let others = order.filter(|e: usize| Some(e) != skip);
            dock_prefix(order, skip, n) == (if n <= others.len() {
                others.take(n)
            } else {
                others
            })
        }),
    decreases order.len(),
{
    let keep = |e: usize| Some(e) != skip;
    reveal(Seq::filter);
    if order.len() > 0 {
        law_the_dock_keeps_its_order(order.drop_last(), skip, n);
        let before = order.drop_last().filter(keep);
        let all = order.filter(keep);
        assert(all == (if keep(order.last()) {
            before.push(order.last())
        } else {
            before
        }));
        if keep(order.last()) && before.len() >= n {
            assert(all.take(n) == before.take(n));
        }
    }
}

/// Where a drop at place `insert` of the dock pins: taking an icon out of the
/// dock itself moves the places behind it up by one. Returns the place, and the
/// entries that have to be pinned before it so that they keep theirs.
pub fn pin_dropped_on_dock(
    order: &[usize],
    insert: usize,
    exclude: Option<usize>,
    from_dock: bool,
) -> (r: (usize, Vec<usize>))
    ensures
        r.0 == insert - (if from_dock && stands_before(order@, exclude, insert as int) {
            1int
        } else {
            0
        }),
        r.1@ == dock_prefix(order@, exclude, r.0 as int),
{
    let mut slot: usize = insert;
    if from_dock {
        let mut i: usize = 0;
        let mut found = false;
        while i < order.len() && i < insert && !found
            invariant
                i <= order@.len(),
                i <= insert,
                found == stands_before(order@, exclude, i as int),
            decreases order@.len() - i,
        {
            let own: bool = match exclude {
                Some(x) => x == order[i],
                None => false,
            };
            if own {
                assert(exclude == Some(order@[i as int]));
                found = true;
            }
            i = i + 1;
        }
        assert(found == stands_before(order@, exclude, insert as int)) by {
            if stands_before(order@, exclude, insert as int) {
                let k = choose|k: int|
                    0 <= k < insert && k < order@.len() && exclude == Some(#[trigger] order@[k]);
                assert(found || k < i);
            }
        }
        if found {
            slot = insert - 1;
        }
    }
    let mut prefix: Vec<usize> = Vec::new();
    assert(order@.take(0) == Seq::<usize>::empty());
    for k in 0..order.len()
        invariant
            prefix@ == dock_prefix(order@.take(k as int), exclude, slot as int),
    {
        assert(order@.take(k + 1).drop_last() == order@.take(k as int));
        assert(order@.take(k + 1).last() == order@[k as int]);
        let own: bool = match exclude {
            Some(x) => x == order[k],
            None => false,
        };
        if !own && prefix.len() < slot {
            prefix.push(order[k]);
        }
    }
    assert(order@.take(order@.len() as int) == order@);
    (slot, prefix)
}

/// Where a place in the grid is.
#[derive(Debug, Clone, Copy, PartialEq, Eq, Structural)]
pub enum GridPlace {
    /// Before this entry.
    Before(usize),
    /// At the end of this page.
    PageEnd(usize),
}

/// Where the entry `dragged` goes that lands at `slot`: before the first other
/// item at or behind the slot on its page, else to the end of that page, which
/// may be a new one. It never goes before itself. `items` are the slots and
/// entries as the open gap shows them, `page_map` the stored page of each shown
/// one.
pub fn place_in_grid_at_slot(
    items: &[(usize, usize)],
    dragged: usize,
    slot: usize,
    cap: usize,
    page_map: &[usize],
    n_pages: usize,
) -> (r: GridPlace)
    requires
        0 < cap,
    ensures
        match r {
            GridPlace::Before(e) => e != dragged && exists|i: int|
                0 <= i < items@.len() && (#[trigger] items@[i]).1 == e && takes_before(
                    items@[i],
                    dragged,
                    slot,
                    cap,
                ) && forall|k: int|
                    0 <= k < i ==> !takes_before(#[trigger] items@[k], dragged, slot, cap),
            GridPlace::PageEnd(p) => {
                &&& forall|k: int|
                    0 <= k < items@.len() ==> !takes_before(#[trigger] items@[k], dragged, slot, cap)
                &&& p == (if slot / cap < page_map@.len() {
                    page_map@[(slot / cap) as int]
                } else {
                    n_pages
                })
            },
        },
{
    for i in 0..items.len()
        invariant
            0 < cap,
            forall|k: int| 0 <= k < i ==> !takes_before(#[trigger] items@[k], dragged, slot, cap),
    {
        let (s, e) = items[i];
        if e != dragged && s >= slot && s / cap == slot / cap {
            assert(items@[i as int].1 == e);
            return GridPlace::Before(e);
        }
    }
    let page: usize = slot / cap;
    if page < page_map.len() {
        GridPlace::PageEnd(page_map[page])
    } else {
        GridPlace::PageEnd(n_pages)
    }
}

/// Whether an item in slot `s` is at or behind `slot` on the same page.
pub open spec fn anchors(s: usize, slot: usize, cap: usize) -> bool {
    s >= slot && s / cap == slot / cap
}

/// Whether an item, given by its slot and entry, can be gone before: it is
/// another than the dragged one, and at or behind the slot on the same page.
pub open spec fn takes_before(
    item: (usize, usize),
    dragged: usize,
    slot: usize,
    cap: usize,
) -> bool {
    item.1 != dragged && anchors(item.0, slot, cap)
}

/// An item takes the drop before it exactly where it is another one, its slot is not
/// in front of the drop's, and no page ends between the two.
pub proof fn law_a_drop_goes_before_an_item_of_its_page(
    item: (usize, usize),
    dragged: usize,
    slot: usize,
    cap: usize,
)
    requires
        0 < cap,
    ensures
        takes_before(item, dragged, slot, cap) <==> item.1 != dragged && slot <= item.0 < (slot as int
            / cap as int) * cap + cap,
{
    lemma_page_of(item.0 as int, cap as int);
    lemma_page_of(slot as int, cap as int);
    let q = slot as int / cap as int;
    if slot <= item.0 && item.0 < q * cap + cap {
        vstd::arithmetic::div_mod::lemma_fundamental_div_mod_converse(
            item.0 as int,
            cap as int,
            q,
            item.0 - q * cap,
        );
    }
}

} // verus!
