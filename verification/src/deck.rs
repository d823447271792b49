//! The deck: a row of tiles, one per open task. A tile keeps its place; the
//! current one stands a little above the others.
//!
//! The task list, the stage and the pictures come from outside. A position is a
//! whole number of pixels.
use vstd::prelude::*;
use crate::deck_audio::Stream;
use crate::deck_thumbs::Event;
use crate::text;

verus! {

/// Height of a tile.
pub const TILE_H: u32 = 138;

/// Gap between two tiles.
pub const GAP: i64 = 14;

/// How far the current tile stands above the others.
pub const RAISE: u32 = 5;

/// How many more pictures than needed there is room for.
pub const SPARE_LAYERS: u32 = 4;

/// One tile.
#[derive(Debug)]
pub struct Tile {
    pub addr: String,
    pub title: String,
    /// The process that owns the window.
    pub pid: i64,
    /// Its left edge.
    pub x: i64,
    /// How far it is to stand above the others.
    pub lift_to: u32,
}

/// The deck.
#[derive(Debug)]
pub struct Deck {
    pub tiles: Vec<Tile>,
    /// The tile under the pointer.
    pub hover: Option<usize>,
}

/// Twice the left edge of slot `n` in a row of `count` tiles in the middle of
/// the screen, before it is rounded.
pub open spec fn twice_slot_x(n: int, count: int, screen_w: int, tw: int) -> int {
    screen_w - (count * (tw + GAP) - GAP) + 2 * (n * (tw + GAP))
}

/// Half of a number, rounded to the nearest integer, halves away from zero.
pub open spec fn half(t: int) -> int {
    if t >= 0 {
        (t + 1) / 2
    } else {
        -((1 - t) / 2)
    }
}

/// Sizes that a screen can have.
pub open spec fn fits(count: int, screen_w: int, tw: int) -> bool {
    &&& 0 <= count <= 0x1000_0000
    &&& 0 <= screen_w <= 0x1000_0000
    &&& 0 <= tw <= 0x1000_0000
}

/// The left edge of slot `n` in a row of `count` tiles of width `tw`, in the
/// middle of the screen.
pub fn slot_x(n: usize, count: usize, screen_w: i64, tw: i64) -> (r: i64)
    requires
        n <= count,
        fits(count as int, screen_w as int, tw as int),
    ensures
        r == half(twice_slot_x(n as int, count as int, screen_w as int, tw as int)),
{
    let step: i64 = tw + GAP;
    proof {
        assert(0 <= count * step <= 0x1000_0000 * 0x1000_0010) by (nonlinear_arith)
            requires
                0 <= count <= 0x1000_0000,
                0 <= step <= 0x1000_0010,
        ;
        assert(0 <= n * step <= count * step) by (nonlinear_arith)
            requires
                0 <= n <= count,
                0 <= step,
        ;
    }
    let t: i64 = screen_w - (count as i64 * step - GAP) + 2 * (n as i64 * step);
    if t >= 0 {
        (t + 1) / 2
    } else {
        -((1 - t) / 2)
    }
}

/// Neighbouring tiles are one tile and one gap apart, whatever the screen.
pub proof fn law_tiles_are_one_slot_apart(n: int, count: int, screen_w: int, tw: int)
    requires
        0 <= n,
        0 <= tw,
        twice_slot_x(n, count, screen_w, tw) >= 0,
    ensures
        half(twice_slot_x(n + 1, count, screen_w, tw)) == half(
            twice_slot_x(n, count, screen_w, tw),
        ) + tw + GAP,
{
    assert((n + 1) * (tw + GAP) == n * (tw + GAP) + (tw + GAP)) by (nonlinear_arith);
}

/// The row stands in the middle: what is left of its first tile and right of
/// its last differs by at most one pixel.
pub proof fn law_the_row_is_centred(count: int, screen_w: int, tw: int)
    requires
        1 <= count,
        0 <= tw,
        twice_slot_x(0, count, screen_w, tw) >= 0,
    ensures
        ({
            let first = half(twice_slot_x(0, count, screen_w, tw));
            let last = half(twice_slot_x(count - 1, count, screen_w, tw));
            -1 <= screen_w - (last + tw) - first <= 1
        }),
{
    assert(0 * (tw + GAP) == 0) by (nonlinear_arith);
    assert(2 * ((count - 1) * (tw + GAP)) == 2 * (count * (tw + GAP)) - 2 * (tw + GAP))
        by (nonlinear_arith);
    assert(0 <= (count - 1) * (tw + GAP)) by (nonlinear_arith)
        requires
            1 <= count,
            0 <= tw + GAP,
    ;
}

impl Tile {
    /// Whether this is the task on the stage.
    pub fn is_current(&self) -> (r: bool)
        ensures
            r == (self.lift_to > 0),
    {
        self.lift_to > 0
    }
}

/// A tile with another lift.
pub open spec fn lifted(t: Tile, current: Option<Seq<char>>) -> u32 {
    if current == Some(t.addr@) {
        RAISE
    } else {
        0
    }
}

/// Whether `placed` are the tiles, each in its slot and that of `current`
/// raised.
pub open spec fn in_slots(
    placed: Seq<Tile>,
    tiles: Seq<Tile>,
    screen_w: int,
    tw: int,
    current: Option<Seq<char>>,
) -> bool {
    &&& placed.len() == tiles.len()
    &&& forall|i: int|
        0 <= i < tiles.len() ==> {
            let t = #[trigger] placed[i];
            &&& t.addr == tiles[i].addr
            &&& t.title == tiles[i].title
            &&& t.pid == tiles[i].pid
            &&& t.x == half(twice_slot_x(i, tiles.len() as int, screen_w, tw))
            &&& t.lift_to == lifted(tiles[i], current)
        }
}

/// Whether `new` is `old` with another lift, everything else being the same.
pub open spec fn same_but_lift(old_tile: Tile, new_tile: Tile) -> bool {
    &&& new_tile.addr == old_tile.addr
    &&& new_tile.title == old_tile.title
    &&& new_tile.pid == old_tile.pid
    &&& new_tile.x == old_tile.x
}

impl Deck {
    /// A deck without tiles.
    pub fn new() -> (r: Self)
        ensures
            r.tiles@.len() == 0,
            r.hover is None,
    {
        Deck { tiles: Vec::new(), hover: None }
    }

    /// Take a new list of tiles, each in its slot. The tile of `current` is
    /// raised from the start.
    pub fn reset(&mut self, tiles: Vec<Tile>, screen_w: i64, tw: i64, current: Option<&str>)
        requires
            fits(tiles@.len() as int, screen_w as int, tw as int),
        ensures
            in_slots(
                final(self).tiles@,
                tiles@,
                screen_w as int,
                tw as int,
                match current {
                    Some(c) => Some(c@),
                    None => None,
                },
            ),
            final(self).hover is None,
    {
        let count: usize = tiles.len();
        let mut placed: Vec<Tile> = Vec::new();
        let mut n: usize = 0;
        for tile in it: tiles
            invariant
                it.seq() == tiles@,
                count == tiles@.len(),
                fits(count as int, screen_w as int, tw as int),
                n == it.index(),
                n <= count,
                placed@.len() == n,
                forall|i: int|
                    0 <= i < n ==> {
                        let t = #[trigger] placed@[i];
                        &&& t.addr == tiles@[i].addr
                        &&& t.title == tiles@[i].title
                        &&& t.pid == tiles@[i].pid
                        &&& t.x == half(
                            twice_slot_x(i, count as int, screen_w as int, tw as int),
                        )
                        &&& t.lift_to == lifted(
                            tiles@[i],
                            match current {
                                Some(c) => Some(c@),
                                None => None,
                            },
                        )
                    },
        {
            let raised: bool = match current {
                Some(c) => text::same(&tile.addr, c),
                None => false,
            };
            let x: i64 = slot_x(n, count, screen_w, tw);
            placed.push(
                Tile {
                    addr: tile.addr,
                    title: tile.title,
                    pid: tile.pid,
                    x,
                    lift_to: if raised {
                        RAISE
                    } else {
                        0
                    },
                },
            );
            n = n + 1;
        }
        self.tiles = placed;
        self.hover = None;
    }

    /// Raise the tile of `current` and lower the others. No tile changes place.
    pub fn set_current(&mut self, current: &str)
        ensures
            final(self).tiles@.len() == old(self).tiles@.len(),
            forall|i: int|
                0 <= i < old(self).tiles@.len() ==> same_but_lift(
                    old(self).tiles@[i],
                    #[trigger] final(self).tiles@[i],
                ) && final(self).tiles@[i].lift_to == lifted(
                    old(self).tiles@[i],
                    Some(current@),
                ),
            final(self).hover == old(self).hover,
    {
        let n: usize = self.tiles.len();
        for i in 0..n
            invariant
                n == old(self).tiles@.len(),
                self.tiles@.len() == n,
                self.hover == old(self).hover,
                forall|j: int|
                    0 <= j < i ==> same_but_lift(
                        old(self).tiles@[j],
                        #[trigger] self.tiles@[j],
                    ) && self.tiles@[j].lift_to == lifted(old(self).tiles@[j], Some(current@)),
                forall|j: int| i <= j < n ==> #[trigger] self.tiles@[j] == old(self).tiles@[j],
        {
            let raised: bool = text::same(&self.tiles[i].addr, current);
            self.tiles[i].lift_to = if raised {
                RAISE
            } else {
                0
            };
        }
    }

    /// The pointer has moved. Returns whether the deck has to be drawn again.
    pub fn deck_motion(&mut self, hit: Option<usize>) -> (r: bool)
        ensures
            r == (hit != old(self).hover),
            *final(self) == (Deck { hover: hit, ..*old(self) }),
    {
        let changed: bool = match (hit, self.hover) {
            (Some(a), Some(b)) => a != b,
            (None, None) => false,
            _ => true,
        };
        self.hover = hit;
        changed
    }

    /// The slot of a task.
    pub fn slot_of(&self, addr: &str) -> (r: Option<usize>)
        ensures
            r == text::first_text(addresses(self.tiles@), addr@),
    {
        let ghost t = addresses(self.tiles@);
        let mut r: Option<usize> = None;
        assert(t.take(0) == Seq::<Seq<char>>::empty());
        for i in 0..self.tiles.len()
            invariant
                t == addresses(self.tiles@),
                r == text::first_text(t.take(i as int), addr@),
        {
            assert(t.take(i + 1).drop_last() == t.take(i as int));
            assert(t.take(i + 1).last() == self.tiles@[i as int].addr@);
            if r.is_none() && text::same(&self.tiles[i].addr, addr) {
                r = Some(i);
            }
        }
        assert(t.take(t.len() as int) == t);
        r
    }

    /// Put the task in slot `i` on the stage. `outgoing` is the task that was on
    /// it, `shown` whether the stage took the new one. The frame follows the
    /// stage: a task that could not be staged raises nothing.
    pub fn stage_switch_to_index(
        &mut self,
        i: usize,
        outgoing: Option<&str>,
        shown: bool,
    ) -> (r: SwitchStep)
        ensures
            final(self).tiles@.len() == old(self).tiles@.len(),
            final(self).hover == old(self).hover,
            match r {
                SwitchStep::Nothing => i >= old(self).tiles@.len() && *final(self) == *old(self),
                SwitchStep::Rebuild => i < old(self).tiles@.len() && !shown && *final(self)
                    == *old(self),
                SwitchStep::Switch(photograph) => {
                    &&& i < old(self).tiles@.len()
                    &&& shown
                    &&& text::text_in(photograph) == (if outgoing is Some && outgoing->Some_0@
                        != old(self).tiles@[i as int].addr@ {
                        Some(outgoing->Some_0@)
                    } else {
                        None
                    })
                    &&& forall|j: int|
                        0 <= j < old(self).tiles@.len() ==> same_but_lift(
                            old(self).tiles@[j],
                            #[trigger] final(self).tiles@[j],
                        ) && final(self).tiles@[j].lift_to == lifted(
                            old(self).tiles@[j],
                            Some(old(self).tiles@[i as int].addr@),
                        )
                },
            },
    {
        if i >= self.tiles.len() {
            return SwitchStep::Nothing;
        }
        if !shown {
            return SwitchStep::Rebuild;
        }
        let addr = text::copy_text(&self.tiles[i].addr);
        let photograph: Option<String> = match outgoing {
            Some(p) => {
                if text::same(p, &addr) {
                    None
                } else {
                    Some(text::copy_text(p))
                }
            },
            None => None,
        };
        self.set_current(&addr);
        SwitchStep::Switch(photograph)
    }

    /// Put the task at `addr` on the stage. One that is not on the deck is left
    /// to the stage, and the deck is rebuilt whatever came of it.
    pub fn stage_switch_to(&mut self, addr: &str, outgoing: Option<&str>, shown: bool) -> (r:
        SwitchStep)
        ensures
            final(self).tiles@.len() == old(self).tiles@.len(),
            final(self).hover == old(self).hover,
            match r {
                SwitchStep::Nothing => false,
                SwitchStep::Rebuild => *final(self) == *old(self) && (!shown || !addresses(
                    old(self).tiles@,
                ).contains(addr@)),
                SwitchStep::Switch(photograph) => {
                    &&& shown
                    &&& addresses(old(self).tiles@).contains(addr@)
                    &&& text::text_in(photograph) == (if outgoing is Some && outgoing->Some_0@
                        != addr@ {
                        Some(outgoing->Some_0@)
                    } else {
                        None
                    })
                    &&& forall|j: int|
                        0 <= j < old(self).tiles@.len() ==> same_but_lift(
                            old(self).tiles@[j],
                            #[trigger] final(self).tiles@[j],
                        ) && final(self).tiles@[j].lift_to == lifted(
                            old(self).tiles@[j],
                            Some(addr@),
                        )
                },
            },
    {
        let ghost a = addresses(self.tiles@);
        let n: usize = self.tiles.len();
        assert(a.len() == n);
        proof {
            text::lemma_first_text(a, addr@);
        }
        match self.slot_of(addr) {
            Some(i) => {
                assert(a[i as int] == addr@);
                self.stage_switch_to_index(i, outgoing, shown)
            },
            None => SwitchStep::Rebuild,
        }
    }
}

impl Default for Deck {
    fn default() -> (r: Self)
        ensures
            r.tiles@.len() == 0,
            r.hover is None,
    {
        Deck::new()
    }
}

/// What is left to do for a switch.
#[derive(Debug)]
pub enum SwitchStep {
    /// There is no such tile.
    Nothing,
    /// The tile is out of date: rebuild the deck.
    Rebuild,
    /// The switch is done; take a picture of the task that left.
    Switch(Option<String>),
}

/// What a window that opens on the stage is answered with.
#[derive(Debug, Clone, Copy, PartialEq, Eq, Structural)]
pub enum OpenedStep {
    /// A dialog: it stays where it is and gains its tile.
    Rebuild,
    /// It takes the stage.
    Stage,
}

/// What a window that opens on the stage is answered with. `floating` is `None`
/// where its state is unknown.
pub fn on_window_opened_staged(floating: Option<bool>) -> (r: OpenedStep)
    ensures
        r == (if floating == Some(true) {
            OpenedStep::Rebuild
        } else {
            OpenedStep::Stage
        }),
{
    match floating {
        Some(f) => if f {
            OpenedStep::Rebuild
        } else {
            OpenedStep::Stage
        },
        None => OpenedStep::Stage,
    }
}

/// The addresses of tiles.
pub open spec fn addresses(tiles: Seq<Tile>) -> Seq<Seq<char>> {
    Seq::new(tiles.len(), |i: int| tiles[i].addr@)
}

/// Switching leaves every tile where it was and raises the tiles of the current
/// task alone: exactly one, where no two tiles show the same task.
pub proof fn law_switching_raises_one_tile(before: Seq<Tile>, after: Seq<Tile>, i: int)
    requires
        before.len() == after.len(),
        0 <= i < before.len(),
        forall|a: int, b: int|
            0 <= a < b < before.len() ==> (#[trigger] before[a]).addr@ != (
            #[trigger] before[b]).addr@,
        forall|j: int|
            0 <= j < before.len() ==> same_but_lift(before[j], #[trigger] after[j])
                && after[j].lift_to == lifted(before[j], Some(before[i].addr@)),
    ensures
        forall|j: int|
            0 <= j < after.len() ==> (#[trigger] after[j]).x == before[j].x && (after[j].lift_to
                > 0 <==> j == i),
{
    assert forall|j: int| 0 <= j < after.len() implies (#[trigger] after[j]).x == before[j].x && (
    after[j].lift_to > 0 <==> j == i) by {
        assert(same_but_lift(before[j], after[j]));
        if j != i {
            let (a, b) = if j < i {
                (j, i)
            } else {
                (i, j)
            };
            assert(before[a].addr@ != before[b].addr@);
        }
    }
}

// ---------------------------------------------------------------------------
// Building the row
// ---------------------------------------------------------------------------

/// A task, as the compositor lists it.
#[derive(Debug)]
pub struct StageTask {
    pub address: String,
    pub title: String,
    pub class: String,
    pub pid: i64,
}

/// What a tile shows of a task: its title, or its class where it has none.
pub open spec fn tile_title(t: StageTask) -> Seq<char> {
    if t.title@.len() == 0 {
        t.class@
    } else {
        t.title@
    }
}

/// A tile for a task.
pub fn deck_tile(task: &StageTask) -> (r: Tile)
    ensures
        r.addr@ == task.address@,
        r.title@ == tile_title(*task),
        r.pid == task.pid,
        r.x == 0,
        r.lift_to == 0,
{
    let title = if task.title.as_str().unicode_len() == 0 {
        text::copy_text(&task.class)
    } else {
        text::copy_text(&task.title)
    };
    Tile { addr: text::copy_text(&task.address), title, pid: task.pid, x: 0, lift_to: 0 }
}

/// The first task with an address.
pub open spec fn task_with(tasks: Seq<StageTask>, addr: Seq<char>) -> Option<int>
    decreases tasks.len(),
{
    if tasks.len() == 0 {
        None
    } else {
        match task_with(tasks.drop_last(), addr) {
            Some(i) => Some(i),
            None => if tasks.last().address@ == addr {
                Some(tasks.len() - 1)
            } else {
                None
            },
        }
    }
}

proof fn lemma_task_with(tasks: Seq<StageTask>, addr: Seq<char>)
    ensures
        task_with(tasks, addr) matches Some(i) ==> 0 <= i < tasks.len(),
    decreases tasks.len(),
{
    if tasks.len() > 0 {
        lemma_task_with(tasks.drop_last(), addr);
    }
}

fn find_task(tasks: &[StageTask], addr: &str) -> (r: Option<usize>)
    ensures
        match r {
            Some(i) => i < tasks@.len() && task_with(tasks@, addr@) == Some(i as int),
            None => task_with(tasks@, addr@) is None,
        },
{
    let mut r: Option<usize> = None;
    assert(tasks@.take(0) == Seq::<StageTask>::empty());
    for i in 0..tasks.len()
        invariant
            match r {
                Some(j) => j < i && task_with(tasks@.take(i as int), addr@) == Some(j as int),
                None => task_with(tasks@.take(i as int), addr@) is None,
            },
    {
        assert(tasks@.take(i + 1).drop_last() == tasks@.take(i as int));
        assert(tasks@.take(i + 1).last() == tasks@[i as int]);
        if r.is_none() && text::same(&tasks[i].address, addr) {
            r = Some(i);
        }
    }
    assert(tasks@.take(tasks@.len() as int) == tasks@);
    r
}

/// The tasks of the deck: those in the order that still exist.
pub open spec fn row_tasks(order: Seq<Seq<char>>, tasks: Seq<StageTask>) -> Seq<StageTask>
    decreases order.len(),
{
    if order.len() == 0 {
        Seq::empty()
    } else {
        let before = row_tasks(order.drop_last(), tasks);
        match task_with(tasks, order.last()) {
            Some(i) => before.push(tasks[i]),
            None => before,
        }
    }
}

/// The tasks of the deck while the mode is on; none while it is off.
pub open spec fn deck_row(on: bool, order: Seq<Seq<char>>, tasks: Seq<StageTask>) -> Seq<StageTask> {
    if on {
        row_tasks(order, tasks)
    } else {
        Seq::empty()
    }
}

/// The tiles of the deck, before they have their slots: while the mode is on,
/// one for each address of the stage's order whose task still exists.
pub fn rebuild_deck(on: bool, order: &[String], tasks: &[StageTask]) -> (r: Vec<Tile>)
    ensures
        ({
            let row = deck_row(on, text::texts(order@), tasks@);
            &&& r@.len() == row.len()
            &&& forall|i: int|
                0 <= i < row.len() ==> (#[trigger] r@[i]).addr@ == row[i].address@ && r@[i].title@
                    == tile_title(row[i]) && r@[i].pid == row[i].pid
        }),
{
    let ghost t = text::texts(order@);
    let mut tiles: Vec<Tile> = Vec::new();
    if !on {
        return tiles;
    }
    assert(t.take(0) == Seq::<Seq<char>>::empty());
    for k in 0..order.len()
        invariant
            t == text::texts(order@),
            tiles@.len() == row_tasks(t.take(k as int), tasks@).len(),
            forall|i: int|
                0 <= i < tiles@.len() ==> {
                    let row = row_tasks(t.take(k as int), tasks@);
                    (#[trigger] tiles@[i]).addr@ == row[i].address@ && tiles@[i].title@
                        == tile_title(row[i]) && tiles@[i].pid == row[i].pid
                },
    {
        assert(t.take(k + 1).drop_last() == t.take(k as int));
        assert(t.take(k + 1).last() == order@[k as int]@);
        if let Some(i) = find_task(tasks, &order[k]) {
            tiles.push(deck_tile(&tasks[i]));
        }
    }
    assert(t.take(t.len() as int) == t);
    tiles
}

/// A tile stands for a task that exists, in the order of the stage: the deck
/// shows no window that is gone.
pub proof fn law_every_tile_is_a_live_task(order: Seq<Seq<char>>, tasks: Seq<StageTask>, k: int)
    requires
        0 <= k < row_tasks(order, tasks).len(),
    ensures
        tasks.contains(row_tasks(order, tasks)[k]),
        row_tasks(order, tasks).len() <= order.len(),
    decreases order.len(),
{
    let row = row_tasks(order, tasks);
    let before = row_tasks(order.drop_last(), tasks);
    lemma_row_is_short(order, tasks);
    lemma_task_with(tasks, order.last());
    if k < before.len() {
        law_every_tile_is_a_live_task(order.drop_last(), tasks, k);
        assert(row[k] == before[k]);
    } else {
        let i = task_with(tasks, order.last())->Some_0;
        assert(row[k] == tasks[i]);
    }
}

proof fn lemma_row_is_short(order: Seq<Seq<char>>, tasks: Seq<StageTask>)
    ensures
        row_tasks(order, tasks).len() <= order.len(),
    decreases order.len(),
{
    if order.len() > 0 {
        lemma_row_is_short(order.drop_last(), tasks);
    }
}

// ---------------------------------------------------------------------------
// Sound
// ---------------------------------------------------------------------------

/// Whether a process is in the ancestry of a stream.
pub open spec fn heard(streams: Seq<Stream>, pid: i64) -> bool {
    exists|s: int| 0 <= s < streams.len() && (#[trigger] streams[s]).ancestors@.contains(pid)
}

fn hears(streams: &[Stream], pid: i64) -> (r: bool)
    ensures
        r == heard(streams@, pid),
{
    for s in 0..streams.len()
        invariant
            forall|k: int|
                0 <= k < s ==> !(#[trigger] streams@[k]).ancestors@.contains(pid),
    {
        let count: usize = streams[s].ancestors.len();
        for a in 0..count
            invariant
                s < streams@.len(),
                count == streams@[s as int].ancestors@.len(),
                forall|k: int| 0 <= k < a ==> streams@[s as int].ancestors@[k] != pid,
        {
            if streams[s].ancestors[a] == pid {
                assert(streams@[s as int].ancestors@.contains(pid));
                return true;
            }
        }
    }
    false
}

/// The tasks that sound: those whose process is in the ancestry of a stream.
pub open spec fn sounding(tiles: Seq<Tile>, streams: Seq<Stream>) -> Seq<Seq<char>>
    decreases tiles.len(),
{
    if tiles.len() == 0 {
        Seq::empty()
    } else {
        let before = sounding(tiles.drop_last(), streams);
        if heard(streams, tiles.last().pid) {
            before.push(tiles.last().addr@)
        } else {
            before
        }
    }
}

/// Whether two lists hold the same texts.
pub open spec fn same_texts(a: Seq<Seq<char>>, b: Seq<Seq<char>>) -> bool {
    a.to_set() == b.to_set()
}

fn holds_all(a: &[String], b: &[String]) -> (r: bool)
    ensures
        r == forall|i: int|
            0 <= i < b@.len() ==> text::texts(a@).contains((#[trigger] b@[i])@),
{
    for i in 0..b.len()
        invariant
            forall|k: int| 0 <= k < i ==> text::texts(a@).contains((#[trigger] b@[k])@),
    {
        if !text::any_same(a, &b[i]) {
            assert(!text::texts(a@).contains(b@[i as int]@));
            return false;
        }
    }
    true
}

/// A sample of the streams that sound. `marked` are the tasks that are marked;
/// returns the tasks to mark now, and whether that is a change.
pub fn on_deck_audio(tiles: &[Tile], streams: &[Stream], marked: &[String]) -> (r: (
    Vec<String>,
    bool,
))
    ensures
        text::texts(r.0@) == sounding(tiles@, streams@),
        r.1 == !same_texts(sounding(tiles@, streams@), text::texts(marked@)),
{
    let mut now: Vec<String> = Vec::new();
    assert(tiles@.take(0) == Seq::<Tile>::empty());
    assert(text::texts(now@) == sounding(tiles@.take(0), streams@));
    for i in 0..tiles.len()
        invariant
            text::texts(now@) == sounding(tiles@.take(i as int), streams@),
    {
        assert(tiles@.take(i + 1).drop_last() == tiles@.take(i as int));
        assert(tiles@.take(i + 1).last() == tiles@[i as int]);
        if hears(streams, tiles[i].pid) {
            let ghost before = now@;
            now.push(text::copy_text(&tiles[i].addr));
            assert(text::texts(now@) == text::texts(before).push(tiles@[i as int].addr@));
        }
    }
    assert(tiles@.take(tiles@.len() as int) == tiles@);
    let same: bool = holds_all(&now, marked) && holds_all(marked, &now);
    proof {
        let a = text::texts(now@);
        let b = text::texts(marked@);
        if same {
            assert forall|x: Seq<char>| a.to_set().contains(x) == b.to_set().contains(x) by {
                if a.contains(x) {
                    let i = choose|i: int| 0 <= i < a.len() && a[i] == x;
                    assert(b.contains(now@[i]@));
                }
                if b.contains(x) {
                    let i = choose|i: int| 0 <= i < b.len() && b[i] == x;
                    assert(a.contains(marked@[i]@));
                }
            }
            assert(a.to_set() =~= b.to_set());
        } else if same_texts(a, b) {
            assert forall|i: int| 0 <= i < marked@.len() implies a.contains(
                (#[trigger] marked@[i])@,
            ) by {
                assert(b[i] == marked@[i]@);
                assert(b.to_set().contains(b[i]));
                assert(a.to_set().contains(b[i]));
            }
            assert forall|i: int| 0 <= i < now@.len() implies b.contains(
                (#[trigger] now@[i])@,
            ) by {
                assert(a[i] == now@[i]@);
                assert(a.to_set().contains(a[i]));
                assert(b.to_set().contains(a[i]));
            }
        }
    }
    (now, !same)
}

// ---------------------------------------------------------------------------
// Pictures
// ---------------------------------------------------------------------------

/// The pictures of the tasks, one layer each.
#[derive(Debug)]
pub struct ThumbLayers {
    /// The task of each layer.
    pub addrs: Vec<String>,
    /// The pixels of each layer.
    pub chains: Vec<Vec<u8>>,
    /// How many layers there is room for.
    pub capacity: u32,
}

impl ThumbLayers {
    /// Each layer has its pixels, and no task has two.
    pub open spec fn wf(self) -> bool {
        &&& self.addrs@.len() == self.chains@.len()
        &&& text::texts(self.addrs@).no_duplicates()
        &&& self.addrs@.len() <= 0x4000_0000
        &&& self.capacity <= 0x4000_0010
    }

    /// No pictures.
    pub fn new() -> (r: Self)
        ensures
            r.wf(),
            r.addrs@.len() == 0,
            r.capacity == 0,
    {
        ThumbLayers { addrs: Vec::new(), chains: Vec::new(), capacity: 0 }
    }

    /// Forget all pictures: they are taken anew when the mode opens.
    pub fn clear(&mut self)
        requires
            old(self).wf(),
        ensures
            final(self).wf(),
            final(self).addrs@.len() == 0,
            final(self).capacity == old(self).capacity,
    {
        self.addrs = Vec::new();
        self.chains = Vec::new();
    }

    /// Make room for as many pictures as there are tiles. Returns whether there
    /// was too little.
    pub fn make_room(&mut self, tiles: usize) -> (r: bool)
        requires
            old(self).wf(),
            tiles <= 0x4000_0000,
        ensures
            final(self).wf(),
            r == (tiles > old(self).capacity),
            final(self).capacity == (if r {
                tiles + SPARE_LAYERS
            } else {
                old(self).capacity as int
            }),
            final(self).addrs == old(self).addrs,
            final(self).chains == old(self).chains,
    {
        let needed: u32 = tiles as u32;
        if needed > self.capacity {
            self.capacity = needed + SPARE_LAYERS;
            return true;
        }
        false
    }

    /// The tasks that have no picture yet.
    pub fn missing(&self, tiles: &[Tile]) -> (r: Vec<String>)
        ensures
            text::texts(r@) == without_picture(addresses(tiles@), text::texts(self.addrs@)),
    {
        let ghost t = addresses(tiles@);
        let mut out: Vec<String> = Vec::new();
        assert(t.take(0) == Seq::<Seq<char>>::empty());
        assert(text::texts(out@) == without_picture(t.take(0), text::texts(self.addrs@)));
        for i in 0..tiles.len()
            invariant
                t == addresses(tiles@),
                text::texts(out@) == without_picture(
                    t.take(i as int),
                    text::texts(self.addrs@),
                ),
        {
            assert(t.take(i + 1).drop_last() == t.take(i as int));
            assert(t.take(i + 1).last() == tiles@[i as int].addr@);
            if !text::any_same(&self.addrs, &tiles[i].addr) {
                let ghost before = out@;
                out.push(text::copy_text(&tiles[i].addr));
                assert(text::texts(out@) == text::texts(before).push(tiles@[i as int].addr@));
            }
        }
        assert(t.take(t.len() as int) == t);
        out
    }

    /// A picture has come. It is kept for a task that is still on the deck: in
    /// the layer that the task has, else in a new one. Returns the layer, and
    /// whether the room for layers grew.
    pub fn on_deck_thumb(&mut self, deck: &Deck, ev: Event) -> (r: Option<(usize, bool)>)
        requires
            old(self).wf(),
            old(self).addrs@.len() < 0x4000_0000,
        ensures
            final(self).wf(),
            ({
                let had = text::first_text(text::texts(old(self).addrs@), ev.addr@);
                let on_deck = addresses(deck.tiles@).contains(ev.addr@);
                match r {
                    None => !on_deck && *final(self) == *old(self),
                    Some((layer, grew)) => {
                        &&& on_deck
                        &&& layer == (match had {
                            Some(i) => i as int,
                            None => old(self).addrs@.len() as int,
                        })
                        &&& grew == (had is None && layer >= old(self).capacity)
                        &&& final(self).capacity == (if grew {
                            layer + SPARE_LAYERS
                        } else {
                            old(self).capacity as int
                        })
                        &&& text::texts(final(self).addrs@) == (if had is Some {
                            text::texts(old(self).addrs@)
                        } else {
                            text::texts(old(self).addrs@).push(ev.addr@)
                        })
                        &&& final(self).chains@ == (if had is Some {
                            old(self).chains@.update(layer as int, ev.pixels)
                        } else {
                            old(self).chains@.push(ev.pixels)
                        })
                    },
                }
            }),
    {
        let n: usize = deck.tiles.len();
        assert(addresses(deck.tiles@).len() == n);
        proof {
            text::lemma_first_text(addresses(deck.tiles@), ev.addr@);
            text::lemma_first_text(text::texts(self.addrs@), ev.addr@);
        }
        if deck.slot_of(&ev.addr).is_none() {
            return None;
        }
        match text::place_of_text(&self.addrs, &ev.addr) {
            Some(layer) => {
                self.chains.set(layer, ev.pixels);
                Some((layer, false))
            },
            None => {
                let layer: usize = self.addrs.len();
                let mut grew: bool = false;
                if layer as u32 >= self.capacity {
                    self.capacity = layer as u32 + SPARE_LAYERS;
                    grew = true;
                }
                let ghost before = self.addrs@;
                self.addrs.push(ev.addr);
                self.chains.push(ev.pixels);
                assert(text::texts(self.addrs@) == text::texts(before).push(ev.addr@));
                Some((layer, grew))
            },
        }
    }
}

/// What a new row of tiles asks for.
#[derive(Debug)]
pub struct DeckStep {
    /// Whether the deck takes the pointer.
    pub input: bool,
    /// The tasks to take a picture of.
    pub missing: Vec<String>,
    /// Whether the room for pictures grew.
    pub grew: bool,
}

/// Whether the deck takes the pointer: while the mode is on and there are
/// tiles. The rest of the time clicks go through it.
pub fn sync_deck_input(on: bool, deck: &Deck) -> (r: bool)
    ensures
        r == (on && deck.tiles@.len() > 0),
{
    on && deck.tiles.len() > 0
}

impl Deck {
    /// Take over a new row of tiles. While the mode is on each tile gets its
    /// slot, there is room for a picture of each, and those without one are
    /// asked for. While it is off the deck is empty, it takes no input, and all
    /// pictures are forgotten.
    pub fn show(
        &mut self,
        thumbs: &mut ThumbLayers,
        on: bool,
        tiles: Vec<Tile>,
        screen_w: i64,
        tw: i64,
        current: Option<&str>,
    ) -> (r: DeckStep)
        requires
            old(thumbs).wf(),
            fits(tiles@.len() as int, screen_w as int, tw as int),
        ensures
            final(thumbs).wf(),
            final(self).hover is None,
            !on ==> {
                &&& final(self).tiles@.len() == 0
                &&& final(thumbs).addrs@.len() == 0
                &&& final(thumbs).capacity == old(thumbs).capacity
                &&& !r.input
                &&& r.missing@.len() == 0
                &&& !r.grew
            },
            on ==> {
                &&& in_slots(
                    final(self).tiles@,
                    tiles@,
                    screen_w as int,
                    tw as int,
                    match current {
                        Some(c) => Some(c@),
                        None => None,
                    },
                )
                &&& r.input == (tiles@.len() > 0)
                &&& text::texts(r.missing@) == without_picture(
                    addresses(final(self).tiles@),
                    text::texts(old(thumbs).addrs@),
                )
                &&& r.grew == (tiles@.len() > old(thumbs).capacity)
                &&& final(thumbs).capacity == (if r.grew {
                    tiles@.len() + SPARE_LAYERS
                } else {
                    old(thumbs).capacity as int
                })
                &&& final(thumbs).addrs == old(thumbs).addrs
                &&& final(thumbs).chains == old(thumbs).chains
            },
    {
        if !on {
            self.tiles = Vec::new();
            self.hover = None;
            thumbs.clear();
            return DeckStep { input: false, missing: Vec::new(), grew: false };
        }
        self.reset(tiles, screen_w, tw, current);
        let grew: bool = thumbs.make_room(self.tiles.len());
        let missing = thumbs.missing(&self.tiles);
        DeckStep { input: sync_deck_input(on, self), missing, grew }
    }
}

/// The addresses that are not among the pictured ones.
pub open spec fn without_picture(addrs: Seq<Seq<char>>, pictured: Seq<Seq<char>>) -> Seq<Seq<char>>
    decreases addrs.len(),
{
    if addrs.len() == 0 {
        Seq::empty()
    } else {
        let before = without_picture(addrs.drop_last(), pictured);
        if pictured.contains(addrs.last()) {
            before
        } else {
            before.push(addrs.last())
        }
    }
}

// ---------------------------------------------------------------------------
// What is drawn
// ---------------------------------------------------------------------------

/// How one tile is drawn.
#[derive(Debug, Clone, Copy, PartialEq, Eq, Structural)]
pub struct TileDraw {
    /// Whether the pointer is over it.
    pub hovered: bool,
    /// Whether it is nudged up under the pointer: never the current one, whose
    /// height says something else.
    pub nudged: bool,
    /// The layer of its picture; without one it has a plain strip for its title.
    pub layer: Option<usize>,
    /// Whether it makes sound.
    pub sounding: bool,
}

/// How tile `i` is drawn.
pub open spec fn tile_draw(
    deck: Deck,
    pictured: Seq<Seq<char>>,
    marked: Seq<Seq<char>>,
    i: int,
) -> TileDraw {
    let t = deck.tiles@[i];
    let hovered = deck.hover == Some(i as usize);
    TileDraw {
        hovered,
        nudged: hovered && t.lift_to == 0,
        layer: text::first_text(pictured, t.addr@),
        sounding: marked.contains(t.addr@),
    }
}

/// How the tiles are drawn. `marked` are the tasks that sound.
pub fn deck_scene(deck: &Deck, thumbs: &ThumbLayers, marked: &[String]) -> (r: Vec<TileDraw>)
    ensures
        r@ == Seq::new(
            deck.tiles@.len(),
            |i: int| tile_draw(*deck, text::texts(thumbs.addrs@), text::texts(marked@), i),
        ),
{
    let mut out: Vec<TileDraw> = Vec::new();
    for i in 0..deck.tiles.len()
        invariant
            out@ == Seq::new(
                i as nat,
                |k: int| tile_draw(*deck, text::texts(thumbs.addrs@), text::texts(marked@), k),
            ),
    {
        let hovered: bool = match deck.hover {
            Some(h) => h == i,
            None => false,
        };
        let current: bool = deck.tiles[i].is_current();
        out.push(
            TileDraw {
                hovered,
                nudged: hovered && !current,
                layer: text::place_of_text(&thumbs.addrs, &deck.tiles[i].addr),
                sounding: text::any_same(marked, &deck.tiles[i].addr),
            },
        );
    }
    out
}

// ---------------------------------------------------------------------------
// What the row shows
// ---------------------------------------------------------------------------

/// Tiles in their slots keep what they are and their order. They stand fourteen pixels
/// apart, the row in the middle of the screen, and only the tiles of the current task
/// stand up, by five.
pub proof fn law_tiles_stand_in_their_slots(
    placed: Seq<Tile>,
    tiles: Seq<Tile>,
    screen_w: int,
    tw: int,
    current: Option<Seq<char>>,
    i: int,
)
    requires
        in_slots(placed, tiles, screen_w, tw, current),
        0 <= i < tiles.len(),
        0 <= tw,
        screen_w >= tiles.len() * (tw + 14) - 14,
    ensures
        placed.len() == tiles.len(),
        placed[i].addr@ == tiles[i].addr@,
        placed[i].title@ == tiles[i].title@,
        placed[i].pid == tiles[i].pid,
        current == Some(tiles[i].addr@) ==> placed[i].lift_to == 5,
        current != Some(tiles[i].addr@) ==> placed[i].lift_to == 0,
        i + 1 < tiles.len() ==> placed[i + 1].x == placed[i].x + tw + 14,
        0 <= placed[i].x,
        -1 <= screen_w - (placed[tiles.len() - 1].x + tw) - placed[0].x <= 1,
{
    let n = tiles.len() as int;
    assert(placed[i].x == half(twice_slot_x(i, n, screen_w, tw)));
    assert(0 <= i * (tw + GAP)) by (nonlinear_arith)
        requires
            0 <= i,
            0 <= tw + GAP,
    ;
    assert(0 * (tw + GAP) == 0) by (nonlinear_arith);
    if i + 1 < n {
        law_tiles_are_one_slot_apart(i, n, screen_w, tw);
        assert(placed[i + 1].x == half(twice_slot_x(i + 1, n, screen_w, tw)));
    }
    assert(placed[0].x == half(twice_slot_x(0, n, screen_w, tw)));
    assert(placed[n - 1].x == half(twice_slot_x(n - 1, n, screen_w, tw)));
    law_the_row_is_centred(n, screen_w, tw);
}

/// A number is halved to the nearest whole one.
pub proof fn law_halves_are_rounded(t: int)
    ensures
        half(2 * t) == t,
        t >= 0 ==> half(2 * t + 1) == t + 1,
        t <= 0 ==> half(2 * t - 1) == t - 1,
{
}

/// A tile is titled by its window, and by its class where the window has no title.
pub proof fn law_a_tile_has_a_title(t: StageTask)
    ensures
        t.title@.len() > 0 ==> tile_title(t) == t.title@,
        t.title@.len() == 0 ==> tile_title(t) == t.class@,
{
}

/// An address is the task's that is listed first under it, and no task's where none is
/// listed.
pub proof fn law_the_first_task_of_an_address(tasks: Seq<StageTask>, addr: Seq<char>)
    ensures
        task_with(tasks, addr) matches Some(i) ==> 0 <= i < tasks.len() && tasks[i].address@ == addr
            && forall|k: int| 0 <= k < i ==> (#[trigger] tasks[k]).address@ != addr,
        task_with(tasks, addr) is None ==> forall|k: int|
            0 <= k < tasks.len() ==> (#[trigger] tasks[k]).address@ != addr,
    decreases tasks.len(),
{
    if tasks.len() > 0 {
        let d = tasks.drop_last();
        law_the_first_task_of_an_address(d, addr);
        assert(forall|k: int| 0 <= k < d.len() ==> tasks[k] == d[k]);
        assert(tasks[tasks.len() - 1] == tasks.last());
    }
}

/// The deck has a tile for every address of the stage's order that is a task's, in that
/// order, and for no other; while the mode is off it has none. `at` says for which
/// places of the order.
pub proof fn law_the_deck_follows_the_order(
    order: Seq<Seq<char>>,
    tasks: Seq<StageTask>,
) -> (at: Seq<int>)
    ensures
        deck_row(false, order, tasks).len() == 0,
        at.len() == deck_row(true, order, tasks).len(),
        forall|a: int|
            0 <= a < at.len() ==> 0 <= (#[trigger] at[a]) < order.len() && deck_row(
                true,
                order,
                tasks,
            )[a].address@ == order[at[a]] && tasks.contains(deck_row(true, order, tasks)[a]),
        forall|a: int, b: int| 0 <= a < b < at.len() ==> #[trigger] at[a] < #[trigger] at[b],
        forall|i: int, k: int|
            #![trigger order[i], tasks[k]]
            0 <= i < order.len() && 0 <= k < tasks.len() && tasks[k].address@ == order[i]
                ==> at.contains(i),
    decreases order.len(),
{
    if order.len() == 0 {
        Seq::empty()
    } else {
        let d = order.drop_last();
        let n = order.len() - 1;
        let was = law_the_deck_follows_the_order(d, tasks);
        law_the_first_task_of_an_address(tasks, order[n]);
        assert(forall|i: int| 0 <= i < n ==> order[i] == d[i]);
        let found = task_with(tasks, order[n]);
        let now = if found is Some {
            was.push(n)
        } else {
            was
        };
        if found is Some {
            assert(tasks.contains(tasks[found->Some_0]));
        }
        assert forall|i: int, k: int|
            #![trigger order[i], tasks[k]]
            0 <= i < order.len() && 0 <= k < tasks.len() && tasks[k].address@
                == order[i] implies now.contains(i) by {
            if i < n {
                assert(d[i] == order[i]);
                assert(was.contains(i));
                let a = choose|a: int| 0 <= a < was.len() && was[a] == i;
                assert(now[a] == i);
            } else {
                assert(now[was.len() as int] == n);
            }
        }
        now
    }
}

/// Every tile whose process is an ancestor of a stream sounds, in the order of the
/// tiles, and no other. `at` says which they are.
pub proof fn law_tiles_sound_by_their_processes(tiles: Seq<Tile>, streams: Seq<Stream>) -> (at: Seq<
    int,
>)
    ensures
        at.len() == sounding(tiles, streams).len(),
        forall|a: int|
            0 <= a < at.len() ==> 0 <= (#[trigger] at[a]) < tiles.len() && sounding(
                tiles,
                streams,
            )[a] == tiles[at[a]].addr@ && exists|s: int|
                0 <= s < streams.len() && (#[trigger] streams[s]).ancestors@.contains(
                    tiles[at[a]].pid,
                ),
        forall|a: int, b: int| 0 <= a < b < at.len() ==> #[trigger] at[a] < #[trigger] at[b],
        forall|i: int, s: int|
            #![trigger tiles[i], streams[s]]
            0 <= i < tiles.len() && 0 <= s < streams.len() && streams[s].ancestors@.contains(
                tiles[i].pid,
            ) ==> at.contains(i),
    decreases tiles.len(),
{
    if tiles.len() == 0 {
        Seq::empty()
    } else {
        let d = tiles.drop_last();
        let n = tiles.len() - 1;
        let was = law_tiles_sound_by_their_processes(d, streams);
        assert(forall|i: int| 0 <= i < n ==> tiles[i] == d[i]);
        let now = if heard(streams, tiles[n].pid) {
            was.push(n)
        } else {
            was
        };
        assert forall|i: int, s: int|
            #![trigger tiles[i], streams[s]]
            0 <= i < tiles.len() && 0 <= s < streams.len() && streams[s].ancestors@.contains(
                tiles[i].pid,
            ) implies now.contains(i) by {
            if i < n {
                assert(d[i] == tiles[i]);
                assert(was.contains(i));
                let a = choose|a: int| 0 <= a < was.len() && was[a] == i;
                assert(now[a] == i);
            } else {
                assert(heard(streams, tiles[n].pid));
                assert(now[was.len() as int] == n);
            }
        }
        now
    }
}

/// The marks change where a task is marked that was not, or the other way round;
/// neither order nor repetition is a change.
pub proof fn law_marks_change_with_their_tasks(a: Seq<Seq<char>>, b: Seq<Seq<char>>)
    ensures
        same_texts(a, b) <==> forall|x: Seq<char>| #[trigger] a.contains(x) <==> b.contains(x),
{
    if same_texts(a, b) {
        assert forall|x: Seq<char>| #[trigger] a.contains(x) <==> b.contains(x) by {
            assert(a.to_set().contains(x) <==> b.to_set().contains(x));
        }
    }
    if forall|x: Seq<char>| #[trigger] a.contains(x) <==> b.contains(x) {
        assert forall|x: Seq<char>| a.to_set().contains(x) <==> b.to_set().contains(x) by {
            assert(a.contains(x) <==> b.contains(x));
        }
        assert(a.to_set() =~= b.to_set());
    }
}

/// The tasks to make a picture of are those without one, in their order. `at` says
/// which they are.
pub proof fn law_tasks_without_a_picture_get_one(
    addrs: Seq<Seq<char>>,
    pictured: Seq<Seq<char>>,
) -> (at: Seq<int>)
    ensures
        at.len() == without_picture(addrs, pictured).len(),
        forall|a: int|
            0 <= a < at.len() ==> 0 <= (#[trigger] at[a]) < addrs.len() && without_picture(
                addrs,
                pictured,
            )[a] == addrs[at[a]] && !pictured.contains(addrs[at[a]]),
        forall|a: int, b: int| 0 <= a < b < at.len() ==> #[trigger] at[a] < #[trigger] at[b],
        forall|i: int|
            0 <= i < addrs.len() && !pictured.contains(#[trigger] addrs[i]) ==> at.contains(i),
    decreases addrs.len(),
{
    if addrs.len() == 0 {
        Seq::empty()
    } else {
        let d = addrs.drop_last();
        let n = addrs.len() - 1;
        let was = law_tasks_without_a_picture_get_one(d, pictured);
        assert(forall|i: int| 0 <= i < n ==> addrs[i] == d[i]);
        let now = if pictured.contains(addrs[n]) {
            was
        } else {
            was.push(n)
        };
        assert forall|i: int|
            0 <= i < addrs.len() && !pictured.contains(#[trigger] addrs[i]) implies now.contains(
            i,
        ) by {
            if i < n {
                assert(!pictured.contains(d[i]));
                let a = choose|a: int| 0 <= a < was.len() && was[a] == i;
                assert(now[a] == i);
            } else {
                assert(now[was.len() as int] == n);
            }
        }
        now
    }
}

/// A tile is hovered where the pointer is over it, nudged where it is then not the one
/// that stands up, has the first picture of its task, and sounds where its task is
/// marked.
pub proof fn law_how_a_tile_is_drawn(
    deck: Deck,
    pictured: Seq<Seq<char>>,
    marked: Seq<Seq<char>>,
    i: int,
)
    requires
        0 <= i < deck.tiles@.len(),
        deck.tiles@.len() <= usize::MAX,
        pictured.len() <= usize::MAX,
    ensures
        ({
            let d = tile_draw(deck, pictured, marked, i);
            let addr = deck.tiles@[i].addr@;
            &&& d.hovered == (deck.hover is Some && deck.hover->Some_0 == i)
            &&& d.nudged == (d.hovered && deck.tiles@[i].lift_to == 0)
            &&& d.sounding == marked.contains(addr)
            &&& d.layer is Some == pictured.contains(addr)
            &&& d.layer matches Some(l) ==> l < pictured.len() && pictured[l as int] == addr
        }),
{
    text::lemma_first_text(pictured, deck.tiles@[i].addr@);
}

} // verus!
