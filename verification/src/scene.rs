//! What one frame of the card shows, before it has positions: which cells and
//! dock icons are drawn, how they are marked, and what they say.
use vstd::prelude::*;
use crate::content::{caption, truncate_label, Hit};
use crate::content;
use crate::index::AppEntry;
use crate::text;

verus! {

/// What `char::to_uppercase` makes of a character.
pub uninterp spec fn char_upper(c: char) -> Seq<char>;

/// `char::to_uppercase`: the Unicode uppercase of a character, one character or
/// more, which depends on the character alone.
#[verifier::external_body]
fn upper_of(c: char) -> (r: String)
    ensures
        r@ == char_upper(c),
{
    c.to_uppercase().collect()
}

/// How a cell is marked.
#[derive(Debug, Clone, Copy, PartialEq, Eq, Structural)]
pub enum Mark {
    Plain,
    /// The best match of a search.
    Selected,
    /// The pointer is over it.
    Hovered,
}

/// What is known of the entries in a frame. A list that is too short says no.
pub struct FrameFacts<'a> {
    pub entries: &'a [AppEntry],
    pub hover: Option<Hit>,
    /// The section and the cell of the best match.
    pub selected: Option<(usize, usize)>,
    /// The section and the cell that a drag would drop onto.
    pub over_cell: Option<(usize, usize)>,
    /// The slot of the dock that a drag would fold onto.
    pub over_dock: Option<usize>,
    pub dragging: bool,
    /// The entry that is being dragged out of the grid.
    pub drag_hidden: Option<usize>,
    /// The entry that is being dragged out of the dock.
    pub dock_hidden: Option<usize>,
    /// The entry whose box is open.
    pub open_box_hidden: Option<usize>,
    /// The entries that are boxes.
    pub boxes: &'a [usize],
    /// Which entries have no icon of their own.
    pub placeholders: &'a [bool],
    pub busy: &'a [bool],
    pub failed: &'a [bool],
    pub installing: &'a [bool],
    pub launching: &'a [bool],
}

/// What a list says of a place.
pub open spec fn flag(v: Seq<bool>, i: int) -> bool {
    0 <= i < v.len() && v[i]
}

fn flag_at(v: &[bool], i: usize) -> (r: bool)
    ensures
        r == flag(v@, i as int),
{
    i < v.len() && v[i]
}

/// The letter that stands for an icon: the first of the name.
pub open spec fn letter_of(name: Seq<char>, placeholder: bool) -> Option<Seq<char>> {
    if placeholder && name.len() > 0 {
        Some(char_upper(name[0]))
    } else {
        None
    }
}

/// The letter that stands for an icon: the first of the name.
fn letter_for(name: &str, placeholder: bool) -> (r: Option<String>)
    ensures
        text::text_in(r) == letter_of(name@, placeholder),
{
    if placeholder {
        let v = text::chars_of(name);
        if v.len() > 0 {
            return Some(upper_of(v[0]));
        }
    }
    None
}

// ---------------------------------------------------------------------------
// The cells of a section
// ---------------------------------------------------------------------------

/// One cell that is drawn.
#[derive(Debug)]
pub struct CellDraw {
    /// Its place in the section.
    pub cell: usize,
    pub entry: usize,
    /// Whether it stays while the others page.
    pub leads: bool,
    pub mark: Mark,
    /// Whether a drag would drop onto it.
    pub ringed: bool,
    /// Which of the boxes it is, if it is one.
    pub group: Option<usize>,
    pub letter: Option<String>,
    pub caption: String,
    pub dim: bool,
}

/// A drawn cell as plain values.
pub struct CellModel {
    pub cell: int,
    pub entry: int,
    pub leads: bool,
    pub mark: Mark,
    pub ringed: bool,
    pub group: Option<usize>,
    pub letter: Option<Seq<char>>,
    pub caption: Seq<char>,
    pub dim: bool,
}

impl View for CellDraw {
    type V = CellModel;

    open spec fn view(&self) -> CellModel {
        CellModel {
            cell: self.cell as int,
            entry: self.entry as int,
            leads: self.leads,
            mark: self.mark,
            ringed: self.ringed,
            group: self.group,
            letter: text::text_in(self.letter),
            caption: self.caption@,
            dim: self.dim,
        }
    }
}

/// How a cell is marked: as the best match, else as the one under the pointer.
pub open spec fn mark_of(f: FrameFacts, section: usize, i: usize) -> Mark {
    if f.selected == Some((section, i)) {
        Mark::Selected
    } else if f.hover == Some(Hit::GridCell(section, i)) {
        Mark::Hovered
    } else {
        Mark::Plain
    }
}

/// What is drawn of cell `i` of a section, which shows entry `e`.
pub open spec fn cell_model(
    f: FrameFacts,
    section: usize,
    i: usize,
    e: usize,
    lead: usize,
    max: usize,
) -> CellModel {
    let group = content::first_place(f.boxes@, e);
    let name = f.entries@[e as int].name@;
    let x = e as int;
    CellModel {
        cell: i as int,
        entry: x,
        leads: i < lead,
        mark: mark_of(f, section, i),
        ringed: f.over_cell == Some((section, i)),
        group,
        letter: if group is Some {
            None
        } else {
            letter_of(name, flag(f.placeholders@, x))
        },
        caption: if group is Some {
            content::fitted(name, max as int)
        } else {
            content::caption_of(
                name,
                max as int,
                section,
                flag(f.busy@, x),
                flag(f.failed@, x),
                flag(f.installing@, x),
                flag(f.launching@, x),
            )
        },
        dim: group is None && flag(f.busy@, x),
    }
}

/// Whether the first `n` cells all show entries that exist.
pub open spec fn shown_until(entries: int, visible: Seq<usize>, n: int) -> bool {
    n <= visible.len() && forall|j: int| 0 <= j < n ==> (#[trigger] visible[j]) < entries
}

/// What is drawn of the first `n` cells: those before the first that shows no
/// entry, without the dragged one and the one whose box is open.
pub open spec fn drawn_cells(
    f: FrameFacts,
    section: usize,
    visible: Seq<usize>,
    lead: usize,
    max: usize,
    n: int,
) -> Seq<CellModel>
    decreases n,
{
    if n <= 0 {
        Seq::empty()
    } else {
        let before = drawn_cells(f, section, visible, lead, max, n - 1);
        let e = visible[n - 1];
        if !shown_until(f.entries@.len() as int, visible, n) || f.drag_hidden == Some(e)
            || f.open_box_hidden == Some(e) {
            before
        } else {
            before.push(cell_model(f, section, (n - 1) as usize, e, lead, max))
        }
    }
}

/// Drawn cells as plain values.
pub open spec fn cell_models(v: Seq<CellDraw>) -> Seq<CellModel> {
    Seq::new(v.len(), |i: int| v[i]@)
}

fn is_entry(a: Option<usize>, e: usize) -> (r: bool)
    ensures
        r == (a == Some(e)),
{
    match a {
        Some(x) => x == e,
        None => false,
    }
}

fn is_place(a: Option<(usize, usize)>, section: usize, i: usize) -> (r: bool)
    ensures
        r == (a == Some((section, i))),
{
    match a {
        Some((s, c)) => s == section && c == i,
        None => false,
    }
}

fn draw_cell(
    f: &FrameFacts,
    section: usize,
    i: usize,
    e: usize,
    lead: usize,
    max: usize,
) -> (r: CellDraw)
    requires
        e < f.entries@.len(),
    ensures
        r@ == cell_model(*f, section, i, e, lead, max),
{
    let hovered: bool = match f.hover {
        Some(Hit::GridCell(s, c)) => s == section && c == i,
        _ => false,
    };
    let mark: Mark = if is_place(f.selected, section, i) {
        Mark::Selected
    } else if hovered {
        Mark::Hovered
    } else {
        Mark::Plain
    };
    let group: Option<usize> = content::place_in(f.boxes, e);
    let name: &str = f.entries[e].name.as_str();
    let busy: bool = flag_at(f.busy, e);
    let (letter, label, dim): (Option<String>, String, bool) = if group.is_some() {
        (None, truncate_label(name, max), false)
    } else {
        (
            letter_for(name, flag_at(f.placeholders, e)),
            caption(
                name,
                max,
                section,
                busy,
                flag_at(f.failed, e),
                flag_at(f.installing, e),
                flag_at(f.launching, e),
            ),
            busy,
        )
    };
    CellDraw {
        cell: i,
        entry: e,
        leads: i < lead,
        mark,
        ringed: is_place(f.over_cell, section, i),
        group,
        letter,
        caption: label,
        dim,
    }
}

/// What is drawn of a section of `cells` cells. `visible` holds the entry of
/// each, `max` how many characters of a name fit.
pub fn section_cells(
    f: &FrameFacts,
    section: usize,
    cells: usize,
    visible: &[usize],
    lead: usize,
    max: usize,
) -> (r: Vec<CellDraw>)
    ensures
        cell_models(r@) == drawn_cells(*f, section, visible@, lead, max, cells as int),
{
    let mut out: Vec<CellDraw> = Vec::new();
    let total: usize = f.entries.len();
    assert(cell_models(out@) == drawn_cells(*f, section, visible@, lead, max, 0));
    let mut i: usize = 0;
    while i < cells && i < visible.len() && visible[i] < total
        invariant
            i <= cells,
            i <= visible@.len(),
            total == f.entries@.len(),
            shown_until(total as int, visible@, i as int),
            cell_models(out@) == drawn_cells(*f, section, visible@, lead, max, i as int),
        decreases cells - i,
    {
        let e: usize = visible[i];
        assert(shown_until(total as int, visible@, i + 1));
        if !is_entry(f.drag_hidden, e) && !is_entry(f.open_box_hidden, e) {
            let c = draw_cell(f, section, i, e, lead, max);
            let ghost before = out@;
            out.push(c);
            assert(cell_models(out@) == cell_models(before).push(c@));
        }
        i = i + 1;
    }
    proof {
        if i < cells {
            assert(!shown_until(total as int, visible@, i + 1));
            lemma_nothing_more(*f, section, visible@, lead, max, i as int, cells as int);
        }
    }
    out
}

proof fn lemma_nothing_more(
    f: FrameFacts,
    section: usize,
    visible: Seq<usize>,
    lead: usize,
    max: usize,
    i: int,
    n: int,
)
    requires
        0 <= i < n,
        !shown_until(f.entries@.len() as int, visible, i + 1),
    ensures
        drawn_cells(f, section, visible, lead, max, n) == drawn_cells(
            f,
            section,
            visible,
            lead,
            max,
            i,
        ),
    decreases n,
{
    assert(!shown_until(f.entries@.len() as int, visible, n)) by {
        if shown_until(f.entries@.len() as int, visible, n) {
            assert(shown_until(f.entries@.len() as int, visible, i + 1));
        }
    }
    if i + 1 < n {
        lemma_nothing_more(f, section, visible, lead, max, i, n - 1);
    }
}

/// A dragged entry is not drawn in the grid, nor is one whose box is open: what
/// is in hand, or magnified, stands for it.
pub proof fn law_hidden_entries_are_not_drawn(
    f: FrameFacts,
    section: usize,
    visible: Seq<usize>,
    lead: usize,
    max: usize,
    n: int,
    k: int,
)
    requires
        0 <= k < drawn_cells(f, section, visible, lead, max, n).len(),
    ensures
        ({
            let c = drawn_cells(f, section, visible, lead, max, n)[k];
            &&& f.drag_hidden != Some(c.entry as usize)
            &&& f.open_box_hidden != Some(c.entry as usize)
            &&& 0 <= c.entry < f.entries@.len()
        }),
    decreases n,
{
    if n > 0 {
        let before = drawn_cells(f, section, visible, lead, max, n - 1);
        if k < before.len() {
            law_hidden_entries_are_not_drawn(f, section, visible, lead, max, n - 1, k);
            assert(drawn_cells(f, section, visible, lead, max, n)[k] == before[k]);
        } else {
            assert(shown_until(f.entries@.len() as int, visible, n));
            assert(visible[n - 1] < f.entries@.len());
        }
    }
}

// ---------------------------------------------------------------------------
// The dock
// ---------------------------------------------------------------------------

/// One icon of the dock that is drawn.
#[derive(Debug)]
pub struct DockDraw {
    pub slot: usize,
    pub entry: usize,
    pub running: bool,
    /// Whether a drag would fold onto it.
    pub ringed: bool,
    /// Which of the boxes it is, if it is one.
    pub group: Option<usize>,
    pub letter: Option<String>,
}

/// A drawn icon of the dock as plain values.
pub struct DockModel {
    pub slot: int,
    pub entry: int,
    pub running: bool,
    pub ringed: bool,
    pub group: Option<usize>,
    pub letter: Option<Seq<char>>,
}

impl View for DockDraw {
    type V = DockModel;

    open spec fn view(&self) -> DockModel {
        DockModel {
            slot: self.slot as int,
            entry: self.entry as int,
            running: self.running,
            ringed: self.ringed,
            group: self.group,
            letter: text::text_in(self.letter),
        }
    }
}

/// What is drawn in a slot of the dock.
pub open spec fn dock_model(f: FrameFacts, slot: usize, e: usize, running: Seq<bool>) -> DockModel {
    let group = content::first_place(f.boxes@, e);
    DockModel {
        slot: slot as int,
        entry: e as int,
        running: flag(running, slot as int),
        ringed: f.over_dock == Some(slot),
        group,
        letter: if group is Some || e >= f.entries@.len() {
            None
        } else {
            letter_of(f.entries@[e as int].name@, flag(f.placeholders@, e as int))
        },
    }
}

/// What is drawn in the first `n` slots of the dock, without the dragged one.
pub open spec fn drawn_dock(
    f: FrameFacts,
    order: Seq<usize>,
    running: Seq<bool>,
    n: int,
) -> Seq<DockModel>
    decreases n,
{
    if n <= 0 {
        Seq::empty()
    } else {
        let before = drawn_dock(f, order, running, n - 1);
        if n > order.len() || f.dock_hidden == Some(order[n - 1]) {
            before
        } else {
            before.push(dock_model(f, (n - 1) as usize, order[n - 1], running))
        }
    }
}

/// Drawn icons of the dock as plain values.
pub open spec fn dock_models(v: Seq<DockDraw>) -> Seq<DockModel> {
    Seq::new(v.len(), |i: int| v[i]@)
}

/// What is drawn in a dock of `slots` slots. `order` holds the entry of each.
pub fn dock_icons(f: &FrameFacts, slots: usize, order: &[usize], running: &[bool]) -> (r: Vec<
    DockDraw,
>)
    ensures
        dock_models(r@) == drawn_dock(*f, order@, running@, slots as int),
{
    let mut out: Vec<DockDraw> = Vec::new();
    assert(dock_models(out@) == drawn_dock(*f, order@, running@, 0));
    let mut i: usize = 0;
    while i < slots && i < order.len()
        invariant
            i <= slots,
            i <= order@.len(),
            dock_models(out@) == drawn_dock(*f, order@, running@, i as int),
        decreases slots - i,
    {
        let e: usize = order[i];
        if !is_entry(f.dock_hidden, e) {
            let group: Option<usize> = content::place_in(f.boxes, e);
            let letter: Option<String> = if group.is_some() || e >= f.entries.len() {
                None
            } else {
                letter_for(&f.entries[e].name, flag_at(f.placeholders, e))
            };
            let d = DockDraw {
                slot: i,
                entry: e,
                running: flag_at(running, i),
                ringed: is_entry(f.over_dock, i),
                group,
                letter,
            };
            let ghost before = out@;
            out.push(d);
            assert(dock_models(out@) == dock_models(before).push(d@));
        }
        i = i + 1;
    }
    proof {
        lemma_dock_ends(*f, order@, running@, i as int, slots as int);
    }
    out
}

proof fn lemma_dock_ends(f: FrameFacts, order: Seq<usize>, running: Seq<bool>, i: int, n: int)
    requires
        0 <= i <= n,
        i == n || i == order.len(),
    ensures
        drawn_dock(f, order, running, n) == drawn_dock(f, order, running, i),
    decreases n,
{
    if i < n {
        lemma_dock_ends(f, order, running, i, n - 1);
    }
}

/// The slot before which the divider of the dock stands: between two icons.
pub fn divider(at: Option<usize>, slots: usize) -> (r: Option<usize>)
    ensures
        r == (match at {
            Some(d) => if 1 <= d && d < slots {
                Some(d)
            } else {
                None
            },
            None => None,
        }),
{
    match at {
        Some(d) => if 1 <= d && d < slots {
            Some(d)
        } else {
            None
        },
        None => None,
    }
}

/// The slot of the dock that is highlighted: the one under the pointer, unless
/// something is dragged.
pub fn dock_highlight(f: &FrameFacts, slots: usize) -> (r: Option<usize>)
    ensures
        r == (match f.hover {
            Some(Hit::DockIcon(i)) => if !f.dragging && i < slots {
                Some(i)
            } else {
                None
            },
            _ => None,
        }),
{
    match f.hover {
        Some(Hit::DockIcon(i)) => if !f.dragging && i < slots {
            Some(i)
        } else {
            None
        },
        _ => None,
    }
}

/// The name that shows above an icon of the dock, unless something is dragged.
pub fn dock_tooltip(f: &FrameFacts, slots: usize, order: &[usize], at: Option<usize>) -> (r: Option<
    (usize, String),
>)
    ensures
        match r {
            Some((i, name)) => {
                &&& !f.dragging
                &&& at == Some(i)
                &&& i < slots
                &&& i < order@.len()
                &&& order@[i as int] < f.entries@.len()
                &&& name@ == f.entries@[order@[i as int] as int].name@
            },
            None => f.dragging || at is None || at->Some_0 >= slots || at->Some_0 >= order@.len()
                || order@[at->Some_0 as int] >= f.entries@.len(),
        },
{
    if f.dragging {
        return None;
    }
    match at {
        Some(i) => {
            if i < slots && i < order.len() && order[i] < f.entries.len() {
                Some((i, text::copy_text(&f.entries[order[i]].name)))
            } else {
                None
            }
        },
        None => None,
    }
}

// ---------------------------------------------------------------------------
// What is in hand, and the open box
// ---------------------------------------------------------------------------

/// What follows the pointer in a drag.
#[derive(Debug, Clone, Copy, PartialEq, Eq, Structural)]
pub enum InHand {
    /// The small icons of this box.
    Minis(usize),
    /// The icon of this entry.
    Icon(usize),
}

/// What follows the pointer while entry `e` is dragged.
pub fn in_hand(f: &FrameFacts, e: usize) -> (r: InHand)
    ensures
        r == (match content::first_place(f.boxes@, e) {
            Some(g) => InHand::Minis(g),
            None => InHand::Icon(e),
        }),
{
    match content::place_in(f.boxes, e) {
        Some(g) => InHand::Minis(g),
        None => InHand::Icon(e),
    }
}

/// One member of the open box that is drawn.
#[derive(Debug)]
pub struct MemberDraw {
    /// Its place among the members.
    pub member: usize,
    pub entry: usize,
    pub letter: Option<String>,
    pub name: Option<String>,
}

/// A drawn member of the open box as plain values.
pub struct MemberModel {
    pub member: int,
    pub entry: int,
    pub letter: Option<Seq<char>>,
    pub name: Option<Seq<char>>,
}

impl View for MemberDraw {
    type V = MemberModel;

    open spec fn view(&self) -> MemberModel {
        MemberModel {
            member: self.member as int,
            entry: self.entry as int,
            letter: text::text_in(self.letter),
            name: text::text_in(self.name),
        }
    }
}

/// What is drawn of a member. One whose entry is gone has an icon alone.
pub open spec fn member_model(f: FrameFacts, m: usize, e: usize, max: usize) -> MemberModel {
    MemberModel {
        member: m as int,
        entry: e as int,
        letter: if e < f.entries@.len() {
            letter_of(f.entries@[e as int].name@, flag(f.placeholders@, e as int))
        } else {
            None
        },
        name: if e < f.entries@.len() {
            Some(content::fitted(f.entries@[e as int].name@, max as int))
        } else {
            None
        },
    }
}

/// What is drawn of the first `n` members: all but the dragged one.
pub open spec fn drawn_members(
    f: FrameFacts,
    members: Seq<usize>,
    dragged: Option<usize>,
    max: usize,
    n: int,
) -> Seq<MemberModel>
    decreases n,
{
    if n <= 0 {
        Seq::empty()
    } else {
        let before = drawn_members(f, members, dragged, max, n - 1);
        if dragged == Some(members[n - 1]) {
            before
        } else {
            before.push(member_model(f, (n - 1) as usize, members[n - 1], max))
        }
    }
}

/// Drawn members as plain values.
pub open spec fn member_models(v: Seq<MemberDraw>) -> Seq<MemberModel> {
    Seq::new(v.len(), |i: int| v[i]@)
}

/// What is drawn in the open box, whose members are these entries; `max` is how
/// many characters of a name fit.
pub fn box_members(f: &FrameFacts, members: &[usize], dragged: Option<usize>, max: usize) -> (r:
    Vec<MemberDraw>)
    ensures
        member_models(r@) == drawn_members(*f, members@, dragged, max, members@.len() as int),
{
    let mut out: Vec<MemberDraw> = Vec::new();
    assert(member_models(out@) == drawn_members(*f, members@, dragged, max, 0));
    for i in 0..members.len()
        invariant
            member_models(out@) == drawn_members(*f, members@, dragged, max, i as int),
    {
        let e: usize = members[i];
        if !is_entry(dragged, e) {
            let (letter, name): (Option<String>, Option<String>) = if e < f.entries.len() {
                let full: &str = f.entries[e].name.as_str();
                (letter_for(full, flag_at(f.placeholders, e)), Some(truncate_label(full, max)))
            } else {
                (None, None)
            };
            let m = MemberDraw { member: i, entry: e, letter, name };
            let ghost before = out@;
            out.push(m);
            assert(member_models(out@) == member_models(before).push(m@));
        }
    }
    out
}

/// The texture layer of an entry: the one that is recorded for it, else its own
/// index.
pub open spec fn layer_at(layers: Seq<u32>, entry: usize) -> u32 {
    if entry < layers.len() {
        layers[entry as int]
    } else {
        entry as u32
    }
}

/// The texture layer of an entry.
pub fn layer_of(layers: &[u32], entry: usize) -> (r: u32)
    ensures
        r == layer_at(layers@, entry),
{
    if entry < layers.len() {
        layers[entry]
    } else {
        #[verifier::truncate] (entry as u32)
    }
}

/// What the search widget says, and whether it says it dimly: its name while it
/// is a button, else what was typed, or a prompt.
pub fn search_label(expanded: bool, query: &str) -> (r: (String, bool))
    ensures
        r.0@ == (if expanded && query@.len() > 0 {
            query@
        } else {
            "Search"@
        }),
        r.1 == (expanded && query@.len() == 0),
{
    if expanded {
        if query.unicode_len() == 0 {
            (text::copy_text("Search"), true)
        } else {
            (text::copy_text(query), false)
        }
    } else {
        (text::copy_text("Search"), false)
    }
}

// ---------------------------------------------------------------------------
// What a frame shows
// ---------------------------------------------------------------------------

/// How a cell is drawn. The best match of a search is marked as such, and else the cell
/// under the pointer; the one that a drag would drop onto is ringed. A box shows its
/// name alone. Any other entry shows a letter where it has no icon, is dimmed while it
/// is busy, and says what happens to it in place of its name.
pub proof fn law_how_a_cell_is_drawn(
    f: FrameFacts,
    section: usize,
    i: usize,
    e: usize,
    lead: usize,
    max: usize,
)
    requires
        e < f.entries@.len(),
        f.boxes@.len() <= usize::MAX,
        f.placeholders@.len() == f.entries@.len(),
        f.busy@.len() == f.entries@.len(),
        f.failed@.len() == f.entries@.len(),
        f.installing@.len() == f.entries@.len(),
        f.launching@.len() == f.entries@.len(),
    ensures
        ({
            let c = cell_model(f, section, i, e, lead, max);
            let name = f.entries@[e as int].name@;
            let x = e as int;
            &&& c.cell == i
            &&& c.entry == e
            &&& c.leads == (i < lead)
            &&& f.selected == Some((section, i)) ==> c.mark == Mark::Selected
            &&& f.selected != Some((section, i)) && f.hover == Some(Hit::GridCell(section, i))
                ==> c.mark == Mark::Hovered
            &&& f.selected != Some((section, i)) && f.hover != Some(Hit::GridCell(section, i))
                ==> c.mark == Mark::Plain
            &&& c.ringed == (f.over_cell == Some((section, i)))
            &&& c.group is Some <==> f.boxes@.contains(e)
            &&& c.group matches Some(g) ==> g < f.boxes@.len() && f.boxes@[g as int] == e
                && c.letter is None && !c.dim && c.caption == content::fitted(name, max as int)
            &&& c.group is None ==> {
                &&& c.dim == f.busy@[x]
                &&& f.placeholders@[x] && name.len() > 0 ==> c.letter == Some(char_upper(name[0]))
                &&& !f.placeholders@[x] || name.len() == 0 ==> c.letter is None
                &&& f.busy@[x] && f.launching@[x] ==> c.caption == "Launching…"@
                &&& f.busy@[x] && !f.launching@[x] && (section == 1 || f.installing@[x])
                    ==> c.caption == "Installing…"@
                &&& f.busy@[x] && !f.launching@[x] && section != 1 && !f.installing@[x]
                    ==> c.caption == "Removing…"@
                &&& !f.busy@[x] && f.failed@[x] ==> c.caption == "Failed"@
                &&& !f.busy@[x] && !f.failed@[x] ==> c.caption == content::fitted(name, max as int)
            }
        }),
{
    content::lemma_first_place(f.boxes@, e);
    if f.boxes@.contains(e) {
        let k = choose|k: int| 0 <= k < f.boxes@.len() && f.boxes@[k] == e;
        assert(f.boxes@[k] == e);
    }
}

/// Which cells are drawn: all before the first without an entry, in their order, but
/// for the one in hand and the one whose box is open. `at` says which.
pub proof fn law_which_cells_are_drawn(
    f: FrameFacts,
    section: usize,
    visible: Seq<usize>,
    lead: usize,
    max: usize,
    n: int,
) -> (at: Seq<int>)
    requires
        n <= usize::MAX,
    ensures
        at.len() == drawn_cells(f, section, visible, lead, max, n).len(),
        forall|a: int|
            0 <= a < at.len() ==> {
                &&& 0 <= (#[trigger] at[a]) < n
                &&& at[a] < visible.len()
                &&& drawn_cells(f, section, visible, lead, max, n)[a] == cell_model(
                    f,
                    section,
                    at[a] as usize,
                    visible[at[a]],
                    lead,
                    max,
                )
                &&& f.drag_hidden != Some(visible[at[a]])
                &&& f.open_box_hidden != Some(visible[at[a]])
            },
        forall|a: int, b: int| 0 <= a < b < at.len() ==> #[trigger] at[a] < #[trigger] at[b],
        forall|i: int|
            0 <= i < n && i < visible.len() && f.drag_hidden != Some(#[trigger] visible[i])
                && f.open_box_hidden != Some(visible[i]) && (forall|j: int|
                0 <= j <= i ==> (#[trigger] visible[j]) < f.entries@.len()) ==> at.contains(i),
    decreases n,
{
    if n <= 0 {
        Seq::empty()
    } else {
        let was = law_which_cells_are_drawn(f, section, visible, lead, max, n - 1);
        let e = visible[n - 1];
        let skipped = !shown_until(f.entries@.len() as int, visible, n) || f.drag_hidden == Some(e)
            || f.open_box_hidden == Some(e);
        let now = if skipped {
            was
        } else {
            was.push(n - 1)
        };
        assert forall|i: int|
            0 <= i < n && i < visible.len() && f.drag_hidden != Some(#[trigger] visible[i])
                && f.open_box_hidden != Some(visible[i]) && (forall|j: int|
                0 <= j <= i ==> (#[trigger] visible[j])
                    < f.entries@.len()) implies now.contains(i) by {
            if i < n - 1 {
                assert(was.contains(i));
                let a = choose|a: int| 0 <= a < was.len() && was[a] == i;
                assert(now[a] == i);
            } else {
                assert(shown_until(f.entries@.len() as int, visible, n));
                assert(now[was.len() as int] == n - 1);
            }
        }
        now
    }
}

/// Which slots of the dock are drawn, and how: every slot with an entry but the one in
/// hand, in their order. Each is marked as running by its slot and ringed where a drag
/// would fold onto it, and shows a letter where it has neither an icon nor is a box.
/// `at` says which slots.
pub proof fn law_how_the_dock_is_drawn(
    f: FrameFacts,
    order: Seq<usize>,
    running: Seq<bool>,
    n: int,
) -> (at: Seq<int>)
    requires
        n <= usize::MAX,
        f.boxes@.len() <= usize::MAX,
        running.len() == order.len(),
        f.placeholders@.len() == f.entries@.len(),
    ensures
        at.len() == drawn_dock(f, order, running, n).len(),
        forall|a: int|
            0 <= a < at.len() ==> {
                let d = drawn_dock(f, order, running, n)[a];
                let e = order[#[trigger] at[a]];
                &&& 0 <= at[a] < n
                &&& at[a] < order.len()
                &&& d.slot == at[a]
                &&& d.entry == e
                &&& d.running == running[at[a]]
                &&& d.ringed == (f.over_dock == Some(at[a] as usize))
                &&& d.group is Some <==> f.boxes@.contains(e)
                &&& d.letter == (if !f.boxes@.contains(e) && e < f.entries@.len()
                    && f.placeholders@[e as int] && f.entries@[e as int].name@.len() > 0 {
                    Some(char_upper(f.entries@[e as int].name@[0]))
                } else {
                    None
                })
                &&& f.dock_hidden != Some(e)
            },
        forall|a: int, b: int| 0 <= a < b < at.len() ==> #[trigger] at[a] < #[trigger] at[b],
        forall|i: int|
            0 <= i < n && i < order.len() && f.dock_hidden != Some(#[trigger] order[i])
                ==> at.contains(i),
    decreases n,
{
    if n <= 0 {
        Seq::empty()
    } else {
        let was = law_how_the_dock_is_drawn(f, order, running, n - 1);
        let before = drawn_dock(f, order, running, n - 1);
        let skipped = n > order.len() || f.dock_hidden == Some(order[n - 1]);
        let now = if skipped {
            was
        } else {
            was.push(n - 1)
        };
        if !skipped {
            lemma_box_or_not(f, order[n - 1]);
        }
        assert forall|i: int|
            0 <= i < n && i < order.len() && f.dock_hidden != Some(
                #[trigger] order[i],
            ) implies now.contains(i) by {
            if i < n - 1 {
                assert(was.contains(i));
                let a = choose|a: int| 0 <= a < was.len() && was[a] == i;
                assert(now[a] == i);
            } else {
                assert(now[was.len() as int] == n - 1);
            }
        }
        now
    }
}

proof fn lemma_box_or_not(f: FrameFacts, e: usize)
    requires
        f.boxes@.len() <= usize::MAX,
    ensures
        content::first_place(f.boxes@, e) is Some <==> f.boxes@.contains(e),
{
    content::lemma_first_place(f.boxes@, e);
    if f.boxes@.contains(e) {
        let k = choose|k: int| 0 <= k < f.boxes@.len() && f.boxes@[k] == e;
        assert(f.boxes@[k] == e);
    }
}

/// Which members of an open box are drawn, and how: all but the one in hand, in their
/// order, each with the name of its entry as far as it fits, and a letter where it has
/// no icon. `at` says which.
pub proof fn law_how_an_open_box_is_drawn(
    f: FrameFacts,
    members: Seq<usize>,
    dragged: Option<usize>,
    max: usize,
    n: int,
) -> (at: Seq<int>)
    requires
        n <= members.len() <= usize::MAX,
        f.placeholders@.len() == f.entries@.len(),
    ensures
        at.len() == drawn_members(f, members, dragged, max, n).len(),
        forall|a: int|
            0 <= a < at.len() ==> {
                let m = drawn_members(f, members, dragged, max, n)[a];
                let e = members[#[trigger] at[a]];
                &&& 0 <= at[a] < n
                &&& m.member == at[a]
                &&& m.entry == e
                &&& dragged != Some(e)
                &&& e < f.entries@.len() ==> m.name == Some(
                    content::fitted(f.entries@[e as int].name@, max as int),
                )
                &&& e >= f.entries@.len() ==> m.name is None && m.letter is None
                &&& e < f.entries@.len() ==> m.letter == (if f.placeholders@[e as int]
                    && f.entries@[e as int].name@.len() > 0 {
                    Some(char_upper(f.entries@[e as int].name@[0]))
                } else {
                    None
                })
            },
        forall|a: int, b: int| 0 <= a < b < at.len() ==> #[trigger] at[a] < #[trigger] at[b],
        forall|i: int| 0 <= i < n && dragged != Some(#[trigger] members[i]) ==> at.contains(i),
    decreases n,
{
    if n <= 0 {
        Seq::empty()
    } else {
        let was = law_how_an_open_box_is_drawn(f, members, dragged, max, n - 1);
        let skipped = dragged == Some(members[n - 1]);
        let now = if skipped {
            was
        } else {
            was.push(n - 1)
        };
        assert forall|i: int|
            0 <= i < n && dragged != Some(#[trigger] members[i]) implies now.contains(i) by {
            if i < n - 1 {
                assert(was.contains(i));
                let a = choose|a: int| 0 <= a < was.len() && was[a] == i;
                assert(now[a] == i);
            } else {
                assert(now[was.len() as int] == n - 1);
            }
        }
        now
    }
}

/// An entry has the layer that is recorded for it, and else its own number.
pub proof fn law_an_entry_has_a_layer(layers: Seq<u32>, entry: usize)
    ensures
        entry < layers.len() ==> layer_at(layers, entry) == layers[entry as int],
        entry >= layers.len() && entry <= u32::MAX ==> layer_at(layers, entry) == entry,
{
}

/// What is drawn is seen field by field, and lists item by item.
pub proof fn law_drawn_things_are_seen_as_they_are(
    cells: Seq<CellDraw>,
    icons: Seq<DockDraw>,
    members: Seq<MemberDraw>,
    i: int,
)
    ensures
        cell_models(cells).len() == cells.len(),
        dock_models(icons).len() == icons.len(),
        member_models(members).len() == members.len(),
        0 <= i < cells.len() ==> {
            let c = cells[i];
            let m = cell_models(cells)[i];
            &&& m.cell == c.cell && m.entry == c.entry && m.leads == c.leads && m.mark == c.mark
            &&& m.ringed == c.ringed && m.group == c.group && m.dim == c.dim
            &&& m.letter == text::text_in(c.letter) && m.caption == c.caption@
        },
        0 <= i < icons.len() ==> {
            let d = icons[i];
            let m = dock_models(icons)[i];
            &&& m.slot == d.slot && m.entry == d.entry && m.running == d.running
            &&& m.ringed == d.ringed && m.group == d.group && m.letter == text::text_in(d.letter)
        },
        0 <= i < members.len() ==> {
            let b = members[i];
            let m = member_models(members)[i];
            &&& m.member == b.member && m.entry == b.entry
            &&& m.letter == text::text_in(b.letter) && m.name == text::text_in(b.name)
        },
{
}

} // verus!
