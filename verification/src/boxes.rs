//! Boxes of applications: opening and closing one, which member is in which
//! slot, moving a member within its box, and pulling one out.
use vstd::prelude::*;
use crate::content::{open_box_slot_member, OPEN_BOX_CAP};
use crate::content;
use crate::dragging;
use crate::text;

verus! {

/// A box: its members, page by page. A page may have room left.
#[derive(Debug)]
pub struct BoxGroup {
    pub id: String,
    pub members: Vec<Vec<String>>,
}

/// The open stack of a pinned directory.
#[derive(Debug)]
pub struct DirStack {
    /// The id of the pinned entry, out of which the stack grows.
    pub id: String,
    /// The directory that it shows.
    pub path: String,
    /// What the directory holds, page by page.
    pub members: Vec<Vec<String>>,
    /// Whether it opened into the grid, rather than above the dock.
    pub in_grid: bool,
}

/// Which box is open, and what is done with it.
#[derive(Debug)]
pub struct BoxState {
    /// The box that is open in the grid.
    pub app_group: Option<usize>,
    /// The box that is open above the dock.
    pub dock_stack: Option<usize>,
    pub dir_stack: Option<DirStack>,
    /// Whether the box is on its way to be open, rather than shut.
    pub opening: bool,
    /// Whether the box is drawn shut right away.
    pub collapsed: bool,
    /// The members of a box that shuts while the grid is live again.
    pub closing_members: Option<Vec<usize>>,
    pub box_page: usize,
    /// The entry of the member that is moved within the box.
    pub box_drag: Option<usize>,
    pub box_drag_page_at: Option<u64>,
}

/// The members of a page as texts.
pub open spec fn page_texts(pages: Seq<Vec<String>>) -> Seq<Seq<Seq<char>>> {
    Seq::new(pages.len(), |p: int| text::texts(pages[p]@))
}

/// The members of all pages, one after another.
pub open spec fn flat(pages: Seq<Seq<Seq<char>>>) -> Seq<Seq<char>>
    decreases pages.len(),
{
    if pages.len() == 0 {
        Seq::empty()
    } else {
        flat(pages.drop_last()) + pages.last()
    }
}

/// The members of all pages, one after another.
pub fn flatten(pages: &[Vec<String>]) -> (r: Vec<String>)
    ensures
        text::texts(r@) == flat(page_texts(pages@)),
{
    let mut r: Vec<String> = Vec::new();
    let ghost t = page_texts(pages@);
    assert(t.take(0) == Seq::<Seq<Seq<char>>>::empty());
    assert(text::texts(r@) == flat(t.take(0)));
    for p in 0..pages.len()
        invariant
            t == page_texts(pages@),
            text::texts(r@) == flat(t.take(p as int)),
    {
        assert(t.take(p + 1).drop_last() == t.take(p as int));
        assert(t.take(p + 1).last() == text::texts(pages@[p as int]@));
        let mut more = text::copy_texts(&pages[p]);
        let ghost before = r@;
        let ghost added = more@;
        r.append(&mut more);
        assert(r@ == before + added);
        assert(text::texts(r@) == text::texts(before) + text::texts(added));
    }
    assert(t.take(t.len() as int) == t);
    r
}

/// The member at place `local` of page `page`.
pub open spec fn member_at(
    pages: Seq<Seq<Seq<char>>>,
    page: int,
    local: int,
) -> Option<Seq<char>> {
    if 0 <= page < pages.len() && 0 <= local < pages[page].len() {
        Some(pages[page][local])
    } else {
        None
    }
}

/// The box that is open, in the grid or above the dock.
pub open spec fn open_group_of(s: BoxState) -> Option<usize> {
    match s.app_group {
        Some(g) => Some(g),
        None => s.dock_stack,
    }
}

/// The members that the open stack shows: those of a directory, else those of a
/// box.
pub open spec fn shown_members(s: BoxState, groups: Seq<BoxGroup>) -> Option<
    Seq<Seq<Seq<char>>>,
> {
    match s.dir_stack {
        Some(d) => Some(page_texts(d.members@)),
        None => match open_group_of(s) {
            Some(g) => if g < groups.len() {
                Some(page_texts(groups[g as int].members@))
            } else {
                None
            },
            None => None,
        },
    }
}

/// The member in slot `k` of the page of an open stack that shows.
pub open spec fn member_in_slot(
    s: BoxState,
    groups: Seq<BoxGroup>,
    left: bool,
    k: int,
) -> Option<Seq<char>> {
    match shown_members(s, groups) {
        Some(pages) => member_at(pages, s.box_page as int, content::slot_member(left, k)),
        None => None,
    }
}

/// What a drop of a member within its box does.
#[derive(Debug)]
pub enum BoxDrop {
    /// Nothing was dragged, or no box is open, or the drop is nowhere.
    Nowhere,
    /// Move the member before this one.
    Before(String),
    /// Move it to the end of this page.
    PageEnd(usize),
}

/// What a member pulled out of its box leaves behind.
#[derive(Debug)]
pub struct PullOut {
    /// The entry that rides the drag.
    pub entry: usize,
    /// The last member of a box that is gone from the dock, and the pin of the
    /// box, which it takes over.
    pub survivor: Option<(String, Option<usize>)>,
}

impl BoxState {
    /// No box is open.
    pub fn new() -> (r: Self)
        ensures
            r.one_open(),
            r.app_group is None,
            r.dock_stack is None,
            r.dir_stack is None,
            !r.opening,
            r.collapsed,
            r.closing_members is None,
            r.box_page == 0,
            r.box_drag is None,
            r.box_drag_page_at is None,
    {
        BoxState {
            app_group: None,
            dock_stack: None,
            dir_stack: None,
            opening: false,
            collapsed: true,
            closing_members: None,
            box_page: 0,
            box_drag: None,
            box_drag_page_at: None,
        }
    }

    /// At most one stack is open: a box in the grid, one above the dock, or a
    /// directory.
    pub open spec fn one_open(self) -> bool {
        &&& self.app_group is Some ==> self.dock_stack is None && self.dir_stack is None
        &&& self.dock_stack is Some ==> self.dir_stack is None
    }

    /// What every opening ends with: the box grows from shut, at its first page.
    pub open spec fn rewound(self, new: BoxState) -> bool {
        &&& new.opening
        &&& new.collapsed
        &&& new.box_page == 0
        &&& new.closing_members == self.closing_members
        &&& new.box_drag == self.box_drag
        &&& new.box_drag_page_at == self.box_drag_page_at
    }

    fn reset_stack_view(&mut self)
        ensures
            old(self).rewound(*final(self)),
            final(self).app_group == old(self).app_group,
            final(self).dock_stack == old(self).dock_stack,
            final(self).dir_stack == old(self).dir_stack,
    {
        self.opening = true;
        self.collapsed = true;
        self.box_page = 0;
    }

    /// Open a box in the grid. No other stack stays open.
    pub fn open_group(&mut self, g: usize)
        ensures
            old(self).rewound(*final(self)),
            final(self).one_open(),
            final(self).app_group == Some(g),
            final(self).dock_stack is None,
            final(self).dir_stack is None,
    {
        self.app_group = Some(g);
        self.dock_stack = None;
        self.dir_stack = None;
        self.reset_stack_view();
    }

    /// Open a box of the dock: into the grid where the card is open, else above
    /// the dock. No other stack stays open.
    pub fn open_dock_folder(&mut self, g: usize, card_open: bool)
        ensures
            old(self).rewound(*final(self)),
            final(self).one_open(),
            final(self).app_group == (if card_open {
                Some(g)
            } else {
                None
            }),
            final(self).dock_stack == (if card_open {
                None
            } else {
                Some(g)
            }),
            final(self).dir_stack is None,
    {
        if card_open {
            self.app_group = Some(g);
            self.dock_stack = None;
        } else {
            self.app_group = None;
            self.dock_stack = Some(g);
        }
        self.dir_stack = None;
        self.reset_stack_view();
    }

    /// Open the stack of a pinned directory. Its listing comes later. No other
    /// stack stays open.
    pub fn open_dir_stack(&mut self, id: String, path: String, card_open: bool)
        ensures
            old(self).rewound(*final(self)),
            final(self).one_open(),
            final(self).app_group is None,
            final(self).dock_stack is None,
            final(self).dir_stack matches Some(d) && d.id == id && d.path == path && d.in_grid
                == card_open && d.members@.len() == 0,
    {
        self.app_group = None;
        self.dock_stack = None;
        self.dir_stack = Some(DirStack { id, path, members: Vec::new(), in_grid: card_open });
        self.reset_stack_view();
    }

    /// The box that is open, in the grid or above the dock.
    pub fn open_box_group(&self) -> (r: Option<usize>)
        ensures
            r == open_group_of(*self),
    {
        match self.app_group {
            Some(g) => Some(g),
            None => self.dock_stack,
        }
    }

    /// Whether anything is open.
    pub fn stack_open(&self) -> (r: bool)
        ensures
            r == (open_group_of(*self) is Some || self.dir_stack is Some),
    {
        self.open_box_group().is_some() || self.dir_stack.is_some()
    }

    /// Let the open box shut. Returns whether one was open.
    pub fn close_group(&mut self) -> (r: bool)
        ensures
            r == (open_group_of(*old(self)) is Some || old(self).dir_stack is Some),
            *final(self) == (if r {
                BoxState { opening: false, ..*old(self) }
            } else {
                *old(self)
            }),
    {
        if !self.stack_open() {
            return false;
        }
        self.opening = false;
        true
    }

    /// The member in slot `k` of the page that shows.
    pub fn open_box_member_id(&self, groups: &[BoxGroup], left: bool, k: usize) -> (r: Option<
        String,
    >)
        ensures
            text::text_in(r) == member_in_slot(*self, groups@, left, k as int),
    {
        let local: usize = open_box_slot_member(left, k);
        let pages: &Vec<Vec<String>> = match &self.dir_stack {
            Some(d) => &d.members,
            None => match self.open_box_group() {
                Some(g) => {
                    if g >= groups.len() {
                        return None;
                    }
                    &groups[g].members
                },
                None => return None,
            },
        };
        if self.box_page < pages.len() && local < pages[self.box_page].len() {
            assert(page_texts(pages@)[self.box_page as int] == text::texts(
                pages@[self.box_page as int]@,
            ));
            Some(text::copy_text(&pages[self.box_page][local]))
        } else {
            None
        }
    }

    /// The entry of the member in slot `k`. `ids` holds the ids of the entries.
    pub fn open_box_member_idx(
        &self,
        groups: &[BoxGroup],
        left: bool,
        k: usize,
        ids: &[String],
    ) -> (r: Option<usize>)
        ensures
            r == (match member_in_slot(*self, groups@, left, k as int) {
                Some(id) => text::first_text(text::texts(ids@), id),
                None => None,
            }),
    {
        match self.open_box_member_id(groups, left, k) {
            Some(id) => text::place_of_text(ids, &id),
            None => None,
        }
    }

    /// Start to move the member in slot `k` within its box. The members of a
    /// directory stay where they are, and so does one that is busy. Returns
    /// whether a move began.
    pub fn begin_box_drag(
        &mut self,
        groups: &[BoxGroup],
        left: bool,
        k: usize,
        ids: &[String],
        busy: &[String],
    ) -> (r: bool)
        ensures
            ({
                let member = member_in_slot(*old(self), groups@, left, k as int);
                let entry = text::first_text(text::texts(ids@), member->Some_0);
                &&& r == (old(self).dir_stack is None && member is Some && !text::texts(
                    busy@,
                ).contains(member->Some_0) && entry is Some)
                &&& *final(self) == (if r {
                    BoxState { box_drag: entry, box_drag_page_at: None, ..*old(self) }
                } else {
                    *old(self)
                })
            }),
    {
        if self.dir_stack.is_some() {
            return false;
        }
        let id = match self.open_box_member_id(groups, left, k) {
            Some(id) => id,
            None => return false,
        };
        if text::any_same(busy, &id) {
            return false;
        }
        match text::place_of_text(ids, &id) {
            Some(e) => {
                self.box_drag = Some(e);
                self.box_drag_page_at = None;
                true
            },
            None => false,
        }
    }

    /// How many pages can be turned to: those of the open stack, at least one,
    /// and an empty one more while a member is moved.
    pub fn pages_to_turn(&self, groups: &[BoxGroup]) -> (r: Option<usize>)
        ensures
            match shown_members(*self, groups@) {
                Some(pages) => r is Some && r->Some_0 as int == (if pages.len() >= 1 {
                    pages.len() as int
                } else {
                    1
                }) + (if self.box_drag is Some && pages.len() < usize::MAX {
                    1int
                } else {
                    0
                }),
                None => r is None,
            },
    {
        let n: usize = match &self.dir_stack {
            Some(d) => d.members.len(),
            None => match self.open_box_group() {
                Some(g) => {
                    if g >= groups.len() {
                        return None;
                    }
                    groups[g].members.len()
                },
                None => return None,
            },
        };
        let pages: usize = if n >= 1 {
            n
        } else {
            1
        };
        if self.box_drag.is_some() && pages < usize::MAX {
            Some(pages + 1)
        } else {
            Some(pages)
        }
    }

    /// The page has turned: show it, within the pages there are.
    pub fn turn_box_page(&mut self, groups: &[BoxGroup], page: usize)
        ensures
            *final(self) == (match shown_members(*old(self), groups@) {
                Some(pages) => {
                    let last = (if pages.len() >= 1 {
                        pages.len() as int
                    } else {
                        1
                    }) + (if old(self).box_drag is Some && pages.len() < usize::MAX {
                        1int
                    } else {
                        0
                    }) - 1;
                    BoxState {
                        box_page: if page <= last {
                            page
                        } else {
                            last as usize
                        },
                        ..*old(self)
                    }
                },
                None => *old(self),
            }),
    {
        if let Some(n) = self.pages_to_turn(groups) {
            if page < n {
                self.box_page = page;
            } else {
                self.box_page = n - 1;
            }
        }
    }

    /// Drop the member that was moved. `target` is the display slot under the
    /// pointer, where there is one.
    pub fn drop_box_drag(
        &mut self,
        groups: &[BoxGroup],
        ids: &[String],
        target: Option<usize>,
    ) -> (r: BoxDrop)
        requires
            old(self).box_drag matches Some(e) ==> e < ids@.len(),
            open_group_of(*old(self)) matches Some(g) ==> g < groups@.len() ==> countable(
                page_texts(groups@[g as int].members@),
            ),
        ensures
            *final(self) == (if old(self).box_drag is Some {
                BoxState { box_drag: None, box_drag_page_at: None, ..*old(self) }
            } else {
                *old(self)
            }),
            match (old(self).box_drag, open_group_of(*old(self)), target) {
                (Some(e), Some(g), Some(t)) => {
                    let anchor = if g < groups@.len() {
                        anchor_of(
                            displayed(page_texts(groups@[g as int].members@), ids@[e as int]@),
                            t as int,
                        )
                    } else {
                        None
                    };
                    match r {
                        BoxDrop::Nowhere => false,
                        BoxDrop::Before(a) => anchor == Some(a@),
                        BoxDrop::PageEnd(p) => anchor is None && p == t / OPEN_BOX_CAP,
                    }
                },
                _ => r is Nowhere,
            },
    {
        let entry: usize = match self.box_drag {
            Some(e) => e,
            None => return BoxDrop::Nowhere,
        };
        self.box_drag = None;
        self.box_drag_page_at = None;
        let g: usize = match self.open_box_group() {
            Some(g) => g,
            None => return BoxDrop::Nowhere,
        };
        let t: usize = match target {
            Some(t) => t,
            None => return BoxDrop::Nowhere,
        };
        if g < groups.len() {
            if let Some(a) = find_anchor(&groups[g].members, &ids[entry], t) {
                return BoxDrop::Before(a);
            }
        }
        BoxDrop::PageEnd(t / OPEN_BOX_CAP)
    }

    /// Pull a member out of the open box, which shuts. A box of two is gone with
    /// that; of one above the dock the other member takes over the pin. `group`
    /// is the open box, `pins` what is pinned to the dock.
    pub fn pull_box_member_out(
        &mut self,
        group: &BoxGroup,
        member: &str,
        ids: &[String],
        pins: &[String],
    ) -> (r: Option<PullOut>)
        ensures
            old(self).one_open() ==> final(self).one_open(),
            ({
                let open = open_group_of(*old(self));
                let entry = text::first_text(text::texts(ids@), member@);
                let all = flat(page_texts(group.members@));
                let others = all.filter(|m: Seq<char>| m != member@);
                let from_dock = old(self).dock_stack is Some;
                let gone = from_dock && all.len() == 2 && others.len() > 0;
                match r {
                    None => (open is None || entry is None) && *final(self) == *old(self),
                    Some(p) => {
                        &&& open is Some
                        &&& entry == Some(p.entry)
                        &&& match p.survivor {
                            Some((s, pin)) => gone && s@ == others[0] && pin
                                == text::first_text(text::texts(pins@), "group:"@ + group.id@),
                            None => !gone,
                        }
                        &&& !final(self).opening
                        &&& final(self).app_group == (if from_dock {
                            old(self).app_group
                        } else {
                            None
                        })
                        &&& final(self).dock_stack == (if gone {
                            None
                        } else {
                            old(self).dock_stack
                        })
                        &&& final(self).collapsed == (gone || old(self).collapsed)
                        &&& if gone {
                            final(self).closing_members is None
                        } else if from_dock {
                            final(self).closing_members == old(self).closing_members
                        } else {
                            final(self).closing_members matches Some(v) && v@ == entries_of(
                                text::texts(ids@),
                                first_few(others),
                            )
                        }
                        &&& final(self).dir_stack == old(self).dir_stack
                        &&& final(self).box_page == old(self).box_page
                        &&& final(self).box_drag == old(self).box_drag
                        &&& final(self).box_drag_page_at == old(self).box_drag_page_at
                    },
                }
            }),
    {
        if self.open_box_group().is_none() {
            return None;
        }
        let entry: usize = match text::place_of_text(ids, member) {
            Some(e) => e,
            None => return None,
        };
        let all = flatten(&group.members);
        let others = without(&all, member);
        let from_dock: bool = self.dock_stack.is_some();
        self.opening = false;
        if !from_dock {
            self.app_group = None;
            let few = first_of(&others);
            self.closing_members = Some(entry_list(ids, &few));
            return Some(PullOut { entry, survivor: None });
        }
        if all.len() == 2 && others.len() > 0 {
            self.dock_stack = None;
            self.closing_members = None;
            self.collapsed = true;
            let gid = text::concat("group:", &group.id);
            let pin: Option<usize> = text::place_of_text(pins, &gid);
            assert(text::texts(others@)[0] == others@[0]@);
            return Some(
                PullOut { entry, survivor: Some((text::copy_text(&others[0]), pin)) },
            );
        }
        Some(PullOut { entry, survivor: None })
    }
}

/// The list without the members that are `skip`.
fn without(v: &[String], skip: &str) -> (r: Vec<String>)
    ensures
        text::texts(r@) == text::texts(v@).filter(|m: Seq<char>| m != skip@),
{
    broadcast use vstd::seq_lib::group_filter_ensures;

    let mut r: Vec<String> = Vec::new();
    let ghost t = text::texts(v@);
    let ghost keep = |m: Seq<char>| m != skip@;
    assert(t.take(0).filter(keep) == Seq::<Seq<char>>::empty()) by {
        reveal(Seq::filter);
    }
    assert(text::texts(r@) == t.take(0).filter(keep));
    for i in 0..v.len()
        invariant
            t == text::texts(v@),
            keep == (|m: Seq<char>| m != skip@),
            text::texts(r@) == t.take(i as int).filter(keep),
    {
        assert(t.take(i + 1).drop_last() == t.take(i as int));
        assert(t.take(i + 1).last() == v@[i as int]@);
        assert(t.take(i + 1).filter(keep) == (if keep(t[i as int]) {
            t.take(i as int).filter(keep).push(t[i as int])
        } else {
            t.take(i as int).filter(keep)
        })) by {
            reveal(Seq::filter);
        }
        if !text::same(&v[i], skip) {
            let ghost before = r@;
            r.push(text::copy_text(&v[i]));
            assert(text::texts(r@) == text::texts(before).push(v@[i as int]@));
        }
    }
    assert(t.take(t.len() as int) == t);
    r
}

/// The first page of a list.
pub open spec fn first_few(v: Seq<Seq<char>>) -> Seq<Seq<char>> {
    if v.len() <= OPEN_BOX_CAP {
        v
    } else {
        v.take(OPEN_BOX_CAP as int)
    }
}

fn first_of(v: &[String]) -> (r: Vec<String>)
    ensures
        text::texts(r@) == first_few(text::texts(v@)),
{
    let n: usize = if v.len() <= OPEN_BOX_CAP {
        v.len()
    } else {
        OPEN_BOX_CAP
    };
    let r = text::copy_texts(vstd::slice::slice_subrange(v, 0, n));
    assert(text::texts(v@.subrange(0, n as int)) == first_few(text::texts(v@)));
    r
}

/// The entries of those ids that have one.
pub open spec fn entries_of(ids: Seq<Seq<char>>, wanted: Seq<Seq<char>>) -> Seq<usize>
    decreases wanted.len(),
{
    if wanted.len() == 0 {
        Seq::empty()
    } else {
        let before = entries_of(ids, wanted.drop_last());
        match text::first_text(ids, wanted.last()) {
            Some(i) => before.push(i),
            None => before,
        }
    }
}

/// The entries of those ids that have one.
pub fn entry_list(ids: &[String], wanted: &[String]) -> (r: Vec<usize>)
    ensures
        r@ == entries_of(text::texts(ids@), text::texts(wanted@)),
{
    let mut r: Vec<usize> = Vec::new();
    let ghost t = text::texts(wanted@);
    assert(t.take(0) == Seq::<Seq<char>>::empty());
    for i in 0..wanted.len()
        invariant
            t == text::texts(wanted@),
            r@ == entries_of(text::texts(ids@), t.take(i as int)),
    {
        assert(t.take(i + 1).drop_last() == t.take(i as int));
        assert(t.take(i + 1).last() == wanted@[i as int]@);
        if let Some(e) = text::place_of_text(ids, &wanted[i]) {
            r.push(e);
        }
    }
    assert(t.take(t.len() as int) == t);
    r
}

/// The display slot under a point of an open box: the slot of its row and
/// column on the page that shows.
pub fn box_drag_slot_target(page: usize, left: bool, row: usize, col: usize) -> (r: Option<usize>)
    ensures
        r == (if page * OPEN_BOX_CAP + 8 <= usize::MAX {
            Some(
                (page * OPEN_BOX_CAP + content::slot_member(
                    left,
                    (if row < 3 {
                        row as int
                    } else {
                        2
                    }) * 3 + (if col < 3 {
                        col as int
                    } else {
                        2
                    }),
                )) as usize,
            )
        } else {
            None
        }),
{
    let local: usize = open_box_slot_member(left, content::box_cell(row, col));
    if page <= (usize::MAX - 8) / OPEN_BOX_CAP {
        Some(page * OPEN_BOX_CAP + local)
    } else {
        None
    }
}

// ---------------------------------------------------------------------------
// Where a dropped member lands
// ---------------------------------------------------------------------------

/// The members of a page other than `skip`, each with its display slot: they
/// close up around the one in hand.
pub open spec fn page_displayed(page: Seq<Seq<char>>, p: int, skip: Seq<char>) -> Seq<
    (int, Seq<char>),
>
    decreases page.len(),
{
    if page.len() == 0 {
        Seq::empty()
    } else {
        let before = page_displayed(page.drop_last(), p, skip);
        if page.last() == skip {
            before
        } else {
            before.push((p * OPEN_BOX_CAP + before.len(), page.last()))
        }
    }
}

/// The members of all pages other than `skip`, each with its display slot.
pub open spec fn displayed(pages: Seq<Seq<Seq<char>>>, skip: Seq<char>) -> Seq<(int, Seq<char>)>
    decreases pages.len(),
{
    if pages.len() == 0 {
        Seq::empty()
    } else {
        displayed(pages.drop_last(), skip) + page_displayed(
            pages.last(),
            pages.len() - 1,
            skip,
        )
    }
}

/// The first of the items at or behind slot `target` on its page.
pub open spec fn anchor_of(items: Seq<(int, Seq<char>)>, target: int) -> Option<Seq<char>>
    decreases items.len(),
{
    if items.len() == 0 {
        None
    } else {
        match anchor_of(items.drop_last(), target) {
            Some(a) => Some(a),
            None => {
                let (s, m) = items.last();
                if s >= target && s / OPEN_BOX_CAP as int == target / OPEN_BOX_CAP as int {
                    Some(m)
                } else {
                    None
                }
            },
        }
    }
}

/// Whether the display slots of all members can be counted.
pub open spec fn countable(pages: Seq<Seq<Seq<char>>>) -> bool {
    forall|p: int|
        0 <= p < pages.len() ==> p * OPEN_BOX_CAP + (#[trigger] pages[p]).len() <= usize::MAX
}

proof fn lemma_anchor_of_sum(a: Seq<(int, Seq<char>)>, b: Seq<(int, Seq<char>)>, target: int)
    ensures
        anchor_of(a + b, target) == (match anchor_of(a, target) {
            Some(m) => Some(m),
            None => anchor_of(b, target),
        }),
    decreases b.len(),
{
    if b.len() == 0 {
        assert(a + b == a);
    } else {
        assert((a + b).drop_last() == a + b.drop_last());
        lemma_anchor_of_sum(a, b.drop_last(), target);
    }
}

/// The member before which a member dropped at slot `target` goes: the first one
/// displayed at or behind it on its page.
fn find_anchor(pages: &[Vec<String>], skip: &str, target: usize) -> (r: Option<String>)
    requires
        countable(page_texts(pages@)),
    ensures
        text::text_in(r) == anchor_of(displayed(page_texts(pages@), skip@), target as int),
{
    let ghost t = page_texts(pages@);
    let ghost want = target as int;
    assert(t.take(0) == Seq::<Seq<Seq<char>>>::empty());
    assert(displayed(t.take(0), skip@) == Seq::<(int, Seq<char>)>::empty());
    for p in 0..pages.len()
        invariant
            t == page_texts(pages@),
            want == target,
            countable(t),
            anchor_of(displayed(t.take(p as int), skip@), want) is None,
    {
        let ghost page = t[p as int];
        assert(page == text::texts(pages@[p as int]@));
        assert(t.take(p + 1).drop_last() == t.take(p as int));
        assert(t.take(p + 1).last() == page);
        let mut w: usize = 0;
        assert(page.take(0) == Seq::<Seq<char>>::empty());
        assert(anchor_of(page_displayed(page.take(0), p as int, skip@), want) is None);
        assert(p * OPEN_BOX_CAP + page.len() <= usize::MAX);
        let count: usize = pages[p].len();
        for i in 0..count
            invariant
                p < pages@.len(),
                count == pages@[p as int]@.len(),
                t == page_texts(pages@),
                want == target,
                page == t[p as int],
                page == text::texts(pages@[p as int]@),
                page.len() == pages@[p as int]@.len(),
                p * OPEN_BOX_CAP + page.len() <= usize::MAX,
                w <= i,
                w == page_displayed(page.take(i as int), p as int, skip@).len(),
                anchor_of(page_displayed(page.take(i as int), p as int, skip@), want) is None,
                anchor_of(displayed(t.take(p as int), skip@), want) is None,
                t.take(p + 1).drop_last() == t.take(p as int),
                t.take(p + 1).last() == page,
        {
            assert(page.take(i + 1).drop_last() == page.take(i as int));
            assert(page.take(i + 1).last() == pages@[p as int]@[i as int]@);
            let ghost had = page_displayed(page.take(i as int), p as int, skip@);
            let ghost now = page_displayed(page.take(i + 1), p as int, skip@);
            if !text::same(&pages[p][i], skip) {
                let s: usize = p * OPEN_BOX_CAP + w;
                assert(now == had.push((s as int, pages@[p as int]@[i as int]@)));
                assert(now.drop_last() == had);
                assert(dragging::anchors(s, target, OPEN_BOX_CAP) == (s >= want && s as int
                    / OPEN_BOX_CAP as int == want / OPEN_BOX_CAP as int));
                if s >= target && s / OPEN_BOX_CAP == target / OPEN_BOX_CAP {
                    proof {
                        lemma_anchored(t, page, p as int, i as int, skip@, want);
                    }
                    return Some(text::copy_text(&pages[p][i]));
                }
                w = w + 1;
            } else {
                assert(now == had);
            }
        }
        assert(page.take(page.len() as int) == page);
        proof {
            lemma_anchor_of_sum(
                displayed(t.take(p as int), skip@),
                page_displayed(page, p as int, skip@),
                want,
            );
            assert(displayed(t.take(p + 1), skip@) == displayed(t.take(p as int), skip@)
                + page_displayed(page, p as int, skip@));
        }
    }
    assert(t.take(t.len() as int) == t);
    None
}

proof fn lemma_displayed_grows(page: Seq<Seq<char>>, p: int, i: int, skip: Seq<char>, want: int)
    requires
        0 <= i <= page.len(),
        anchor_of(page_displayed(page.take(i), p, skip), want) is Some,
    ensures
        anchor_of(page_displayed(page, p, skip), want) == anchor_of(
            page_displayed(page.take(i), p, skip),
            want,
        ),
    decreases page.len() - i,
{
    if i < page.len() {
        assert(page.take(i + 1).drop_last() == page.take(i));
        let had = page_displayed(page.take(i), p, skip);
        let now = page_displayed(page.take(i + 1), p, skip);
        if page.take(i + 1).last() != skip {
            assert(now.drop_last() == had);
        }
        lemma_displayed_grows(page, p, i + 1, skip, want);
    } else {
        assert(page.take(i) == page);
    }
}

proof fn lemma_pages_displayed_grow(t: Seq<Seq<Seq<char>>>, n: int, skip: Seq<char>, want: int)
    requires
        0 <= n <= t.len(),
        anchor_of(displayed(t.take(n), skip), want) is Some,
    ensures
        anchor_of(displayed(t, skip), want) == anchor_of(displayed(t.take(n), skip), want),
    decreases t.len() - n,
{
    if n < t.len() {
        assert(t.take(n + 1).drop_last() == t.take(n));
        lemma_anchor_of_sum(
            displayed(t.take(n), skip),
            page_displayed(t.take(n + 1).last(), n, skip),
            want,
        );
        lemma_pages_displayed_grow(t, n + 1, skip, want);
    } else {
        assert(t.take(n) == t);
    }
}

proof fn lemma_anchored(
    t: Seq<Seq<Seq<char>>>,
    page: Seq<Seq<char>>,
    p: int,
    i: int,
    skip: Seq<char>,
    want: int,
)
    requires
        0 <= p < t.len(),
        page == t[p],
        0 <= i < page.len(),
        page[i] != skip,
        anchor_of(displayed(t.take(p), skip), want) is None,
        anchor_of(page_displayed(page.take(i), p, skip), want) is None,
        ({
            let s = p * OPEN_BOX_CAP + page_displayed(page.take(i), p, skip).len();
            s >= want && s / OPEN_BOX_CAP as int == want / OPEN_BOX_CAP as int
        }),
    ensures
        anchor_of(displayed(t, skip), want) == Some(page[i]),
{
    let had = page_displayed(page.take(i), p, skip);
    assert(page.take(i + 1).drop_last() == page.take(i));
    let now = page_displayed(page.take(i + 1), p, skip);
    assert(now == had.push((p * OPEN_BOX_CAP + had.len(), page[i])));
    assert(now.drop_last() == had);
    assert(anchor_of(now, want) == Some(page[i]));
    lemma_displayed_grows(page, p, i + 1, skip, want);
    assert(t.take(p + 1).drop_last() == t.take(p));
    assert(t.take(p + 1).last() == page);
    lemma_anchor_of_sum(displayed(t.take(p), skip), page_displayed(page, p, skip), want);
    lemma_pages_displayed_grow(t, p + 1, skip, want);
}

// ---------------------------------------------------------------------------
// The cell of a box
// ---------------------------------------------------------------------------

/// What the preview of a box shows: the icons of its first four members that
/// have one.
pub open spec fn minis_of(
    members: Seq<Seq<char>>,
    ids: Seq<Seq<char>>,
    layers: Seq<u32>,
    k: int,
) -> Option<u32> {
    if k < members.len() {
        match text::first_text(ids, members[k]) {
            Some(i) => if i < layers.len() {
                Some(layers[i as int])
            } else {
                None
            },
            None => None,
        }
    } else {
        None
    }
}

/// The id of the cell of a box, and the icons of its preview.
pub fn group_cell(group: &BoxGroup, ids: &[String], layers: &[u32]) -> (r: (String, Vec<Option<u32>>))
    ensures
        r.0@ == "group:"@ + group.id@,
        r.1@ == Seq::new(
            4,
            |k: int| minis_of(flat(page_texts(group.members@)), text::texts(ids@), layers@, k),
        ),
{
    let members = flatten(&group.members);
    let ghost all = flat(page_texts(group.members@));
    let mut minis: Vec<Option<u32>> = Vec::new();
    for k in 0..4
        invariant
            all == text::texts(members@),
            minis@ == Seq::new(
                k as nat,
                |j: int| minis_of(all, text::texts(ids@), layers@, j),
            ),
    {
        let mut mini: Option<u32> = None;
        let k: usize = k;
        if k < members.len() {
            assert(all[k as int] == members@[k as int]@);
            if let Some(i) = text::place_of_text(ids, &members[k]) {
                if i < layers.len() {
                    mini = Some(layers[i]);
                }
            }
        }
        minis.push(mini);
    }
    (text::concat("group:", &group.id), minis)
}

/// A member dropped on an empty slot at the end of a page goes to the end of
/// that page: nothing on another page draws it away.
pub proof fn law_a_drop_stays_on_its_page(
    pages: Seq<Seq<Seq<char>>>,
    skip: Seq<char>,
    target: int,
)
    requires
        0 <= target,
        forall|i: int|
            0 <= i < displayed(pages, skip).len() && (#[trigger] displayed(pages, skip)[i]).0
                / OPEN_BOX_CAP as int == target / OPEN_BOX_CAP as int ==> displayed(
                pages,
                skip,
            )[i].0 < target,
    ensures
        anchor_of(displayed(pages, skip), target) is None,
{
    lemma_no_anchor(displayed(pages, skip), target);
}

proof fn lemma_no_anchor(items: Seq<(int, Seq<char>)>, target: int)
    requires
        forall|i: int|
            0 <= i < items.len() && (#[trigger] items[i]).0 / OPEN_BOX_CAP as int == target
                / OPEN_BOX_CAP as int ==> items[i].0 < target,
    ensures
        anchor_of(items, target) is None,
    decreases items.len(),
{
    if items.len() > 0 {
        assert(items.last() == items[items.len() - 1]);
        assert forall|i: int|
            0 <= i < items.drop_last().len() && (#[trigger] items.drop_last()[i]).0
                / OPEN_BOX_CAP as int == target / OPEN_BOX_CAP as int implies items.drop_last()[i].0
            < target by {
            assert(items.drop_last()[i] == items[i]);
        }
        lemma_no_anchor(items.drop_last(), target);
    }
}

// ---------------------------------------------------------------------------
// What a box shows
// ---------------------------------------------------------------------------

/// The members of a box come page by page, each page in its order.
pub proof fn law_pages_follow_each_other(
    pages: Seq<Seq<Seq<char>>>,
    page: Seq<Seq<char>>,
    more: Seq<Seq<Seq<char>>>,
)
    ensures
        flat(Seq::empty()) == Seq::<Seq<char>>::empty(),
        flat(seq![page]) == page,
        flat(pages + more) == flat(pages) + flat(more),
    decreases more.len(),
{
    let one = seq![page];
    assert(one.drop_last() == Seq::<Seq<Seq<char>>>::empty());
    assert(one.last() == page);
    assert(flat(one.drop_last()) == Seq::<Seq<char>>::empty());
    assert(flat(one) == page);
    if more.len() == 0 {
        assert(pages + more == pages);
        assert(flat(pages) + flat(more) == flat(pages));
    } else {
        law_pages_follow_each_other(pages, page, more.drop_last());
        assert((pages + more).drop_last() == pages + more.drop_last());
        assert(flat(pages) + (flat(more.drop_last()) + more.last()) == (flat(pages) + flat(
            more.drop_last(),
        )) + more.last());
    }
}

/// An open directory shows what it holds; without one the open box does, the one in
/// the grid before the one above the dock; and without any nothing shows.
pub proof fn law_which_members_show(s: BoxState, groups: Seq<BoxGroup>)
    ensures
        s.dir_stack matches Some(d) ==> shown_members(s, groups) == Some(page_texts(d.members@)),
        s.dir_stack is None && s.app_group is Some && s.app_group->Some_0 < groups.len()
            ==> shown_members(s, groups) == Some(
            page_texts(groups[s.app_group->Some_0 as int].members@),
        ),
        s.dir_stack is None && s.app_group is None && s.dock_stack is Some && s.dock_stack->Some_0
            < groups.len() ==> shown_members(s, groups) == Some(
            page_texts(groups[s.dock_stack->Some_0 as int].members@),
        ),
        s.dir_stack is None && s.app_group is None && s.dock_stack is None ==> shown_members(
            s,
            groups,
        ) is None,
        s.app_group is Some ==> open_group_of(s) == s.app_group,
        s.app_group is None ==> open_group_of(s) == s.dock_stack,
{
}

/// A slot of an open stack holds a member of the page that shows, and one beyond its
/// members holds none.
pub proof fn law_slots_are_of_the_page_that_shows(
    s: BoxState,
    groups: Seq<BoxGroup>,
    left: bool,
    k: int,
)
    requires
        0 <= k,
    ensures
        member_in_slot(s, groups, left, k) matches Some(m) ==> {
            let pages = shown_members(s, groups)->Some_0;
            &&& shown_members(s, groups) is Some
            &&& s.box_page < pages.len()
            &&& 0 <= content::slot_member(left, k) < pages[s.box_page as int].len()
            &&& m == pages[s.box_page as int][content::slot_member(left, k)]
        },
        member_in_slot(s, groups, left, k) is None ==> (shown_members(s, groups) matches Some(pages)
            ==> s.box_page >= pages.len() || content::slot_member(left, k) < 0
            || content::slot_member(left, k) >= pages[s.box_page as int].len()),
{
}

/// A page holds nine at most: the first nine of a longer list, and all of a shorter
/// one.
pub proof fn law_a_page_holds_nine(v: Seq<Seq<char>>, i: int)
    ensures
        v.len() <= 9 ==> first_few(v) == v,
        v.len() > 9 ==> first_few(v).len() == 9,
        0 <= i < first_few(v).len() ==> first_few(v)[i] == v[i],
{
}

/// Wanted ids become their entries in the order in which they are wanted, each the
/// first entry with its id; an id without an entry is passed over.
pub proof fn law_wanted_ids_become_entries(
    ids: Seq<Seq<char>>,
    wanted: Seq<Seq<char>>,
    id: Seq<char>,
)
    requires
        ids.len() <= usize::MAX,
    ensures
        entries_of(ids, Seq::empty()) == Seq::<usize>::empty(),
        !ids.contains(id) ==> entries_of(ids, wanted.push(id)) == entries_of(ids, wanted),
        ids.contains(id) ==> {
            let r = entries_of(ids, wanted.push(id));
            &&& r.len() == entries_of(ids, wanted).len() + 1
            &&& r.drop_last() == entries_of(ids, wanted)
            &&& r.last() < ids.len()
            &&& ids[r.last() as int] == id
            &&& forall|k: int| 0 <= k < r.last() ==> ids[k] != id
        },
{
    assert(wanted.push(id).drop_last() == wanted);
    text::lemma_first_text(ids, id);
    if ids.contains(id) {
        let r = entries_of(ids, wanted.push(id));
        assert(r.drop_last() == entries_of(ids, wanted));
    }
}

/// The members of a page close up around the one in hand: those before it keep their
/// slots, and those behind it move up by one. Without it on the page all keep theirs.
pub proof fn law_members_close_up_around_the_hand(
    before: Seq<Seq<char>>,
    skip: Seq<char>,
    after: Seq<Seq<char>>,
    p: int,
    i: int,
)
    requires
        !before.contains(skip),
        !after.contains(skip),
    ensures
        page_displayed(before, p, skip).len() == before.len(),
        0 <= i < before.len() ==> page_displayed(before, p, skip)[i] == (p * 9 + i, before[i]),
        ({
            let r = page_displayed(before.push(skip) + after, p, skip);
            &&& r.len() == before.len() + after.len()
            &&& 0 <= i < before.len() ==> r[i] == (p * 9 + i, before[i])
            &&& before.len() <= i < before.len() + after.len() ==> r[i] == (
                p * 9 + i,
                after[i - before.len()],
            )
        }),
    decreases before.len() + after.len(),
{
    if after.len() == 0 {
        if before.len() > 0 {
            let d = before.drop_last();
            assert forall|x: Seq<char>| d.contains(x) implies before.contains(x) by {
                let k = choose|k: int| 0 <= k < d.len() && d[k] == x;
                assert(before[k] == x);
            }
            law_members_close_up_around_the_hand(d, skip, after, p, i);
            assert(before.contains(before[before.len() - 1]));
            assert(d.len() == before.len() - 1);
            assert(0 <= i < d.len() ==> d[i] == before[i]);
        }
        assert(before.push(skip) + after == before.push(skip));
        assert(before.push(skip).drop_last() == before);
    } else {
        let d = after.drop_last();
        assert forall|x: Seq<char>| d.contains(x) implies after.contains(x) by {
            let k = choose|k: int| 0 <= k < d.len() && d[k] == x;
            assert(after[k] == x);
        }
        law_members_close_up_around_the_hand(before, skip, d, p, i);
        assert(after.contains(after[after.len() - 1]));
        assert((before.push(skip) + after).drop_last() == before.push(skip) + d);
        assert(before.len() <= i < before.len() + d.len() ==> d[i - before.len()] == after[i
            - before.len()]);
    }
}

/// A drop goes before the first member that shows at or behind its slot on the same
/// page of nine; where there is none it goes before none.
pub proof fn law_a_drop_goes_before_the_next_of_its_page(
    items: Seq<(int, Seq<char>)>,
    target: int,
)
    ensures
        anchor_of(items, target) matches Some(m) ==> exists|i: int|
            0 <= i < items.len() && (#[trigger] items[i]).1 == m && items[i].0 >= target
                && items[i].0 / 9 == target / 9 && forall|k: int|
                0 <= k < i ==> (#[trigger] items[k]).0 < target || items[k].0 / 9 != target / 9,
        anchor_of(items, target) is None ==> forall|k: int|
            0 <= k < items.len() ==> (#[trigger] items[k]).0 < target || items[k].0 / 9 != target
                / 9,
    decreases items.len(),
{
    if items.len() > 0 {
        let d = items.drop_last();
        law_a_drop_goes_before_the_next_of_its_page(d, target);
        assert(forall|k: int| 0 <= k < d.len() ==> items[k] == d[k]);
        let n = items.len() - 1;
        assert(items[n] == items.last());
        if anchor_of(d, target) is Some {
            let m = anchor_of(d, target)->Some_0;
            let i = choose|i: int|
                0 <= i < d.len() && (#[trigger] d[i]).1 == m && d[i].0 >= target && d[i].0 / 9
                    == target / 9 && forall|k: int|
                    0 <= k < i ==> (#[trigger] d[k]).0 < target || d[k].0 / 9 != target / 9;
            assert(items[i].1 == m);
        } else if anchor_of(items, target) is Some {
            assert(items[n].1 == anchor_of(items, target)->Some_0);
        }
    }
}

/// A box shows the icons of its first members: of each the layer of the first entry
/// with its id, and nothing for one without an entry.
pub proof fn law_a_box_shows_its_first_members(
    members: Seq<Seq<char>>,
    ids: Seq<Seq<char>>,
    layers: Seq<u32>,
    k: int,
    e: int,
)
    requires
        0 <= k,
        ids.len() == layers.len(),
        ids.len() <= usize::MAX,
    ensures
        k >= members.len() ==> minis_of(members, ids, layers, k) is None,
        k < members.len() && !ids.contains(members[k]) ==> minis_of(members, ids, layers, k) is None,
        k < members.len() && 0 <= e < ids.len() && ids[e] == members[k] && (forall|j: int|
            0 <= j < e ==> ids[j] != members[k]) ==> minis_of(members, ids, layers, k) == Some(
            layers[e],
        ),
{
    if k < members.len() {
        text::lemma_first_text(ids, members[k]);
        if 0 <= e < ids.len() && ids[e] == members[k] {
            assert(ids.contains(members[k]));
        }
    }
}

/// Opening a box shows its first page, growing from shut, and keeps what is dragged; at
/// most one stack is open at any time.
pub proof fn law_what_opening_begins_with(old_state: BoxState, new_state: BoxState)
    ensures
        old_state.rewound(new_state) <==> new_state.opening && new_state.collapsed
            && new_state.box_page == 0 && new_state.closing_members == old_state.closing_members
            && new_state.box_drag == old_state.box_drag && new_state.box_drag_page_at
            == old_state.box_drag_page_at,
        new_state.one_open() <==> !(new_state.app_group is Some && new_state.dock_stack is Some)
            && !(new_state.app_group is Some && new_state.dir_stack is Some)
            && !(new_state.dock_stack is Some && new_state.dir_stack is Some),
{
}

} // verus!
