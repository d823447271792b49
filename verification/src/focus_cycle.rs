//! Interaction-aware focus cycling.
//!
//! Interaction commits the cycle, not a timer. A toggle from a settled window
//! goes to the window last *worked in*; a toggle without an interaction since
//! continues down the ranked list and wraps home at its end; an interaction
//! commits the walk. A window that was merely passed through never earns
//! anything and never becomes the partner.
use vstd::prelude::*;
use crate::order;
use crate::text;
use std::collections::HashMap;

verus! {

broadcast use vstd::std_specs::hash::group_hash_axioms;

/// How long the compositor's own focus gets to settle after a workspace change
/// before it is corrected, in milliseconds.
pub const WS_FOCUS_SETTLE: u64 = 90;

/// One window's ranking inputs.
#[derive(Debug)]
pub struct Candidate {
    pub addr: String,
    /// A number that is larger for a larger decayed interaction score.
    pub score: u32,
    /// When the window was last interacted with, if ever.
    pub last: Option<u64>,
    /// The compositor's focus recency, 0 for the focused window.
    pub history: i32,
}

/// Whether candidate `i` ranks before candidate `j`: a higher score, then a
/// fresher focus.
pub open spec fn ranks_before(cands: Seq<Candidate>) -> spec_fn(int, int) -> bool {
    |i: int, j: int|
        cands[i].score > cands[j].score || cands[i].score == cands[j].score && cands[i].history
            < cands[j].history
}

/// Whether the candidate at place `k` of the order `p` is the partner: it was
/// interacted with last, and of several at one moment it stands last.
pub open spec fn is_partner(cands: Seq<Candidate>, p: Seq<usize>, k: int) -> bool {
    &&& 0 <= k < p.len()
    &&& cands[p[k] as int].last is Some
    &&& forall|m: int|
        0 <= m < p.len() && m != k && cands[(#[trigger] p[m]) as int].last is Some
            ==> cands[p[m] as int].last->Some_0 < cands[p[k] as int].last->Some_0 || (
        cands[p[m] as int].last->Some_0 == cands[p[k] as int].last->Some_0 && m < k)
}

/// The order `p` with the partner lifted to the front.
pub open spec fn lifted(cands: Seq<Candidate>, p: Seq<usize>) -> Seq<usize> {
    if exists|k: int| is_partner(cands, p, k) {
        let k = choose|k: int| is_partner(cands, p, k);
        seq![p[k]] + p.remove(k)
    } else {
        p
    }
}

/// The ranking of the candidates, as positions.
pub open spec fn ranking(cands: Seq<Candidate>) -> Seq<usize> {
    lifted(cands, order::sorted_positions(cands.len() as int, ranks_before(cands)))
}

/// The addresses of the candidates at `p`.
pub open spec fn addresses(cands: Seq<Candidate>, p: Seq<usize>) -> Seq<Seq<char>> {
    Seq::new(p.len(), |i: int| cands[p[i] as int].addr@)
}

proof fn lemma_partner_unique(cands: Seq<Candidate>, p: Seq<usize>, k: int, m: int)
    requires
        is_partner(cands, p, k),
        is_partner(cands, p, m),
    ensures
        k == m,
{
    if k != m {
        assert(cands[p[k] as int].last is Some);
        assert(cands[p[m] as int].last is Some);
    }
}

/// Rank candidates: the most recently interacted window first, then by score,
/// then by the compositor's focus history.
pub fn rank(cands: &[Candidate]) -> (r: Vec<String>)
    ensures
        text::texts(r@) == addresses(cands@, ranking(cands@)),
        order::permutes(ranking(cands@), cands@.len() as int),
{
    let ghost lt = ranks_before(cands@);
    let less = |i: usize, j: usize| -> (b: bool)
        requires
            i < cands@.len(),
            j < cands@.len(),
        ensures
            b == lt(i as int, j as int),
        {
            cands[i].score > cands[j].score || (cands[i].score == cands[j].score
                && cands[i].history < cands[j].history)
        };
    let mut p = order::stable_sort(cands.len(), less, Ghost(lt));
    let ghost p0 = p@;
    let mut best: Option<usize> = None;
    for k in 0..p.len()
        invariant
            p@ == p0,
            order::permutes(p0, cands@.len() as int),
            match best {
                Some(b) => is_partner(cands@, p0.take(k as int), b as int),
                None => forall|m: int|
                    0 <= m < k ==> cands@[(#[trigger] p0[m]) as int].last is None,
            },
    {
        let ghost now = p0.take(k + 1);
        let ghost was = p0.take(k as int);
        assert(forall|m: int| 0 <= m < k ==> now[m] == was[m]);
        assert(forall|m: int| 0 <= m < k ==> was[m] == p0[m]);
        assert(now[k as int] == p0[k as int]);
        match cands[p[k]].last {
            Some(t) => {
                let better: bool = match best {
                    Some(b) => match cands[p[b]].last {
                        Some(u) => u <= t,
                        None => true,
                    },
                    None => true,
                };
                if better {
                    best = Some(k);
                    proof {
                        assert forall|m: int|
                            0 <= m < now.len() && m != k && cands@[(#[trigger] now[m]) as int].last
                                is Some implies cands@[now[m] as int].last->Some_0
                            < cands@[now[k as int] as int].last->Some_0 || (
                        cands@[now[m] as int].last->Some_0
                            == cands@[now[k as int] as int].last->Some_0 && m < k) by {
                            assert(was[m] == now[m]);
                        }
                    }
                } else {
                    proof {
                        let b = best->Some_0 as int;
                        assert(is_partner(cands@, was, b));
                        assert(is_partner(cands@, now, b)) by {
                            assert forall|m: int|
                                0 <= m < now.len() && m != b
                                    && cands@[(#[trigger] now[m]) as int].last
                                    is Some implies cands@[now[m] as int].last->Some_0
                                < cands@[now[b] as int].last->Some_0 || (
                            cands@[now[m] as int].last->Some_0
                                == cands@[now[b] as int].last->Some_0 && m < b) by {
                                if m < k {
                                    assert(was[m] == now[m]);
                                }
                            }
                        }
                    }
                }
            },
            None => {
                proof {
                    if let Some(b) = best {
                        assert(is_partner(cands@, now, b as int)) by {
                            assert forall|m: int|
                                0 <= m < now.len() && m != b
                                    && cands@[(#[trigger] now[m]) as int].last
                                    is Some implies cands@[now[m] as int].last->Some_0
                                < cands@[now[b as int] as int].last->Some_0 || (
                            cands@[now[m] as int].last->Some_0
                                == cands@[now[b as int] as int].last->Some_0 && m < b) by {
                                assert(was[m] == now[m]);
                            }
                        }
                    }
                }
            },
        }
    }
    assert(p0.take(p0.len() as int) == p0);
    if let Some(b) = best {
        proof {
            let k = choose|k: int| is_partner(cands@, p0, k);
            assert(is_partner(cands@, p0, b as int));
            lemma_partner_unique(cands@, p0, k, b as int);
        }
        let lead: usize = p.remove(b);
        p.insert(0, lead);
        assert(p@ == seq![p0[b as int]] + p0.remove(b as int));
    } else {
        assert(!exists|k: int| is_partner(cands@, p0, k));
    }
    assert(p@ == ranking(cands@));
    assert(order::permutes(p@, cands@.len() as int)) by {
        if let Some(b) = best {
            let q = p@;
            assert forall|x: int, y: int| 0 <= x < y < q.len() implies #[trigger] q[x]
                != #[trigger] q[y] by {
                let i = if x == 0 {
                    b as int
                } else if x - 1 < b {
                    x - 1
                } else {
                    x
                };
                let j = if y - 1 < b {
                    y - 1
                } else {
                    y
                };
                assert(q[x] == p0[i]);
                assert(q[y] == p0[j]);
                assert(i != j);
            }
            assert forall|x: int| 0 <= x < q.len() implies (#[trigger] q[x]) < cands@.len() by {
                let i = if x == 0 {
                    b as int
                } else if x - 1 < b {
                    x - 1
                } else {
                    x
                };
                assert(q[x] == p0[i]);
            }
        }
    }
    let mut r: Vec<String> = Vec::new();
    for i in 0..p.len()
        invariant
            p@ == ranking(cands@),
            order::permutes(p@, cands@.len() as int),
            text::texts(r@) == addresses(cands@, p@).take(i as int),
            r@.len() == i,
    {
        r.push(text::copy_text(cands[p[i]].addr.as_str()));
        assert(text::texts(r@) == addresses(cands@, p@).take(i + 1));
    }
    assert(addresses(cands@, p@).take(p@.len() as int) == addresses(cands@, p@));
    r
}

/// Where the focus of a workspace just arrived at should end up: our own note
/// of where the user was (`want`), what the arrival focused, and as the last
/// resort the compositor's history. `None` leaves it alone.
pub open spec fn settled(
    want: Option<Seq<char>>,
    focused: Option<Seq<char>>,
    history: Option<Seq<char>>,
) -> Option<Seq<char>> {
    if want is Some {
        want
    } else if focused is Some {
        None
    } else {
        history
    }
}

/// The text in an optional borrowed text.
pub open spec fn in_ref(o: Option<&str>) -> Option<Seq<char>> {
    match o {
        Some(s) => Some(s@),
        None => None,
    }
}

/// Where the focus of a workspace just arrived at should settle.
pub fn settle_target(want: Option<&str>, focused: Option<&str>, history: Option<&str>) -> (r:
    Option<String>)
    ensures
        text::text_in(r) == settled(in_ref(want), in_ref(focused), in_ref(history)),
{
    match want {
        Some(w) => Some(text::copy_text(w)),
        None => match focused {
            Some(_) => None,
            None => match history {
                Some(h) => Some(text::copy_text(h)),
                None => None,
            },
        },
    }
}

/// A cycle in flight: the frozen ranked order and the place in it.
#[derive(Debug)]
pub struct FocusWalk {
    /// Ranked addresses, the starting window last so that the wrap goes home.
    pub order: Vec<String>,
    /// The place of the window that the walk has focused.
    pub idx: usize,
    /// Whether this walk cycles the current workspace or the others.
    pub same_ws: bool,
}

impl FocusWalk {
    /// A walk has somewhere to go, and stands at a place of its order.
    pub open spec fn wf(self) -> bool {
        self.idx < self.order@.len()
    }

    /// The window at `steps` toggles from here.
    pub open spec fn target_after(self, steps: int) -> Seq<char> {
        self.order@[(self.idx + steps) % (self.order@.len() as int)]@
    }
}

/// One window of the compositor's list, with its interaction record.
#[derive(Debug)]
pub struct WindowInfo {
    pub addr: String,
    /// Positive for an ordinary workspace.
    pub workspace: i64,
    pub score: u32,
    pub last: Option<u64>,
    pub history: i32,
}

/// The focus memory of the daemon.
#[derive(Debug)]
pub struct FocusState {
    /// The window last focused on each workspace.
    pub ws_focus: HashMap<i64, String>,
    /// The workspace whose focus is about to be restored.
    pub ws_restoring: Option<i64>,
    pub walk: Option<FocusWalk>,
    /// The window that the walk is about to focus itself.
    pub walk_focus_pending: Option<String>,
}

/// What an arrival on a workspace asks for.
#[derive(Debug)]
pub enum Arrival {
    /// Nothing.
    Leave,
    /// Give the focus back to the staged window.
    Refocus(String),
    /// After [`WS_FOCUS_SETTLE`], settle the focus with this note.
    Settle(Option<String>),
}

/// What the stage holds while it owns the screen.
#[derive(Debug)]
pub struct StageView {
    pub on: bool,
    pub staged: Option<String>,
    /// Whether the staged window is on the workspace arrived at.
    pub staged_here: bool,
}

/// The workspace of the focused window.
pub open spec fn workspace_of(windows: Seq<WindowInfo>, focused: Option<Seq<char>>) -> Option<
    i64,
> {
    if exists|i: int| 0 <= i < windows.len() && focused == Some((#[trigger] windows[i]).addr@) {
        let i = choose|i: int|
            0 <= i < windows.len() && focused == Some((#[trigger] windows[i]).addr@) && forall|
                k: int,
            |
                0 <= k < i ==> focused != Some((#[trigger] windows[k]).addr@);
        Some(windows[i].workspace)
    } else {
        None
    }
}

/// Whether a toggle may go to the window: not the focused one, on an ordinary
/// workspace, and on the current one (or on another, for `same_ws` false) where
/// any is current.
pub open spec fn may_go_to(
    w: WindowInfo,
    focused: Option<Seq<char>>,
    same_ws: bool,
    current: Option<i64>,
) -> bool {
    &&& focused != Some(w.addr@)
    &&& w.workspace > 0
    &&& match current {
        Some(ws) => same_ws == (w.workspace == ws),
        None => true,
    }
}

/// The windows that a fresh walk may go to, as ranking inputs and in order.
pub open spec fn reachable(
    windows: Seq<WindowInfo>,
    focused: Option<Seq<char>>,
    same_ws: bool,
    current: Option<i64>,
) -> Seq<(Seq<char>, u32, Option<u64>, i32)>
    decreases windows.len(),
{
    if windows.len() == 0 {
        Seq::empty()
    } else {
        let before = reachable(windows.drop_last(), focused, same_ws, current);
        let w = windows.last();
        if may_go_to(w, focused, same_ws, current) {
            before.push((w.addr@, w.score, w.last, w.history))
        } else {
            before
        }
    }
}

/// The ranking inputs as plain values.
pub open spec fn inputs(cands: Seq<Candidate>) -> Seq<(Seq<char>, u32, Option<u64>, i32)> {
    Seq::new(
        cands.len(),
        |i: int| (cands[i].addr@, cands[i].score, cands[i].last, cands[i].history),
    )
}

fn is_focused(addr: &str, focused: &Option<String>) -> (r: bool)
    ensures
        r == (text::text_in(*focused) == Some(addr@)),
{
    match focused {
        Some(f) => text::same(f.as_str(), addr),
        None => false,
    }
}

fn current_workspace(windows: &[WindowInfo], focused: &Option<String>) -> (r: Option<i64>)
    ensures
        r == workspace_of(windows@, text::text_in(*focused)),
{
    let ghost f = text::text_in(*focused);
    for i in 0..windows.len()
        invariant
            f == text::text_in(*focused),
            forall|k: int| 0 <= k < i ==> f != Some((#[trigger] windows@[k]).addr@),
    {
        if is_focused(windows[i].addr.as_str(), focused) {
            proof {
                let k = choose|k: int|
                    0 <= k < windows@.len() && f == Some((#[trigger] windows@[k]).addr@) && forall|
                        m: int,
                    |
                        0 <= m < k ==> f != Some((#[trigger] windows@[m]).addr@);
                assert(f == Some(windows@[i as int].addr@));
                assert(k == i);
            }
            return Some(windows[i].workspace);
        }
    }
    None
}

/// The candidates of a fresh walk.
pub fn candidates(windows: &[WindowInfo], focused: &Option<String>, same_ws: bool) -> (r: Vec<
    Candidate,
>)
    ensures
        inputs(r@) == reachable(
            windows@,
            text::text_in(*focused),
            same_ws,
            workspace_of(windows@, text::text_in(*focused)),
        ),
{
    let current = current_workspace(windows, focused);
    let ghost f = text::text_in(*focused);
    let mut r: Vec<Candidate> = Vec::new();
    assert(windows@.take(0) == Seq::<WindowInfo>::empty());
    for i in 0..windows.len()
        invariant
            f == text::text_in(*focused),
            inputs(r@) == reachable(windows@.take(i as int), f, same_ws, current),
    {
        let ghost was = inputs(r@);
        assert(windows@.take(i + 1).drop_last() == windows@.take(i as int));
        assert(windows@.take(i + 1).last() == windows@[i as int]);
        let w = &windows[i];
        let place: bool = match current {
            Some(ws) => same_ws == (w.workspace == ws),
            None => true,
        };
        if !is_focused(w.addr.as_str(), focused) && w.workspace > 0 && place {
            r.push(
                Candidate {
                    addr: text::copy_text(w.addr.as_str()),
                    score: w.score,
                    last: w.last,
                    history: w.history,
                },
            );
            assert(inputs(r@) == was.push((w.addr@, w.score, w.last, w.history)));
        }
    }
    assert(windows@.take(windows@.len() as int) == windows@);
    r
}

/// The order of a fresh walk: the ranking, and home last where the walk stays
/// on the workspace.
pub open spec fn walk_order(
    cands: Seq<Candidate>,
    focused: Option<Seq<char>>,
    same_ws: bool,
) -> Seq<Seq<char>> {
    let ranked = addresses(cands, ranking(cands));
    if same_ws && focused is Some {
        ranked.push(focused->Some_0)
    } else {
        ranked
    }
}

impl FocusState {
    /// Any walk in flight has somewhere to go.
    pub open spec fn wf(self) -> bool {
        self.walk matches Some(w) ==> w.wf()
    }

    /// A memory with nothing in it.
    pub fn new() -> (r: FocusState)
        ensures
            r.wf(),
            r.ws_focus@ == Map::<i64, String>::empty(),
            r.ws_restoring is None,
            r.walk is None,
            r.walk_focus_pending is None,
    {
        FocusState {
            ws_focus: HashMap::new(),
            ws_restoring: None,
            walk: None,
            walk_focus_pending: None,
        }
    }

    /// Note the focused window and its workspace, unless a restore is in
    /// flight there: what is focused now is then what it is about to correct.
    pub fn note_ws_focus(&mut self, active: Option<(String, i64)>)
        requires
            old(self).wf(),
        ensures
            final(self).wf(),
            final(self).ws_focus@ == (match active {
                Some(a) => if old(self).ws_restoring == Some(a.1) {
                    old(self).ws_focus@
                } else {
                    old(self).ws_focus@.insert(a.1, a.0)
                },
                None => old(self).ws_focus@,
            }),
            final(self).ws_restoring == old(self).ws_restoring,
            final(self).walk == old(self).walk,
            final(self).walk_focus_pending == old(self).walk_focus_pending,
    {
        if let Some((addr, ws)) = active {
            let restoring: bool = match self.ws_restoring {
                Some(r) => r == ws,
                None => false,
            };
            if !restoring {
                self.ws_focus.insert(ws, addr);
            }
        }
    }

    /// A workspace became active. The overview owns the focus while it is up,
    /// and so does the stage, which takes it straight back.
    pub fn on_workspace_changed(
        &mut self,
        ws: i64,
        overview_active: bool,
        stage: &StageView,
    ) -> (r: Arrival)
        requires
            old(self).wf(),
        ensures
            final(self).wf(),
            final(self).ws_focus@ == old(self).ws_focus@,
            final(self).walk == old(self).walk,
            final(self).walk_focus_pending == old(self).walk_focus_pending,
            final(self).ws_restoring == (if overview_active || stage.on {
                old(self).ws_restoring
            } else {
                Some(ws)
            }),
            match r {
                Arrival::Leave => overview_active || stage.on && (stage.staged is None
                    || stage.staged_here),
                Arrival::Refocus(a) => !overview_active && stage.on && !stage.staged_here
                    && text::text_in(stage.staged) == Some(a@),
                Arrival::Settle(want) => !overview_active && !stage.on && text::text_in(want) == (
                if old(self).ws_focus@.contains_key(ws) {
                    Some(old(self).ws_focus@[ws]@)
                } else {
                    None
                }),
            },
    {
        if overview_active {
            return Arrival::Leave;
        }
        if stage.on {
            if let Some(a) = &stage.staged {
                if !stage.staged_here {
                    return Arrival::Refocus(text::copy_text(a.as_str()));
                }
            }
            return Arrival::Leave;
        }
        let want = match self.ws_focus.get(&ws) {
            Some(a) => Some(text::copy_text(a.as_str())),
            None => None,
        };
        self.ws_restoring = Some(ws);
        Arrival::Settle(want)
    }

    /// The time to settle is over: which window, if any, the focus of `ws`
    /// should be put on. Nothing where the world moved on meanwhile (the
    /// overview is up, or another workspace is active), and nothing where the
    /// focus is there already. `history` is read only where nothing is focused.
    pub fn restore_ws_focus(
        &mut self,
        ws: i64,
        want: &Option<String>,
        overview_active: bool,
        active_ws: Option<i64>,
        focused: &Option<String>,
        history: &Option<String>,
    ) -> (r: Option<String>)
        requires
            old(self).wf(),
        ensures
            final(self).wf(),
            final(self).ws_focus@ == old(self).ws_focus@,
            final(self).walk == old(self).walk,
            final(self).walk_focus_pending == old(self).walk_focus_pending,
            final(self).ws_restoring is None,
            text::text_in(r) == ({
                let target = settled(
                    text::text_in(*want),
                    text::text_in(*focused),
                    text::text_in(*history),
                );
                if overview_active || active_ws != Some(ws) || target == text::text_in(*focused) {
                    None
                } else {
                    target
                }
            }),
    {
        self.ws_restoring = None;
        if overview_active {
            return None;
        }
        let here: bool = match active_ws {
            Some(a) => a == ws,
            None => false,
        };
        if !here {
            return None;
        }
        let target = match want {
            Some(w) => text::copy_text(w.as_str()),
            None => match focused {
                Some(_) => return None,
                None => match history {
                    Some(h) => text::copy_text(h.as_str()),
                    None => return None,
                },
            },
        };
        if is_focused(target.as_str(), focused) {
            return None;
        }
        Some(target)
    }

    /// The window chosen by [`FocusState::restore_ws_focus`] has been looked
    /// for on `ws`. Returns whether to focus it; a window that is gone takes
    /// its note with it.
    pub fn settle_found(&mut self, ws: i64, target: String, here: bool) -> (r: bool)
        requires
            old(self).wf(),
        ensures
            final(self).wf(),
            r == here,
            final(self).ws_focus@ == (if here {
                old(self).ws_focus@.insert(ws, target)
            } else {
                old(self).ws_focus@.remove(ws)
            }),
            final(self).ws_restoring == old(self).ws_restoring,
            final(self).walk == old(self).walk,
            final(self).walk_focus_pending == old(self).walk_focus_pending,
    {
        if here {
            self.ws_focus.insert(ws, target);
        } else {
            self.ws_focus.remove(&ws);
        }
        here
    }

    /// The user interacted with the focused window: any walk is committed.
    /// Nothing happens where no window is focused.
    pub fn note_interaction(&mut self, any_focused: bool)
        requires
            old(self).wf(),
        ensures
            final(self).wf(),
            final(self).ws_focus@ == old(self).ws_focus@,
            final(self).ws_restoring == old(self).ws_restoring,
            any_focused ==> final(self).walk is None && final(self).walk_focus_pending is None,
            !any_focused ==> *final(self) == *old(self),
    {
        if !any_focused {
            return;
        }
        self.walk = None;
        self.walk_focus_pending = None;
    }

    /// The focus moved to `addr`. A hop of the walk itself lets the walk go
    /// on; any other change abandons it.
    pub fn note_focus_change(&mut self, addr: &str)
        requires
            old(self).wf(),
        ensures
            final(self).wf(),
            final(self).ws_focus@ == old(self).ws_focus@,
            final(self).ws_restoring == old(self).ws_restoring,
            text::text_in(old(self).walk_focus_pending) == Some(addr@) ==> final(self).walk
                == old(self).walk && final(self).walk_focus_pending is None,
            text::text_in(old(self).walk_focus_pending) != Some(addr@) ==> final(self).walk is None
                && final(self).walk_focus_pending == old(self).walk_focus_pending,
    {
        if is_focused(addr, &self.walk_focus_pending) {
            self.walk_focus_pending = None;
            return;
        }
        self.walk = None;
    }

    /// Cycle the focus. A walk of the same kind that nothing has committed
    /// goes on; otherwise a fresh one is ranked from `world`, the compositor's
    /// windows and the focused one. Returns the window to focus.
    pub fn cycle_focus(
        &mut self,
        same_ws: bool,
        world: &Option<(Vec<WindowInfo>, Option<String>)>,
    ) -> (r: Option<String>)
        requires
            old(self).wf(),
        ensures
            final(self).wf(),
            final(self).ws_focus@ == old(self).ws_focus@,
            final(self).ws_restoring == old(self).ws_restoring,
            cycled(*old(self), *final(self), same_ws, *world, text::text_in(r)),
    {
        let ghost before = *self;
        let goes_on: bool = match &self.walk {
            Some(w) => w.same_ws == same_ws,
            None => false,
        };
        if goes_on {
            if let Some(mut walk) = self.walk.take() {
                let n: usize = walk.order.len();
                let ghost w0 = walk;
                let next: usize = if walk.idx + 1 < n {
                    walk.idx + 1
                } else {
                    0
                };
                assert(next == (walk.idx + 1) % (n as int)) by {
                    if walk.idx + 1 < n {
                        vstd::arithmetic::div_mod::lemma_small_mod(
                            (walk.idx + 1) as nat,
                            n as nat,
                        );
                    } else {
                        vstd::arithmetic::div_mod::lemma_mod_self_0(n as int);
                    }
                }
                walk.idx = next;
                let target = text::copy_text(walk.order[next].as_str());
                self.walk = Some(walk);
                self.walk_focus_pending = Some(text::copy_text(target.as_str()));
                return Some(target);
            }
        }
        let (windows, focused) = match world {
            Some((w, f)) => (w, f),
            None => return None,
        };
        let cands = candidates(windows.as_slice(), focused, same_ws);
        assert(inputs(cands@).len() == cands@.len());
        if cands.len() == 0 {
            return None;
        }
        let mut order = rank(&cands);
        let ghost ranked = text::texts(order@);
        if same_ws {
            if let Some(home) = focused {
                order.push(text::copy_text(home.as_str()));
                assert(text::texts(order@) == ranked.push(home@));
            }
        }
        assert(text::texts(order@) == walk_order(cands@, text::text_in(*focused), same_ws));
        assert(text::texts(order@)[0] == order@[0]@);
        let target = text::copy_text(order[0].as_str());
        self.walk = Some(FocusWalk { order, idx: 0, same_ws });
        self.walk_focus_pending = Some(text::copy_text(target.as_str()));
        Some(target)
    }

    /// The compositor refused to focus the walk's window.
    pub fn walk_focus_failed(&mut self)
        requires
            old(self).wf(),
        ensures
            final(self).wf(),
            final(self).walk_focus_pending is None,
            final(self).walk == old(self).walk,
            final(self).ws_focus@ == old(self).ws_focus@,
            final(self).ws_restoring == old(self).ws_restoring,
    {
        self.walk_focus_pending = None;
    }
}

/// Whether an uncommitted walk of this kind is in flight.
pub open spec fn walking(s: FocusState, same_ws: bool) -> bool {
    s.walk matches Some(w) && w.same_ws == same_ws
}

/// How a toggle takes the state from `before` to `after`, and which window it
/// focuses.
pub open spec fn cycled(
    before: FocusState,
    after: FocusState,
    same_ws: bool,
    world: Option<(Vec<WindowInfo>, Option<String>)>,
    target: Option<Seq<char>>,
) -> bool {
    if walking(before, same_ws) {
        let w = before.walk->Some_0;
        &&& after.walk matches Some(v) && v.order == w.order && v.same_ws == same_ws && v.idx == (
        w.idx + 1) % (w.order@.len() as int)
        &&& target == Some(w.target_after(1))
        &&& text::text_in(after.walk_focus_pending) == target
    } else {
        match world {
            None => after.walk == before.walk && after.walk_focus_pending
                == before.walk_focus_pending && target is None,
            Some(x) => fresh(before, after, same_ws, x.0@, text::text_in(x.1), target),
        }
    }
}

/// How a fresh walk begins: nowhere to go changes nothing; else the ranked
/// windows are frozen and the first one is focused.
pub open spec fn fresh(
    before: FocusState,
    after: FocusState,
    same_ws: bool,
    windows: Seq<WindowInfo>,
    focused: Option<Seq<char>>,
    target: Option<Seq<char>>,
) -> bool {
    let there = reachable(windows, focused, same_ws, workspace_of(windows, focused));
    if there.len() == 0 {
        after.walk == before.walk && after.walk_focus_pending == before.walk_focus_pending
            && target is None
    } else {
        exists|cands: Seq<Candidate>|
            {
                &&& #[trigger] inputs(cands) == there
                &&& after.walk matches Some(v) && v.idx == 0 && v.same_ws == same_ws
                    && text::texts(v.order@) == walk_order(cands, focused, same_ws)
                &&& target == Some(walk_order(cands, focused, same_ws)[0])
                &&& text::text_in(after.walk_focus_pending) == target
            }
    }
}

/// Some candidate that was ever interacted with is always ranked first over
/// those that were only passed through.
pub proof fn law_passed_through_windows_never_lead(cands: Seq<Candidate>, i: int)
    requires
        0 <= i < cands.len() <= usize::MAX,
        cands[i].last is Some,
    ensures
        ranking(cands).len() == cands.len(),
        cands[ranking(cands)[0] as int].last is Some,
        forall|j: int|
            0 <= j < cands.len() && (#[trigger] cands[j]).last is Some ==> cands[j].last->Some_0
                <= cands[ranking(cands)[0] as int].last->Some_0,
{
    let lt = ranks_before(cands);
    let n = cands.len() as int;
    let p = order::lemma_sort_exists(n, lt);
    order::lemma_stable_sort_unique(p, order::sorted_positions(n, lt), n, lt);
    order::lemma_permutes_covers(p, n, i);
    let a = choose|a: int| 0 <= a < n && p[a] == i;
    let k = lemma_partner_exists(cands, p, n, a);
    let m = choose|m: int| is_partner(cands, p, m);
    lemma_partner_unique(cands, p, k, m);
    assert(ranking(cands)[0] == p[k]);
    assert forall|j: int| 0 <= j < cands.len() && (#[trigger] cands[j]).last is Some implies
        cands[j].last->Some_0 <= cands[ranking(cands)[0] as int].last->Some_0 by {
        order::lemma_permutes_covers(p, n, j);
        let b = choose|b: int| 0 <= b < n && p[b] == j;
        if b != k {
            assert(cands[p[b] as int].last is Some);
        }
    }
}

proof fn lemma_partner_exists(cands: Seq<Candidate>, p: Seq<usize>, n: int, a: int) -> (k: int)
    requires
        p.len() == n,
        0 <= a < n,
        cands[p[a] as int].last is Some,
    ensures
        is_partner(cands, p, k),
{
    lemma_partner_below(cands, p, n, a)
}

proof fn lemma_partner_below(cands: Seq<Candidate>, p: Seq<usize>, n: int, a: int) -> (k: int)
    requires
        0 <= a < n <= p.len(),
        cands[p[a] as int].last is Some,
    ensures
        is_partner(cands, p.take(n), k),
        n == p.len() ==> is_partner(cands, p, k),
    decreases n,
{
    let now = p.take(n);
    assert(forall|m: int| 0 <= m < n ==> now[m] == p[m]);
    assert(n == p.len() ==> now == p);
    if exists|b: int| 0 <= b < n - 1 && cands[(#[trigger] p[b]) as int].last is Some {
        let b = choose|b: int| 0 <= b < n - 1 && cands[(#[trigger] p[b]) as int].last is Some;
        let k = lemma_partner_below(cands, p, n - 1, b);
        let was = p.take(n - 1);
        assert(forall|m: int| 0 <= m < n - 1 ==> was[m] == p[m]);
        let last = cands[p[n - 1] as int].last;
        let r = if last is Some && cands[p[k] as int].last->Some_0 <= last->Some_0 {
            n - 1
        } else {
            k
        };
        assert forall|m: int|
            0 <= m < now.len() && m != r && cands[(#[trigger] now[m]) as int].last is Some implies
            cands[now[m] as int].last->Some_0 < cands[now[r] as int].last->Some_0 || (
        cands[now[m] as int].last->Some_0 == cands[now[r] as int].last->Some_0 && m < r) by {
            if m < n - 1 && m != k {
                assert(was[m] == now[m]);
            }
        }
        r
    } else {
        assert(a == n - 1);
        assert forall|m: int|
            0 <= m < now.len() && m != a && cands[(#[trigger] now[m]) as int].last is Some implies
            cands[now[m] as int].last->Some_0 < cands[now[a] as int].last->Some_0 || (
        cands[now[m] as int].last->Some_0 == cands[now[a] as int].last->Some_0 && m < a) by {
            assert(p[m] == now[m]);
        }
        a
    }
}

/// A walk wraps home: toggling on from the start, the last stop before the
/// start of the order is the window it began from, and one more toggle begins
/// the order again.
pub proof fn law_a_walk_wraps_home(w: FocusWalk)
    requires
        w.wf(),
        w.idx == 0,
    ensures
        w.target_after(w.order@.len() - 1) == w.order@[w.order@.len() - 1]@,
        w.target_after(w.order@.len() as int) == w.order@[0]@,
{
    let n = w.order@.len() as int;
    vstd::arithmetic::div_mod::lemma_small_mod((n - 1) as nat, n as nat);
    vstd::arithmetic::div_mod::lemma_mod_self_0(n);
}

/// An interaction commits the walk: whatever was in flight, the next toggle
/// begins a fresh one.
pub proof fn law_interaction_commits_the_walk(
    before: FocusState,
    after: FocusState,
    same_ws: bool,
    world: Option<(Vec<WindowInfo>, Option<String>)>,
    target: Option<Seq<char>>,
)
    requires
        before.walk is None,
        cycled(before, after, same_ws, world, target),
    ensures
        match world {
            Some(x) => fresh(before, after, same_ws, x.0@, text::text_in(x.1), target),
            None => target is None,
        },
{
}

/// Our own note wins over whatever the arrival focused, a first visit is the
/// compositor's call, and an empty space is given nothing.
pub proof fn law_a_space_hands_back_its_window(
    want: Seq<char>,
    focused: Option<Seq<char>>,
    history: Option<Seq<char>>,
)
    ensures
        settled(Some(want), focused, history) == Some(want),
        focused is Some ==> settled(None, focused, history) is None,
        settled(None, None, history) == history,
{
}

/// The workspace of the focused window is the one that it is on; without a focused
/// window in the list there is none.
pub proof fn law_the_focused_window_gives_the_workspace(
    windows: Seq<WindowInfo>,
    focused: Option<Seq<char>>,
    f: int,
)
    requires
        -1 <= f < windows.len(),
        f >= 0 ==> focused == Some(windows[f].addr@),
        forall|k: int|
            0 <= k < windows.len() && (f < 0 || k < f) ==> focused != Some(
                (#[trigger] windows[k]).addr@,
            ),
    ensures
        f >= 0 ==> workspace_of(windows, focused) == Some(windows[f].workspace),
        f < 0 ==> workspace_of(windows, focused) is None,
{
    if f >= 0 {
        let i = choose|i: int|
            0 <= i < windows.len() && focused == Some((#[trigger] windows[i]).addr@) && forall|
                k: int,
            |
                0 <= k < i ==> focused != Some((#[trigger] windows[k]).addr@);
        assert(focused == Some(windows[f].addr@));
        assert(i == f);
    }
}

/// Which windows a toggle may go to: with a focused window, those of its own
/// workspace for a walk on the workspace, and those of the others for a walk across
/// them. They come in the order of the list, each once and with its own record, and
/// neither the focused window nor one on a workspace that is not ordinary is among
/// them. `at` says where they stand in the list.
pub proof fn law_a_walk_keeps_to_its_side(
    windows: Seq<WindowInfo>,
    focused: Option<Seq<char>>,
    same_ws: bool,
    current: Option<i64>,
) -> (at: Seq<int>)
    ensures
        ({
            let there = reachable(windows, focused, same_ws, current);
            &&& at.len() == there.len()
            &&& forall|a: int|
                0 <= a < at.len() ==> {
                    &&& 0 <= (#[trigger] at[a]) < windows.len()
                    &&& there[a] == (
                        windows[at[a]].addr@,
                        windows[at[a]].score,
                        windows[at[a]].last,
                        windows[at[a]].history,
                    )
                    &&& focused != Some(windows[at[a]].addr@)
                    &&& windows[at[a]].workspace > 0
                    &&& current matches Some(ws) ==> (same_ws ==> windows[at[a]].workspace == ws)
                        && (!same_ws ==> windows[at[a]].workspace != ws)
                }
            &&& forall|a: int, b: int| 0 <= a < b < at.len() ==> #[trigger] at[a] < #[trigger] at[b]
            &&& forall|i: int|
                0 <= i < windows.len() && focused != Some((#[trigger] windows[i]).addr@)
                    && windows[i].workspace > 0 && (current matches Some(ws) ==> (if same_ws {
                    windows[i].workspace == ws
                } else {
                    windows[i].workspace != ws
                })) ==> at.contains(i)
        }),
    decreases windows.len(),
{
    if windows.len() == 0 {
        Seq::empty()
    } else {
        let d = windows.drop_last();
        let was = law_a_walk_keeps_to_its_side(d, focused, same_ws, current);
        let n = windows.len() - 1;
        assert(forall|i: int| 0 <= i < n ==> windows[i] == d[i]);
        if may_go_to(windows[n], focused, same_ws, current) {
            let now = was.push(n);
            assert(now[was.len() as int] == n);
            assert forall|i: int| was.contains(i) implies now.contains(i) by {
                let a = choose|a: int| 0 <= a < was.len() && was[a] == i;
                assert(now[a] == i);
            }
            assert forall|i: int|
                0 <= i < windows.len() && focused != Some((#[trigger] windows[i]).addr@)
                    && windows[i].workspace > 0 && (current matches Some(ws) ==> (if same_ws {
                    windows[i].workspace == ws
                } else {
                    windows[i].workspace != ws
                })) implies now.contains(i) by {
                if i < n {
                    assert(d[i] == windows[i]);
                    assert(was.contains(i));
                }
            }
            now
        } else {
            assert forall|i: int|
                0 <= i < windows.len() && focused != Some((#[trigger] windows[i]).addr@)
                    && windows[i].workspace > 0 && (current matches Some(ws) ==> (if same_ws {
                    windows[i].workspace == ws
                } else {
                    windows[i].workspace != ws
                })) implies was.contains(i) by {
                if i < n {
                    assert(d[i] == windows[i]);
                }
            }
            was
        }
    }
}

/// Behind the partner the windows stand by their score, the higher first, those of
/// one score by their focus, the fresher first, and those that are alike in both in
/// the order of the list.
pub proof fn law_the_ranking_goes_by_score_and_freshness(cands: Seq<Candidate>, a: int, b: int)
    requires
        cands.len() <= usize::MAX,
        0 <= a < b < cands.len(),
        a > 0 || forall|i: int| 0 <= i < cands.len() ==> (#[trigger] cands[i]).last is None,
    ensures
        order::permutes(ranking(cands), cands.len() as int),
        ({
            let x = ranking(cands)[a];
            let y = ranking(cands)[b];
            &&& cands[x as int].score >= cands[y as int].score
            &&& cands[x as int].score == cands[y as int].score ==> cands[x as int].history
                <= cands[y as int].history
            &&& cands[x as int].score == cands[y as int].score && cands[x as int].history
                == cands[y as int].history ==> x < y
        }),
{
    let lt = ranks_before(cands);
    let n = cands.len() as int;
    let p = order::lemma_sort_exists(n, lt);
    order::lemma_stable_sort_unique(p, order::sorted_positions(n, lt), n, lt);
    lemma_lifted_permutes(cands, p);
    if exists|k: int| is_partner(cands, p, k) {
        let k = choose|k: int| is_partner(cands, p, k);
        assert(cands[p[k] as int].last is Some);
        let i = if a - 1 < k {
            a - 1
        } else {
            a
        };
        let j = if b - 1 < k {
            b - 1
        } else {
            b
        };
        assert(a > 0);
        assert(ranking(cands)[a] == p[i]);
        assert(ranking(cands)[b] == p[j]);
        assert(i < j);
        assert(!lt(p[j] as int, p[i] as int));
    } else {
        assert(ranking(cands) == p);
        assert(!lt(p[b] as int, p[a] as int));
    }
}

proof fn lemma_lifted_permutes(cands: Seq<Candidate>, p: Seq<usize>)
    requires
        order::permutes(p, cands.len() as int),
    ensures
        order::permutes(lifted(cands, p), cands.len() as int),
{
    if exists|k: int| is_partner(cands, p, k) {
        let k = choose|k: int| is_partner(cands, p, k);
        let q = lifted(cands, p);
        assert forall|x: int| 0 <= x < q.len() implies (#[trigger] q[x]) < cands.len() by {
            let i = if x == 0 {
                k
            } else if x - 1 < k {
                x - 1
            } else {
                x
            };
            assert(q[x] == p[i]);
        }
        assert forall|x: int, y: int| 0 <= x < y < q.len() implies #[trigger] q[x]
            != #[trigger] q[y] by {
            let i = if x == 0 {
                k
            } else if x - 1 < k {
                x - 1
            } else {
                x
            };
            let j = if y - 1 < k {
                y - 1
            } else {
                y
            };
            assert(q[x] == p[i]);
            assert(q[y] == p[j]);
        }
    }
}

/// A fresh walk from the window at `f` focuses a window of its side, and every other
/// window of that side is on the walk: of the focused window's own workspace for
/// `same_ws`, and otherwise of another one. Home is the end of a walk on the
/// workspace, and a walk across the others never comes home.
pub proof fn law_a_fresh_walk_goes_where_it_should(
    before: FocusState,
    after: FocusState,
    same_ws: bool,
    world: (Vec<WindowInfo>, Option<String>),
    f: int,
    target: Option<Seq<char>>,
)
    requires
        before.walk matches Some(w) ==> w.same_ws != same_ws,
        cycled(before, after, same_ws, Some(world), target),
        world.0@.len() <= usize::MAX,
        0 <= f < world.0@.len(),
        text::text_in(world.1) == Some(world.0@[f].addr@),
        forall|k: int| 0 <= k < f ==> (#[trigger] world.0@[k]).addr@ != world.0@[f].addr@,
    ensures
        ({
            let ws = world.0@;
            let home = ws[f];
            &&& target matches Some(t) ==> exists|i: int|
                0 <= i < ws.len() && (#[trigger] ws[i]).addr@ == t && t != home.addr@
                    && ws[i].workspace > 0 && same_ws == (ws[i].workspace == home.workspace)
            &&& target is None ==> forall|i: int|
                0 <= i < ws.len() ==> (#[trigger] ws[i]).addr@ == home.addr@ || ws[i].workspace <= 0
                    || same_ws != (ws[i].workspace == home.workspace)
            &&& target is Some ==> {
                &&& after.walk matches Some(w) && w.same_ws == same_ws && w.idx == 0
                    && w.order@.len() > 0 && w.order@[0]@ == target->Some_0
                &&& same_ws ==> text::texts(after.walk->Some_0.order@).last() == home.addr@
                &&& !same_ws ==> !text::texts(after.walk->Some_0.order@).contains(home.addr@)
                &&& forall|i: int|
                    0 <= i < ws.len() && (#[trigger] ws[i]).addr@ != home.addr@ && ws[i].workspace
                        > 0 && same_ws == (ws[i].workspace == home.workspace) ==> text::texts(
                        after.walk->Some_0.order@,
                    ).contains(ws[i].addr@)
                &&& forall|a: int|
                    0 <= a < after.walk->Some_0.order@.len() ==> exists|i: int|
                        0 <= i < ws.len() && (#[trigger] ws[i]).addr@ == (
                        #[trigger] after.walk->Some_0.order@[a])@ && same_ws == (ws[i].workspace
                            == home.workspace)
            }
        }),
{
    let ws = world.0@;
    let home = ws[f];
    let focused = text::text_in(world.1);
    law_the_focused_window_gives_the_workspace(ws, focused, f);
    let current = workspace_of(ws, focused);
    let there = reachable(ws, focused, same_ws, current);
    let at = law_a_walk_keeps_to_its_side(ws, focused, same_ws, current);
    assert(fresh(before, after, same_ws, ws, focused, target));
    if there.len() == 0 {
        assert forall|i: int| 0 <= i < ws.len() implies (#[trigger] ws[i]).addr@ == home.addr@
            || ws[i].workspace <= 0 || same_ws != (ws[i].workspace == home.workspace) by {
            if ws[i].addr@ != home.addr@ && ws[i].workspace > 0 && same_ws == (ws[i].workspace
                == home.workspace) {
                assert(at.contains(i));
            }
        }
    } else {
        let cands = choose|cands: Seq<Candidate>|
            {
                &&& #[trigger] inputs(cands) == there
                &&& after.walk matches Some(v) && v.idx == 0 && v.same_ws == same_ws
                    && text::texts(v.order@) == walk_order(cands, focused, same_ws)
                &&& target == Some(walk_order(cands, focused, same_ws)[0])
                &&& text::text_in(after.walk_focus_pending) == target
            };
        assert(inputs(cands).len() == cands.len());
        lemma_at_bound(at, ws.len() as int);
        let n = cands.len() as int;
        let lt = ranks_before(cands);
        let p = order::lemma_sort_exists(n, lt);
        order::lemma_stable_sort_unique(p, order::sorted_positions(n, lt), n, lt);
        lemma_lifted_permutes(cands, p);
        let r = ranking(cands);
        let names = walk_order(cands, focused, same_ws);
        let v = after.walk->Some_0;
        assert(text::texts(v.order@).len() == v.order@.len());
        assert(names.len() == n + (if same_ws {
            1int
        } else {
            0int
        }));
        assert forall|a: int| 0 <= a < n implies names[a] == ws[at[r[a] as int]].addr@ by {
            assert(names[a] == cands[r[a] as int].addr@);
            assert(inputs(cands)[r[a] as int] == there[r[a] as int]);
        }
        assert(names[0] == ws[at[r[0] as int]].addr@);
        assert forall|i: int|
            0 <= i < ws.len() && (#[trigger] ws[i]).addr@ != home.addr@ && ws[i].workspace > 0
                && same_ws == (ws[i].workspace == home.workspace) implies names.contains(
            ws[i].addr@,
        ) by {
            assert(at.contains(i));
            let c = choose|c: int| 0 <= c < at.len() && at[c] == i;
            order::lemma_permutes_covers(r, n, c);
            let a = choose|a: int| 0 <= a < n && r[a] == c;
            assert(names[a] == ws[i].addr@);
        }
        assert forall|a: int| 0 <= a < v.order@.len() implies exists|i: int|
            0 <= i < ws.len() && (#[trigger] ws[i]).addr@ == (#[trigger] v.order@[a])@ && same_ws
                == (ws[i].workspace == home.workspace) by {
            assert(text::texts(v.order@)[a] == v.order@[a]@);
            if a < n {
                assert(names[a] == ws[at[r[a] as int]].addr@);
            } else {
                assert(ws[f].addr@ == v.order@[a]@);
            }
        }
        if !same_ws && names.contains(home.addr@) {
            let a = choose|a: int| 0 <= a < names.len() && names[a] == home.addr@;
            assert(names[a] == ws[at[r[a] as int]].addr@);
        }
        assert(text::texts(v.order@)[0] == v.order@[0]@);
    }
}

proof fn lemma_at_bound(at: Seq<int>, n: int)
    requires
        0 <= n,
        forall|a: int| 0 <= a < at.len() ==> 0 <= (#[trigger] at[a]) < n,
        forall|a: int, b: int| 0 <= a < b < at.len() ==> #[trigger] at[a] < #[trigger] at[b],
    ensures
        at.len() <= n,
    decreases n,
{
    if at.len() > 0 {
        let d = at.drop_last();
        let m = at.last();
        assert forall|a: int| 0 <= a < d.len() implies 0 <= (#[trigger] d[a]) < m by {
            assert(at[a] < at[at.len() - 1]);
        }
        lemma_at_bound(d, m);
    }
}

/// Toggling on goes to the next window of the order, and from its end to its start.
pub proof fn law_a_walk_goes_on(
    before: FocusState,
    after: FocusState,
    same_ws: bool,
    world: Option<(Vec<WindowInfo>, Option<String>)>,
    target: Option<Seq<char>>,
)
    requires
        before.wf(),
        before.walk matches Some(w) && w.same_ws == same_ws,
        cycled(before, after, same_ws, world, target),
    ensures
        ({
            let w = before.walk->Some_0;
            let next = if w.idx + 1 < w.order@.len() {
                w.idx + 1
            } else {
                0
            };
            &&& target == Some(w.order@[next]@)
            &&& text::text_in(after.walk_focus_pending) == target
            &&& after.walk matches Some(v) && v.order == w.order && v.idx == next && v.same_ws
                == same_ws
        }),
{
    let w = before.walk->Some_0;
    let n = w.order@.len() as int;
    if w.idx + 1 < n {
        vstd::arithmetic::div_mod::lemma_small_mod((w.idx + 1) as nat, n as nat);
    } else {
        vstd::arithmetic::div_mod::lemma_mod_self_0(n);
    }
}

} // verus!
