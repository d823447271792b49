//! The clipboard history and the box that browses it.
//!
//! The newest clip stands first. A clip that is copied again moves to the front
//! and keeps its id and its record of pastes. What has to be done outside (write
//! the history, remove files, serve a clip, open a link) comes back as
//! [`ClipEffects`]. Moments are milliseconds on one clock.
use vstd::prelude::*;
use crate::clipboard::{copy_entry, file_source, ClipEntry, ClipKind, PasteRecord, PASTE_LOG_CAP};
use crate::clipboard;
use crate::order;
use crate::animation::LEAVE_HOLD;
use crate::text;

verus! {

/// How many entries the history keeps.
pub const MAX_HISTORY: usize = 200;

/// How long a fresh clip beats the small pill.
pub const BEAT_DURATION: u64 = 500;

/// What the pointer is over inside the open box.
#[derive(Debug, Clone, Copy, PartialEq, Eq, Structural)]
pub enum ClipHit {
    Nothing,
    /// A row of the list.
    Row(usize),
    /// A row's delete control.
    Delete(usize),
    /// The footer's buttons.
    NewNote,
    Dictionary,
    ClearAll,
    /// The detail view's controls.
    Back,
    DetailDelete,
    DetailCopy,
    DetailMore,
    /// Open the link; only a link has it.
    DetailOpen,
}

/// What is under the pointer, by parts of the box.
#[derive(Debug, Clone, Copy, PartialEq, Eq)]
pub struct ClipPoint {
    /// Whether the back button is.
    pub back: bool,
    /// The control of the detail view that is.
    pub pill: Option<ClipHit>,
    /// Whether the footer is.
    pub footer: bool,
    /// The button of the footer that is.
    pub button: Option<ClipHit>,
    /// The row that is, and whether its delete control is.
    pub row: Option<(usize, bool)>,
}

/// What a turn of the wheel moves.
#[derive(Debug, Clone, Copy, PartialEq, Eq, Structural)]
pub enum AxisTarget {
    /// The answer of the dictionary.
    Dictionary,
    /// The sheet of facts in the detail view.
    Facts,
    /// The text in the detail view.
    Content,
    /// The list.
    List,
    /// Nothing yet: enough of it opens the box.
    Opening,
}

/// What is to be done outside after a step.
#[derive(Debug)]
pub struct ClipEffects {
    /// Write the history.
    pub save: bool,
    /// Put this clip on the clipboard.
    pub serve: Option<ClipEntry>,
    /// Remove the files of these clips.
    pub dropped: Vec<ClipEntry>,
    /// Remove these files.
    pub unlinked: Vec<String>,
    /// Open this link.
    pub open_url: Option<String>,
    /// Resolve the page of this clip.
    pub unfurl: Option<(u64, String)>,
    /// Take the keyboard, or give it back.
    pub keyboard: Option<bool>,
    /// Load the dictionary.
    pub load_dict: bool,
}

/// The plain entries of a history.
pub open spec fn models(v: Seq<ClipEntry>) -> Seq<clipboard::ClipModel> {
    Seq::new(v.len(), |i: int| v[i]@)
}

impl ClipEffects {
    /// Nothing is to be done.
    pub open spec fn is_nothing(self) -> bool {
        &&& !self.save
        &&& self.serve is None
        &&& self.dropped@.len() == 0
        &&& self.unlinked@.len() == 0
        &&& self.open_url is None
        &&& self.unfurl is None
        &&& self.keyboard is None
        &&& !self.load_dict
    }

    fn none() -> (r: ClipEffects)
        ensures
            r.is_nothing(),
    {
        ClipEffects {
            save: false,
            serve: None,
            dropped: Vec::new(),
            unlinked: Vec::new(),
            open_url: None,
            unfurl: None,
            keyboard: None,
            load_dict: false,
        }
    }
}

/// The clipboard's state.
pub struct ClipState {
    /// The newest clip first.
    pub history: Vec<ClipEntry>,
    /// The id of the next fresh clip.
    pub next_id: u64,
    /// The hash of the clip that is being served.
    pub served_hash: Option<u64>,
    /// Whether the preview is out.
    pub peek_reveal: bool,
    /// Until when the preview is held after the pointer has left.
    pub hold_deadline: Option<u64>,
    /// Until when the small pill beats.
    pub blink_until: Option<u64>,
    /// Whether the focused window has a link to copy.
    pub link_available: bool,
    /// Whether the box is open.
    pub expanded: bool,
    pub hover_row: Option<usize>,
    pub hit: ClipHit,
    /// The clip whose detail is showing; it stays while the view closes.
    pub detail_id: Option<u64>,
    /// Whether the detail is meant to be open.
    pub detail_open: bool,
    /// Whether the row that the detail grew from was a striped one.
    pub detail_src_striped: bool,
    /// Whether the dictionary panel is open.
    pub dict_open: bool,
    /// The word typed into it.
    pub dict_query: String,
    pub dict_loading: bool,
    pub dict_error: Option<String>,
    pub dict_data: Option<crate::dict::Dict>,
    /// The clips whose page has already been asked for.
    pub unfurl_sent: Vec<u64>,
}

/// Whether entry `i` is newer than entry `j`.
pub open spec fn newer(h: Seq<clipboard::ClipModel>) -> spec_fn(int, int) -> bool {
    |i: int, j: int| h[i].timestamp_ms > h[j].timestamp_ms
}

/// The first [`MAX_HISTORY`] entries, the newest first; entries of one moment
/// keep their order.
pub open spec fn newest_first(h: Seq<clipboard::ClipModel>) -> Seq<clipboard::ClipModel> {
    let p = order::sorted_positions(h.len() as int, newer(h));
    let n = if h.len() <= MAX_HISTORY {
        h.len() as int
    } else {
        MAX_HISTORY as int
    };
    Seq::new(n as nat, |k: int| h[p[k] as int])
}

/// Whether a files clip has no folder to show though its path gives one.
pub open spec fn lacks_source(e: clipboard::ClipModel) -> bool {
    e.kind == ClipKind::Files && e.source.len() == 0 && clipboard::folder_of(e.text).len() > 0
}

/// The entry with its folder filled in.
pub open spec fn with_source(e: clipboard::ClipModel) -> clipboard::ClipModel {
    if lacks_source(e) {
        clipboard::ClipModel { source: clipboard::folder_of(e.text), ..e }
    } else {
        e
    }
}

/// Whether the folder of an entry can be filled in where it has to be, and its id
/// has one behind it.
pub open spec fn can_take(e: clipboard::ClipModel) -> bool {
    &&& e.id < u64::MAX
    &&& e.kind == ClipKind::Files && e.source.len() == 0 ==> clipboard::first_decodes(e.text)
}

/// Whether a stored history can be taken up: only the entries that are kept count.
pub open spec fn restorable(h: Seq<clipboard::ClipModel>) -> bool {
    forall|i: int| 0 <= i < newest_first(h).len() ==> can_take(#[trigger] newest_first(h)[i])
}

/// The positions of the entries that are kept of a stored history.
fn kept_positions(stored: &[ClipEntry]) -> (r: Vec<usize>)
    ensures
        r@.len() == newest_first(models(stored@)).len(),
        forall|k: int|
            0 <= k < r@.len() ==> (#[trigger] r@[k]) < stored@.len() && stored@[r@[k] as int]@
                == newest_first(models(stored@))[k],
{
    let ghost all = models(stored@);
    let ghost lt = newer(all);
    let less = |i: usize, j: usize| -> (b: bool)
        requires
            i < stored@.len(),
            j < stored@.len(),
        ensures
            b == lt(i as int, j as int),
        { stored[i].timestamp_ms > stored[j].timestamp_ms };
    let mut p = order::stable_sort(stored.len(), less, Ghost(lt));
    let ghost q = p@;
    if p.len() > MAX_HISTORY {
        p.truncate(MAX_HISTORY);
    }
    assert forall|k: int| 0 <= k < p@.len() implies (#[trigger] p@[k]) < stored@.len()
        && stored@[p@[k] as int]@ == newest_first(all)[k] by {
        assert(p@[k] == q[k]);
        assert(order::permutes(q, stored@.len() as int));
    }
    p
}

/// Whether a stored history can be taken up by [`ClipState::new`].
pub fn can_restore(stored: &[ClipEntry]) -> (r: bool)
    ensures
        r == restorable(models(stored@)),
{
    let p = kept_positions(stored);
    let ghost first = newest_first(models(stored@));
    for k in 0..p.len()
        invariant
            first == newest_first(models(stored@)),
            p@.len() == first.len(),
            forall|k: int|
                0 <= k < p@.len() ==> (#[trigger] p@[k]) < stored@.len() && stored@[p@[k] as int]@
                    == first[k],
            forall|i: int| 0 <= i < k ==> can_take(#[trigger] first[i]),
    {
        let e = &stored[p[k]];
        assert(e@ == first[k as int]);
        let lacking = e.kind == ClipKind::Files && e.source.as_str().is_empty();
        if e.id == u64::MAX || (lacking && !clipboard::can_decode_first(e.text.as_str())) {
            assert(!can_take(first[k as int]));
            return false;
        }
    }
    true
}

/// The highest id of a history, 0 for an empty one.
pub open spec fn top_id(h: Seq<clipboard::ClipModel>) -> u64
    decreases h.len(),
{
    if h.len() == 0 {
        0
    } else if h.last().id > top_id(h.drop_last()) {
        h.last().id
    } else {
        top_id(h.drop_last())
    }
}

proof fn lemma_top_id(h: Seq<clipboard::ClipModel>)
    ensures
        forall|i: int| 0 <= i < h.len() ==> (#[trigger] h[i]).id <= top_id(h),
    decreases h.len(),
{
    if h.len() > 0 {
        lemma_top_id(h.drop_last());
        assert forall|i: int| 0 <= i < h.len() implies (#[trigger] h[i]).id <= top_id(h) by {
            if i < h.len() - 1 {
                assert(h.drop_last()[i] == h[i]);
            }
        }
    }
}

/// The place of the first entry with this hash, or the number of entries.
pub open spec fn place_of_hash(h: Seq<clipboard::ClipModel>, hash: u64) -> int
    decreases h.len(),
{
    if h.len() == 0 || h[0].hash == hash {
        0
    } else {
        1 + place_of_hash(h.drop_first(), hash)
    }
}

/// The place of the first entry with this id, or the number of entries.
pub open spec fn place_of_id(h: Seq<clipboard::ClipModel>, id: u64) -> int
    decreases h.len(),
{
    if h.len() == 0 || h[0].id == id {
        0
    } else {
        1 + place_of_id(h.drop_first(), id)
    }
}

proof fn lemma_place_of_hash(h: Seq<clipboard::ClipModel>, hash: u64, n: int)
    requires
        0 <= n <= h.len(),
        forall|i: int| 0 <= i < n ==> (#[trigger] h[i]).hash != hash,
        n < h.len() ==> h[n].hash == hash,
    ensures
        place_of_hash(h, hash) == n,
    decreases n,
{
    if n > 0 {
        let d = h.drop_first();
        assert(h[0].hash != hash);
        assert forall|i: int| 0 <= i < n - 1 implies (#[trigger] d[i]).hash != hash by {
            assert(d[i] == h[i + 1]);
        }
        lemma_place_of_hash(d, hash, n - 1);
    }
}

proof fn lemma_place_of_id(h: Seq<clipboard::ClipModel>, id: u64, n: int)
    requires
        0 <= n <= h.len(),
        forall|i: int| 0 <= i < n ==> (#[trigger] h[i]).id != id,
        n < h.len() ==> h[n].id == id,
    ensures
        place_of_id(h, id) == n,
    decreases n,
{
    if n > 0 {
        let d = h.drop_first();
        assert(h[0].id != id);
        assert forall|i: int| 0 <= i < n - 1 implies (#[trigger] d[i]).id != id by {
            assert(d[i] == h[i + 1]);
        }
        lemma_place_of_id(d, id, n - 1);
    }
}

/// A clip that was copied again: it keeps the id, the pastes, a known source
/// and what is known of its link.
pub open spec fn recopied(
    old: clipboard::ClipModel,
    e: clipboard::ClipModel,
) -> clipboard::ClipModel {
    clipboard::ClipModel {
        id: old.id,
        source: if old.source.len() > 0 {
            old.source
        } else {
            e.source
        },
        title: if e.title.len() == 0 {
            old.title
        } else {
            e.title
        },
        preview_image: if e.preview_image is None {
            old.preview_image
        } else {
            e.preview_image
        },
        paste_count: old.paste_count,
        pastes: old.pastes,
        ..e
    }
}

/// The whole list after a capture, before it is cut to length.
pub open spec fn joined_by(
    h: Seq<clipboard::ClipModel>,
    e: clipboard::ClipModel,
    next_id: u64,
) -> Seq<clipboard::ClipModel> {
    let n = place_of_hash(h, e.hash);
    if n < h.len() {
        seq![recopied(h[n], e)] + h.remove(n)
    } else {
        seq![clipboard::ClipModel { id: next_id, ..e }] + h
    }
}

/// The first [`MAX_HISTORY`] of a list.
pub open spec fn cut(h: Seq<clipboard::ClipModel>) -> Seq<clipboard::ClipModel> {
    if h.len() <= MAX_HISTORY {
        h
    } else {
        h.take(MAX_HISTORY as int)
    }
}

/// Whether no two entries share a hash or an id.
pub open spec fn distinct(h: Seq<clipboard::ClipModel>) -> bool {
    forall|i: int, j: int|
        0 <= i < j < h.len() ==> (#[trigger] h[i]).hash != (#[trigger] h[j]).hash && h[i].id
            != h[j].id
}

impl ClipState {
    /// The plain history.
    pub open spec fn hist(self) -> Seq<clipboard::ClipModel> {
        models(self.history@)
    }

    /// The history is not too long, and every id has been given out.
    pub open spec fn wf(self) -> bool {
        &&& self.history@.len() <= MAX_HISTORY
        &&& forall|i: int| 0 <= i < self.history@.len() ==> (#[trigger] self.history@[i]).id
            < self.next_id
    }

    /// Whether a clip of this content has an id to get: that of its like in the
    /// history, or a new one with another behind it.
    pub open spec fn has_id_for(self, hash: u64) -> bool {
        place_of_hash(self.hist(), hash) < self.hist().len() || self.next_id < u64::MAX
    }

    /// All but the history, the ids and the served clip is as in `other`.
    pub open spec fn same_box(self, other: ClipState) -> bool {
        &&& self.peek_reveal == other.peek_reveal
        &&& self.hold_deadline == other.hold_deadline
        &&& self.blink_until == other.blink_until
        &&& self.link_available == other.link_available
        &&& self.expanded == other.expanded
        &&& self.hover_row == other.hover_row
        &&& self.hit == other.hit
        &&& self.same_panels(other)
    }

    /// The detail view and the dictionary panel are as in `other`.
    pub open spec fn same_panels(self, other: ClipState) -> bool {
        &&& self.detail_id == other.detail_id
        &&& self.detail_open == other.detail_open
        &&& self.detail_src_striped == other.detail_src_striped
        &&& self.dict_open == other.dict_open
        &&& self.same_dict(other)
    }

    /// Everything but the clips and the dictionary is as in `other`.
    pub open spec fn same_but_dict(self, other: ClipState) -> bool {
        &&& self.peek_reveal == other.peek_reveal
        &&& self.hold_deadline == other.hold_deadline
        &&& self.blink_until == other.blink_until
        &&& self.link_available == other.link_available
        &&& self.expanded == other.expanded
        &&& self.hover_row == other.hover_row
        &&& self.hit == other.hit
        &&& self.detail_id == other.detail_id
        &&& self.detail_open == other.detail_open
        &&& self.detail_src_striped == other.detail_src_striped
    }

    /// The dictionary, apart from whether its panel is open, is as in `other`.
    pub open spec fn same_dict(self, other: ClipState) -> bool {
        &&& self.dict_query@ == other.dict_query@
        &&& self.dict_loading == other.dict_loading
        &&& self.dict_error == other.dict_error
        &&& self.dict_data == other.dict_data
    }

    /// The history, the ids and what is served are as in `other`.
    pub open spec fn same_clips(self, other: ClipState) -> bool {
        &&& self.history == other.history
        &&& self.next_id == other.next_id
        &&& self.served_hash == other.served_hash
        &&& self.unfurl_sent@ == other.unfurl_sent@
    }

    /// The state from a stored history. Returns whether a folder was filled
    /// in, so that the history is to be written once.
    pub fn new(stored: Vec<ClipEntry>) -> (r: (ClipState, bool))
        requires
            restorable(models(stored@)),
        ensures
            r.0.wf(),
            r.0.hist() == newest_first(models(stored@)).map_values(
                |e: clipboard::ClipModel| with_source(e),
            ),
            r.0.next_id == top_id(r.0.hist()) + 1,
            r.1 == (exists|i: int|
                0 <= i < newest_first(models(stored@)).len() && lacks_source(
                    #[trigger] newest_first(models(stored@))[i],
                )),
            r.0.served_hash is None,
            r.0.is_shut(),
            r.0.unfurl_sent@.len() == 0,
    {
        let p = kept_positions(&stored);
        let n: usize = p.len();
        let ghost first = newest_first(models(stored@));
        let ghost full = first.map_values(|e: clipboard::ClipModel| with_source(e));
        let mut history: Vec<ClipEntry> = Vec::new();
        let mut backfilled = false;
        let mut top: u64 = 0;
        assert(models(history@) == full.take(0));
        assert(full.take(0) == Seq::<clipboard::ClipModel>::empty());
        for k in 0..n
            invariant
                n == p@.len(),
                n == first.len(),
                first == newest_first(models(stored@)),
                full == first.map_values(|e: clipboard::ClipModel| with_source(e)),
                restorable(models(stored@)),
                forall|k: int|
                    0 <= k < p@.len() ==> (#[trigger] p@[k]) < stored@.len()
                        && stored@[p@[k] as int]@ == first[k],
                history@.len() == k,
                models(history@) == full.take(k as int),
                top == top_id(full.take(k as int)),
                top < u64::MAX,
                backfilled == (exists|i: int|
                    0 <= i < k && lacks_source(#[trigger] first[i])),
        {
            let mut e = copy_entry(&stored[p[k]]);
            assert(e@ == first[k as int]);
            assert(can_take(first[k as int]));
            if e.kind == ClipKind::Files && e.source.as_str().is_empty() {
                let dir = file_source(e.text.as_str());
                if !dir.as_str().is_empty() {
                    e.source = dir;
                    backfilled = true;
                }
            }
            assert(e@ == with_source(first[k as int]));
            assert(full.take(k + 1).drop_last() == full.take(k as int));
            assert(full.take(k + 1).last() == e@);
            if e.id > top {
                top = e.id;
            }
            history.push(e);
            assert(models(history@) == full.take(k + 1));
        }
        assert(full.take(full.len() as int) == full);
        proof {
            lemma_top_id(full);
            assert forall|i: int| 0 <= i < history@.len() implies (#[trigger] history@[i]).id
                < top + 1 by {
                assert(full[i] == history@[i]@);
            }
        }
        (
            ClipState {
                history,
                next_id: top + 1,
                served_hash: None,
                peek_reveal: false,
                hold_deadline: None,
                blink_until: None,
                link_available: false,
                expanded: false,
                hover_row: None,
                hit: ClipHit::Nothing,
                detail_id: None,
                detail_open: false,
                detail_src_striped: false,
                dict_open: false,
                dict_query: String::new(),
                dict_loading: false,
                dict_error: None,
                dict_data: None,
                unfurl_sent: Vec::new(),
            },
            backfilled,
        )
    }

    /// Nothing is open.
    pub open spec fn is_shut(self) -> bool {
        &&& !self.peek_reveal
        &&& self.hold_deadline is None
        &&& self.blink_until is None
        &&& !self.expanded
        &&& self.hit == ClipHit::Nothing
        &&& self.hover_row is None
        &&& self.detail_id is None
        &&& !self.detail_open
        &&& !self.dict_open
    }

    fn find_id(&self, id: u64) -> (r: Option<usize>)
        ensures
            match r {
                Some(i) => place_of_id(self.hist(), id) == i && i < self.history@.len()
                    && self.history@[i as int].id == id,
                None => place_of_id(self.hist(), id) == self.hist().len(),
            },
    {
        let ghost h = self.hist();
        for i in 0..self.history.len()
            invariant
                h == self.hist(),
                forall|k: int| 0 <= k < i ==> (#[trigger] h[k]).id != id,
        {
            assert(h[i as int] == self.history@[i as int]@);
            if self.history[i].id == id {
                proof {
                    lemma_place_of_id(h, id, i as int);
                }
                return Some(i);
            }
        }
        proof {
            lemma_place_of_id(h, id, h.len() as int);
        }
        None
    }

    fn find_hash(&self, hash: u64) -> (r: Option<usize>)
        ensures
            match r {
                Some(i) => place_of_hash(self.hist(), hash) == i && i < self.history@.len(),
                None => place_of_hash(self.hist(), hash) == self.hist().len(),
            },
    {
        let ghost h = self.hist();
        for i in 0..self.history.len()
            invariant
                h == self.hist(),
                forall|k: int| 0 <= k < i ==> (#[trigger] h[k]).hash != hash,
        {
            assert(h[i as int] == self.history@[i as int]@);
            if self.history[i].hash == hash {
                proof {
                    lemma_place_of_hash(h, hash, i as int);
                }
                return Some(i);
            }
        }
        proof {
            lemma_place_of_hash(h, hash, h.len() as int);
        }
        None
    }

    /// Put `entry` at the front of the history. Returns the entry that fell off
    /// its end.
    fn join(&mut self, entry: ClipEntry) -> (r: Vec<ClipEntry>)
        requires
            old(self).wf(),
            old(self).has_id_for(entry.hash),
        ensures
            final(self).wf(),
            final(self).same_box(*old(self)),
            final(self).served_hash == old(self).served_hash,
            final(self).unfurl_sent@ == old(self).unfurl_sent@,
            final(self).hist() == cut(joined_by(old(self).hist(), entry@, old(self).next_id)),
            final(self).next_id == (if place_of_hash(old(self).hist(), entry.hash) < old(self).hist().len() {
                old(self).next_id as int
            } else {
                old(self).next_id + 1
            }),
            models(r@) == joined_by(old(self).hist(), entry@, old(self).next_id).skip(
                final(self).hist().len() as int,
            ),
            r@.len() <= 1,
    {
        let ghost h = self.hist();
        let ghost e0 = entry@;
        let ghost id0 = self.next_id;
        let mut entry = entry;
        match self.find_hash(entry.hash) {
            Some(pos) => {
                let old = self.history.remove(pos);
                assert(old@ == h[pos as int]);
                entry.id = old.id;
                if !old.source.as_str().is_empty() {
                    entry.source = old.source;
                }
                if entry.title.as_str().is_empty() {
                    entry.title = old.title;
                }
                if entry.preview_image.is_none() {
                    entry.preview_image = old.preview_image;
                }
                entry.paste_count = old.paste_count;
                entry.pastes = old.pastes;
                assert(entry@ == recopied(h[pos as int], e0));
                assert(models(self.history@) == h.remove(pos as int));
            },
            None => {
                entry.id = self.next_id;
                self.next_id = self.next_id + 1;
                assert(entry@ == (clipboard::ClipModel { id: id0, ..e0 }));
                assert(models(self.history@) == h);
            },
        }
        let ghost rest = models(self.history@);
        let ghost front = entry@;
        self.history.insert(0, entry);
        assert(models(self.history@) == seq![front] + rest);
        assert(self.hist() == joined_by(h, e0, id0));
        let ghost whole = self.hist();
        assert(forall|i: int|
            0 <= i < self.history@.len() ==> (#[trigger] self.history@[i]).id < self.next_id);
        let mut dropped: Vec<ClipEntry> = Vec::new();
        if self.history.len() > MAX_HISTORY {
            if let Some(old) = self.history.pop() {
                let ghost last = old@;
                dropped.push(old);
                assert(last == whole.last());
                assert(models(dropped@) == seq![last]);
            }
            assert(self.hist() == whole.take(MAX_HISTORY as int));
            assert(models(dropped@) == whole.skip(MAX_HISTORY as int));
        } else {
            assert(models(dropped@) == whole.skip(whole.len() as int));
        }
        dropped
    }
}

/// Whether serving the newest clip takes anything: there is one, and it is not
/// the one being served.
pub open spec fn serves_newest(s: ClipState) -> bool {
    s.history@.len() > 0 && s.served_hash != Some(s.history@[0].hash)
}

/// The page to ask for after a capture: that of a link that has not been asked
/// for yet.
pub open spec fn page_wanted(
    e: ClipEntry,
    sent: Seq<u64>,
    unfurls: bool,
) -> bool {
    unfurls && e.url() is Some && !sent.contains(e.id)
}

/// How a capture takes the state from `before` to `after`, and what it asks for.
pub open spec fn after_capture(
    before: ClipState,
    after: ClipState,
    entry: ClipEntry,
    unfurls: bool,
    now: u64,
    fx: ClipEffects,
) -> bool {
    &&& after.wf()
    &&& after.hist() == cut(joined_by(before.hist(), entry@, before.next_id))
    &&& after.next_id == (if place_of_hash(before.hist(), entry.hash) < before.hist().len() {
                before.next_id as int
            } else {
                before.next_id + 1
            })
    &&& after.served_hash == Some(entry.hash)
    &&& after.blink_until == Some((now + BEAT_DURATION) as u64)
    &&& after.same_view(before)
    &&& fx.save
    &&& models(fx.dropped@) == joined_by(before.hist(), entry@, before.next_id).skip(
                after.hist().len() as int,
            )
    &&& match fx.serve {
                Some(c) => before.served_hash != Some(entry.hash) && c@ == after.hist()[0],
                None => before.served_hash == Some(entry.hash),
            }
    &&& ({
                let front = after.history@[0];
                let wanted = page_wanted(front, before.unfurl_sent@, unfurls);
                &&& after.unfurl_sent@ == (if wanted {
                    before.unfurl_sent@.push(front.id)
                } else {
                    before.unfurl_sent@
                })
                &&& match fx.unfurl {
                    Some(u) => wanted && u.0 == front.id && Some(u.1@) == front.url(),
                    None => !wanted,
                }
            })
    &&& fx.open_url is None
    &&& fx.unlinked@.len() == 0
    &&& fx.keyboard is None
    &&& !fx.load_dict
}

/// How a paste takes the state from `before` to `after`, and what it asks for.
pub open spec fn after_paste(
    before: ClipState,
    after: ClipState,
    win: Option<(String, String)>,
    now_ms: u64,
    fx: ClipEffects,
) -> bool {
    &&& after.wf()
    &&& after.same_box(before)
    &&& after.next_id == before.next_id
    &&& after.served_hash == before.served_hash
    &&& after.unfurl_sent@ == before.unfurl_sent@
    &&& after.hist() == (if before.hist().len() == 0 {
                before.hist()
            } else {
                before.hist().update(
                    0,
                    pasted(before.hist()[0], clipboard::window_text(win), now_ms),
                )
            })
    &&& fx.save == (before.history@.len() > 0)
    &&& fx.serve is None
    &&& fx.dropped@.len() == 0
    &&& fx.unlinked@.len() == 0
    &&& fx.open_url is None
    &&& fx.unfurl is None
    &&& fx.keyboard is None
    &&& !fx.load_dict
}

impl ClipState {
    /// A clip was captured: it joins the history, is served, beats the pill
    /// and, where pages are resolved, has its page asked for.
    pub fn on_captured(&mut self, entry: ClipEntry, unfurls: bool, now: u64) -> (r: ClipEffects)
        requires
            old(self).wf(),
            old(self).has_id_for(entry.hash),
            now <= u64::MAX - BEAT_DURATION,
        ensures
            after_capture(*old(self), *final(self), entry, unfurls, now, r),
    {
        let ghost hash = entry.hash;
        let ghost h0 = self.hist();
        let ghost e0 = entry@;
        let ghost id0 = self.next_id;
        let mut fx = ClipEffects::none();
        fx.dropped = self.join(entry);
        proof {
            lemma_front_hash(h0, e0, id0);
        }
        assert(self.history@.len() > 0) by {
            assert(self.hist().len() > 0);
        }
        assert(self.hist()[0] == self.history@[0]@);
        assert(self.history@[0].hash == hash);
        fx.save = true;
        fx.serve = self.serve_newest_clip();
        if unfurls {
            let id: u64 = self.history[0].id;
            let url = match self.history[0].link_url() {
                Some(u) => Some(text::copy_text(u)),
                None => None,
            };
            if let Some(u) = url {
                if !self.was_sent(id) {
                    self.unfurl_sent.push(id);
                    fx.unfurl = Some((id, u));
                }
            }
        }
        self.blink_until = Some(now + BEAT_DURATION);
        fx
    }

    /// The box and its panels are as in `other`; only the beat may differ.
    pub open spec fn same_view(self, other: ClipState) -> bool {
        &&& self.peek_reveal == other.peek_reveal
        &&& self.hold_deadline == other.hold_deadline
        &&& self.link_available == other.link_available
        &&& self.expanded == other.expanded
        &&& self.hover_row == other.hover_row
        &&& self.hit == other.hit
        &&& self.same_panels(other)
    }

    fn was_sent(&self, id: u64) -> (r: bool)
        ensures
            r == self.unfurl_sent@.contains(id),
    {
        for i in 0..self.unfurl_sent.len()
            invariant
                forall|k: int| 0 <= k < i ==> self.unfurl_sent@[k] != id,
        {
            if self.unfurl_sent[i] == id {
                assert(self.unfurl_sent@[i as int] == id);
                return true;
            }
        }
        false
    }

    /// The clip being served was pasted, into the window `win`: note where and
    /// when with the newest clip, and count it.
    pub fn record_clip_paste(&mut self, win: &Option<(String, String)>, now_ms: u64) -> (r:
        ClipEffects)
        requires
            old(self).wf(),
            old(self).history@.len() > 0 ==> old(self).history@[0].paste_count < u64::MAX,
        ensures
            after_paste(*old(self), *final(self), *win, now_ms, r),
    {
        let mut fx = ClipEffects::none();
        if self.history.len() == 0 {
            return fx;
        }
        let target = match win {
            Some((class, title)) => clipboard::window_label(class.as_str(), title.as_str()),
            None => String::new(),
        };
        let ghost h = self.hist();
        let mut e = self.history.remove(0);
        let ghost was = clipboard::paste_models(e.pastes@);
        let ghost rest = models(self.history@);
        assert(h == seq![e@] + rest);
        e.paste_count = e.paste_count + 1;
        let ghost rec = clipboard::PasteModel { target: target@, when_ms: now_ms };
        e.pastes.insert(0, PasteRecord { target, when_ms: now_ms });
        assert(clipboard::paste_models(e.pastes@) == seq![rec] + was);
        e.pastes.truncate(PASTE_LOG_CAP);
        assert(clipboard::paste_models(e.pastes@) == capped_log(seq![rec] + was));
        let ghost front = e@;
        assert(front == pasted(h[0], rec.target, now_ms));
        self.history.insert(0, e);
        assert(self.hist() == seq![front] + rest);
        assert(self.hist() == h.update(0, front));
        assert forall|i: int| 0 <= i < self.history@.len() implies (#[trigger] self.history@[i]).id
            < self.next_id by {
            if i > 0 {
                assert(self.history@[i] == old(self).history@[i]);
            }
        }
        fx.save = true;
        fx
    }

    /// Something was observed on the clipboard.
    pub fn on_clip_event(
        &mut self,
        ev: clipboard::ClipEvent,
        win: &Option<(String, String)>,
        unfurls: bool,
        now: u64,
        now_ms: u64,
    ) -> (r: ClipEffects)
        requires
            old(self).wf(),
            match ev {
                clipboard::ClipEvent::Captured(e) => old(self).has_id_for(e.hash) && now
                    <= u64::MAX - BEAT_DURATION,
                clipboard::ClipEvent::Pasted => old(self).history@.len() > 0
                    ==> old(self).history@[0].paste_count < u64::MAX,
            },
        ensures
            match ev {
                clipboard::ClipEvent::Captured(e) => after_capture(
                    *old(self),
                    *final(self),
                    *e,
                    unfurls,
                    now,
                    r,
                ),
                clipboard::ClipEvent::Pasted => after_paste(
                    *old(self),
                    *final(self),
                    *win,
                    now_ms,
                    r,
                ),
            },
    {
        match ev {
            clipboard::ClipEvent::Captured(e) => self.on_captured(*e, unfurls, now),
            clipboard::ClipEvent::Pasted => self.record_clip_paste(win, now_ms),
        }
    }

    /// Serve entry `idx` again. Returns it, or nothing where there is none.
    pub fn copy_clip(&mut self, idx: usize) -> (r: Option<ClipEntry>)
        ensures
            final(self).history == old(self).history,
            final(self).next_id == old(self).next_id,
            final(self).unfurl_sent@ == old(self).unfurl_sent@,
            final(self).same_box(*old(self)),
            match r {
                Some(c) => idx < old(self).history@.len() && c@ == old(self).hist()[idx as int]
                    && final(self).served_hash == Some(c.hash),
                None => idx >= old(self).history@.len() && final(self).served_hash == old(self).served_hash,
            },
    {
        if idx >= self.history.len() {
            return None;
        }
        let e = copy_entry(&self.history[idx]);
        self.served_hash = Some(e.hash);
        Some(e)
    }

    /// Keep the newest clip served, unless it already is.
    pub fn serve_newest_clip(&mut self) -> (r: Option<ClipEntry>)
        ensures
            final(self).history == old(self).history,
            final(self).next_id == old(self).next_id,
            final(self).unfurl_sent@ == old(self).unfurl_sent@,
            final(self).same_box(*old(self)),
            match r {
                Some(c) => serves_newest(*old(self)) && c@ == old(self).hist()[0]
                    && final(self).served_hash == Some(old(self).history@[0].hash),
                None => !serves_newest(*old(self)) && final(self).served_hash == old(self).served_hash,
            },
    {
        if self.history.len() == 0 {
            return None;
        }
        let served: bool = match self.served_hash {
            Some(h) => h == self.history[0].hash,
            None => false,
        };
        if served {
            return None;
        }
        self.copy_clip(0)
    }
}

/// A paste log cut to its length.
pub open spec fn capped_log(log: Seq<clipboard::PasteModel>) -> Seq<clipboard::PasteModel> {
    if log.len() <= PASTE_LOG_CAP {
        log
    } else {
        log.take(PASTE_LOG_CAP as int)
    }
}

/// A clip with one more paste in its record.
pub open spec fn pasted(
    e: clipboard::ClipModel,
    target: Seq<char>,
    when_ms: u64,
) -> clipboard::ClipModel {
    clipboard::ClipModel {
        paste_count: (e.paste_count + 1) as u64,
        pastes: capped_log(seq![clipboard::PasteModel { target, when_ms }] + e.pastes),
        ..e
    }
}

proof fn lemma_front_hash(h: Seq<clipboard::ClipModel>, e: clipboard::ClipModel, next_id: u64)
    ensures
        joined_by(h, e, next_id).len() > 0,
        cut(joined_by(h, e, next_id)).len() > 0,
        cut(joined_by(h, e, next_id))[0] == joined_by(h, e, next_id)[0],
        joined_by(h, e, next_id)[0].hash == e.hash,
{
    lemma_place_bounds(h, e.hash);
}

proof fn lemma_place_bounds(h: Seq<clipboard::ClipModel>, hash: u64)
    ensures
        0 <= place_of_hash(h, hash) <= h.len(),
        place_of_hash(h, hash) < h.len() ==> h[place_of_hash(h, hash)].hash == hash,
        forall|i: int| 0 <= i < place_of_hash(h, hash) ==> (#[trigger] h[i]).hash != hash,
    decreases h.len(),
{
    if h.len() > 0 && h[0].hash != hash {
        let d = h.drop_first();
        lemma_place_bounds(d, hash);
        assert forall|i: int| 0 <= i < place_of_hash(h, hash) implies (#[trigger] h[i]).hash
            != hash by {
            if i > 0 {
                assert(d[i - 1] == h[i]);
            }
        }
    }
}

/// A capture leaves no two entries with one content: a clip that was there is
/// moved to the front, not piled up. Ids stay distinct too.
pub proof fn law_a_capture_keeps_clips_distinct(
    h: Seq<clipboard::ClipModel>,
    e: clipboard::ClipModel,
    next_id: u64,
)
    requires
        distinct(h),
        forall|i: int| 0 <= i < h.len() ==> (#[trigger] h[i]).id < next_id,
    ensures
        distinct(cut(joined_by(h, e, next_id))),
{
    lemma_place_bounds(h, e.hash);
    let n = place_of_hash(h, e.hash);
    let j = joined_by(h, e, next_id);
    assert forall|a: int, b: int| 0 <= a < b < j.len() implies (#[trigger] j[a]).hash != (
    #[trigger] j[b]).hash && j[a].id != j[b].id by {
        if n < h.len() {
            let y = if b - 1 < n {
                b - 1
            } else {
                b
            };
            assert(j[b] == h[y]);
            if a == 0 {
                assert(j[0].id == h[n].id);
                if y < n {
                    assert(h[y].id != h[n].id);
                } else {
                    assert(h[n].id != h[y].id);
                    assert(h[n].hash != h[y].hash);
                }
            } else {
                let x = if a - 1 < n {
                    a - 1
                } else {
                    a
                };
                assert(j[a] == h[x]);
                assert(x < y);
            }
        } else {
            assert(j[b] == h[b - 1]);
            if a > 0 {
                assert(j[a] == h[a - 1]);
            }
        }
    }
}

/// The entries of another content, in their order.
pub open spec fn others_than(h: Seq<clipboard::ClipModel>, hash: u64) -> Seq<clipboard::ClipModel>
    decreases h.len(),
{
    if h.len() == 0 {
        Seq::empty()
    } else if h.last().hash == hash {
        others_than(h.drop_last(), hash)
    } else {
        others_than(h.drop_last(), hash).push(h.last())
    }
}

proof fn lemma_all_are_others(h: Seq<clipboard::ClipModel>, hash: u64)
    requires
        forall|i: int| 0 <= i < h.len() ==> (#[trigger] h[i]).hash != hash,
    ensures
        others_than(h, hash) == h,
    decreases h.len(),
{
    if h.len() > 0 {
        lemma_all_are_others(h.drop_last(), hash);
        assert(h.drop_last().push(h.last()) == h);
    }
}

proof fn lemma_all_but_one_are_others(h: Seq<clipboard::ClipModel>, hash: u64, n: int)
    requires
        0 <= n < h.len(),
        h[n].hash == hash,
        forall|i: int| 0 <= i < h.len() && i != n ==> (#[trigger] h[i]).hash != hash,
    ensures
        others_than(h, hash) == h.remove(n),
    decreases h.len(),
{
    let d = h.drop_last();
    if n == h.len() - 1 {
        lemma_all_are_others(d, hash);
        assert(h.remove(n) == d);
    } else {
        assert(h.last() == h[h.len() - 1]);
        lemma_all_but_one_are_others(d, hash, n);
        assert(d.remove(n).push(h.last()) == h.remove(n));
    }
}

/// A capture puts the clip at the front of the history. Behind it stand the
/// clips of another content in their order, cut at the end to the length that
/// the history has at most. Contents and ids stay distinct, and every id has
/// been given out. A clip that was there keeps its id, its record of pastes and
/// its known source; a new one has the next id.
pub proof fn law_a_capture_moves_to_the_front(
    before: ClipState,
    after: ClipState,
    entry: ClipEntry,
    unfurls: bool,
    now: u64,
    fx: ClipEffects,
)
    requires
        before.wf(),
        distinct(before.hist()),
        after_capture(before, after, entry, unfurls, now, fx),
    ensures
        after.hist().len() > 0,
        after.hist()[0].hash == entry.hash,
        ({
            let others = others_than(before.hist(), entry.hash);
            &&& after.hist().len() == (if 1 + others.len() <= MAX_HISTORY {
                1 + others.len()
            } else {
                MAX_HISTORY as nat
            })
            &&& after.hist().skip(1) == others.take(after.hist().len() - 1)
        }),
        distinct(after.hist()),
        forall|i: int|
            0 <= i < after.hist().len() ==> (#[trigger] after.hist()[i]).id < after.next_id,
        forall|i: int|
            0 <= i < before.hist().len() && (#[trigger] before.hist()[i]).hash == entry.hash ==> {
                let front = after.hist()[0];
                let was = before.hist()[i];
                &&& front.id == was.id
                &&& front.paste_count == was.paste_count
                &&& front.pastes == was.pastes
                &&& was.source.len() > 0 ==> front.source == was.source
            },
        (forall|i: int|
            0 <= i < before.hist().len() ==> (#[trigger] before.hist()[i]).hash != entry.hash)
            ==> after.hist()[0].id == before.next_id,
{
    let h = before.hist();
    let e = entry@;
    let hash = entry.hash;
    let n = place_of_hash(h, hash);
    assert(e.hash == hash);
    lemma_place_bounds(h, hash);
    assert forall|i: int| 0 <= i < h.len() implies (#[trigger] h[i]).id < before.next_id by {
        assert(h[i] == before.history@[i]@);
    }
    law_a_capture_keeps_clips_distinct(h, e, before.next_id);
    assert forall|i: int| 0 <= i < after.hist().len() implies (#[trigger] after.hist()[i]).id
        < after.next_id by {
        assert(after.hist()[i] == after.history@[i]@);
    }
    let j = joined_by(h, e, before.next_id);
    if n < h.len() {
        assert forall|i: int| 0 <= i < h.len() && i != n implies (#[trigger] h[i]).hash
            != hash by {
            if i > n {
                assert(h[n].hash != h[i].hash);
            }
        }
        lemma_all_but_one_are_others(h, hash, n);
        assert(j.skip(1) == h.remove(n));
    } else {
        lemma_all_are_others(h, hash);
        assert(j.skip(1) == h);
    }
    let others = others_than(h, hash);
    assert(j == seq![j[0]] + others);
    assert(after.hist().skip(1) == others.take(after.hist().len() - 1));
}

/// A clip copied again keeps its id and its whole record of pastes, and stands
/// first.
pub proof fn law_a_recopied_clip_keeps_its_record(
    h: Seq<clipboard::ClipModel>,
    e: clipboard::ClipModel,
    next_id: u64,
    i: int,
)
    requires
        distinct(h),
        0 <= i < h.len(),
        h[i].hash == e.hash,
    ensures
        joined_by(h, e, next_id).len() == h.len(),
        joined_by(h, e, next_id)[0].id == h[i].id,
        joined_by(h, e, next_id)[0].paste_count == h[i].paste_count,
        joined_by(h, e, next_id)[0].pastes == h[i].pastes,
{
    lemma_place_bounds(h, e.hash);
    let n = place_of_hash(h, e.hash);
    assert(n == i) by {
        if n < i {
            assert(h[n].hash != h[i].hash);
        } else if i < n {
            assert(h[i].hash != e.hash);
        }
    }
}

/// The record of pastes never grows past its cap, while the count counts all.
pub proof fn law_the_paste_log_is_capped(
    e: clipboard::ClipModel,
    target: Seq<char>,
    when_ms: u64,
)
    requires
        e.paste_count < u64::MAX,
    ensures
        pasted(e, target, when_ms).pastes.len() <= PASTE_LOG_CAP,
        pasted(e, target, when_ms).pastes[0] == (clipboard::PasteModel { target, when_ms }),
        pasted(e, target, when_ms).paste_count == e.paste_count + 1,
{
}

/// Serving the newest clip is idempotent: what is served already is not served
/// again.
pub proof fn law_serving_is_idempotent(s: ClipState)
    requires
        s.history@.len() > 0,
        s.served_hash == Some(s.history@[0].hash),
    ensures
        !serves_newest(s),
{
}

// ---------------------------------------------------------------------------
// The box
// ---------------------------------------------------------------------------

/// The row that a hit is on.
pub open spec fn row_of(hit: ClipHit) -> Option<usize> {
    match hit {
        ClipHit::Row(i) => Some(i),
        ClipHit::Delete(i) => Some(i),
        _ => None,
    }
}

/// A key pressed while the dictionary panel has the keyboard.
#[derive(Debug, Clone, Copy, PartialEq, Eq, Structural)]
pub enum DictKey {
    Escape,
    BackSpace,
    Other,
}

/// A control character: Unicode category `Cc`.
pub open spec fn is_control(c: char) -> bool {
    c <= '\u{1f}' || '\u{7f}' <= c <= '\u{9f}'
}

/// Whether a typed text can join a query: not empty, no control character.
pub open spec fn printable(s: Seq<char>) -> bool {
    s.len() > 0 && forall|i: int| 0 <= i < s.len() ==> !is_control(#[trigger] s[i])
}

fn is_printable(s: &str) -> (r: bool)
    ensures
        r == printable(s@),
{
    let v = text::chars_of(s);
    for i in 0..v.len()
        invariant
            v@ == s@,
            forall|k: int| 0 <= k < i ==> !is_control(#[trigger] s@[k]),
    {
        let c = v[i];
        if c <= '\u{1f}' || ('\u{7f}' <= c && c <= '\u{9f}') {
            assert(is_control(s@[i as int]));
            return false;
        }
    }
    v.len() > 0
}

/// The query after a key.
pub open spec fn query_after(q: Seq<char>, key: DictKey, typed: Option<Seq<char>>) -> Seq<char> {
    match key {
        DictKey::Escape => q,
        DictKey::BackSpace => if q.len() > 0 {
            q.drop_last()
        } else {
            q
        },
        DictKey::Other => match typed {
            Some(t) => if printable(t) {
                q + t
            } else {
                q
            },
            None => q,
        },
    }
}

/// The state with the box shut: the hit and the hovered row go, and so does the
/// dictionary panel. A box that was not open stays as it is.
pub open spec fn shut(s: ClipState, t: ClipState) -> bool {
    t.same_clips(s) && shut_view(s, t)
}

/// The box of `t` is that of `s`, shut.
pub open spec fn shut_view(s: ClipState, t: ClipState) -> bool {
    &&& t.peek_reveal == s.peek_reveal
    &&& t.hold_deadline == s.hold_deadline
    &&& t.blink_until == s.blink_until
    &&& t.link_available == s.link_available
    &&& !t.expanded
    &&& t.detail_id == s.detail_id
    &&& t.detail_open == s.detail_open
    &&& t.detail_src_striped == s.detail_src_striped
    &&& t.same_dict(s)
    &&& t.hit == (if s.expanded {
        ClipHit::Nothing
    } else {
        s.hit
    })
    &&& t.hover_row == (if s.expanded {
        None
    } else {
        s.hover_row
    })
    &&& t.dict_open == (s.dict_open && !s.expanded)
}

/// What shutting the box does to the keyboard: the dictionary panel gives it
/// back.
pub open spec fn shut_keyboard(s: ClipState) -> Option<bool> {
    if s.expanded && s.dict_open {
        Some(false)
    } else {
        None
    }
}

/// What the pointer is over.
pub open spec fn hit_at(s: ClipState, shown: bool, at: Option<ClipPoint>) -> ClipHit {
    match at {
        Some(p) => if !shown {
            ClipHit::Nothing
        } else if s.dict_open {
            if p.back {
                ClipHit::Back
            } else {
                ClipHit::Nothing
            }
        } else if s.detail_open {
            match p.pill {
                Some(h) => h,
                None => ClipHit::Nothing,
            }
        } else if p.footer {
            match p.button {
                Some(h) => h,
                None => ClipHit::Nothing,
            }
        } else {
            match p.row {
                Some((i, can)) => if can {
                    ClipHit::Delete(i)
                } else {
                    ClipHit::Row(i)
                },
                None => ClipHit::Nothing,
            }
        },
        None => ClipHit::Nothing,
    }
}

impl ClipState {
    /// The pointer is over `hit`. Returns whether anything changed.
    pub fn update_clip_hit(&mut self, hit: ClipHit) -> (r: bool)
        ensures
            final(self).hit == hit,
            final(self).hover_row == row_of(hit),
            r == (old(self).hit != hit || old(self).hover_row != row_of(hit)),
            final(self).same_clips(*old(self)),
            final(self).same_panels(*old(self)),
            final(self).peek_reveal == old(self).peek_reveal,
            final(self).hold_deadline == old(self).hold_deadline,
            final(self).blink_until == old(self).blink_until,
            final(self).link_available == old(self).link_available,
            final(self).expanded == old(self).expanded,
    {
        let row: Option<usize> = match hit {
            ClipHit::Row(i) => Some(i),
            ClipHit::Delete(i) => Some(i),
            _ => None,
        };
        let same_row: bool = match (self.hover_row, row) {
            (Some(a), Some(b)) => a == b,
            (None, None) => true,
            _ => false,
        };
        let changed: bool = hit != self.hit || !same_row;
        self.hit = hit;
        self.hover_row = row;
        changed
    }

    /// What the pointer is over. The panel of the dictionary hides everything
    /// but its back button, the detail view everything but its controls; in the
    /// list the footer lies over the rows. `shown` says whether the box is
    /// (more than half) open.
    pub fn clip_hit(&self, shown: bool, at: Option<ClipPoint>) -> (r: ClipHit)
        ensures
            r == hit_at(*self, shown, at),
    {
        if !shown {
            return ClipHit::Nothing;
        }
        let p = match at {
            Some(p) => p,
            None => return ClipHit::Nothing,
        };
        if self.dict_open {
            return if p.back {
                ClipHit::Back
            } else {
                ClipHit::Nothing
            };
        }
        if self.detail_open {
            return match p.pill {
                Some(h) => h,
                None => ClipHit::Nothing,
            };
        }
        if p.footer {
            return match p.button {
                Some(h) => h,
                None => ClipHit::Nothing,
            };
        }
        match p.row {
            Some((i, can)) => if can {
                ClipHit::Delete(i)
            } else {
                ClipHit::Row(i)
            },
            None => ClipHit::Nothing,
        }
    }

    /// The wheel turns: returns what it moves. A box that is open stays so.
    pub fn clip_axis(&mut self, facts_hovered: bool) -> (r: AxisTarget)
        ensures
            r == (if !old(self).expanded {
                AxisTarget::Opening
            } else if old(self).dict_open {
                AxisTarget::Dictionary
            } else if old(self).detail_open {
                if facts_hovered && old(self).detail_id is Some {
                    AxisTarget::Facts
                } else {
                    AxisTarget::Content
                }
            } else {
                AxisTarget::List
            }),
            final(self).hold_deadline == (if old(self).expanded {
                None
            } else {
                old(self).hold_deadline
            }),
            final(self).hit == old(self).hit,
            final(self).hover_row == old(self).hover_row,
            final(self).same_clips(*old(self)),
            final(self).same_panels(*old(self)),
            final(self).peek_reveal == old(self).peek_reveal,
            final(self).blink_until == old(self).blink_until,
            final(self).link_available == old(self).link_available,
            final(self).expanded == old(self).expanded,
    {
        if !self.expanded {
            return AxisTarget::Opening;
        }
        self.hold_deadline = None;
        if self.dict_open {
            AxisTarget::Dictionary
        } else if self.detail_open {
            if facts_hovered && self.detail_id.is_some() {
                AxisTarget::Facts
            } else {
                AxisTarget::Content
            }
        } else {
            AxisTarget::List
        }
    }

    /// Whether the pointer is on something that can be clicked.
    pub fn clip_box_hit_clickable(&self) -> (r: bool)
        ensures
            r == (self.hit != ClipHit::Nothing),
    {
        self.hit != ClipHit::Nothing
    }

    /// Open the box at its list. Returns whether it opened: an empty history
    /// has none.
    pub fn open_clip_box(&mut self) -> (r: bool)
        ensures
            r == (old(self).history@.len() > 0),
            !r ==> final(self).same_clips(*old(self)) && final(self).same_box(*old(self)),
            r ==> {
                &&& final(self).same_clips(*old(self))
                &&& final(self).expanded
                &&& final(self).peek_reveal
                &&& final(self).hold_deadline is None
                &&& final(self).detail_id is None
                &&& !final(self).detail_open
                &&& !final(self).dict_open
                &&& final(self).dict_query@.len() == 0
                &&& final(self).dict_loading == old(self).dict_loading
                &&& final(self).dict_error == old(self).dict_error
                &&& final(self).dict_data == old(self).dict_data
                &&& final(self).detail_src_striped == old(self).detail_src_striped
                &&& final(self).blink_until == old(self).blink_until
                &&& final(self).link_available == old(self).link_available
                &&& final(self).hit == old(self).hit
                &&& final(self).hover_row == old(self).hover_row
            },
    {
        if self.history.len() == 0 {
            return false;
        }
        self.hold_deadline = None;
        self.peek_reveal = true;
        self.expanded = true;
        self.detail_id = None;
        self.detail_open = false;
        self.dict_open = false;
        self.dict_query = String::new();
        true
    }

    /// Shut the box. Returns what it does to the keyboard.
    pub fn close_clip_box(&mut self) -> (r: Option<bool>)
        ensures
            shut(*old(self), *final(self)),
            r == shut_keyboard(*old(self)),
    {
        if !self.expanded {
            return None;
        }
        self.expanded = false;
        self.hit = ClipHit::Nothing;
        self.hover_row = None;
        if self.dict_open {
            self.dict_open = false;
            return Some(false);
        }
        None
    }

    /// Open the detail of row `idx`. Returns whether there is such a row.
    pub fn open_clip_detail(&mut self, idx: usize) -> (r: bool)
        ensures
            r == (idx < old(self).history@.len()),
            final(self).same_clips(*old(self)),
            final(self).peek_reveal == old(self).peek_reveal,
            final(self).hold_deadline == old(self).hold_deadline,
            final(self).blink_until == old(self).blink_until,
            final(self).link_available == old(self).link_available,
            final(self).expanded == old(self).expanded,
            final(self).dict_open == old(self).dict_open,
            final(self).same_dict(*old(self)),
            !r ==> final(self).same_box(*old(self)),
            r ==> {
                &&& final(self).detail_id == Some(old(self).history@[idx as int].id)
                &&& final(self).detail_open
                &&& final(self).detail_src_striped == (idx % 2 == 1)
                &&& final(self).hit == ClipHit::Nothing
                &&& final(self).hover_row is None
            },
    {
        if idx >= self.history.len() {
            return false;
        }
        self.detail_id = Some(self.history[idx].id);
        self.detail_open = true;
        self.detail_src_striped = idx % 2 == 1;
        self.hover_row = None;
        self.hit = ClipHit::Nothing;
        true
    }

    /// Go back from the detail to the list. The clip stays known until
    /// [`ClipState::tick`] finds the view closed, so that it can show it meanwhile.
    pub fn close_clip_detail(&mut self)
        ensures
            !final(self).detail_open,
            final(self).same_clips(*old(self)),
            final(self).same_view_but_detail(*old(self)),
            final(self).blink_until == old(self).blink_until,
    {
        self.detail_open = false;
    }

    /// Everything of the view but whether the detail is meant to be open.
    pub open spec fn same_view_but_detail(self, other: ClipState) -> bool {
        &&& self.peek_reveal == other.peek_reveal
        &&& self.hold_deadline == other.hold_deadline
        &&& self.link_available == other.link_available
        &&& self.expanded == other.expanded
        &&& self.hover_row == other.hover_row
        &&& self.hit == other.hit
        &&& self.detail_id == other.detail_id
        &&& self.detail_src_striped == other.detail_src_striped
        &&& self.dict_open == other.dict_open
        &&& self.same_dict(other)
    }

    /// One frame is drawn at `now`: the detail is forgotten once its view has
    /// closed (`detail_gone`), and a beat that is over is cleared. Returns
    /// whether the pill still beats.
    pub fn tick(&mut self, now: u64, detail_gone: bool) -> (r: bool)
        ensures
            r == (old(self).blink_until matches Some(u) && now < u),
            final(self).blink_until == (if r {
                old(self).blink_until
            } else {
                None
            }),
            final(self).detail_id == (if !old(self).detail_open && detail_gone {
                None
            } else {
                old(self).detail_id
            }),
            final(self).same_clips(*old(self)),
            final(self).peek_reveal == old(self).peek_reveal,
            final(self).hold_deadline == old(self).hold_deadline,
            final(self).link_available == old(self).link_available,
            final(self).expanded == old(self).expanded,
            final(self).hover_row == old(self).hover_row,
            final(self).hit == old(self).hit,
            final(self).detail_open == old(self).detail_open,
            final(self).detail_src_striped == old(self).detail_src_striped,
            final(self).dict_open == old(self).dict_open,
            final(self).same_dict(*old(self)),
    {
        if !self.detail_open && detail_gone {
            self.detail_id = None;
        }
        let beating: bool = match self.blink_until {
            Some(u) => now < u,
            None => false,
        };
        if !beating {
            self.blink_until = None;
        }
        beating
    }

    /// The place of the clip that the detail shows.
    pub open spec fn detail_place(self) -> Option<int> {
        match self.detail_id {
            Some(id) => if place_of_id(self.hist(), id) < self.hist().len() {
                Some(place_of_id(self.hist(), id))
            } else {
                None
            },
            None => None,
        }
    }

    /// That place, or -1 where there is none.
    pub open spec fn detail_or_none(self) -> int {
        match self.detail_place() {
            Some(i) => i,
            None => -1,
        }
    }

    fn detail_index(&self) -> (r: Option<usize>)
        ensures
            match r {
                Some(i) => self.detail_place() == Some(i as int) && i < self.history@.len(),
                None => self.detail_place() is None,
            },
    {
        match self.detail_id {
            Some(id) => self.find_id(id),
            None => None,
        }
    }

    /// The clip that the detail shows.
    pub fn clip_detail_entry(&self) -> (r: Option<&ClipEntry>)
        ensures
            match r {
                Some(e) => self.detail_place() matches Some(i) && e@ == self.hist()[i] && *e
                    == self.history@[i],
                None => self.detail_place() is None,
            },
    {
        match self.detail_index() {
            Some(i) => Some(&self.history[i]),
            None => None,
        }
    }

    /// Open the dictionary panel with an empty query. Its data is asked for
    /// where there is none and none is on its way; `can_load` says whether it
    /// can be had.
    pub fn open_dict(&mut self, can_load: bool) -> (r: ClipEffects)
        ensures
            final(self).same_clips(*old(self)),
            final(self).dict_open,
            final(self).dict_query@.len() == 0,
            final(self).dict_data == old(self).dict_data,
            final(self).dict_error == old(self).dict_error,
            final(self).dict_loading == (old(self).dict_loading || r.load_dict),
            final(self).same_but_dict(*old(self)),
            r.load_dict == (can_load && old(self).dict_data is None && !old(self).dict_loading),
            r.keyboard == Some(true),
            !r.save,
            r.serve is None,
            r.dropped@.len() == 0,
            r.unlinked@.len() == 0,
            r.open_url is None,
            r.unfurl is None,
    {
        let mut fx = ClipEffects::none();
        self.dict_open = true;
        self.dict_query = String::new();
        if self.dict_data.is_none() && !self.dict_loading && can_load {
            self.dict_loading = true;
            fx.load_dict = true;
        }
        fx.keyboard = Some(true);
        fx
    }

    /// Close the dictionary panel; the keyboard is to be given back.
    pub fn close_dict(&mut self)
        ensures
            final(self).same_clips(*old(self)),
            !final(self).dict_open,
            final(self).same_dict(*old(self)),
            final(self).same_but_dict(*old(self)),
    {
        self.dict_open = false;
    }

    /// The dictionary has been loaded, or could not be.
    pub fn on_dict_loaded(&mut self, ev: crate::dict::Event)
        ensures
            final(self).same_clips(*old(self)),
            !final(self).dict_loading,
            ({
                let crate::dict::Event::Loaded(result) = ev;
                match result {
                    Ok(d) => final(self).dict_data == Some(d) && final(self).dict_error is None,
                    Err(e) => final(self).dict_data == old(self).dict_data && final(self).dict_error == Some(e),
                }
            }),
            final(self).dict_open == old(self).dict_open,
            final(self).dict_query@ == old(self).dict_query@,
            final(self).same_but_dict(*old(self)),
    {
        let crate::dict::Event::Loaded(result) = ev;
        match result {
            Ok(d) => {
                self.dict_data = Some(d);
                self.dict_error = None;
            },
            Err(e) => {
                self.dict_error = Some(e);
            },
        }
        self.dict_loading = false;
    }

    /// A key while the dictionary panel has the keyboard; `typed` is the text
    /// it stands for. Returns whether the panel closed.
    pub fn dict_key(&mut self, key: DictKey, typed: Option<&str>) -> (r: bool)
        ensures
            r == (key == DictKey::Escape),
            final(self).dict_open == (old(self).dict_open && !r),
            final(self).dict_query@ == query_after(
                old(self).dict_query@,
                key,
                crate::focus_cycle::in_ref(typed),
            ),
            final(self).same_clips(*old(self)),
            final(self).dict_loading == old(self).dict_loading,
            final(self).dict_error == old(self).dict_error,
            final(self).dict_data == old(self).dict_data,
            final(self).same_but_dict(*old(self)),
    {
        match key {
            DictKey::Escape => {
                self.close_dict();
                return true;
            },
            DictKey::BackSpace => {
                let v = text::chars_of(self.dict_query.as_str());
                if v.len() > 0 {
                    self.dict_query = text::slice_text(&v, 0, v.len() - 1);
                    assert(self.dict_query@ == v@.drop_last());
                }
            },
            DictKey::Other => {
                if let Some(s) = typed {
                    if is_printable(s) {
                        self.dict_query.append(s);
                    }
                }
            },
        }
        false
    }

    /// Delete entry `idx`; the box shuts when nothing is left.
    pub fn delete_clip(&mut self, idx: usize) -> (r: ClipEffects)
        requires
            old(self).wf(),
        ensures
            final(self).wf(),
            final(self).detail_open == old(self).detail_open,
            deleted(*old(self), *final(self), idx as int, r),
    {
        let mut fx = ClipEffects::none();
        if idx >= self.history.len() {
            assert(models(fx.dropped@) == Seq::<clipboard::ClipModel>::empty());
            return fx;
        }
        let ghost h = self.hist();
        let e = self.history.remove(idx);
        let ghost gone = e@;
        assert(self.hist() == h.remove(idx as int));
        fx.dropped.push(e);
        assert(models(fx.dropped@) == seq![gone]);
        fx.save = true;
        if self.history.len() == 0 {
            fx.keyboard = self.close_clip_box();
        }
        fx
    }

    /// Delete the clip that the detail shows, and go back to the list.
    pub fn delete_detail_clip(&mut self) -> (r: ClipEffects)
        requires
            old(self).wf(),
        ensures
            final(self).wf(),
            !final(self).detail_open,
            deleted(*old(self), *final(self), old(self).detail_or_none(), r),
    {
        let idx = self.detail_index();
        self.close_clip_detail();
        match idx {
            Some(i) => self.delete_clip(i),
            None => {
                let fx = ClipEffects::none();
                assert(models(fx.dropped@) == Seq::<clipboard::ClipModel>::empty());
                fx
            },
        }
    }

    /// Delete the whole history and shut the box.
    pub fn clear_all_clips(&mut self) -> (r: ClipEffects)
        ensures
            final(self).wf(),
            cleared(*old(self), *final(self), r),
    {
        let mut fx = ClipEffects::none();
        let mut all: Vec<ClipEntry> = Vec::new();
        all.append(&mut self.history);
        assert(all@ == old(self).history@);
        fx.dropped = all;
        fx.save = true;
        fx.keyboard = self.close_clip_box();
        fx
    }

    /// A click on what the pointer is over. Returns whether it was taken, and
    /// what it asks for.
    pub fn clip_box_click(&mut self, can_load: bool) -> (r: (bool, ClipEffects))
        requires
            old(self).wf(),
        ensures
            final(self).wf(),
            r.0 == (old(self).hit != ClipHit::Nothing),
            clicked(*old(self), *final(self), can_load, r.1),
    {
        match self.hit {
            ClipHit::NewNote => (true, ClipEffects::none()),
            ClipHit::DetailMore => (true, ClipEffects::none()),
            ClipHit::Nothing => (false, ClipEffects::none()),
            ClipHit::Dictionary => (true, self.open_dict(can_load)),
            ClipHit::ClearAll => (true, self.clear_all_clips()),
            ClipHit::Delete(i) => (true, self.delete_clip(i)),
            ClipHit::Row(i) => {
                let mut fx = ClipEffects::none();
                fx.serve = self.copy_clip(i);
                fx.keyboard = self.close_clip_box();
                (true, fx)
            },
            ClipHit::Back => {
                let mut fx = ClipEffects::none();
                if self.dict_open {
                    self.close_dict();
                    fx.keyboard = Some(false);
                } else {
                    self.close_clip_detail();
                }
                (true, fx)
            },
            ClipHit::DetailCopy => {
                let mut fx = ClipEffects::none();
                if let Some(i) = self.detail_index() {
                    fx.serve = self.copy_clip(i);
                }
                fx.keyboard = self.close_clip_box();
                (true, fx)
            },
            ClipHit::DetailDelete => (true, self.delete_detail_clip()),
            ClipHit::DetailOpen => {
                let mut fx = ClipEffects::none();
                if let Some(i) = self.detail_index() {
                    fx.open_url = match self.history[i].link_url() {
                        Some(u) => Some(text::copy_text(u)),
                        None => None,
                    };
                }
                fx.keyboard = self.close_clip_box();
                (true, fx)
            },
        }
    }

    /// A right click opens the detail of the row under the pointer. Returns
    /// whether there was one to take the click.
    pub fn clip_box_right_click(&mut self) -> (r: bool)
        ensures
            r == (old(self).hit is Row),
            final(self).same_clips(*old(self)),
            match old(self).hit {
                ClipHit::Row(i) => if i < old(self).history@.len() {
                    &&& final(self).detail_open
                    &&& final(self).detail_id == Some(old(self).history@[i as int].id)
                    &&& final(self).detail_src_striped == (i % 2 == 1)
                    &&& final(self).hit == ClipHit::Nothing
                    &&& final(self).hover_row is None
                    &&& final(self).peek_reveal == old(self).peek_reveal
                    &&& final(self).hold_deadline == old(self).hold_deadline
                    &&& final(self).blink_until == old(self).blink_until
                    &&& final(self).link_available == old(self).link_available
                    &&& final(self).expanded == old(self).expanded
                    &&& final(self).dict_open == old(self).dict_open
                    &&& final(self).same_dict(*old(self))
                } else {
                    final(self).same_box(*old(self))
                },
                _ => final(self).same_box(*old(self)),
            },
    {
        if let ClipHit::Row(i) = self.hit {
            self.open_clip_detail(i);
            true
        } else {
            false
        }
    }

    /// The page of clip `id` has been resolved. A clip that is gone by now has
    /// its picture removed; a new picture takes the place of an old one, which
    /// is removed.
    pub fn on_unfurl(
        &mut self,
        id: u64,
        title: &str,
        description: &str,
        image_path: Option<String>,
    ) -> (r: ClipEffects)
        requires
            old(self).wf(),
        ensures
            final(self).wf(),
            final(self).same_box(*old(self)),
            final(self).next_id == old(self).next_id,
            final(self).served_hash == old(self).served_hash,
            final(self).unfurl_sent@ == old(self).unfurl_sent@,
            ({
                let h = old(self).hist();
                let n = place_of_id(h, id);
                let img = text::text_in(image_path);
                if n < h.len() {
                    &&& final(self).hist() == h.update(
                        n,
                        resolved(h[n], title@, description@, img),
                    )
                    &&& r.save
                    &&& text::texts(r.unlinked@) == (if img is Some && h[n].preview_image is Some {
                        seq![h[n].preview_image->Some_0]
                    } else {
                        Seq::empty()
                    })
                } else {
                    &&& final(self).hist() == h
                    &&& !r.save
                    &&& text::texts(r.unlinked@) == (if img is Some {
                        seq![img->Some_0]
                    } else {
                        Seq::empty()
                    })
                }
            }),
            r.serve is None,
            r.dropped@.len() == 0,
            r.open_url is None,
            r.unfurl is None,
            r.keyboard is None,
            !r.load_dict,
    {
        let mut fx = ClipEffects::none();
        let ghost h = self.hist();
        assert(text::texts(fx.unlinked@) == Seq::<Seq<char>>::empty());
        match self.find_id(id) {
            None => {
                if let Some(p) = image_path {
                    let ghost path = p@;
                    fx.unlinked.push(p);
                    assert(text::texts(fx.unlinked@) == seq![path]);
                }
            },
            Some(n) => {
                let mut e = self.history.remove(n);
                let ghost e0 = e@;
                let ghost rest = models(self.history@);
                assert(e0 == h[n as int]);
                assert(rest == h.remove(n as int));
                if !title.is_empty() {
                    e.title = text::cap(title, 120);
                }
                if !description.is_empty() {
                    e.description = text::cap(description, 300);
                }
                if let Some(p) = image_path {
                    if let Some(old) = e.preview_image.take() {
                        let ghost path = old@;
                        fx.unlinked.push(old);
                        assert(text::texts(fx.unlinked@) == seq![path]);
                    }
                    e.preview_image = Some(p);
                }
                let ghost e1 = e@;
                self.history.insert(n, e);
                assert(self.hist() == rest.insert(n as int, e1));
                assert(self.hist() == h.update(n as int, e1));
                assert forall|i: int| 0 <= i < self.history@.len() implies (
                #[trigger] self.history@[i]).id < self.next_id by {
                    if i != n {
                        assert(self.history@[i] == old(self).history@[i]);
                    }
                }
                fx.save = true;
            },
        }
        fx
    }

    /// Whether the preview should show, now that the pointer is on it (`on`) or
    /// not. Returns the moment until which it is to be held after the pointer
    /// has left, where that begins now.
    pub fn update_clip_reveal(&mut self, on: bool, now: u64) -> (r: Option<u64>)
        requires
            now <= u64::MAX - LEAVE_HOLD,
        ensures
            final(self).same_clips(*old(self)),
            final(self).same_panels(*old(self)),
            final(self).blink_until == old(self).blink_until,
            final(self).link_available == old(self).link_available,
            final(self).expanded == old(self).expanded,
            final(self).hit == old(self).hit,
            final(self).hover_row == old(self).hover_row,
            on ==> final(self).hold_deadline is None && r is None && final(self).peek_reveal == (
            old(self).peek_reveal || old(self).history@.len() > 0),
            !on ==> final(self).peek_reveal == old(self).peek_reveal && {
                let begins = old(self).peek_reveal && old(self).hold_deadline is None && !old(self).dict_open;
                &&& r == (if begins {
                    Some((now + LEAVE_HOLD) as u64)
                } else {
                    None
                })
                &&& final(self).hold_deadline == (if begins {
                    r
                } else {
                    old(self).hold_deadline
                })
            },
    {
        if on {
            self.hold_deadline = None;
            if self.history.len() > 0 {
                self.peek_reveal = true;
            }
            return None;
        }
        if self.peek_reveal && self.hold_deadline.is_none() && !self.dict_open {
            self.hold_deadline = Some(now + LEAVE_HOLD);
            return Some(now + LEAVE_HOLD);
        }
        None
    }

    /// The hold until `deadline` is over; `on` says whether the pointer is back.
    /// A hold that was replaced or dropped does nothing. Returns whether the
    /// preview, and the box with it, collapsed.
    pub fn hold_over(&mut self, deadline: u64, on: bool) -> (r: bool)
        ensures
            final(self).same_clips(*old(self)),
            final(self).same_panels(*old(self)),
            final(self).blink_until == old(self).blink_until,
            final(self).link_available == old(self).link_available,
            r == (old(self).hold_deadline == Some(deadline) && !old(self).dict_open && !on),
            final(self).hold_deadline == (if old(self).hold_deadline == Some(deadline) {
                None
            } else {
                old(self).hold_deadline
            }),
            final(self).peek_reveal == (old(self).peek_reveal && !r),
            final(self).expanded == (old(self).expanded && !r),
            final(self).hit == (if r && old(self).expanded {
                ClipHit::Nothing
            } else {
                old(self).hit
            }),
            final(self).hover_row == (if r && old(self).expanded {
                None
            } else {
                old(self).hover_row
            }),
    {
        let mine: bool = match self.hold_deadline {
            Some(d) => d == deadline,
            None => false,
        };
        if !mine {
            return false;
        }
        self.hold_deadline = None;
        if self.dict_open || on {
            return false;
        }
        self.peek_reveal = false;
        if self.expanded {
            self.expanded = false;
            self.hit = ClipHit::Nothing;
            self.hover_row = None;
        }
        true
    }

    /// Whether the focused window has a link to copy. Returns whether that is
    /// news.
    pub fn set_clip_link_available(&mut self, available: bool) -> (r: bool)
        ensures
            r == (old(self).link_available != available),
            final(self).link_available == available,
            final(self).same_clips(*old(self)),
            final(self).same_panels(*old(self)),
            final(self).peek_reveal == old(self).peek_reveal,
            final(self).hold_deadline == old(self).hold_deadline,
            final(self).blink_until == old(self).blink_until,
            final(self).expanded == old(self).expanded,
            final(self).hit == old(self).hit,
            final(self).hover_row == old(self).hover_row,
    {
        let news: bool = self.link_available != available;
        self.link_available = available;
        news
    }
}

/// How deleting everything takes the state from `s` to `t`, and what it asks
/// for.
pub open spec fn cleared(s: ClipState, t: ClipState, fx: ClipEffects) -> bool {
    &&& t.hist().len() == 0
    &&& t.next_id == s.next_id
    &&& t.served_hash == s.served_hash
    &&& t.unfurl_sent@ == s.unfurl_sent@
    &&& shut_view(s, t)
    &&& fx.dropped@ == s.history@
    &&& fx.save
    &&& fx.keyboard == shut_keyboard(s)
    &&& fx.serve is None
    &&& fx.unlinked@.len() == 0
    &&& fx.open_url is None
    &&& fx.unfurl is None
    &&& !fx.load_dict
}

/// How deleting entry `i` takes the state from `s` to `t`, apart from whether
/// the detail is meant to be open, and what it asks for.
pub open spec fn deleted(s: ClipState, t: ClipState, i: int, fx: ClipEffects) -> bool {
    let there = 0 <= i < s.hist().len();
    let emptied = there && s.hist().len() == 1;
    &&& t.hist() == (if there {
        s.hist().remove(i)
    } else {
        s.hist()
    })
    &&& models(fx.dropped@) == (if there {
        seq![s.hist()[i]]
    } else {
        Seq::empty()
    })
    &&& fx.save == there
    &&& fx.keyboard == (if emptied {
        shut_keyboard(s)
    } else {
        None
    })
    &&& t.next_id == s.next_id
    &&& t.served_hash == s.served_hash
    &&& t.unfurl_sent@ == s.unfurl_sent@
    &&& t.peek_reveal == s.peek_reveal
    &&& t.hold_deadline == s.hold_deadline
    &&& t.blink_until == s.blink_until
    &&& t.link_available == s.link_available
    &&& t.expanded == (s.expanded && !emptied)
    &&& t.detail_id == s.detail_id
    &&& t.detail_src_striped == s.detail_src_striped
    &&& t.same_dict(s)
    &&& t.dict_open == (s.dict_open && !(emptied && s.expanded))
    &&& t.hit == (if emptied && s.expanded {
        ClipHit::Nothing
    } else {
        s.hit
    })
    &&& t.hover_row == (if emptied && s.expanded {
        None
    } else {
        s.hover_row
    })
    &&& fx.serve is None
    &&& fx.unlinked@.len() == 0
    &&& fx.open_url is None
    &&& fx.unfurl is None
    &&& !fx.load_dict
}

/// A clip with its page resolved.
pub open spec fn resolved(
    e: clipboard::ClipModel,
    title: Seq<char>,
    description: Seq<char>,
    image: Option<Seq<char>>,
) -> clipboard::ClipModel {
    clipboard::ClipModel {
        title: if title.len() > 0 {
            text::capped(title, 120)
        } else {
            e.title
        },
        description: if description.len() > 0 {
            text::capped(description, 300)
        } else {
            e.description
        },
        preview_image: if image is Some {
            image
        } else {
            e.preview_image
        },
        ..e
    }
}

/// Nothing is written, removed, resolved or loaded.
pub open spec fn quiet(fx: ClipEffects) -> bool {
    &&& !fx.save
    &&& fx.dropped@.len() == 0
    &&& fx.unlinked@.len() == 0
    &&& fx.unfurl is None
    &&& !fx.load_dict
}

/// How a click takes the state from `s` to `t`, and what it asks for.
pub open spec fn clicked(s: ClipState, t: ClipState, can_load: bool, fx: ClipEffects) -> bool {
    match s.hit {
        ClipHit::Nothing | ClipHit::NewNote | ClipHit::DetailMore => {
            &&& t.same_clips(s)
            &&& t.same_box(s)
            &&& fx.is_nothing()
        },
        ClipHit::Dictionary => {
            &&& t.same_clips(s)
            &&& t.dict_open
            &&& t.dict_query@.len() == 0
            &&& t.same_but_dict(s)
            &&& t.dict_data == s.dict_data
            &&& t.dict_error == s.dict_error
            &&& t.dict_loading == (s.dict_loading || fx.load_dict)
            &&& fx.load_dict == (can_load && s.dict_data is None && !s.dict_loading)
            &&& fx.keyboard == Some(true)
            &&& fx.serve is None
            &&& fx.open_url is None
            &&& !fx.save
            &&& fx.dropped@.len() == 0
            &&& fx.unlinked@.len() == 0
            &&& fx.unfurl is None
        },
        ClipHit::ClearAll => {
            cleared(s, t, fx)
        },
        ClipHit::Delete(i) => {
            &&& t.detail_open == s.detail_open
            &&& deleted(s, t, i as int, fx)
        },
        ClipHit::Row(i) => {
            let place = if i < s.hist().len() {
                Some(i as int)
            } else {
                None
            };
            served(s, t, place, fx)
        },
        ClipHit::DetailCopy => served(s, t, s.detail_place(), fx),
        ClipHit::Back => {
            &&& t.same_clips(s)
            &&& t.blink_until == s.blink_until
            &&& t.peek_reveal == s.peek_reveal
            &&& t.hold_deadline == s.hold_deadline
            &&& t.link_available == s.link_available
            &&& t.expanded == s.expanded
            &&& t.hover_row == s.hover_row
            &&& t.hit == s.hit
            &&& t.detail_id == s.detail_id
            &&& t.detail_src_striped == s.detail_src_striped
            &&& t.same_dict(s)
            &&& !t.dict_open
            &&& t.detail_open == (s.detail_open && s.dict_open)
            &&& fx.keyboard == (if s.dict_open {
                Some(false)
            } else {
                None
            })
            &&& fx.serve is None
            &&& fx.open_url is None
            &&& quiet(fx)
        },
        ClipHit::DetailDelete => {
            &&& !t.detail_open
            &&& deleted(s, t, s.detail_or_none(), fx)
        },
        ClipHit::DetailOpen => {
            &&& shut(s, t)
            &&& fx.keyboard == shut_keyboard(s)
            &&& text::text_in(fx.open_url) == (match s.detail_place() {
                Some(i) => s.history@[i].url(),
                None => None,
            })
            &&& fx.serve is None
            &&& quiet(fx)
        },
    }
}

/// Whether the clip at `place` is what is now served (nothing where there is no
/// such clip), and the box is shut.
pub open spec fn served(s: ClipState, t: ClipState, place: Option<int>, fx: ClipEffects) -> bool {
    &&& t.history == s.history
    &&& t.next_id == s.next_id
    &&& t.unfurl_sent@ == s.unfurl_sent@
    &&& shut_view(s, t)
    &&& fx.keyboard == shut_keyboard(s)
    &&& fx.open_url is None
    &&& quiet(fx)
    &&& match place {
        Some(i) => {
            &&& fx.serve matches Some(c) && c@ == s.hist()[i]
            &&& t.served_hash == Some(s.hist()[i].hash)
        },
        None => fx.serve is None && t.served_hash == s.served_hash,
    }
}

/// A deleted clip is gone, and every other clip stays in its order.
pub proof fn law_a_deletion_takes_one_clip(h: Seq<clipboard::ClipModel>, i: int)
    requires
        0 <= i < h.len(),
        distinct(h),
    ensures
        h.remove(i).len() == h.len() - 1,
        place_of_id(h.remove(i), h[i].id) == h.len() - 1,
        distinct(h.remove(i)),
{
    let r = h.remove(i);
    assert forall|k: int| 0 <= k < r.len() implies (#[trigger] r[k]).id != h[i].id by {
        if k < i {
            assert(r[k] == h[k]);
        } else {
            assert(r[k] == h[k + 1]);
            assert(h[i].id != h[k + 1].id);
        }
    }
    lemma_place_of_id(r, h[i].id, r.len() as int);
    assert forall|a: int, b: int| 0 <= a < b < r.len() implies (#[trigger] r[a]).hash != (
    #[trigger] r[b]).hash && r[a].id != r[b].id by {
        let x = if a < i {
            a
        } else {
            a + 1
        };
        let y = if b < i {
            b
        } else {
            b + 1
        };
        assert(r[a] == h[x]);
        assert(r[b] == h[y]);
    }
}

// ---------------------------------------------------------------------------
// What is kept, and what a click does
// ---------------------------------------------------------------------------

/// Of a stored history the two hundred newest entries are kept, the newest first and
/// those of one moment in their order; no entry that is left out is newer than one
/// that is kept. `at` says where the kept ones stood.
pub proof fn law_the_newest_clips_are_kept(h: Seq<clipboard::ClipModel>) -> (at: Seq<int>)
    requires
        h.len() <= usize::MAX,
    ensures
        ({
            let r = newest_first(h);
            &&& at.len() == r.len()
            &&& r.len() == (if h.len() <= 200 {
                h.len() as int
            } else {
                200
            })
            &&& forall|a: int|
                0 <= a < at.len() ==> 0 <= (#[trigger] at[a]) < h.len() && r[a] == h[at[a]]
            &&& forall|a: int, b: int|
                0 <= a < b < at.len() ==> {
                    &&& h[#[trigger] at[a]].timestamp_ms >= h[#[trigger] at[b]].timestamp_ms
                    &&& h[at[a]].timestamp_ms == h[at[b]].timestamp_ms ==> at[a] < at[b]
                }
            &&& forall|i: int, a: int|
                #![trigger h[i], at[a]]
                0 <= i < h.len() && 0 <= a < at.len() && !at.contains(i) ==> h[i].timestamp_ms
                    <= h[at[a]].timestamp_ms
        }),
{
    let n = h.len() as int;
    let lt = newer(h);
    let p = order::lemma_sort_exists(n, lt);
    order::lemma_stable_sort_unique(p, order::sorted_positions(n, lt), n, lt);
    let r = newest_first(h);
    let at = Seq::new(r.len(), |a: int| p[a] as int);
    assert forall|a: int, b: int| 0 <= a < b < at.len() implies {
        &&& h[#[trigger] at[a]].timestamp_ms >= h[#[trigger] at[b]].timestamp_ms
        &&& h[at[a]].timestamp_ms == h[at[b]].timestamp_ms ==> at[a] < at[b]
    } by {
        assert(!lt(p[b] as int, p[a] as int));
    }
    assert forall|i: int, a: int|
        #![trigger h[i], at[a]]
        0 <= i < h.len() && 0 <= a < at.len() && !at.contains(i) implies h[i].timestamp_ms
        <= h[at[a]].timestamp_ms by {
        order::lemma_permutes_covers(p, n, i);
        let k = choose|k: int| 0 <= k < n && p[k] == i;
        if k < at.len() {
            assert(at[k] == i);
        } else {
            assert(!lt(p[k] as int, p[a] as int));
        }
    }
    at
}

/// A files clip without a source gets the folder of its first file, and no other entry
/// is touched.
pub proof fn law_only_a_missing_folder_is_filled_in(e: clipboard::ClipModel)
    ensures
        e.kind != ClipKind::Files || e.source.len() > 0 ==> with_source(e) == e && !lacks_source(e),
        e.kind == ClipKind::Files && e.source.len() == 0 ==> with_source(e)
            == (clipboard::ClipModel { source: clipboard::folder_of(e.text), ..e }),
        lacks_source(e) ==> with_source(e).source.len() > 0,
{
    if e.kind == ClipKind::Files && e.source.len() == 0 && !lacks_source(e) {
        assert(clipboard::folder_of(e.text) == e.source);
    }
}

/// The highest id is that of an entry, and no entry has a higher one.
pub proof fn law_the_highest_id(h: Seq<clipboard::ClipModel>)
    ensures
        forall|i: int| 0 <= i < h.len() ==> (#[trigger] h[i]).id <= top_id(h),
        h.len() == 0 ==> top_id(h) == 0,
        h.len() > 0 ==> top_id(h) == 0 || exists|i: int|
            0 <= i < h.len() && (#[trigger] h[i]).id == top_id(h),
    decreases h.len(),
{
    lemma_top_id(h);
    if h.len() > 0 {
        let d = h.drop_last();
        law_the_highest_id(d);
        if h.last().id > top_id(d) {
            assert(h[h.len() - 1].id == top_id(h));
        } else if d.len() > 0 && top_id(d) != 0 {
            let i = choose|i: int| 0 <= i < d.len() && (#[trigger] d[i]).id == top_id(d);
            assert(h[i].id == top_id(h));
        }
    }
}

/// A clip is found at the first place with its id or hash, and behind the last one
/// where no entry has it.
pub proof fn law_clips_are_found_by_id_and_hash(h: Seq<clipboard::ClipModel>, key: u64)
    ensures
        0 <= place_of_id(h, key) <= h.len(),
        place_of_id(h, key) < h.len() ==> h[place_of_id(h, key)].id == key,
        forall|i: int| 0 <= i < place_of_id(h, key) ==> (#[trigger] h[i]).id != key,
        0 <= place_of_hash(h, key) <= h.len(),
        place_of_hash(h, key) < h.len() ==> h[place_of_hash(h, key)].hash == key,
        forall|i: int| 0 <= i < place_of_hash(h, key) ==> (#[trigger] h[i]).hash != key,
    decreases h.len(),
{
    lemma_place_bounds(h, key);
    if h.len() > 0 && h[0].id != key {
        let d = h.drop_first();
        law_clips_are_found_by_id_and_hash(d, key);
        assert forall|i: int| 0 <= i < place_of_id(h, key) implies (#[trigger] h[i]).id != key by {
            if i > 0 {
                assert(h[i] == d[i - 1]);
            }
        }
    }
}

/// The detail shows the clip with its id, and none once that clip is gone.
pub proof fn law_the_detail_shows_its_clip(s: ClipState)
    ensures
        s.detail_id is None ==> s.detail_place() is None,
        s.detail_place() matches Some(i) ==> 0 <= i < s.history@.len() && Some(s.history@[i].id)
            == s.detail_id,
        s.detail_id matches Some(id) ==> s.detail_place() is None ==> forall|i: int|
            0 <= i < s.history@.len() ==> (#[trigger] s.history@[i]).id != id,
{
    if let Some(id) = s.detail_id {
        law_clips_are_found_by_id_and_hash(s.hist(), id);
        assert(forall|i: int| 0 <= i < s.history@.len() ==> s.hist()[i].id == s.history@[i].id);
        if s.detail_place() is None {
            assert forall|i: int| 0 <= i < s.history@.len() implies (#[trigger] s.history@[i]).id
                != id by {
                assert(s.hist()[i].id != id);
            }
        }
    }
}

/// What is captured is what stands first: its content, kind and moment are the new
/// ones. A title and a picture of the link that are not known anew stay known, and a
/// clip that is new is kept as it was captured.
pub proof fn law_the_captured_content_stands_first(
    h: Seq<clipboard::ClipModel>,
    e: clipboard::ClipModel,
    next_id: u64,
    i: int,
)
    requires
        distinct(h),
    ensures
        ({
            let front = cut(joined_by(h, e, next_id))[0];
            &&& cut(joined_by(h, e, next_id)).len() > 0
            &&& front.hash == e.hash
            &&& front.kind == e.kind
            &&& front.text == e.text
            &&& front.mime == e.mime
            &&& front.preview == e.preview
            &&& front.timestamp_ms == e.timestamp_ms
            &&& front.cut == e.cut
            &&& front.image_path == e.image_path
            &&& front.width == e.width
            &&& front.height == e.height
            &&& front.description == e.description
            &&& e.title.len() > 0 ==> front.title == e.title
            &&& e.preview_image is Some ==> front.preview_image == e.preview_image
            &&& 0 <= i < h.len() && h[i].hash == e.hash ==> {
                &&& e.title.len() == 0 ==> front.title == h[i].title
                &&& e.preview_image is None ==> front.preview_image == h[i].preview_image
                &&& h[i].source.len() == 0 ==> front.source == e.source
            }
            &&& (forall|k: int| 0 <= k < h.len() ==> (#[trigger] h[k]).hash != e.hash) ==> front
                == (clipboard::ClipModel { id: next_id, ..e })
        }),
{
    lemma_place_bounds(h, e.hash);
    lemma_front_hash(h, e, next_id);
    let n = place_of_hash(h, e.hash);
    if 0 <= i < h.len() && h[i].hash == e.hash {
        if i < n {
            assert(h[i].hash != e.hash);
        } else if n < i {
            assert(h[n].hash != h[i].hash);
        }
    }
}

/// The history holds two hundred clips at most, and only those at its end fall off.
pub proof fn law_only_the_oldest_clips_fall_off(h: Seq<clipboard::ClipModel>, i: int)
    ensures
        h.len() <= 200 ==> cut(h) == h,
        h.len() > 200 ==> cut(h).len() == 200,
        0 <= i < cut(h).len() ==> cut(h)[i] == h[i],
{
}

/// What a capture asks for: the history is written, what fell off it is dropped, the
/// clip is served unless it is served already, the pill beats for half a second, and
/// the page of a link is asked for once where pages are resolved.
pub proof fn law_what_a_capture_asks_for(
    before: ClipState,
    after: ClipState,
    entry: ClipEntry,
    unfurls: bool,
    now: u64,
    fx: ClipEffects,
)
    requires
        before.wf(),
        now <= u64::MAX - 500,
        after_capture(before, after, entry, unfurls, now, fx),
    ensures
        fx.save,
        after.served_hash == Some(entry.hash),
        after.blink_until matches Some(u) && u == now + 500,
        before.served_hash == Some(entry.hash) ==> fx.serve is None,
        before.served_hash != Some(entry.hash) ==> (fx.serve matches Some(c) && c.hash
            == entry.hash),
        !unfurls ==> fx.unfurl is None,
        ({
            let front = after.history@[0];
            &&& after.history@.len() > 0
            &&& front.hash == entry.hash
            &&& fx.unfurl matches Some(u) ==> u.0 == front.id && front.url() == Some(u.1@)
                && !before.unfurl_sent@.contains(front.id) && after.unfurl_sent@.contains(front.id)
            &&& unfurls && front.url() is Some && !before.unfurl_sent@.contains(front.id)
                ==> fx.unfurl is Some
        }),
        after.expanded == before.expanded,
        after.detail_id == before.detail_id,
        after.dict_open == before.dict_open,
{
    lemma_front_hash(before.hist(), entry@, before.next_id);
    assert(after.hist()[0] == after.history@[0]@);
    let front = after.history@[0];
    if fx.unfurl is Some {
        let sent = before.unfurl_sent@.push(front.id);
        assert(sent[before.unfurl_sent@.len() as int] == front.id);
    }
}

/// A paste is noted with the newest clip alone: in front of its log, which keeps the
/// last twenty, and in its count. Nothing else of it changes, and no other clip does.
pub proof fn law_a_paste_is_noted_with_the_newest_clip(
    before: ClipState,
    after: ClipState,
    win: Option<(String, String)>,
    now_ms: u64,
    fx: ClipEffects,
    k: int,
)
    requires
        after_paste(before, after, win, now_ms, fx),
        before.hist().len() > 0,
        before.hist()[0].paste_count < u64::MAX,
    ensures
        ({
            let was = before.hist()[0];
            let is = after.hist()[0];
            &&& after.hist().len() == before.hist().len()
            &&& is == (clipboard::ClipModel {
                paste_count: is.paste_count,
                pastes: is.pastes,
                ..was
            })
            &&& is.paste_count == was.paste_count + 1
            &&& is.pastes.len() == (if was.pastes.len() < 20 {
                was.pastes.len() + 1
            } else {
                20
            })
            &&& is.pastes[0].when_ms == now_ms
            &&& win matches Some(w) ==> is.pastes[0].target == clipboard::label_of(w.0@, w.1@)
            &&& win is None ==> is.pastes[0].target.len() == 0
            &&& 0 < k < is.pastes.len() ==> is.pastes[k] == was.pastes[k - 1]
            &&& 0 < k < before.hist().len() ==> after.hist()[k] == before.hist()[k]
            &&& fx.save
            &&& fx.serve is None
        }),
{
}

/// The newest clip is served where there is one that is not served yet.
pub proof fn law_when_the_newest_clip_is_served(s: ClipState)
    ensures
        s.history@.len() == 0 ==> !serves_newest(s),
        s.history@.len() > 0 ==> serves_newest(s) == !(s.served_hash matches Some(h) && h
            == s.history@[0].hash),
{
}

/// The row under the pointer is that of a row or of its delete control.
pub proof fn law_a_delete_control_is_on_its_row(i: usize)
    ensures
        row_of(ClipHit::Row(i)) == Some(i),
        row_of(ClipHit::Delete(i)) == Some(i),
        row_of(ClipHit::Nothing) is None,
        row_of(ClipHit::Back) is None,
        row_of(ClipHit::ClearAll) is None,
{
}

/// What typing does to the query: a text without control characters is put behind it,
/// backspace takes its last character, and anything else leaves it.
pub proof fn law_what_typing_does(q: Seq<char>, c: char, t: Seq<char>)
    ensures
        query_after(q, DictKey::Escape, Some(t)) == q,
        query_after(q.push(c), DictKey::BackSpace, Some(t)) == q,
        query_after(Seq::empty(), DictKey::BackSpace, Some(t)) == Seq::<char>::empty(),
        query_after(q, DictKey::Other, None) == q,
        t.len() > 0 && (forall|i: int|
            0 <= i < t.len() ==> (#[trigger] t[i]) as int >= 32 && !(127 <= t[i] as int <= 159))
            ==> query_after(q, DictKey::Other, Some(t)) == q + t,
        (c as int) < 32 || 127 <= c as int <= 159 ==> query_after(q, DictKey::Other, Some(t.push(c)))
            == q,
{
    assert(q.push(c).drop_last() == q);
    let u = t.push(c);
    assert(u[t.len() as int] == c);
}

/// What the pointer is over. While the box is shut it is over nothing; the dictionary
/// leaves its back button alone, and the detail its controls; in the list the footer
/// lies over the rows, and a row is hit on its delete control or beside it.
pub proof fn law_what_the_pointer_is_over(s: ClipState, p: ClipPoint, shown: bool)
    ensures
        hit_at(s, shown, None) == ClipHit::Nothing,
        hit_at(s, false, Some(p)) == ClipHit::Nothing,
        s.dict_open && p.back ==> hit_at(s, true, Some(p)) == ClipHit::Back,
        s.dict_open && !p.back ==> hit_at(s, true, Some(p)) == ClipHit::Nothing,
        !s.dict_open && s.detail_open ==> (p.pill matches Some(h) ==> hit_at(s, true, Some(p)) == h),
        !s.dict_open && s.detail_open && p.pill is None ==> hit_at(s, true, Some(p))
            == ClipHit::Nothing,
        !s.dict_open && !s.detail_open && p.footer ==> (p.button matches Some(h) ==> hit_at(
            s,
            true,
            Some(p),
        ) == h),
        !s.dict_open && !s.detail_open && p.footer && p.button is None ==> hit_at(s, true, Some(p))
            == ClipHit::Nothing,
        !s.dict_open && !s.detail_open && !p.footer ==> (p.row matches Some(r) ==> hit_at(
            s,
            true,
            Some(p),
        ) == (if r.1 {
            ClipHit::Delete(r.0)
        } else {
            ClipHit::Row(r.0)
        })),
        !s.dict_open && !s.detail_open && !p.footer && p.row is None ==> hit_at(s, true, Some(p))
            == ClipHit::Nothing,
{
}

/// A click on a row, and the copy control of the detail, serve that clip and shut the
/// box; the history stays as it is.
pub proof fn law_a_click_on_a_clip_serves_it(
    s: ClipState,
    t: ClipState,
    can_load: bool,
    fx: ClipEffects,
    i: int,
)
    requires
        clicked(s, t, can_load, fx),
        0 <= i < s.history@.len(),
        s.hit == ClipHit::Row(i as usize) || s.hit == ClipHit::DetailCopy && s.detail_id == Some(
            s.history@[i].id,
        ) && forall|k: int| 0 <= k < i ==> (#[trigger] s.history@[k]).id != s.history@[i].id,
        i <= usize::MAX,
    ensures
        fx.serve matches Some(c) && c@ == s.history@[i]@,
        t.served_hash == Some(s.history@[i].hash),
        t.history@ == s.history@,
        !t.expanded,
        !fx.save,
        fx.dropped@.len() == 0,
        fx.open_url is None,
        s.expanded ==> !t.dict_open && t.hit == ClipHit::Nothing && t.hover_row is None,
        s.expanded && s.dict_open ==> fx.keyboard == Some(false),
        !s.dict_open ==> fx.keyboard is None,
{
    let h = s.hist();
    assert(h[i] == s.history@[i]@);
    if s.hit == ClipHit::DetailCopy {
        assert forall|k: int| 0 <= k < i implies (#[trigger] h[k]).id != s.history@[i].id by {
            assert(h[k] == s.history@[k]@);
        }
        lemma_place_of_id(h, s.history@[i].id, i);
    }
}

/// A click on a delete control, and the one of the detail, take that clip out of the
/// history and no other, and hand it out to be dropped. The box shuts with the last
/// clip.
pub proof fn law_a_click_on_delete_takes_that_clip(
    s: ClipState,
    t: ClipState,
    can_load: bool,
    fx: ClipEffects,
    i: int,
    k: int,
)
    requires
        clicked(s, t, can_load, fx),
        0 <= i < s.history@.len(),
        i <= usize::MAX,
        s.hit == ClipHit::Delete(i as usize) || s.hit == ClipHit::DetailDelete && s.detail_id
            == Some(s.history@[i].id) && forall|k: int|
            0 <= k < i ==> (#[trigger] s.history@[k]).id != s.history@[i].id,
    ensures
        t.history@.len() == s.history@.len() - 1,
        0 <= k < i ==> t.history@[k]@ == s.history@[k]@,
        i < k < s.history@.len() ==> t.history@[k - 1]@ == s.history@[k]@,
        fx.dropped@.len() == 1,
        fx.dropped@[0]@ == s.history@[i]@,
        fx.save,
        fx.serve is None,
        t.served_hash == s.served_hash,
        s.hit == ClipHit::DetailDelete ==> !t.detail_open,
        s.history@.len() == 1 ==> !t.expanded,
        s.history@.len() > 1 ==> t.expanded == s.expanded && t.dict_open == s.dict_open,
{
    let h = s.hist();
    assert(h[i] == s.history@[i]@);
    if s.hit == ClipHit::DetailDelete {
        assert forall|k: int| 0 <= k < i implies (#[trigger] h[k]).id != s.history@[i].id by {
            assert(h[k] == s.history@[k]@);
        }
        lemma_place_of_id(h, s.history@[i].id, i);
    }
    assert(t.hist() == h.remove(i));
    assert(t.hist().len() == t.history@.len());
    assert(models(fx.dropped@).len() == fx.dropped@.len());
    assert(models(fx.dropped@)[0] == fx.dropped@[0]@);
    if 0 <= k < i {
        assert(t.hist()[k] == t.history@[k]@);
        assert(h[k] == s.history@[k]@);
    }
    if i < k < s.history@.len() {
        assert(t.hist()[k - 1] == t.history@[k - 1]@);
        assert(h[k] == s.history@[k]@);
    }
}

/// What the other controls do: clearing drops the whole history and shuts the box;
/// opening opens the page of the detail's link and shuts the box; back leaves the
/// dictionary first and the detail else; the dictionary opens with an empty query and
/// takes the keyboard; and a click on nothing does nothing.
pub proof fn law_what_the_other_controls_do(
    s: ClipState,
    t: ClipState,
    can_load: bool,
    fx: ClipEffects,
)
    requires
        clicked(s, t, can_load, fx),
    ensures
        s.hit == ClipHit::ClearAll ==> t.history@.len() == 0 && fx.dropped@ == s.history@ && fx.save
            && !t.expanded && fx.serve is None && t.served_hash == s.served_hash,
        s.hit == ClipHit::DetailOpen ==> !t.expanded && t.history@ == s.history@ && fx.serve is None
            && !fx.save && text::text_in(fx.open_url) == (match s.detail_place() {
            Some(i) => s.history@[i].url(),
            None => None,
        }),
        s.hit == ClipHit::Back && s.dict_open ==> !t.dict_open && t.detail_open == s.detail_open
            && fx.keyboard == Some(false) && t.expanded == s.expanded,
        s.hit == ClipHit::Back && !s.dict_open ==> !t.detail_open && fx.keyboard is None
            && t.expanded == s.expanded,
        s.hit == ClipHit::Dictionary ==> t.dict_open && t.dict_query@.len() == 0 && fx.keyboard
            == Some(true) && t.history@ == s.history@,
        s.hit == ClipHit::Dictionary && can_load && s.dict_data is None && !s.dict_loading
            ==> fx.load_dict && t.dict_loading,
        s.hit == ClipHit::Dictionary && (!can_load || s.dict_data is Some || s.dict_loading)
            ==> !fx.load_dict && t.dict_loading == s.dict_loading,
        s.hit == ClipHit::Nothing || s.hit == ClipHit::NewNote || s.hit == ClipHit::DetailMore
            ==> t.history@ == s.history@ && t.expanded == s.expanded && t.dict_open == s.dict_open
            && t.detail_open == s.detail_open && fx.serve is None && fx.open_url is None && !fx.save
            && fx.dropped@.len() == 0 && fx.keyboard is None && !fx.load_dict,
        s.hit != ClipHit::DetailOpen ==> fx.open_url is None,
        s.hit != ClipHit::Dictionary ==> !fx.load_dict,
        fx.unfurl is None,
{
    assert(t.hist().len() == t.history@.len());
}

/// Shutting an open box closes the dictionary too, which gives the keyboard back, and
/// forgets what the pointer was over; a box that is shut stays as it is.
pub proof fn law_what_shutting_the_box_does(s: ClipState, t: ClipState)
    requires
        shut(s, t),
    ensures
        !t.expanded,
        t.history == s.history,
        t.served_hash == s.served_hash,
        s.expanded ==> t.hit == ClipHit::Nothing && t.hover_row is None && !t.dict_open,
        !s.expanded ==> t.hit == s.hit && t.hover_row == s.hover_row && t.dict_open == s.dict_open,
        t.detail_id == s.detail_id,
        t.detail_open == s.detail_open,
        t.dict_query@ == s.dict_query@,
        shut_keyboard(s) == (if s.expanded && s.dict_open {
            Some(false)
        } else {
            None
        }),
{
}

/// A resolved page fills in what it has: its title and description, cut to length, and
/// its picture. What it has not stays as it was, and so does everything else.
pub proof fn law_a_resolved_page_fills_in_what_it_has(
    e: clipboard::ClipModel,
    title: Seq<char>,
    description: Seq<char>,
    image: Option<Seq<char>>,
)
    ensures
        ({
            let r = resolved(e, title, description, image);
            &&& 0 < title.len() <= 120 ==> r.title == title
            &&& title.len() > 120 ==> r.title == title.take(119).push('…')
            &&& title.len() == 0 ==> r.title == e.title
            &&& 0 < description.len() <= 300 ==> r.description == description
            &&& description.len() > 300 ==> r.description == description.take(299).push('…')
            &&& description.len() == 0 ==> r.description == e.description
            &&& image is Some ==> r.preview_image == image
            &&& image is None ==> r.preview_image == e.preview_image
            &&& r.text == e.text && r.id == e.id && r.hash == e.hash && r.kind == e.kind
            &&& r.source == e.source && r.pastes == e.pastes && r.paste_count == e.paste_count
            &&& r.timestamp_ms == e.timestamp_ms
        }),
{
}

/// What it means that a part of the state is as it was: every one of its fields is.
pub proof fn law_what_staying_the_same_means(s: ClipState, t: ClipState)
    ensures
        s.same_clips(t) <==> s.history == t.history && s.next_id == t.next_id && s.served_hash
            == t.served_hash && s.unfurl_sent@ == t.unfurl_sent@,
        s.same_dict(t) <==> s.dict_query@ == t.dict_query@ && s.dict_loading == t.dict_loading
            && s.dict_error == t.dict_error && s.dict_data == t.dict_data,
        s.same_panels(t) <==> s.detail_id == t.detail_id && s.detail_open == t.detail_open
            && s.detail_src_striped == t.detail_src_striped && s.dict_open == t.dict_open
            && s.same_dict(t),
        s.same_view(t) <==> s.peek_reveal == t.peek_reveal && s.hold_deadline == t.hold_deadline
            && s.link_available == t.link_available && s.expanded == t.expanded && s.hover_row
            == t.hover_row && s.hit == t.hit && s.same_panels(t),
        s.same_box(t) <==> s.same_view(t) && s.blink_until == t.blink_until,
        s.same_but_dict(t) <==> s.peek_reveal == t.peek_reveal && s.hold_deadline
            == t.hold_deadline && s.blink_until == t.blink_until && s.link_available
            == t.link_available && s.expanded == t.expanded && s.hover_row == t.hover_row && s.hit
            == t.hit && s.detail_id == t.detail_id && s.detail_open == t.detail_open
            && s.detail_src_striped == t.detail_src_striped,
        s.same_view_but_detail(t) <==> s.peek_reveal == t.peek_reveal && s.hold_deadline
            == t.hold_deadline && s.link_available == t.link_available && s.expanded == t.expanded
            && s.hover_row == t.hover_row && s.hit == t.hit && s.detail_id == t.detail_id
            && s.detail_src_striped == t.detail_src_striped && s.dict_open == t.dict_open
            && s.same_dict(t),
        s.is_shut() <==> !s.peek_reveal && s.hold_deadline is None && s.blink_until is None
            && !s.expanded && s.hit == ClipHit::Nothing && s.hover_row is None && s.detail_id
            is None && !s.detail_open && !s.dict_open,
{
}

/// The history is seen clip by clip, and a clip field by field.
pub proof fn law_clips_are_seen_as_they_are(s: ClipState, v: Seq<ClipEntry>, i: int)
    ensures
        models(v).len() == v.len(),
        0 <= i < v.len() ==> {
            let e = v[i];
            let m = models(v)[i];
            &&& m.id == e.id && m.kind == e.kind && m.timestamp_ms == e.timestamp_ms
            &&& m.preview == e.preview@ && m.text == e.text@ && m.mime == e.mime@ && m.cut == e.cut
            &&& m.image_path == text::text_in(e.image_path) && m.width == e.width
            &&& m.height == e.height && m.hash == e.hash && m.source == e.source@
            &&& m.paste_count == e.paste_count && m.title == e.title@
            &&& m.preview_image == text::text_in(e.preview_image)
            &&& m.description == e.description@ && m.pastes.len() == e.pastes@.len()
            &&& forall|k: int|
                0 <= k < m.pastes.len() ==> (#[trigger] m.pastes[k]).target == e.pastes@[k].target@
                    && m.pastes[k].when_ms == e.pastes@[k].when_ms
        },
        s.hist() == models(s.history@),
{
}

/// A stored history can be taken up where every kept clip leaves room for another id
/// and the first file of a clip without a source can be read; and a clip has an id to
/// get where its like is there or ids are left.
pub proof fn law_which_histories_can_be_taken_up(h: Seq<clipboard::ClipModel>, s: ClipState, hash: u64)
    requires
        h.len() <= usize::MAX,
    ensures
        (forall|i: int|
            0 <= i < h.len() ==> (#[trigger] h[i]).id < u64::MAX && (h[i].kind != ClipKind::Files
                || h[i].source.len() > 0 || clipboard::first_decodes(h[i].text))) ==> restorable(h),
        s.next_id < u64::MAX ==> s.has_id_for(hash),
        (exists|i: int| 0 <= i < s.hist().len() && (#[trigger] s.hist()[i]).hash == hash)
            ==> s.has_id_for(hash),
{
    let at = law_the_newest_clips_are_kept(h);
    if forall|i: int|
        0 <= i < h.len() ==> (#[trigger] h[i]).id < u64::MAX && (h[i].kind != ClipKind::Files
            || h[i].source.len() > 0 || clipboard::first_decodes(h[i].text)) {
        assert forall|i: int| 0 <= i < newest_first(h).len() implies can_take(
            #[trigger] newest_first(h)[i],
        ) by {
            assert(newest_first(h)[i] == h[at[i]]);
        }
    }
    lemma_place_bounds(s.hist(), hash);
    if exists|i: int| 0 <= i < s.hist().len() && (#[trigger] s.hist()[i]).hash == hash {
        let i = choose|i: int| 0 <= i < s.hist().len() && (#[trigger] s.hist()[i]).hash == hash;
        assert(place_of_hash(s.hist(), hash) <= i);
    }
}

/// What a click leaves alone, whatever it is on: the ids, the pages asked for, the
/// preview, the beat, the link and the clip of the detail. The dictionary keeps its data,
/// and only its own control clears the query. Nothing but a deletion drops clips or
/// writes the history, and what the pointer is over is forgotten only with the box.
pub proof fn law_what_a_click_leaves_alone(
    s: ClipState,
    t: ClipState,
    can_load: bool,
    fx: ClipEffects,
)
    requires
        clicked(s, t, can_load, fx),
    ensures
        t.next_id == s.next_id,
        t.unfurl_sent@ == s.unfurl_sent@,
        t.peek_reveal == s.peek_reveal,
        t.hold_deadline == s.hold_deadline,
        t.blink_until == s.blink_until,
        t.link_available == s.link_available,
        t.detail_id == s.detail_id,
        t.detail_src_striped == s.detail_src_striped,
        t.dict_data == s.dict_data,
        t.dict_error == s.dict_error,
        s.hit != ClipHit::Dictionary ==> t.dict_query@ == s.dict_query@ && t.dict_loading
            == s.dict_loading,
        fx.unlinked@.len() == 0,
        fx.unfurl is None,
        s.hit != ClipHit::Back && s.hit != ClipHit::DetailDelete ==> t.detail_open == s.detail_open,
        s.hit !is Row && s.hit != ClipHit::DetailCopy ==> fx.serve is None && t.served_hash
            == s.served_hash,
        s.hit !is Delete && s.hit != ClipHit::DetailDelete && s.hit != ClipHit::ClearAll
            ==> !fx.save && fx.dropped@.len() == 0 && t.hist() == s.hist(),
        t.expanded && s.expanded ==> t.hit == s.hit && t.hover_row == s.hover_row,
        !s.expanded ==> !t.expanded && t.hit == s.hit && t.hover_row == s.hover_row,
        s.expanded && !t.expanded ==> t.hit == ClipHit::Nothing && t.hover_row is None
            && !t.dict_open && fx.keyboard == (if s.dict_open {
            Some(false)
        } else {
            None
        }),
        fx.keyboard == Some(true) ==> s.hit == ClipHit::Dictionary,
        fx.keyboard == Some(false) ==> s.dict_open && !t.dict_open,
        t.dict_open && !s.dict_open ==> s.hit == ClipHit::Dictionary,
{
}

/// A delete control without its clip does nothing to the history.
pub proof fn law_deleting_what_is_not_there_keeps_the_history(
    s: ClipState,
    t: ClipState,
    i: int,
    fx: ClipEffects,
)
    requires
        deleted(s, t, i, fx),
        i < 0 || i >= s.history@.len(),
    ensures
        t.hist() == s.hist(),
        fx.dropped@.len() == 0,
        !fx.save,
        fx.keyboard is None,
        t.expanded == s.expanded,
        t.dict_open == s.dict_open,
        t.hit == s.hit,
        t.hover_row == s.hover_row,
{
    assert(models(fx.dropped@).len() == fx.dropped@.len());
}

/// What a capture leaves alone: the box, the detail and the dictionary. The history and
/// what fell off it are together all that there was, an id is given out only for a new
/// clip, and nothing else is asked for.
pub proof fn law_what_a_capture_leaves_alone(
    before: ClipState,
    after: ClipState,
    entry: ClipEntry,
    unfurls: bool,
    now: u64,
    fx: ClipEffects,
)
    requires
        before.wf(),
        after_capture(before, after, entry, unfurls, now, fx),
    ensures
        after.hist() + models(fx.dropped@) == joined_by(before.hist(), entry@, before.next_id),
        (exists|i: int|
            0 <= i < before.hist().len() && (#[trigger] before.hist()[i]).hash == entry.hash)
            ==> after.next_id == before.next_id,
        (forall|i: int|
            0 <= i < before.hist().len() ==> (#[trigger] before.hist()[i]).hash != entry.hash)
            ==> after.next_id == before.next_id + 1,
        after.peek_reveal == before.peek_reveal,
        after.hold_deadline == before.hold_deadline,
        after.link_available == before.link_available,
        after.expanded == before.expanded,
        after.hover_row == before.hover_row,
        after.hit == before.hit,
        after.detail_id == before.detail_id,
        after.detail_open == before.detail_open,
        after.detail_src_striped == before.detail_src_striped,
        after.dict_open == before.dict_open,
        after.dict_query@ == before.dict_query@,
        after.dict_loading == before.dict_loading,
        after.dict_error == before.dict_error,
        after.dict_data == before.dict_data,
        fx.unfurl is None ==> after.unfurl_sent@ == before.unfurl_sent@,
        fx.unfurl matches Some(u) ==> after.unfurl_sent@ == before.unfurl_sent@.push(u.0),
        fx.serve matches Some(c) ==> c@ == after.hist()[0],
        fx.open_url is None,
        fx.unlinked@.len() == 0,
        fx.keyboard is None,
        !fx.load_dict,
{
    lemma_place_bounds(before.hist(), entry.hash);
    let h = before.hist();
    let j = joined_by(h, entry@, before.next_id);
    let k = after.hist().len() as int;
    assert(k <= j.len());
    assert(after.hist() == j.take(k));
    assert(j.take(k) + j.skip(k) == j);
    if exists|i: int| 0 <= i < h.len() && (#[trigger] h[i]).hash == entry.hash {
        let i = choose|i: int| 0 <= i < h.len() && (#[trigger] h[i]).hash == entry.hash;
        assert(place_of_hash(h, entry.hash) <= i);
    }
}

/// What a paste leaves alone: everything but the newest clip's record.
pub proof fn law_what_a_paste_leaves_alone(
    before: ClipState,
    after: ClipState,
    win: Option<(String, String)>,
    now_ms: u64,
    fx: ClipEffects,
)
    requires
        after_paste(before, after, win, now_ms, fx),
    ensures
        before.hist().len() == 0 ==> after.hist() == before.hist() && !fx.save,
        after.next_id == before.next_id,
        after.served_hash == before.served_hash,
        after.unfurl_sent@ == before.unfurl_sent@,
        after.peek_reveal == before.peek_reveal,
        after.hold_deadline == before.hold_deadline,
        after.blink_until == before.blink_until,
        after.link_available == before.link_available,
        after.expanded == before.expanded,
        after.hover_row == before.hover_row,
        after.hit == before.hit,
        after.detail_id == before.detail_id,
        after.detail_open == before.detail_open,
        after.detail_src_striped == before.detail_src_striped,
        after.dict_open == before.dict_open,
        after.dict_query@ == before.dict_query@,
        after.dict_loading == before.dict_loading,
        after.dict_error == before.dict_error,
        after.dict_data == before.dict_data,
        fx.serve is None,
        fx.dropped@.len() == 0,
        fx.unlinked@.len() == 0,
        fx.open_url is None,
        fx.unfurl is None,
        fx.keyboard is None,
        !fx.load_dict,
{
    assert(before.hist().len() == before.history@.len());
}

} // verus!
