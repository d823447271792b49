//! What the clipboard box shows: the lines of a row, its tile, the sheet of a
//! clip's details, and the answer of the dictionary panel.
use vstd::prelude::*;
use crate::clip_state::{ClipHit, ClipState};
use crate::clip_state;
use crate::clipboard::{ClipEntry, ClipKind};
use crate::clipboard;
use crate::dict;
use crate::text;
use std::collections::{HashMap, HashSet};

verus! {

broadcast use vstd::std_specs::hash::group_hash_axioms;

/// Most lines of a clip that a row shows.
pub const MAX_ROW_LINES: usize = 4;

/// The fewest characters that a wrapped line holds.
pub const MIN_LINE_CHARS: usize = 8;

/// How many thumbnails are kept.
pub const THUMB_CAP: usize = 32;

// ---------------------------------------------------------------------------
// Wrapping
// ---------------------------------------------------------------------------

/// Words packed into lines of at most `n` characters, going on from the line
/// `cur`; a word that is longer has a line of its own.
pub open spec fn packed(cur: Seq<char>, ws: Seq<Seq<char>>, n: int) -> Seq<Seq<char>>
    decreases ws.len(),
{
    if ws.len() == 0 {
        seq![cur]
    } else if cur.len() == 0 {
        packed(ws[0], ws.drop_first(), n)
    } else if cur.len() + 1 + ws[0].len() > n {
        seq![cur] + packed(ws[0], ws.drop_first(), n)
    } else {
        packed(cur.push(' ') + ws[0], ws.drop_first(), n)
    }
}

/// The lines of one piece: an empty one where it is blank.
pub open spec fn piece_lines(piece: Seq<char>, n: int) -> Seq<Seq<char>> {
    let line = text::trim_end(piece);
    if line.len() == 0 {
        seq![Seq::empty()]
    } else {
        packed(Seq::empty(), text::words(line), n)
    }
}

/// The lines of pieces.
pub open spec fn wrapped_pieces(ps: Seq<Seq<char>>, n: int) -> Seq<Seq<char>>
    decreases ps.len(),
{
    if ps.len() == 0 {
        Seq::empty()
    } else {
        wrapped_pieces(ps.drop_last(), n) + piece_lines(ps.last(), n)
    }
}

/// A text wrapped to `n` characters, or to the fewest that a line holds, its own
/// line breaks kept.
pub open spec fn wrapped(s: Seq<char>, n: int) -> Seq<Seq<char>> {
    wrapped_pieces(
        text::parts(s, '\n'),
        if n < MIN_LINE_CHARS {
            MIN_LINE_CHARS as int
        } else {
            n
        },
    )
}

/// Pack words into lines of at most `n` characters.
fn pack(words: &[String], n: usize) -> (r: Vec<String>)
    ensures
        text::texts(r@) == packed(Seq::empty(), text::texts(words@), n as int),
{
    let mut out: Vec<String> = Vec::new();
    let mut cur = String::new();
    let ghost ws = text::texts(words@);
    let mut i: usize = 0;
    assert(ws.skip(0) == ws);
    assert(text::texts(out@) + packed(Seq::empty(), ws, n as int) == packed(
        Seq::empty(),
        ws,
        n as int,
    ));
    while i < words.len()
        invariant
            i <= words@.len(),
            ws == text::texts(words@),
            text::texts(out@) + packed(cur@, ws.skip(i as int), n as int) == packed(
                Seq::empty(),
                ws,
                n as int,
            ),
        decreases words@.len() - i,
    {
        let ghost rest = ws.skip(i as int);
        let ghost before = text::texts(out@);
        let ghost was = cur@;
        let word = words[i].as_str();
        assert(rest[0] == word@);
        assert(rest.drop_first() == ws.skip(i + 1));
        let cur_chars = text::chars_of(cur.as_str());
        let word_chars = text::chars_of(word);
        let full: bool = cur_chars.len() > n || n - cur_chars.len() < 1 || n - cur_chars.len() - 1
            < word_chars.len();
        if cur_chars.len() == 0 {
            cur = text::copy_text(word);
            assert(packed(was, rest, n as int) == packed(cur@, ws.skip(i + 1), n as int));
        } else if full {
            out.push(cur);
            assert(text::texts(out@) == before.push(was));
            cur = text::copy_text(word);
            assert(packed(was, rest, n as int) == seq![was] + packed(
                cur@,
                ws.skip(i + 1),
                n as int,
            ));
            assert(text::texts(out@) + packed(cur@, ws.skip(i + 1), n as int) == before + packed(
                was,
                rest,
                n as int,
            ));
        } else {
            cur.push(' ');
            cur.append(word);
            assert(cur@ == was.push(' ') + word@);
            assert(packed(was, rest, n as int) == packed(cur@, ws.skip(i + 1), n as int));
        }
        i = i + 1;
    }
    assert(ws.skip(i as int) == Seq::<Seq<char>>::empty());
    let ghost last = cur@;
    let ghost before = text::texts(out@);
    assert(packed(last, ws.skip(i as int), n as int) == seq![last]);
    out.push(cur);
    assert(text::texts(out@) == before + seq![last]);
    out
}

fn append_texts(out: &mut Vec<String>, more: Vec<String>)
    ensures
        text::texts(final(out)@) == text::texts(old(out)@) + text::texts(more@),
{
    let mut more = more;
    let ghost a = out@;
    let ghost b = more@;
    out.append(&mut more);
    assert(text::texts(out@) == text::texts(a) + text::texts(b));
}

/// Wrap a text to lines in which `fitting` characters fit, keeping its own line
/// breaks.
pub fn wrap_text(s: &str, fitting: usize) -> (r: Vec<String>)
    ensures
        text::texts(r@) == wrapped(s@, fitting as int),
{
    let max_chars: usize = if fitting < MIN_LINE_CHARS {
        MIN_LINE_CHARS
    } else {
        fitting
    };
    let parts = text::split_on(s, '\n');
    let ghost ps = text::texts(parts@);
    let mut out: Vec<String> = Vec::new();
    assert(ps.take(0) == Seq::<Seq<char>>::empty());
    assert(text::texts(out@) == Seq::<Seq<char>>::empty());
    for i in 0..parts.len()
        invariant
            ps == text::texts(parts@),
            text::texts(out@) == wrapped_pieces(ps.take(i as int), max_chars as int),
    {
        assert(ps.take(i + 1).drop_last() == ps.take(i as int));
        assert(ps.take(i + 1).last() == parts@[i as int]@);
        let line = text::trim_tail(parts[i].as_str());
        if line.as_str().is_empty() {
            let ghost was = text::texts(out@);
            out.push(String::new());
            assert(text::texts(out@) == was + seq![Seq::<char>::empty()]);
        } else {
            let words = text::words_of(line.as_str());
            append_texts(&mut out, pack(&words, max_chars));
        }
    }
    assert(ps.take(ps.len() as int) == ps);
    out
}

/// A packed line is no longer than asked for, unless it is a single word (or
/// the line that packing began with).
pub proof fn law_packed_lines_fit(cur: Seq<char>, ws: Seq<Seq<char>>, n: int)
    ensures
        packed(cur, ws, n).len() > 0,
        forall|k: int|
            0 <= k < packed(cur, ws, n).len() ==> (#[trigger] packed(cur, ws, n)[k]).len() <= n
                || ws.contains(packed(cur, ws, n)[k]) || packed(cur, ws, n)[k] == cur,
    decreases ws.len(),
{
    if ws.len() > 0 {
        let rest = ws.drop_first();
        assert(ws.contains(ws[0]));
        assert forall|x: Seq<char>| rest.contains(x) implies ws.contains(x) by {
            let k = choose|k: int| 0 <= k < rest.len() && rest[k] == x;
            assert(ws[k + 1] == x);
        }
        if cur.len() == 0 {
            law_packed_lines_fit(ws[0], rest, n);
        } else if cur.len() + 1 + ws[0].len() > n {
            law_packed_lines_fit(ws[0], rest, n);
            let p = packed(ws[0], rest, n);
            assert forall|k: int| 0 <= k < packed(cur, ws, n).len() implies (
            #[trigger] packed(cur, ws, n)[k]).len() <= n || ws.contains(packed(cur, ws, n)[k])
                || packed(cur, ws, n)[k] == cur by {
                if k > 0 {
                    assert(packed(cur, ws, n)[k] == p[k - 1]);
                }
            }
        } else {
            law_packed_lines_fit(cur.push(' ') + ws[0], rest, n);
        }
    }
}

// ---------------------------------------------------------------------------
// Rows
// ---------------------------------------------------------------------------

/// The lines that are not blank.
pub open spec fn without_blank(ls: Seq<Seq<char>>) -> Seq<Seq<char>>
    decreases ls.len(),
{
    if ls.len() == 0 {
        Seq::empty()
    } else if text::trimmed(ls.last()).len() > 0 {
        without_blank(ls.drop_last()).push(ls.last())
    } else {
        without_blank(ls.drop_last())
    }
}

/// The lines of a row: the preview, or a text clip's first lines, the last of
/// them with an ellipsis where more follow.
pub open spec fn row_lines(e: clipboard::ClipModel, max_chars: int) -> Seq<Seq<char>> {
    let ls = without_blank(wrapped(e.text, max_chars));
    if e.kind != ClipKind::Text || ls.len() == 0 {
        seq![e.preview]
    } else if ls.len() > MAX_ROW_LINES {
        ls.take(MAX_ROW_LINES - 1).push(ls[MAX_ROW_LINES - 1].push('…'))
    } else {
        ls
    }
}

/// The lines that a clip shows in a row.
pub fn clip_row_lines(e: &ClipEntry, max_chars: usize) -> (r: Vec<String>)
    ensures
        text::texts(r@) == row_lines(e@, max_chars as int),
{
    if e.kind != ClipKind::Text {
        let mut one: Vec<String> = Vec::new();
        one.push(text::copy_text(e.preview.as_str()));
        assert(text::texts(one@) == seq![e@.preview]);
        return one;
    }
    let all = wrap_text(e.text.as_str(), max_chars);
    let ghost ws = text::texts(all@);
    let mut kept: Vec<String> = Vec::new();
    assert(ws.take(0) == Seq::<Seq<char>>::empty());
    for i in 0..all.len()
        invariant
            ws == text::texts(all@),
            text::texts(kept@) == without_blank(ws.take(i as int)),
    {
        let ghost was = text::texts(kept@);
        assert(ws.take(i + 1).drop_last() == ws.take(i as int));
        assert(ws.take(i + 1).last() == all@[i as int]@);
        if !text::trim(all[i].as_str()).as_str().is_empty() {
            kept.push(text::copy_text(all[i].as_str()));
            assert(text::texts(kept@) == was.push(all@[i as int]@));
        }
    }
    assert(ws.take(ws.len() as int) == ws);
    let ghost ls = text::texts(kept@);
    if kept.len() > MAX_ROW_LINES {
        kept.truncate(MAX_ROW_LINES);
        assert(text::texts(kept@) == ls.take(MAX_ROW_LINES as int));
        if let Some(line) = kept.pop() {
            assert(line@ == ls[MAX_ROW_LINES - 1]);
            assert(text::texts(kept@) == ls.take(MAX_ROW_LINES - 1));
            let mut last = line;
            last.push('…');
            let ghost end = last@;
            kept.push(last);
            assert(text::texts(kept@) == ls.take(MAX_ROW_LINES - 1).push(end));
        }
    }
    if kept.len() == 0 {
        kept.push(text::copy_text(e.preview.as_str()));
        assert(text::texts(kept@) == seq![e@.preview]);
    }
    kept
}

/// A row never shows more than [`MAX_ROW_LINES`] lines, and never none.
pub proof fn law_rows_show_a_few_lines(e: clipboard::ClipModel, max_chars: int)
    ensures
        1 <= row_lines(e, max_chars).len() <= MAX_ROW_LINES,
{
}

/// The sign that stands for a kind of clip.
#[derive(Debug, Clone, Copy, PartialEq, Eq, Structural)]
pub enum TileGlyph {
    Link,
    Image,
    Files,
    Folder,
}

/// What a row shows at its left.
#[derive(Debug)]
pub enum ClipTile {
    /// Nothing.
    Plain,
    /// A sign.
    Glyph(TileGlyph),
    /// A thumbnail of the file at `path`, and a sign until it is there.
    Thumb { path: String, key: u64, glyph: TileGlyph },
}

/// The key under which the thumbnail of a file is kept.
pub open spec fn thumb_key(path: Seq<char>) -> u64 {
    clipboard::content_hash(vstd::utf8::encode_utf8(path))
}

/// Whether a tile is a thumbnail of this file.
pub open spec fn is_thumb(t: ClipTile, path: Seq<char>, glyph: TileGlyph) -> bool {
    match t {
        ClipTile::Thumb { path: p, key, glyph: g } => p@ == path && key == thumb_key(path) && g
            == glyph,
        _ => false,
    }
}

/// Whether a tile is the thumbnail of a file where there is one, else the sign.
pub open spec fn thumb_or_glyph(t: ClipTile, path: Option<String>, glyph: TileGlyph) -> bool {
    match path {
        Some(p) => is_thumb(t, p@, glyph),
        None => t == ClipTile::Glyph(glyph),
    }
}

fn thumb_tile(path: &Option<String>, glyph: TileGlyph) -> (r: ClipTile)
    ensures
        thumb_or_glyph(r, *path, glyph),
{
    match path {
        Some(p) => ClipTile::Thumb {
            path: text::copy_text(p.as_str()),
            key: clipboard::hash_bytes(p.as_str().as_bytes()),
            glyph,
        },
        None => ClipTile::Glyph(glyph),
    }
}

/// What a clip shows at its left. `is_dir` and `thumbable` are asked of the
/// first path of a files clip.
pub fn clip_tile(e: &ClipEntry, is_dir: bool, thumbable: bool) -> (r: ClipTile)
    requires
        e.kind == ClipKind::Files ==> clipboard::first_decodes(e.text@),
    ensures
        match e.kind {
            ClipKind::Text => if e.url() is Some {
                thumb_or_glyph(r, e.preview_image, TileGlyph::Link)
            } else {
                r is Plain
            },
            ClipKind::Image => thumb_or_glyph(r, e.image_path, TileGlyph::Image),
            ClipKind::Files => match clipboard::first_path(e.text@) {
                None => r == ClipTile::Glyph(TileGlyph::Files),
                Some(p) => if is_dir {
                    r == ClipTile::Glyph(TileGlyph::Folder)
                } else if thumbable {
                    is_thumb(r, p, TileGlyph::Files)
                } else {
                    r == ClipTile::Glyph(TileGlyph::Files)
                },
            },
        },
{
    match e.kind {
        ClipKind::Text => {
            if e.is_link() {
                thumb_tile(&e.preview_image, TileGlyph::Link)
            } else {
                ClipTile::Plain
            }
        },
        ClipKind::Image => thumb_tile(&e.image_path, TileGlyph::Image),
        ClipKind::Files => {
            let path = clipboard::first_file_path(e.text.as_str());
            if path.is_none() {
                return ClipTile::Glyph(TileGlyph::Files);
            }
            if is_dir {
                ClipTile::Glyph(TileGlyph::Folder)
            } else if thumbable {
                thumb_tile(&path, TileGlyph::Files)
            } else {
                ClipTile::Glyph(TileGlyph::Files)
            }
        },
    }
}

/// The sign as a character of the icon font.
pub fn glyph_text(g: TileGlyph) -> (r: &'static str)
    ensures
        r@ == (match g {
            TileGlyph::Link => "\u{f0c1}"@,
            TileGlyph::Image => "\u{f03e}"@,
            TileGlyph::Files => "\u{f0c6}"@,
            TileGlyph::Folder => "\u{f07b}"@,
        }),
{
    match g {
        TileGlyph::Link => "\u{f0c1}",
        TileGlyph::Image => "\u{f03e}",
        TileGlyph::Files => "\u{f0c6}",
        TileGlyph::Folder => "\u{f07b}",
    }
}

// ---------------------------------------------------------------------------
// Thumbnails
// ---------------------------------------------------------------------------

/// Requests for thumbnails as plain values.
pub open spec fn requests(v: Seq<(String, u64)>) -> Seq<(Seq<char>, u64)> {
    Seq::new(v.len(), |i: int| (v[i].0@, v[i].1))
}

/// The thumbnails that rows show and that are neither `held` nor `asked` for.
pub open spec fn lacking(tiles: Seq<ClipTile>, held: Set<u64>, asked: Set<u64>) -> Seq<
    (Seq<char>, u64),
>
    decreases tiles.len(),
{
    if tiles.len() == 0 {
        Seq::empty()
    } else {
        let before = lacking(tiles.drop_last(), held, asked);
        match tiles.last() {
            ClipTile::Thumb { path, key, .. } => if !held.contains(key) && !asked.contains(key) {
                before.push((path@, key))
            } else {
                before
            },
            _ => before,
        }
    }
}

proof fn lemma_pushed_set(s: Seq<u64>, k: u64)
    ensures
        s.push(k).to_set() == s.to_set().insert(k),
{
    assert forall|x: u64| s.push(k).to_set().contains(x) == s.to_set().insert(k).contains(x) by {
        if x == k {
            assert(s.push(k)[s.len() as int] == k);
        }
        if s.contains(x) {
            let i = choose|i: int| 0 <= i < s.len() && s[i] == x;
            assert(s.push(k)[i] == x);
        }
        if s.push(k).contains(x) && x != k {
            let i = choose|i: int| 0 <= i < s.push(k).len() && s.push(k)[i] == x;
            assert(s[i] == x);
        }
    }
}

/// Which thumbnail stands in which slot. Once every slot is taken they are used
/// again in turn.
pub struct ThumbSlots {
    /// Key to slot.
    pub slot: HashMap<u64, u32>,
    /// Slot to key.
    pub key_at: Vec<u64>,
    /// The slot that is used again next.
    pub next: usize,
    /// The keys that have been asked for.
    pub pending: HashSet<u64>,
}

impl ThumbSlots {
    /// Keys and slots belong to each other one for one.
    pub open spec fn wf(self) -> bool {
        &&& self.key_at@.len() <= THUMB_CAP
        &&& self.next < THUMB_CAP
        &&& forall|i: int|
            0 <= i < self.key_at@.len() ==> self.slot@.contains_key(#[trigger] self.key_at@[i])
                && self.slot@[self.key_at@[i]] == i
        &&& forall|k: u64|
            #![trigger self.slot@.contains_key(k)]
            self.slot@.contains_key(k) ==> self.slot@[k] < self.key_at@.len()
                && self.key_at@[self.slot@[k] as int] == k
    }

    /// No thumbnails yet.
    pub fn new() -> (r: ThumbSlots)
        ensures
            r.wf(),
            r.key_at@.len() == 0,
            r.pending@ == Set::<u64>::empty(),
            r.next == 0,
    {
        ThumbSlots { slot: HashMap::new(), key_at: Vec::new(), next: 0, pending: HashSet::new() }
    }

    /// The slot of a thumbnail.
    pub fn slot_of(&self, key: u64) -> (r: Option<u32>)
        requires
            self.wf(),
        ensures
            match r {
                Some(i) => i < self.key_at@.len() && self.key_at@[i as int] == key,
                None => !self.key_at@.contains(key),
            },
    {
        match self.slot.get(&key) {
            Some(i) => Some(*i),
            None => None,
        }
    }

    /// Ask for the thumbnails of rows that lack theirs: those that are neither
    /// there nor on their way. They are then on their way.
    pub fn request_clip_thumbs(&mut self, tiles: &[ClipTile]) -> (r: Vec<(String, u64)>)
        requires
            old(self).wf(),
        ensures
            final(self).wf(),
            final(self).key_at@ == old(self).key_at@,
            final(self).next == old(self).next,
            final(self).slot@ == old(self).slot@,
            requests(r@) == lacking(tiles@, old(self).slot@.dom(), old(self).pending@),
            final(self).pending@ == old(self).pending@.union(
                lacking(tiles@, old(self).slot@.dom(), old(self).pending@).map_values(
                    |q: (Seq<char>, u64)| q.1,
                ).to_set(),
            ),
    {
        let ghost held = self.slot@.dom();
        let ghost asked = self.pending@;
        let mut r: Vec<(String, u64)> = Vec::new();
        assert(tiles@.take(0) == Seq::<ClipTile>::empty());
        assert(requests(r@) == lacking(tiles@.take(0), held, asked));
        for i in 0..tiles.len()
            invariant
                *self == *old(self),
                held == self.slot@.dom(),
                asked == self.pending@,
                requests(r@) == lacking(tiles@.take(i as int), held, asked),
        {
            assert(tiles@.take(i + 1).drop_last() == tiles@.take(i as int));
            assert(tiles@.take(i + 1).last() == tiles@[i as int]);
            if let ClipTile::Thumb { path, key, glyph: _ } = &tiles[i] {
                if !self.slot.contains_key(key) && !self.pending.contains(key) {
                    let ghost before = r@;
                    r.push((text::copy_text(path.as_str()), *key));
                    assert(requests(r@) == requests(before).push((path@, *key)));
                }
            }
        }
        assert(tiles@.take(tiles@.len() as int) == tiles@);
        let ghost want = lacking(tiles@, held, asked);
        let ghost keys = want.map_values(|q: (Seq<char>, u64)| q.1);
        assert(keys.take(0).to_set() == Set::<u64>::empty());
        assert(self.pending@ == asked.union(keys.take(0).to_set()));
        for i in 0..r.len()
            invariant
                self.wf(),
                self.key_at@ == old(self).key_at@,
                self.next == old(self).next,
                self.slot@ == old(self).slot@,
                requests(r@) == want,
                keys == want.map_values(|q: (Seq<char>, u64)| q.1),
                self.pending@ == asked.union(keys.take(i as int).to_set()),
        {
            assert(want[i as int] == (r@[i as int].0@, r@[i as int].1));
            self.pending.insert(r[i].1);
            assert(keys.take(i + 1) == keys.take(i as int).push(r@[i as int].1));
            proof {
                lemma_pushed_set(keys.take(i as int), r@[i as int].1);
            }
        }
        assert(keys.take(keys.len() as int) == keys);
        r
    }

    /// A thumbnail has arrived. Returns the slot it goes into, or `None` where
    /// it is there already.
    pub fn on_clip_thumb(&mut self, key: u64) -> (r: Option<usize>)
        requires
            old(self).wf(),
        ensures
            final(self).wf(),
            final(self).pending@ == old(self).pending@.remove(key),
            match r {
                None => old(self).slot@.contains_key(key) && final(self).key_at@ == old(
                    self).key_at@ && final(self).next == old(self).next,
                Some(s) => {
                    &&& !old(self).slot@.contains_key(key)
                    &&& final(self).key_at@[s as int] == key
                    &&& if old(self).key_at@.len() < THUMB_CAP {
                        &&& s == old(self).key_at@.len()
                        &&& final(self).key_at@ == old(self).key_at@.push(key)
                        &&& final(self).next == old(self).next
                    } else {
                        &&& s == old(self).next
                        &&& final(self).key_at@ == old(self).key_at@.update(s as int, key)
                        &&& final(self).next == (s + 1) % (THUMB_CAP as int)
                    }
                },
            },
    {
        self.pending.remove(&key);
        if self.slot.contains_key(&key) {
            return None;
        }
        let ghost keys = self.key_at@;
        let ghost slots = self.slot@;
        if self.key_at.len() < THUMB_CAP {
            let s: usize = self.key_at.len();
            self.key_at.push(key);
            self.slot.insert(key, s as u32);
            return Some(s);
        }
        let s: usize = self.next;
        self.next = (s + 1) % THUMB_CAP;
        let gone: u64 = self.key_at[s];
        self.slot.remove(&gone);
        self.key_at.set(s, key);
        self.slot.insert(key, s as u32);
        proof {
            assert(slots[gone] == s);
            assert forall|i: int| 0 <= i < self.key_at@.len() implies self.slot@.contains_key(
                #[trigger] self.key_at@[i],
            ) && self.slot@[self.key_at@[i]] == i by {
                if i != s {
                    assert(self.key_at@[i] == keys[i]);
                    assert(slots[keys[i]] == i);
                }
            }
            assert forall|k: u64|
                #![trigger self.slot@.contains_key(k)]
                self.slot@.contains_key(k) implies self.slot@[k] < self.key_at@.len()
                && self.key_at@[self.slot@[k] as int] == k by {
                if k != key {
                    assert(slots.contains_key(k));
                }
            }
        }
        Some(s)
    }
}

// ---------------------------------------------------------------------------
// Times
// ---------------------------------------------------------------------------

/// A number with at least two digits.
pub open spec fn two_digits(n: u32) -> Seq<char> {
    if n < 10 {
        seq!['0'] + text::decimal(n as nat)
    } else {
        text::decimal(n as nat)
    }
}

fn padded(n: u32) -> (r: String)
    ensures
        r@ == two_digits(n),
{
    let mut r = String::new();
    if n < 10 {
        r.push('0');
    }
    r.append(text::number(n as u64).as_str());
    assert(n < 10 ==> r@ == seq!['0'] + text::decimal(n as nat));
    r
}

/// A clock time.
pub open spec fn clock(hour: u32, minute: u32) -> Seq<char> {
    two_digits(hour) + ":"@ + two_digits(minute)
}

fn clock_text(hour: u32, minute: u32) -> (r: String)
    ensures
        r@ == clock(hour, minute),
{
    let mut r = padded(hour);
    r.append(":");
    r.append(padded(minute).as_str());
    r
}

/// The time of a row: nothing for an unknown moment, the clock time on the same
/// day (or a later one), else how many days ago it was.
pub open spec fn relative(ms: u64, day: i64, hour: u32, minute: u32, today: i64) -> Seq<char> {
    if ms == 0 {
        Seq::empty()
    } else if today <= day {
        clock(hour, minute)
    } else {
        text::decimal((today - day) as nat).push('d')
    }
}

/// The time of a row, from the local day and clock of its moment and the local
/// day of now.
pub fn fmt_relative(ms: u64, day: i64, hour: u32, minute: u32, today: i64) -> (r: String)
    ensures
        r@ == relative(ms, day, hour, minute, today),
{
    if ms == 0 {
        return String::new();
    }
    if today <= day {
        return clock_text(hour, minute);
    }
    let diff: i128 = today as i128 - day as i128;
    let mut r = text::number(diff as u64);
    r.push('d');
    r
}

/// The short name of a month, counted from 0.
pub open spec fn month(i: u32) -> Seq<char> {
    if i == 0 {
        "Jan"@
    } else if i == 1 {
        "Feb"@
    } else if i == 2 {
        "Mar"@
    } else if i == 3 {
        "Apr"@
    } else if i == 4 {
        "May"@
    } else if i == 5 {
        "Jun"@
    } else if i == 6 {
        "Jul"@
    } else if i == 7 {
        "Aug"@
    } else if i == 8 {
        "Sep"@
    } else if i == 9 {
        "Oct"@
    } else if i == 10 {
        "Nov"@
    } else if i == 11 {
        "Dec"@
    } else {
        ""@
    }
}

fn month_name(i: u32) -> (r: &'static str)
    ensures
        r@ == month(i),
{
    if i == 0 {
        "Jan"
    } else if i == 1 {
        "Feb"
    } else if i == 2 {
        "Mar"
    } else if i == 3 {
        "Apr"
    } else if i == 4 {
        "May"
    } else if i == 5 {
        "Jun"
    } else if i == 6 {
        "Jul"
    } else if i == 7 {
        "Aug"
    } else if i == 8 {
        "Sep"
    } else if i == 9 {
        "Oct"
    } else if i == 10 {
        "Nov"
    } else if i == 11 {
        "Dec"
    } else {
        ""
    }
}

/// A date and a clock time; nothing for an unknown moment.
pub open spec fn date_time(ms: u64, mon: u32, mday: u32, hour: u32, minute: u32) -> Seq<char> {
    if ms == 0 {
        Seq::empty()
    } else {
        month(mon) + " "@ + text::decimal(mday as nat) + " · "@ + clock(hour, minute)
    }
}

/// A date and a clock time, from the local calendar of the moment `ms`.
pub fn fmt_datetime(ms: u64, mon: u32, mday: u32, hour: u32, minute: u32) -> (r: String)
    ensures
        r@ == date_time(ms, mon, mday, hour, minute),
{
    if ms == 0 {
        return String::new();
    }
    let mut r = text::concat(month_name(mon), " ");
    r.append(text::number(mday as u64).as_str());
    r.append(" · ");
    r.append(clock_text(hour, minute).as_str());
    r
}

// ---------------------------------------------------------------------------
// Details
// ---------------------------------------------------------------------------

/// Rows as plain text: a label and a value.
pub open spec fn row_texts(v: Seq<(String, String)>) -> Seq<(Seq<char>, Seq<char>)> {
    Seq::new(v.len(), |i: int| (v[i].0@, v[i].1@))
}

fn push_row(v: &mut Vec<(String, String)>, label: &str, value: String)
    ensures
        row_texts(final(v)@) == row_texts(old(v)@).push((label@, value@)),
{
    let ghost was = row_texts(v@);
    let ghost val = value@;
    v.push((text::copy_text(label), value));
    assert(row_texts(v@) == was.push((label@, val)));
}

/// What is known of how often a clip was pasted.
pub open spec fn paste_text(count: u64) -> Seq<char> {
    if count == 0 {
        "not yet"@
    } else if count == 1 {
        "1 time"@
    } else {
        text::decimal(count as nat) + " times"@
    }
}

/// The rows of a clip's sheet: a link's title and description where they are
/// known, then where it came from, when it was copied and how often it was
/// pasted. `copied` is the time as text.
pub open spec fn sheet_rows(e: ClipEntry, copied: Seq<char>) -> Seq<(Seq<char>, Seq<char>)> {
    let title = if e.url() is Some && e.title@.len() > 0 {
        seq![("Title:"@, e.title@)]
    } else {
        Seq::empty()
    };
    let about = if e.url() is Some && e.description@.len() > 0 {
        seq![("About:"@, e.description@)]
    } else {
        Seq::empty()
    };
    title + about + seq![
        ("Source:"@, if e.source@.len() == 0 {
            "unknown"@
        } else {
            e.source@
        }),
        ("Copied:"@, if e.kind == ClipKind::Files && e.cut {
            copied + " · cut"@
        } else {
            copied
        }),
        ("Pasted:"@, paste_text(e.paste_count)),
    ]
}

/// The rows of a clip's sheet.
pub fn meta_rows(e: &ClipEntry, copied: &str) -> (r: Vec<(String, String)>)
    ensures
        row_texts(r@) == sheet_rows(*e, copied@),
{
    let mut rows: Vec<(String, String)> = Vec::new();
    let link: bool = e.is_link();
    if link && !e.title.as_str().is_empty() {
        push_row(&mut rows, "Title:", text::copy_text(e.title.as_str()));
    }
    if link && !e.description.as_str().is_empty() {
        push_row(&mut rows, "About:", text::copy_text(e.description.as_str()));
    }
    let source = if e.source.as_str().is_empty() {
        text::copy_text("unknown")
    } else {
        text::copy_text(e.source.as_str())
    };
    push_row(&mut rows, "Source:", source);
    let when = if e.kind == ClipKind::Files && e.cut {
        text::concat(copied, " · cut")
    } else {
        text::copy_text(copied)
    };
    push_row(&mut rows, "Copied:", when);
    let pasted = if e.paste_count == 0 {
        text::copy_text("not yet")
    } else if e.paste_count == 1 {
        text::copy_text("1 time")
    } else {
        text::concat(text::number(e.paste_count).as_str(), " times")
    };
    push_row(&mut rows, "Pasted:", pasted);
    assert(row_texts(rows@) == sheet_rows(*e, copied@));
    rows
}

/// Where a clip was pasted, as its log shows it.
pub open spec fn log_target(target: Seq<char>) -> Seq<char> {
    if target.len() == 0 {
        "somewhere"@
    } else {
        text::capped(target, 40)
    }
}

/// Where a clip was pasted, as its log shows it.
pub fn paste_target(target: &str) -> (r: String)
    ensures
        r@ == log_target(target@),
{
    if target.is_empty() {
        text::copy_text("somewhere")
    } else {
        text::cap(target, 40)
    }
}

/// The log of pastes: where each was, and when, as `whens` says it.
pub open spec fn log_of(pastes: Seq<clipboard::PasteRecord>, whens: Seq<Seq<char>>) -> Seq<
    (Seq<char>, Seq<char>),
> {
    Seq::new(pastes.len(), |i: int| (log_target(pastes[i].target@), whens[i]))
}

/// The lines of a clip's log of pastes: where each was, and when. `whens` holds
/// the moment of each paste as text.
pub fn log_lines(e: &ClipEntry, whens: &[String]) -> (r: Vec<(String, String)>)
    requires
        whens@.len() == e.pastes@.len(),
    ensures
        row_texts(r@) == log_of(e.pastes@, text::texts(whens@)),
{
    let mut r: Vec<(String, String)> = Vec::new();
    let ghost all = log_of(e.pastes@, text::texts(whens@));
    assert(row_texts(r@) == all.take(0));
    for i in 0..whens.len()
        invariant
            whens@.len() == e.pastes@.len(),
            all == log_of(e.pastes@, text::texts(whens@)),
            r@.len() == i,
            row_texts(r@) == all.take(i as int),
    {
        let line = (paste_target(e.pastes[i].target.as_str()), text::copy_text(whens[i].as_str()));
        let ghost was = r@;
        r.push(line);
        assert(row_texts(r@) == row_texts(was).push(all[i as int]));
        assert(row_texts(r@) == all.take(i + 1));
    }
    assert(all.take(all.len() as int) == all);
    r
}

/// How many rows a clip's sheet takes with its log of pastes.
pub fn meta_row_count(e: &ClipEntry) -> (r: usize)
    requires
        e.pastes@.len() <= usize::MAX - 5,
    ensures
        forall|copied: Seq<char>|
            r == (#[trigger] sheet_rows(*e, copied)).len() + e.pastes@.len(),
{
    let link: bool = e.is_link();
    let mut n: usize = 3;
    if link && !e.title.as_str().is_empty() {
        n = n + 1;
    }
    if link && !e.description.as_str().is_empty() {
        n = n + 1;
    }
    n + e.pastes.len()
}

/// The controls of the detail view, from left to right: only a link can be
/// opened.
pub open spec fn pills_of(link: bool) -> Seq<ClipHit> {
    if link {
        seq![
            ClipHit::Back,
            ClipHit::DetailCopy,
            ClipHit::DetailOpen,
            ClipHit::DetailMore,
            ClipHit::DetailDelete,
        ]
    } else {
        seq![ClipHit::Back, ClipHit::DetailCopy, ClipHit::DetailMore, ClipHit::DetailDelete]
    }
}

/// The controls of the detail view.
pub fn clip_detail_pills(s: &ClipState) -> (r: Vec<ClipHit>)
    ensures
        r@ == pills_of(
            match s.detail_place() {
                Some(i) => s.history@[i].url() is Some,
                None => false,
            },
        ),
{
    let link: bool = match s.clip_detail_entry() {
        Some(e) => e.is_link(),
        None => false,
    };
    let mut r: Vec<ClipHit> = Vec::new();
    r.push(ClipHit::Back);
    r.push(ClipHit::DetailCopy);
    if link {
        r.push(ClipHit::DetailOpen);
    }
    r.push(ClipHit::DetailMore);
    r.push(ClipHit::DetailDelete);
    assert(r@ == pills_of(link));
    r
}

/// What the card of the detail view shows.
#[derive(Debug)]
pub enum CardView {
    /// A link's picture, in this slot.
    Hero(u32),
    /// The text.
    Text,
    /// A thumbnail, in this slot.
    Thumb(u32),
    /// A sign.
    Glyph(TileGlyph),
    /// Nothing.
    Bare,
}

/// What the card of the detail view shows: a link's picture once it is there;
/// else a text clip's text; else the tile.
pub fn card_view(e: &ClipEntry, tile: &ClipTile, thumbs: &ThumbSlots) -> (r: CardView)
    requires
        thumbs.wf(),
    ensures
        ({
            let slot = match tile {
                ClipTile::Thumb { path, key, glyph } => if thumbs.slot@.contains_key(*key) {
                    Some(thumbs.slot@[*key])
                } else {
                    None
                },
                _ => None,
            };
            match r {
                CardView::Hero(i) => e.url() is Some && slot == Some(i),
                CardView::Text => e.kind == ClipKind::Text && !(e.url() is Some && slot is Some),
                CardView::Thumb(i) => e.kind != ClipKind::Text && slot == Some(i),
                CardView::Glyph(g) => e.kind != ClipKind::Text && slot is None && (match tile {
                    ClipTile::Glyph(h) => g == h,
                    ClipTile::Thumb { path, key, glyph } => g == glyph,
                    ClipTile::Plain => false,
                }),
                CardView::Bare => e.kind != ClipKind::Text && tile is Plain,
            }
        }),
{
    let slot: Option<u32> = match tile {
        ClipTile::Thumb { path, key, glyph } => match thumbs.slot.get(key) {
            Some(i) => Some(*i),
            None => None,
        },
        _ => None,
    };
    if e.kind == ClipKind::Text {
        if e.is_link() {
            if let Some(i) = slot {
                return CardView::Hero(i);
            }
        }
        return CardView::Text;
    }
    if let Some(i) = slot {
        return CardView::Thumb(i);
    }
    match tile {
        ClipTile::Glyph(g) => CardView::Glyph(*g),
        ClipTile::Thumb { path, key, glyph } => CardView::Glyph(*glyph),
        ClipTile::Plain => CardView::Bare,
    }
}

/// A host without a leading `www.`.
pub open spec fn plain_host(h: Seq<char>) -> Seq<char> {
    text::without_prefix(h, "www."@)
}

/// Whether two hosts belong together: the same, or one below the other.
pub open spec fn hosts_agree(a: Seq<char>, b: Seq<char>) -> bool {
    let x = plain_host(a);
    let y = plain_host(b);
    x == y || text::finishes_with(x, "."@ + y) || text::finishes_with(y, "."@ + x)
}

/// Whether a link's host belongs to one of the installed web applications.
pub fn link_has_webapp(host: &str, webapp_hosts: &[String]) -> (r: bool)
    ensures
        r == exists|i: int|
            0 <= i < webapp_hosts@.len() && hosts_agree(
                host@,
                (#[trigger] webapp_hosts@[i])@,
            ),
{
    let h = text::drop_prefix(host, "www.");
    for i in 0..webapp_hosts.len()
        invariant
            h@ == plain_host(host@),
            forall|k: int|
                0 <= k < i ==> !hosts_agree(host@, (#[trigger] webapp_hosts@[k])@),
    {
        let w = text::drop_prefix(webapp_hosts[i].as_str(), "www.");
        let below_w = text::concat(".", w.as_str());
        let below_h = text::concat(".", h.as_str());
        if text::same(h.as_str(), w.as_str()) || text::ends_with(h.as_str(), below_w.as_str())
            || text::ends_with(w.as_str(), below_h.as_str()) {
            return true;
        }
    }
    false
}

// ---------------------------------------------------------------------------
// The dictionary panel
// ---------------------------------------------------------------------------

/// What a line of the answer is.
#[derive(Debug, Clone, Copy, PartialEq, Eq, Structural)]
pub enum DictLineKind {
    /// The gap between two languages.
    Spacer,
    /// A language's label.
    Lang,
    /// Where the word comes from.
    Etym,
    /// The definition.
    Body,
}

/// A line of the answer.
#[derive(Debug)]
pub struct DictLine {
    pub text: String,
    pub kind: DictLineKind,
}

/// Lines as plain values.
pub open spec fn line_models(v: Seq<DictLine>) -> Seq<(Seq<char>, DictLineKind)> {
    Seq::new(v.len(), |i: int| (v[i].text@, v[i].kind))
}

/// Lines of one kind.
pub open spec fn of_kind(ls: Seq<Seq<char>>, kind: DictLineKind) -> Seq<
    (Seq<char>, DictLineKind),
> {
    Seq::new(ls.len(), |i: int| (ls[i], kind))
}

/// The lines of one language's hit.
pub open spec fn hit_lines(h: dict::DictHit, etym_chars: int, body_chars: int) -> Seq<
    (Seq<char>, DictLineKind),
> {
    let etym = match h.content.etym {
        Some(e) => of_kind(wrapped("("@ + e + ")"@, etym_chars), DictLineKind::Etym),
        None => Seq::empty(),
    };
    seq![(h.lang, DictLineKind::Lang)] + etym + of_kind(
        wrapped(h.content.def, body_chars),
        DictLineKind::Body,
    )
}

/// The lines of all hits, a gap between each two.
pub open spec fn answer_lines(hs: Seq<dict::DictHit>, etym_chars: int, body_chars: int) -> Seq<
    (Seq<char>, DictLineKind),
>
    decreases hs.len(),
{
    if hs.len() == 0 {
        Seq::empty()
    } else {
        let before = answer_lines(hs.drop_last(), etym_chars, body_chars);
        let gap = if hs.len() > 1 {
            seq![(Seq::<char>::empty(), DictLineKind::Spacer)]
        } else {
            Seq::empty()
        };
        before + gap + hit_lines(hs.last(), etym_chars, body_chars)
    }
}

/// The hits of the typed word: none for a blank one, and none without data.
pub open spec fn panel_hits(s: ClipState) -> Seq<dict::DictHit> {
    match s.dict_data {
        Some(d) => if text::trimmed(s.dict_query@).len() == 0 {
            Seq::empty()
        } else {
            dict::looked_up(d.langs@, text::trimmed(s.dict_query@))
        },
        None => Seq::empty(),
    }
}

fn push_line(v: &mut Vec<DictLine>, line: String, kind: DictLineKind)
    ensures
        line_models(final(v)@) == line_models(old(v)@).push((line@, kind)),
{
    let ghost was = line_models(v@);
    let ghost t = line@;
    v.push(DictLine { text: line, kind });
    assert(line_models(v@) == was.push((t, kind)));
}

fn push_lines(v: &mut Vec<DictLine>, lines: &[String], kind: DictLineKind)
    ensures
        line_models(final(v)@) == line_models(old(v)@) + of_kind(text::texts(lines@), kind),
{
    let ghost was = line_models(v@);
    let ghost ls = of_kind(text::texts(lines@), kind);
    assert(was + ls.take(0) == was);
    for i in 0..lines.len()
        invariant
            ls == of_kind(text::texts(lines@), kind),
            line_models(v@) == was + ls.take(i as int),
    {
        push_line(v, text::copy_text(lines[i].as_str()), kind);
        assert(was + ls.take(i + 1) == (was + ls.take(i as int)).push(ls[i as int]));
    }
    assert(ls.take(ls.len() as int) == ls);
}

/// The answer of the dictionary panel, wrapped to so many characters.
pub fn dict_answer_lines(s: &ClipState, etym_chars: usize, body_chars: usize) -> (r: Vec<DictLine>)
    ensures
        line_models(r@) == answer_lines(panel_hits(*s), etym_chars as int, body_chars as int),
{
    let mut out: Vec<DictLine> = Vec::new();
    let query = text::trim(s.dict_query.as_str());
    assert(line_models(out@) == Seq::<(Seq<char>, DictLineKind)>::empty());
    if query.as_str().is_empty() {
        return out;
    }
    let d = match &s.dict_data {
        Some(d) => d,
        None => return out,
    };
    let hits = d.lookup(query.as_str());
    let ghost hs = dict::entry_models(hits@);
    assert(hs == panel_hits(*s));
    assert(hs.take(0) == Seq::<dict::DictHit>::empty());
    for i in 0..hits.len()
        invariant
            hs == dict::entry_models(hits@),
            line_models(out@) == answer_lines(
                hs.take(i as int),
                etym_chars as int,
                body_chars as int,
            ),
    {
        let ghost before = line_models(out@);
        assert(hs.take(i + 1).drop_last() == hs.take(i as int));
        assert(hs.take(i + 1).last() == hits@[i as int]@);
        let ghost h = hits@[i as int]@;
        if i > 0 {
            push_line(&mut out, String::new(), DictLineKind::Spacer);
        }
        let ghost gapped = line_models(out@);
        push_line(&mut out, text::copy_text(hits[i].lang), DictLineKind::Lang);
        let ghost labelled = line_models(out@);
        if let Some(e) = hits[i].etymology {
            let mut t = text::concat("(", e);
            t.append(")");
            let ls = wrap_text(t.as_str(), etym_chars);
            push_lines(&mut out, &ls, DictLineKind::Etym);
        }
        let ghost derived = line_models(out@);
        let ls = wrap_text(hits[i].definition, body_chars);
        push_lines(&mut out, &ls, DictLineKind::Body);
        assert(line_models(out@) == gapped + hit_lines(h, etym_chars as int, body_chars as int));
        assert(line_models(out@) == answer_lines(
            hs.take(i + 1),
            etym_chars as int,
            body_chars as int,
        ));
    }
    assert(hs.take(hs.len() as int) == hs);
    out
}

/// What the panel says where there is no answer: nothing beside one.
pub open spec fn hint_of(s: ClipState) -> Option<Seq<char>> {
    let q = text::trimmed(s.dict_query@);
    if q.len() == 0 || panel_hits(s).len() > 0 {
        None
    } else if s.dict_data is Some {
        Some("No definition for “"@ + q + "”."@)
    } else if s.dict_loading {
        Some("Loading dictionary…"@)
    } else {
        Some("Dictionary data not installed."@)
    }
}

/// What the panel says where there is no answer: nothing for a blank query, and
/// nothing beside an answer.
pub fn dict_hint(s: &ClipState) -> (r: Option<String>)
    ensures
        text::text_in(r) == hint_of(*s),
{
    let q = text::trim(s.dict_query.as_str());
    if q.as_str().is_empty() {
        return None;
    }
    if let Some(d) = &s.dict_data {
        let hits = d.lookup(q.as_str());
        assert(dict::entry_models(hits@) == panel_hits(*s));
        if hits.len() > 0 {
            return None;
        }
        let mut t = text::concat("No definition for “", q.as_str());
        t.append("”.");
        return Some(t);
    }
    if s.dict_loading {
        return Some(text::copy_text("Loading dictionary…"));
    }
    Some(text::copy_text("Dictionary data not installed."))
}

/// The panel shows an answer or a hint, and never both: for a word that is not
/// blank there is a hint exactly where the answer has no line, and for a blank
/// one there is neither.
pub proof fn law_the_panel_answers_or_hints(s: ClipState, etym_chars: int, body_chars: int)
    ensures
        ({
            let lines = answer_lines(panel_hits(s), etym_chars, body_chars);
            if text::trimmed(s.dict_query@).len() == 0 {
                lines.len() == 0 && hint_of(s) is None
            } else {
                hint_of(s) is Some <==> lines.len() == 0
            }
        }),
{
    let hs = panel_hits(s);
    if hs.len() > 0 {
        assert(hit_lines(hs.last(), etym_chars, body_chars).len() > 0);
        assert(answer_lines(hs, etym_chars, body_chars).len() > 0);
    }
}

/// What the panel's field shows, and whether it is the prompt.
pub fn dict_field(s: &ClipState) -> (r: (String, bool))
    ensures
        r.1 == (s.dict_query@.len() == 0),
        r.0@ == (if r.1 {
            "Type a word…"@
        } else {
            s.dict_query@
        }),
{
    if s.dict_query.as_str().is_empty() {
        (text::copy_text("Type a word…"), true)
    } else {
        (text::copy_text(s.dict_query.as_str()), false)
    }
}

// ---------------------------------------------------------------------------
// The element as a whole
// ---------------------------------------------------------------------------

/// What the element shows.
#[derive(Debug, Clone, Copy, PartialEq, Eq, Structural)]
pub enum PillView {
    /// Nothing: it is behind the small pill.
    Hidden,
    /// The newest clip's preview only.
    Preview,
    /// The open box without a clip.
    Empty,
    /// The dictionary panel.
    Dict,
    /// The list, with its footer unless a detail covers it.
    List,
}

/// What the element shows. `out` says whether it has begun to slide out and
/// `open` whether the box has begun to grow.
pub fn pill_view(s: &ClipState, out: bool, open: bool) -> (r: PillView)
    ensures
        r == (if !out && !open {
            PillView::Hidden
        } else if !open {
            PillView::Preview
        } else if s.history@.len() == 0 {
            PillView::Empty
        } else if s.dict_open {
            PillView::Dict
        } else {
            PillView::List
        }),
{
    if !out && !open {
        PillView::Hidden
    } else if !open {
        PillView::Preview
    } else if s.history.len() == 0 {
        PillView::Empty
    } else if s.dict_open {
        PillView::Dict
    } else {
        PillView::List
    }
}

/// How a row is drawn.
#[derive(Debug, Clone, Copy, PartialEq, Eq)]
pub struct RowView {
    /// On the other tone: every second row.
    pub striped: bool,
    /// Under the pointer: its delete control takes the place of the time.
    pub hovered: bool,
    /// The pointer is on the delete control.
    pub delete_hot: bool,
}

/// How row `idx` is drawn, or `None` where there is no such row.
pub fn row_view(s: &ClipState, idx: usize) -> (r: Option<RowView>)
    ensures
        match r {
            Some(v) => {
                &&& idx < s.history@.len()
                &&& v.striped == (idx % 2 == 1)
                &&& v.hovered == (s.hover_row == Some(idx))
                &&& v.delete_hot == (s.hit == ClipHit::Delete(idx))
            },
            None => idx >= s.history@.len(),
        },
{
    if idx >= s.history.len() {
        return None;
    }
    let hovered: bool = match s.hover_row {
        Some(i) => i == idx,
        None => false,
    };
    Some(
        RowView { striped: idx % 2 == 1, hovered, delete_hot: s.hit == ClipHit::Delete(idx) },
    )
}

// ---------------------------------------------------------------------------
// What the views say
// ---------------------------------------------------------------------------

/// Wrapping loses no word and changes no order: the lines of the words, joined by
/// spaces, are the words joined by spaces.
pub proof fn law_wrapping_keeps_every_word(cur: Seq<char>, ws: Seq<Seq<char>>, n: int)
    requires
        cur.len() > 0,
        forall|i: int| 0 <= i < ws.len() ==> (#[trigger] ws[i]).len() > 0,
    ensures
        text::joined(packed(cur, ws, n), " "@) == text::joined(seq![cur] + ws, " "@),
    decreases ws.len(),
{
    reveal_strlit(" ");
    let sep = " "@;
    if ws.len() == 0 {
        assert(seq![cur] + ws == seq![cur]);
    } else {
        let w = ws[0];
        let rest = ws.drop_first();
        assert forall|i: int| 0 <= i < rest.len() implies (#[trigger] rest[i]).len() > 0 by {
            assert(rest[i] == ws[i + 1]);
        }
        assert(ws == seq![w] + rest);
        text::lemma_joined_from_first(cur, ws, sep);
        text::lemma_joined_from_first(w, rest, sep);
        if cur.len() + 1 + w.len() > n {
            law_wrapping_keeps_every_word(w, rest, n);
            law_packed_lines_fit(w, rest, n);
            text::lemma_joined_from_first(cur, packed(w, rest, n), sep);
        } else {
            let line = cur.push(' ') + w;
            law_wrapping_keeps_every_word(line, rest, n);
            text::lemma_joined_from_first(line, rest, sep);
            assert(line == cur + sep + w);
            if rest.len() > 0 {
                assert(line + sep + text::joined(rest, sep) == cur + sep + (w + sep
                    + text::joined(rest, sep)));
            }
        }
    }
}

/// A word goes on the line that it still fits on, behind a space, and begins the next
/// line where it does not.
pub proof fn law_a_word_goes_where_it_fits(
    line: Seq<char>,
    word: Seq<char>,
    rest: Seq<Seq<char>>,
    n: int,
)
    requires
        line.len() > 0,
    ensures
        packed(line, Seq::empty(), n) == seq![line],
        packed(Seq::empty(), seq![word] + rest, n) == packed(word, rest, n),
        line.len() + 1 + word.len() <= n ==> packed(line, seq![word] + rest, n) == packed(
            line + seq![' '] + word,
            rest,
            n,
        ),
        line.len() + 1 + word.len() > n ==> packed(line, seq![word] + rest, n) == seq![line]
            + packed(word, rest, n),
{
    let ws = seq![word] + rest;
    assert(ws[0] == word);
    assert(ws.drop_first() == rest);
    assert(line.push(' ') + word == line + seq![' '] + word);
}

/// Line breaks are kept: a text is wrapped line by line, a blank line stays as an
/// empty one, and a width below eight counts as eight.
pub proof fn law_line_breaks_are_kept(line: Seq<char>, rest: Seq<char>, n: int)
    requires
        !line.contains('\n'),
    ensures
        wrapped(line.push('\n') + rest, n) == wrapped(line, n) + wrapped(rest, n),
        n < 8 ==> wrapped(rest, n) == wrapped(rest, 8),
        text::trim_end(line).len() == 0 ==> wrapped(line, n) == seq![Seq::<char>::empty()],
        text::trim_end(line).len() > 0 && n >= 8 ==> wrapped(line, n) == packed(
            Seq::empty(),
            text::words(text::trim_end(line)),
            n,
        ),
{
    let m = if n < MIN_LINE_CHARS {
        MIN_LINE_CHARS as int
    } else {
        n
    };
    text::lemma_parts_front(line, '\n', rest);
    let one = seq![line];
    lemma_wrapped_sum(one, text::parts(rest, '\n'), m);
    assert(one.drop_last() == Seq::<Seq<char>>::empty());
    assert(one.last() == line);
    assert(wrapped_pieces(one.drop_last(), m) == Seq::<Seq<char>>::empty());
    assert(wrapped_pieces(one, m) == piece_lines(line, m));
}

proof fn lemma_wrapped_sum(a: Seq<Seq<char>>, b: Seq<Seq<char>>, n: int)
    ensures
        wrapped_pieces(a + b, n) == wrapped_pieces(a, n) + wrapped_pieces(b, n),
    decreases b.len(),
{
    if b.len() == 0 {
        assert(a + b == a);
        assert(wrapped_pieces(a, n) + wrapped_pieces(b, n) == wrapped_pieces(a, n));
    } else {
        lemma_wrapped_sum(a, b.drop_last(), n);
        assert((a + b).drop_last() == a + b.drop_last());
        assert(wrapped_pieces(a, n) + (wrapped_pieces(b.drop_last(), n) + piece_lines(b.last(), n))
            == (wrapped_pieces(a, n) + wrapped_pieces(b.drop_last(), n)) + piece_lines(b.last(), n));
    }
}

/// Blank lines are left out and all others kept in their order.
pub proof fn law_blank_lines_are_left_out(ls: Seq<Seq<char>>, line: Seq<char>)
    ensures
        without_blank(Seq::empty()) == Seq::<Seq<char>>::empty(),
        text::trimmed(line).len() == 0 ==> without_blank(ls.push(line)) == without_blank(ls),
        text::trimmed(line).len() > 0 ==> without_blank(ls.push(line)) == without_blank(ls).push(
            line,
        ),
{
    assert(ls.push(line).drop_last() == ls);
}

/// A row shows the first lines of a text that are not blank, four at most, and an
/// ellipsis behind the fourth where more follow. A clip that is no text, or a blank
/// one, shows its preview.
pub proof fn law_a_row_shows_the_first_lines(e: clipboard::ClipModel, max_chars: int, k: int)
    ensures
        ({
            let ls = without_blank(wrapped(e.text, max_chars));
            let r = row_lines(e, max_chars);
            &&& e.kind != ClipKind::Text || ls.len() == 0 ==> r == seq![e.preview]
            &&& e.kind == ClipKind::Text && 0 < ls.len() <= 4 ==> r == ls
            &&& e.kind == ClipKind::Text && ls.len() > 4 ==> r.len() == 4 && r[3] == ls[3].push('…')
                && (0 <= k < 3 ==> r[k] == ls[k])
        }),
{
}

/// A thumbnail is asked for where a row shows it and it is neither there nor asked for
/// already; the requests come in the order of the rows.
pub proof fn law_missing_thumbnails_are_asked_for(
    tiles: Seq<ClipTile>,
    tile: ClipTile,
    held: Set<u64>,
    asked: Set<u64>,
)
    ensures
        lacking(Seq::empty(), held, asked) == Seq::<(Seq<char>, u64)>::empty(),
        tile !is Thumb ==> lacking(tiles.push(tile), held, asked) == lacking(tiles, held, asked),
        tile matches ClipTile::Thumb { path, key, .. } ==> lacking(tiles.push(tile), held, asked)
            == (if held.contains(key) || asked.contains(key) {
            lacking(tiles, held, asked)
        } else {
            lacking(tiles, held, asked).push((path@, key))
        }),
{
    assert(tiles.push(tile).drop_last() == tiles);
}

/// A thumbnail is kept under the hash of its path, so that one file has one key.
pub proof fn law_a_thumbnail_is_of_its_file(t: ClipTile, path: String, glyph: TileGlyph)
    ensures
        thumb_or_glyph(t, Some(path), glyph) <==> (t matches ClipTile::Thumb {
            path: p,
            key,
            glyph: g,
        } && p@ == path@ && key == clipboard::content_hash(vstd::utf8::encode_utf8(path@)) && g
            == glyph),
        thumb_or_glyph(t, None, glyph) <==> t == ClipTile::Glyph(glyph),
{
}

/// A clock time has two digits for the hour, a colon, and two for the minute.
pub proof fn law_a_clock_has_two_digits_each(hour: u32, minute: u32)
    requires
        hour < 100,
        minute < 100,
    ensures
        clock(hour, minute).len() == 5,
        clock(hour, minute)[2] == ':',
        10 * (clock(hour, minute)[0] as int - 48) + (clock(hour, minute)[1] as int - 48) == hour,
        10 * (clock(hour, minute)[3] as int - 48) + (clock(hour, minute)[4] as int - 48) == minute,
        forall|i: int|
            0 <= i < 5 && i != 2 ==> 48 <= (#[trigger] clock(hour, minute)[i]) as int <= 57,
{
    reveal_strlit(":");
    lemma_two_digits(hour);
    lemma_two_digits(minute);
    let c = clock(hour, minute);
    assert(c[0] == two_digits(hour)[0] && c[1] == two_digits(hour)[1]);
    assert(c[3] == two_digits(minute)[0] && c[4] == two_digits(minute)[1]);
}

proof fn lemma_two_digits(n: u32)
    requires
        n < 100,
    ensures
        two_digits(n).len() == 2,
        10 * (two_digits(n)[0] as int - 48) + (two_digits(n)[1] as int - 48) == n,
        48 <= two_digits(n)[0] as int <= 57,
        48 <= two_digits(n)[1] as int <= 57,
{
    if n < 10 {
        text::law_digits_have_weight(1, n as nat);
    } else {
        let t = (n / 10) as nat;
        let k = (n % 10) as nat;
        text::law_digits_have_weight(1, t);
        text::law_digits_have_weight(t, k);
        assert(n == 10 * t + k);
    }
}

/// The time of a row: the clock on the same day or a later one, in days before today,
/// and nothing for an unknown moment.
pub proof fn law_times_are_relative_to_today(
    ms: u64,
    day: i64,
    hour: u32,
    minute: u32,
    today: i64,
)
    ensures
        relative(0, day, hour, minute, today).len() == 0,
        ms > 0 && day >= today ==> relative(ms, day, hour, minute, today) == clock(hour, minute),
        ms > 0 && day < today ==> relative(ms, day, hour, minute, today) == text::decimal(
            (today - day) as nat,
        ) + "d"@,
        date_time(0, 0, 1, hour, minute).len() == 0,
{
    reveal_strlit("d");
    if day < today {
        assert(text::decimal((today - day) as nat).push('d') == text::decimal((today - day) as nat)
            + "d"@);
    }
}

/// The months by their names, and how a date reads.
pub proof fn law_how_a_date_reads(ms: u64, mon: u32, mday: u32, hour: u32, minute: u32)
    requires
        ms > 0,
        mon < 12,
    ensures
        date_time(ms, mon, mday, hour, minute) == seq![
            "Jan"@,
            "Feb"@,
            "Mar"@,
            "Apr"@,
            "May"@,
            "Jun"@,
            "Jul"@,
            "Aug"@,
            "Sep"@,
            "Oct"@,
            "Nov"@,
            "Dec"@,
        ][mon as int] + " "@ + text::decimal(mday as nat) + " · "@ + clock(hour, minute),
{
}

/// The sheet of a clip: a link's title and description where they are known, and of
/// every clip where it is from, when it was copied, whether it was cut, and how often
/// it was pasted.
pub proof fn law_what_a_sheet_says(e: ClipEntry, copied: Seq<char>)
    ensures
        ({
            let r = sheet_rows(e, copied);
            let link = e.url() is Some;
            let n = r.len() as int;
            let t = if link && e.title@.len() > 0 {
                1int
            } else {
                0
            };
            let a = if link && e.description@.len() > 0 {
                1int
            } else {
                0
            };
            &&& n == 3 + t + a
            &&& t == 1 ==> r[0] == ("Title:"@, e.title@)
            &&& a == 1 ==> r[t] == ("About:"@, e.description@)
            &&& e.source@.len() > 0 ==> r[n - 3] == ("Source:"@, e.source@)
            &&& e.source@.len() == 0 ==> r[n - 3] == ("Source:"@, "unknown"@)
            &&& e.kind == ClipKind::Files && e.cut ==> r[n - 2] == (
                "Copied:"@,
                copied + " · cut"@,
            )
            &&& e.kind != ClipKind::Files || !e.cut ==> r[n - 2] == ("Copied:"@, copied)
            &&& r[n - 1].0 == "Pasted:"@
            &&& e.paste_count == 0 ==> r[n - 1].1 == "not yet"@
            &&& e.paste_count == 1 ==> r[n - 1].1 == "1 time"@
            &&& e.paste_count > 1 ==> r[n - 1].1 == text::decimal(e.paste_count as nat) + " times"@
        }),
{
}

/// The log names each paste's window, cut to forty characters, and its moment, in the
/// order of the pastes.
pub proof fn law_the_log_names_every_paste(
    pastes: Seq<clipboard::PasteRecord>,
    whens: Seq<Seq<char>>,
    i: int,
)
    requires
        0 <= i < pastes.len(),
    ensures
        log_of(pastes, whens).len() == pastes.len(),
        log_of(pastes, whens)[i].1 == whens[i],
        pastes[i].target@.len() == 0 ==> log_of(pastes, whens)[i].0 == "somewhere"@,
        0 < pastes[i].target@.len() <= 40 ==> log_of(pastes, whens)[i].0 == pastes[i].target@,
        pastes[i].target@.len() > 40 ==> log_of(pastes, whens)[i].0 == pastes[i].target@.take(
            39,
        ).push('…'),
{
}

/// The controls of the detail view in their order; only a link can be opened.
pub proof fn law_only_links_can_be_opened(link: bool)
    ensures
        pills_of(link).contains(ClipHit::DetailOpen) == link,
        pills_of(link)[0] == ClipHit::Back,
        pills_of(link)[1] == ClipHit::DetailCopy,
        pills_of(link)[pills_of(link).len() - 2] == ClipHit::DetailMore,
        pills_of(link)[pills_of(link).len() - 1] == ClipHit::DetailDelete,
        pills_of(link).len() == (if link {
            5int
        } else {
            4
        }),
{
    if link {
        assert(pills_of(link)[2] == ClipHit::DetailOpen);
    }
}

/// Hosts belong together where they are one, with or without `www.`, or where one is
/// below the other; a host that only ends in the same letters does not belong.
pub proof fn law_which_hosts_belong_together(a: Seq<char>, b: Seq<char>, sub: Seq<char>)
    requires
        !text::begins_with(a, "www."@),
        !text::begins_with(b, "www."@),
        !text::begins_with(sub + "."@ + a, "www."@),
    ensures
        hosts_agree(a, a),
        hosts_agree("www."@ + a, a),
        hosts_agree(a, "www."@ + a),
        hosts_agree(sub + "."@ + a, a),
        hosts_agree(a, sub + "."@ + a),
        hosts_agree(a, b) ==> hosts_agree(b, a),
        hosts_agree(a, b) ==> a == b || (a.len() > b.len() && a == a.take(a.len() - b.len() - 1)
            + "."@ + b) || (b.len() > a.len() && b == b.take(b.len() - a.len() - 1) + "."@ + a),
{
    reveal_strlit("www.");
    reveal_strlit(".");
    text::law_a_prefix_comes_off("www."@, a, a);
    text::law_a_prefix_comes_off("www."@, a, b);
    let below = sub + "."@ + a;
    text::law_a_prefix_comes_off("www."@, a, below);
    assert(plain_host(a) == a && plain_host(b) == b && plain_host(below) == below);
    assert(plain_host("www."@ + a) == a);
    let dot = "."@ + a;
    let at = below.len() - dot.len();
    assert(below.subrange(at, at + dot.len()) == dot);
    assert(text::finishes_with(below, dot));
    if text::finishes_with(a, "."@ + b) {
        let k = a.len() - b.len() - 1;
        assert(a.subrange(k, k + ("."@ + b).len()) == "."@ + b);
        assert(a == a.take(k) + ("."@ + b));
        assert(a.take(k) + "."@ + b == a.take(k) + ("."@ + b));
    }
    if text::finishes_with(b, "."@ + a) {
        let k = b.len() - a.len() - 1;
        assert(b.subrange(k, k + ("."@ + a).len()) == "."@ + a);
        assert(b == b.take(k) + ("."@ + a));
        assert(b.take(k) + "."@ + a == b.take(k) + ("."@ + a));
    }
}

/// An answer has the label of its language first, then the origin in brackets where
/// there is one, then the definition, each wrapped to its own width; answers follow
/// each other with a gap between two.
pub proof fn law_how_an_answer_reads(
    hs: Seq<dict::DictHit>,
    h: dict::DictHit,
    etym_chars: int,
    body_chars: int,
    i: int,
)
    ensures
        ({
            let ls = hit_lines(h, etym_chars, body_chars);
            let o = match h.content.etym {
                Some(e) => wrapped("("@ + e + ")"@, etym_chars),
                None => Seq::empty(),
            };
            let b = wrapped(h.content.def, body_chars);
            &&& ls.len() == 1 + o.len() + b.len()
            &&& ls[0] == (h.lang, DictLineKind::Lang)
            &&& 0 <= i < o.len() ==> ls[1 + i] == (o[i], DictLineKind::Etym)
            &&& 0 <= i < b.len() ==> ls[1 + o.len() + i] == (b[i], DictLineKind::Body)
        }),
        answer_lines(seq![h], etym_chars, body_chars) == hit_lines(h, etym_chars, body_chars),
        hs.len() > 0 ==> answer_lines(hs.push(h), etym_chars, body_chars) == answer_lines(
            hs,
            etym_chars,
            body_chars,
        ) + seq![(Seq::<char>::empty(), DictLineKind::Spacer)] + hit_lines(
            h,
            etym_chars,
            body_chars,
        ),
{
    assert(hs.push(h).drop_last() == hs);
    let one = seq![h];
    assert(one.drop_last() == Seq::<dict::DictHit>::empty());
    assert(one.last() == h);
    assert(answer_lines(one.drop_last(), etym_chars, body_chars) == Seq::<
        (Seq<char>, DictLineKind),
    >::empty());
    assert(answer_lines(one, etym_chars, body_chars) == hit_lines(h, etym_chars, body_chars));
}

/// What the panel says without an answer: that there is no definition, that the data
/// is being loaded, or that it is missing; and nothing for a blank word. A word is
/// looked up in the data that is there.
pub proof fn law_what_the_panel_says(s: ClipState)
    ensures
        ({
            let q = text::trimmed(s.dict_query@);
            &&& q.len() == 0 ==> hint_of(s) is None && panel_hits(s).len() == 0
            &&& q.len() > 0 && s.dict_data is None && s.dict_loading ==> hint_of(s) == Some(
                "Loading dictionary…"@,
            )
            &&& q.len() > 0 && s.dict_data is None && !s.dict_loading ==> hint_of(s) == Some(
                "Dictionary data not installed."@,
            )
            &&& q.len() > 0 ==> (s.dict_data matches Some(d) ==> {
                &&& panel_hits(s) == dict::looked_up(d.langs@, q)
                &&& panel_hits(s).len() > 0 ==> hint_of(s) is None
                &&& panel_hits(s).len() == 0 ==> hint_of(s) == Some(
                    "No definition for “"@ + q + "”."@,
                )
            })
        }),
{
}

/// Rows, requests and lines are seen as their texts, one by one.
pub proof fn law_rows_and_lines_are_seen_as_they_are(
    rows: Seq<(String, String)>,
    asked: Seq<(String, u64)>,
    lines: Seq<DictLine>,
    i: int,
)
    ensures
        row_texts(rows).len() == rows.len(),
        0 <= i < rows.len() ==> row_texts(rows)[i] == (rows[i].0@, rows[i].1@),
        requests(asked).len() == asked.len(),
        0 <= i < asked.len() ==> requests(asked)[i] == (asked[i].0@, asked[i].1),
        line_models(lines).len() == lines.len(),
        0 <= i < lines.len() ==> line_models(lines)[i] == (lines[i].text@, lines[i].kind),
{
}

} // verus!
