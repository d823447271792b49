//! Clipboard entries: what a captured clip is, how it reads in a list, and what
//! it offers when it is put back on the clipboard.
use vstd::prelude::*;
use crate::paths;
use crate::text;
use std::collections::hash_map::DefaultHasher;
use std::hash::Hasher;

verus! {

/// Most characters of clipboard text kept in one entry.
pub const TEXT_CAP: usize = 100_000;

/// Most characters of an entry's one-line preview.
pub const PREVIEW_CAP: usize = 200;

/// How many recent pastes are kept for one clip.
pub const PASTE_LOG_CAP: usize = 20;

// ---------------------------------------------------------------------------
// Outside calls
// ---------------------------------------------------------------------------

/// The hash of some bytes under a hasher made by `DefaultHasher::new`, whose
/// keys are fixed: of their number, as eight bytes, and the bytes themselves.
pub open spec fn content_hash(bytes: Seq<u8>) -> u64 {
    <DefaultHasher as vstd::std_specs::hash::DefaultHasherAdditionalSpecFns>::spec_finish(
        seq![vstd::bytes::spec_u64_to_le_bytes(bytes.len() as u64), bytes],
    )
}

/// The hash by which a content is found again.
pub fn hash_bytes(bytes: &[u8]) -> (r: u64)
    ensures
        r == content_hash(bytes@),
{
    let mut h = DefaultHasher::new();
    let n: usize = bytes.len();
    let prefix = vstd::bytes::u64_to_le_bytes(n as u64);
    h.write(prefix.as_slice());
    h.write(bytes);
    assert(h@ == seq![vstd::bytes::spec_u64_to_le_bytes(bytes@.len() as u64), bytes@]);
    h.finish()
}

/// The largest image whose header is read, in bytes.
pub const MAX_IMAGE: usize = 2_147_483_647;

/// The width and height that an encoded image declares, as read on a machine
/// with words of `word` bits: an image whose pixels such a machine cannot
/// address is refused.
pub uninterp spec fn image_size(bytes: Seq<u8>, word: u32) -> Option<(u32, u32)>;

/// `image::guess_format`, `image::ImageReader::with_format` and
/// `into_dimensions`: the size of an encoded image, `None` where its first bytes
/// are of no known format or its header is broken. A format that is given is
/// read by the crate's own decoder, so that the result depends on the bytes and
/// the word size alone. The decoder of JPEG counts the bytes between two markers
/// in 31 bits, and panics where they do not fit.
#[verifier::external_body]
fn image_dimensions(bytes: &[u8]) -> (r: Option<(u32, u32)>)
    requires
        bytes@.len() <= MAX_IMAGE,
    ensures
        r == image_size(bytes@, usize::BITS),
{
    let format = image::guess_format(bytes).ok()?;
    image::ImageReader::with_format(std::io::Cursor::new(bytes), format)
        .into_dimensions()
        .ok()
}

// ---------------------------------------------------------------------------
// Entries
// ---------------------------------------------------------------------------

/// What a captured clip is.
#[derive(Clone, Copy, Debug, PartialEq, Eq, Structural)]
pub enum ClipKind {
    /// Plain text.
    Text,
    /// One or more file URIs from a file manager.
    Files,
    /// An image, kept as bytes in a file of its own.
    Image,
}

/// One paste of a clip: where it landed and when.
#[derive(Debug)]
pub struct PasteRecord {
    /// The window it was pasted into, as far as known.
    pub target: String,
    /// When, in milliseconds since the epoch.
    pub when_ms: u64,
}

/// One captured clipboard entry.
#[derive(Debug)]
pub struct ClipEntry {
    /// Stable id, given when the entry joins the history; 0 before.
    pub id: u64,
    pub kind: ClipKind,
    pub timestamp_ms: u64,
    /// One line for a list.
    pub preview: String,
    /// The whole text of a text or files clip; empty for an image.
    pub text: String,
    /// The type to restore the clip with.
    pub mime: String,
    /// Whether a files clip was cut rather than copied.
    pub cut: bool,
    /// The file that holds an image's bytes.
    pub image_path: Option<String>,
    pub width: u32,
    pub height: u32,
    /// The hash of the content, by which a clip is found again.
    pub hash: u64,
    /// Where it was copied from; empty if unknown.
    pub source: String,
    /// How often this clip has been pasted.
    pub paste_count: u64,
    /// The most recent pastes, the newest first.
    pub pastes: Vec<PasteRecord>,
    /// For a link: the page title.
    pub title: String,
    /// For a link: the file with its preview image.
    pub preview_image: Option<String>,
    /// For a link: the page description.
    pub description: String,
}

/// A paste as plain text.
pub struct PasteModel {
    pub target: Seq<char>,
    pub when_ms: u64,
}

/// An entry as plain text.
pub struct ClipModel {
    pub id: u64,
    pub kind: ClipKind,
    pub timestamp_ms: u64,
    pub preview: Seq<char>,
    pub text: Seq<char>,
    pub mime: Seq<char>,
    pub cut: bool,
    pub image_path: Option<Seq<char>>,
    pub width: u32,
    pub height: u32,
    pub hash: u64,
    pub source: Seq<char>,
    pub paste_count: u64,
    pub pastes: Seq<PasteModel>,
    pub title: Seq<char>,
    pub preview_image: Option<Seq<char>>,
    pub description: Seq<char>,
}

impl View for PasteRecord {
    type V = PasteModel;

    open spec fn view(&self) -> PasteModel {
        PasteModel { target: self.target@, when_ms: self.when_ms }
    }
}

/// The pastes of a log.
pub open spec fn paste_models(v: Seq<PasteRecord>) -> Seq<PasteModel> {
    Seq::new(v.len(), |i: int| v[i]@)
}

impl View for ClipEntry {
    type V = ClipModel;

    open spec fn view(&self) -> ClipModel {
        ClipModel {
            id: self.id,
            kind: self.kind,
            timestamp_ms: self.timestamp_ms,
            preview: self.preview@,
            text: self.text@,
            mime: self.mime@,
            cut: self.cut,
            image_path: text::text_in(self.image_path),
            width: self.width,
            height: self.height,
            hash: self.hash,
            source: self.source@,
            paste_count: self.paste_count,
            pastes: paste_models(self.pastes@),
            title: self.title@,
            preview_image: text::text_in(self.preview_image),
            description: self.description@,
        }
    }
}

fn copy_pastes(v: &[PasteRecord]) -> (r: Vec<PasteRecord>)
    ensures
        paste_models(r@) == paste_models(v@),
{
    let mut r: Vec<PasteRecord> = Vec::new();
    for i in 0..v.len()
        invariant
            r@.len() == i,
            paste_models(r@) == paste_models(v@).take(i as int),
    {
        r.push(
            PasteRecord { target: text::copy_text(v[i].target.as_str()), when_ms: v[i].when_ms },
        );
        assert(paste_models(r@) == paste_models(v@).take(i + 1));
    }
    assert(paste_models(v@).take(v@.len() as int) == paste_models(v@));
    r
}

/// A copy of an entry.
pub fn copy_entry(e: &ClipEntry) -> (r: ClipEntry)
    ensures
        r@ == e@,
{
    ClipEntry {
        id: e.id,
        kind: e.kind,
        timestamp_ms: e.timestamp_ms,
        preview: text::copy_text(e.preview.as_str()),
        text: text::copy_text(e.text.as_str()),
        mime: text::copy_text(e.mime.as_str()),
        cut: e.cut,
        image_path: text::copy_opt(&e.image_path),
        width: e.width,
        height: e.height,
        hash: e.hash,
        source: text::copy_text(e.source.as_str()),
        paste_count: e.paste_count,
        pastes: copy_pastes(&e.pastes),
        title: text::copy_text(e.title.as_str()),
        preview_image: text::copy_opt(&e.preview_image),
        description: text::copy_text(e.description.as_str()),
    }
}

/// A fresh entry with nothing in it.
pub open spec fn blank(now_ms: u64) -> ClipModel {
    ClipModel {
        id: 0,
        kind: ClipKind::Text,
        timestamp_ms: now_ms,
        preview: Seq::empty(),
        text: Seq::empty(),
        mime: Seq::empty(),
        cut: false,
        image_path: None,
        width: 0,
        height: 0,
        hash: 0,
        source: Seq::empty(),
        paste_count: 0,
        pastes: Seq::empty(),
        title: Seq::empty(),
        preview_image: None,
        description: Seq::empty(),
    }
}

/// The common start of every freshly captured entry.
pub fn base_entry(now_ms: u64) -> (r: ClipEntry)
    ensures
        r@ == blank(now_ms),
{
    let r = ClipEntry {
        id: 0,
        kind: ClipKind::Text,
        timestamp_ms: now_ms,
        preview: String::new(),
        text: String::new(),
        mime: String::new(),
        cut: false,
        image_path: None,
        width: 0,
        height: 0,
        hash: 0,
        source: String::new(),
        paste_count: 0,
        pastes: Vec::new(),
        title: String::new(),
        preview_image: None,
        description: String::new(),
    };
    assert(r@.pastes == blank(now_ms).pastes);
    r
}

// ---------------------------------------------------------------------------
// Links
// ---------------------------------------------------------------------------

/// The host of what follows a scheme: everything before the first `/`, `?` or
/// `#`.
pub open spec fn host_len(s: Seq<char>) -> int
    decreases s.len(),
{
    if s.len() == 0 || s[0] == '/' || s[0] == '?' || s[0] == '#' {
        0
    } else {
        1 + host_len(s.drop_first())
    }
}

/// What follows the scheme of an http(s) text.
pub open spec fn after_scheme(t: Seq<char>) -> Option<Seq<char>> {
    if text::begins_with(t, "https://"@) {
        Some(t.skip("https://"@.len() as int))
    } else if text::begins_with(t, "http://"@) {
        Some(t.skip("http://"@.len() as int))
    } else {
        None
    }
}

/// Whether a trimmed text is one bare http(s) URL: a single word, a scheme, and
/// a host with a dot in it.
pub open spec fn is_url(t: Seq<char>) -> bool {
    &&& text::words(t).len() == 1
    &&& after_scheme(t) matches Some(rest) && rest.take(host_len(rest)).contains('.')
}

/// The URL that a text is, if it is one and nothing else.
pub open spec fn url_of(s: Seq<char>) -> Option<Seq<char>> {
    if is_url(text::trimmed(s)) {
        Some(text::trimmed(s))
    } else {
        None
    }
}

proof fn lemma_host_len(s: Seq<char>, n: int)
    requires
        0 <= n <= s.len(),
        forall|i: int| 0 <= i < n ==> s[i] != '/' && s[i] != '?' && s[i] != '#',
        n < s.len() ==> s[n] == '/' || s[n] == '?' || s[n] == '#',
    ensures
        host_len(s) == n,
    decreases n,
{
    if n > 0 {
        lemma_host_len(s.drop_first(), n - 1);
    }
}

fn dotted_host(v: &[char], from: usize) -> (r: bool)
    requires
        from <= v@.len(),
    ensures
        r == v@.skip(from as int).take(host_len(v@.skip(from as int))).contains('.'),
{
    let ghost rest = v@.skip(from as int);
    let mut i: usize = from;
    let mut dot = false;
    while i < v.len() && v[i] != '/' && v[i] != '?' && v[i] != '#'
        invariant
            from <= i <= v@.len(),
            rest == v@.skip(from as int),
            dot == rest.take(i - from).contains('.'),
            forall|k: int|
                0 <= k < i - from ==> rest[k] != '/' && rest[k] != '?' && rest[k] != '#',
        decreases v@.len() - i,
    {
        let ghost was = rest.take(i - from);
        let ghost now = rest.take(i + 1 - from);
        assert(now == was.push(rest[i - from]));
        assert(rest[i - from] == v@[i as int]);
        proof {
            if was.contains('.') {
                let k = choose|k: int| 0 <= k < was.len() && was[k] == '.';
                assert(now[k] == '.');
            }
            if now.contains('.') && v@[i as int] != '.' {
                let k = choose|k: int| 0 <= k < now.len() && now[k] == '.';
                assert(was[k] == '.');
            }
            assert(now[i - from] == v@[i as int]);
        }
        if v[i] == '.' {
            dot = true;
        }
        i = i + 1;
    }
    proof {
        if i < v@.len() {
            assert(rest[i - from] == v@[i as int]);
        }
        lemma_host_len(rest, i - from);
    }
    dot
}

/// If `s` is one bare http(s) URL, it: the sign that a text clip is a link.
pub fn detect_url(s: &str) -> (r: Option<&str>)
    ensures
        match r {
            Some(u) => url_of(s@) == Some(u@),
            None => url_of(s@) is None,
        },
{
    let t = text::trim(s);
    let words = text::words_of(t.as_str());
    assert(text::texts(words@).len() == words@.len());
    if words.len() != 1 {
        return None;
    }
    let v = text::chars_of(t.as_str());
    let https = text::chars_of("https://");
    let http = text::chars_of("http://");
    let from: usize = if text::stands(&v, &https, 0) {
        https.len()
    } else if text::stands(&v, &http, 0) {
        http.len()
    } else {
        return None;
    };
    if !dotted_host(&v, from) {
        return None;
    }
    let (lead, end) = text::trim_bounds(s);
    Some(s.substring_char(lead, end))
}

impl ClipEntry {
    /// The URL of a link clip.
    pub open spec fn url(self) -> Option<Seq<char>> {
        if self.kind == ClipKind::Text {
            url_of(self.text@)
        } else {
            None
        }
    }

    /// The clip's URL where the whole clip is one bare http(s) link.
    pub fn link_url(&self) -> (r: Option<&str>)
        ensures
            match r {
                Some(u) => self.url() == Some(u@),
                None => self.url() is None,
            },
    {
        if self.kind != ClipKind::Text {
            return None;
        }
        detect_url(self.text.as_str())
    }

    /// Whether this clip is a link.
    pub fn is_link(&self) -> (r: bool)
        ensures
            r == (self.url() is Some),
    {
        self.link_url().is_some()
    }
}

proof fn lemma_one_word(t: Seq<char>)
    requires
        t.len() > 0,
        text::is_trimmed(t),
        text::words(t).len() == 1,
    ensures
        forall|i: int| 0 <= i < t.len() ==> !text::is_space(#[trigger] t[i]),
{
    let n = text::word_len(t);
    text::lemma_word_len(t);
    assert(text::trim_start(t) == t);
    let rest = t.skip(n);
    assert(text::words(t) == seq![t.take(n)] + text::words(rest));
    assert(text::words(rest).len() == 0);
    text::lemma_trim_start_first(rest);
    if n < t.len() {
        if text::trim_start(rest).len() > 0 {
            let u = text::trim_start(rest);
            assert(text::words(rest) == seq![u.take(text::word_len(u))] + text::words(
                u.skip(text::word_len(u)),
            ));
        }
        text::lemma_trim_start_keeps(rest, rest.len() - 1);
        assert(rest.last() == t.last());
    }
}

/// An address on its own is a link: a scheme, a host with a dot in it, and behind it
/// nothing, or a path, a query or a fragment. Without a dot in its host it is none.
pub proof fn law_a_bare_address_is_a_link(secure: bool, host: Seq<char>, tail: Seq<char>)
    requires
        forall|i: int|
            0 <= i < host.len() ==> !text::is_space(#[trigger] host[i]) && host[i] != '/' && host[i]
                != '?' && host[i] != '#',
        forall|i: int| 0 <= i < tail.len() ==> !text::is_space(#[trigger] tail[i]),
        tail.len() > 0 ==> tail[0] == '/' || tail[0] == '?' || tail[0] == '#',
    ensures
        ({
            let s = (if secure {
                "https://"@
            } else {
                "http://"@
            }) + host + tail;
            if host.contains('.') {
                url_of(s) == Some(s)
            } else {
                url_of(s) is None
            }
        }),
{
    reveal_strlit("https://");
    reveal_strlit("http://");
    let scheme = if secure {
        "https://"@
    } else {
        "http://"@
    };
    let s = scheme + host + tail;
    assert forall|i: int| 0 <= i < s.len() implies !text::is_space(#[trigger] s[i]) by {
        if i >= scheme.len() + host.len() {
            assert(s[i] == tail[i - scheme.len() - host.len()]);
        } else if i >= scheme.len() {
            assert(s[i] == host[i - scheme.len()]);
        }
    }
    assert(!text::is_space(s.last()) && !text::is_space(s[0]));
    text::lemma_trim_of_trimmed(s);
    text::law_words_come_apart_at_blanks(s, ' ', s);
    let rest = s.skip(scheme.len() as int);
    assert(rest == host + tail);
    assert(s.subrange(0, scheme.len() as int) == scheme);
    if !secure {
        assert("https://"@.len() <= s.len() ==> s.subrange(0, "https://"@.len() as int)[4] == ':');
        assert("https://"@[4] == 's');
        assert(!text::begins_with(s, "https://"@));
    }
    assert(after_scheme(s) == Some(rest));
    assert forall|i: int| 0 <= i < host.len() implies rest[i] != '/' && rest[i] != '?' && rest[i]
        != '#' by {
        assert(rest[i] == host[i]);
    }
    lemma_host_len(rest, host.len() as int);
    assert(rest.take(host.len() as int) == host);
}

/// What is taken for a link is an http or https address without white space, and is
/// all of the text but for the white space around it.
pub proof fn law_a_link_is_an_address(s: Seq<char>)
    requires
        url_of(s) is Some,
    ensures
        ({
            let u = url_of(s)->Some_0;
            &&& text::begins_with(u, "http://"@) || text::begins_with(u, "https://"@)
            &&& u.contains('.')
            &&& forall|i: int| 0 <= i < u.len() ==> !text::is_space(#[trigger] u[i])
            &&& u == text::trimmed(s)
        }),
{
    let u = text::trimmed(s);
    text::lemma_trimmed(s);
    reveal_strlit("https://");
    reveal_strlit("http://");
    let rest = after_scheme(u)->Some_0;
    let host = rest.take(host_len(rest));
    lemma_host_len_bounds(rest);
    let k = choose|k: int| 0 <= k < host.len() && host[k] == '.';
    assert(rest[k] == '.');
    assert(u[u.len() - rest.len() + k] == '.');
    lemma_one_word(u);
}

proof fn lemma_host_len_bounds(s: Seq<char>)
    ensures
        0 <= host_len(s) <= s.len(),
    decreases s.len(),
{
    if !(s.len() == 0 || s[0] == '/' || s[0] == '?' || s[0] == '#') {
        lemma_host_len_bounds(s.drop_first());
    }
}

/// Only a text clip is a link.
pub proof fn law_only_text_clips_are_links(e: ClipEntry)
    ensures
        e.url() is Some ==> e.kind == ClipKind::Text && e.url() == Some(text::trimmed(e.text@)),
{
}

// ---------------------------------------------------------------------------
// Text clips
// ---------------------------------------------------------------------------

/// The first of `ls` that is not blank, trimmed; empty where all are.
pub open spec fn first_filled(ls: Seq<Seq<char>>) -> Seq<char>
    decreases ls.len(),
{
    if ls.len() == 0 {
        Seq::empty()
    } else if text::trimmed(ls[0]).len() > 0 {
        text::trimmed(ls[0])
    } else {
        first_filled(ls.drop_first())
    }
}

/// The first line that is not blank, single spaced and shortened.
pub open spec fn headline(s: Seq<char>) -> Seq<char> {
    text::capped(
        text::joined(text::words(first_filled(text::lines(s))), " "@),
        PREVIEW_CAP as int,
    )
}

/// The first line that is not blank, its white space collapsed, shortened to
/// [`PREVIEW_CAP`].
pub fn one_line(s: &str) -> (r: String)
    ensures
        r@ == headline(s@),
{
    let lines = text::lines_of(s);
    let ghost ls = text::texts(lines@);
    let mut line = String::new();
    let mut i: usize = 0;
    assert(ls.skip(0) == ls);
    while i < lines.len()
        invariant_except_break
            line@ == Seq::<char>::empty(),
            first_filled(ls) == first_filled(ls.skip(i as int)),
        invariant
            i <= lines@.len(),
            ls == text::texts(lines@),
        ensures
            line@ == first_filled(ls),
        decreases lines@.len() - i,
    {
        let ghost rest = ls.skip(i as int);
        assert(rest[0] == lines@[i as int]@);
        assert(rest.drop_first() == ls.skip(i + 1));
        let t = text::trim(lines[i].as_str());
        if !t.as_str().is_empty() {
            line = t;
            break;
        }
        i = i + 1;
        if i == lines.len() {
            assert(ls.skip(i as int) == Seq::<Seq<char>>::empty());
        }
    }
    let words = text::words_of(line.as_str());
    text::cap(text::join(&words, " ").as_str(), PREVIEW_CAP)
}

/// The clip that a text makes.
pub open spec fn text_clip(content: Seq<char>, mime: Seq<char>, now_ms: u64) -> ClipModel {
    let kept = text::first_chars(content, TEXT_CAP as int);
    ClipModel {
        hash: content_hash(vstd::utf8::encode_utf8(kept)),
        preview: headline(kept),
        kind: ClipKind::Text,
        mime,
        text: kept,
        ..blank(now_ms)
    }
}

/// The clip of a text, or `None` for a blank one.
pub fn classify_text(content: &str, mime: String, now_ms: u64) -> (r: Option<ClipEntry>)
    ensures
        match r {
            Some(e) => text::trimmed(content@).len() > 0 && e@ == text_clip(
                content@,
                mime@,
                now_ms,
            ),
            None => text::trimmed(content@).len() == 0,
        },
{
    if text::trim(content).as_str().is_empty() {
        return None;
    }
    let kept = text::take_chars(content, TEXT_CAP);
    let mut e = base_entry(now_ms);
    e.hash = hash_bytes(kept.as_str().as_bytes());
    e.preview = one_line(kept.as_str());
    e.kind = ClipKind::Text;
    e.mime = mime;
    e.text = kept;
    Some(e)
}

/// A captured text is kept as it is, as far as it fits, under its type and moment,
/// and is known by the hash of what is kept. It has not been pasted, and nothing
/// else is said of it.
pub proof fn law_a_captured_text_is_kept(content: Seq<char>, mime: Seq<char>, now_ms: u64)
    ensures
        ({
            let c = text_clip(content, mime, now_ms);
            &&& content.len() <= TEXT_CAP ==> c.text == content
            &&& content.len() > TEXT_CAP ==> c.text.len() == TEXT_CAP && forall|i: int|
                0 <= i < TEXT_CAP ==> c.text[i] == content[i]
            &&& c.kind == ClipKind::Text
            &&& c.mime == mime
            &&& c.timestamp_ms == now_ms
            &&& c.hash == content_hash(vstd::utf8::encode_utf8(c.text))
            &&& c.paste_count == 0
            &&& c.pastes.len() == 0
            &&& !c.cut
            &&& c.image_path is None
            &&& c.preview_image is None
            &&& c.source.len() == 0
            &&& c.title.len() == 0
            &&& c.description.len() == 0
            &&& c.preview == headline(c.text)
        }),
{
}

proof fn lemma_first_filled(ls: Seq<Seq<char>>, line: Seq<char>)
    ensures
        first_filled(seq![line] + ls) == (if text::trimmed(line).len() > 0 {
            text::trimmed(line)
        } else {
            first_filled(ls)
        }),
{
    assert((seq![line] + ls).drop_first() == ls);
}

/// The preview of a text is that of its first line that is not blank: blank lines in
/// front do not matter, and nothing behind it does.
pub proof fn law_the_preview_is_of_the_first_filled_line(line: Seq<char>, rest: Seq<char>)
    requires
        !line.contains('\n'),
        line.len() > 0,
        line.last() != '\r',
    ensures
        (exists|i: int| 0 <= i < line.len() && !text::is_space(#[trigger] line[i])) ==> headline(
            line.push('\n') + rest,
        ) == headline(line),
        (forall|i: int| 0 <= i < line.len() ==> text::is_space(#[trigger] line[i])) ==> headline(
            line.push('\n') + rest,
        ) == headline(rest),
{
    text::law_lines_end_at_line_feeds(line, rest);
    lemma_first_filled(text::lines(rest), line);
    lemma_first_filled(Seq::empty(), line);
    assert(seq![line] + Seq::<Seq<char>>::empty() == seq![line]);
    if exists|i: int| 0 <= i < line.len() && !text::is_space(#[trigger] line[i]) {
        let i = choose|i: int| 0 <= i < line.len() && !text::is_space(#[trigger] line[i]);
        text::lemma_trimmed_keeps(line, i);
    } else {
        text::law_trimming_takes_the_blanks_around(line, Seq::empty(), Seq::empty());
        assert(line + Seq::<char>::empty() + Seq::<char>::empty() == line);
    }
}

/// A word previews as itself, and two words with one blank between them, whatever
/// white space stood there.
pub proof fn law_a_preview_is_single_spaced(a: Seq<char>, gap: char, b: Seq<char>)
    requires
        a.len() > 0,
        b.len() > 0,
        forall|i: int| 0 <= i < a.len() ==> !text::is_space(#[trigger] a[i]),
        forall|i: int| 0 <= i < b.len() ==> !text::is_space(#[trigger] b[i]),
        text::is_space(gap),
        gap != '\n',
    ensures
        headline(a) == text::capped(a, PREVIEW_CAP as int),
        headline(a.push(gap) + b) == text::capped(a + " "@ + b, PREVIEW_CAP as int),
{
    let s = a.push(gap) + b;
    text::law_words_come_apart_at_blanks(a, gap, b);
    text::law_words_come_apart_at_blanks(b, gap, a);
    assert(seq![a] + seq![b] == seq![a, b]);
    assert forall|i: int| 0 <= i < a.len() implies a[i] != '\n' by {
        assert(!text::is_space(a[i]));
    }
    assert forall|i: int| 0 <= i < b.len() implies b[i] != '\n' by {
        assert(!text::is_space(b[i]));
    }
    assert(!text::is_space(a.last()) && !text::is_space(b.last()) && !text::is_space(a[0]));
    assert forall|i: int| 0 <= i < s.len() implies s[i] != '\n' by {
        if i < a.len() {
            assert(s[i] == a[i]);
        } else if i > a.len() {
            assert(s[i] == b[i - a.len() - 1]);
        }
    }
    assert(!a.contains('\n'));
    assert(!s.contains('\n'));
    assert(s[0] == a[0] && s.last() == b.last());
    text::law_lines_end_at_line_feeds(a, b);
    text::law_lines_end_at_line_feeds(s, b);
    text::lemma_trim_of_trimmed(a);
    text::lemma_trim_of_trimmed(s);
    assert(text::joined(seq![a], " "@) == a);
    assert(seq![a, b].drop_last() == seq![a]);
    assert(text::joined(seq![a, b], " "@) == a + " "@ + b);
}

/// A preview never holds more than [`PREVIEW_CAP`] characters.
pub proof fn law_previews_are_capped(content: Seq<char>, mime: Seq<char>, now_ms: u64)
    ensures
        text_clip(content, mime, now_ms).preview.len() <= PREVIEW_CAP,
        text_clip(content, mime, now_ms).text.len() <= TEXT_CAP,
{
}

// ---------------------------------------------------------------------------
// Files clips
// ---------------------------------------------------------------------------

/// The value of a hexadecimal digit.
pub open spec fn hex_value(b: u8) -> Option<int> {
    if 0x30 <= b <= 0x39 {
        Some(b - 0x30)
    } else if 0x41 <= b <= 0x46 {
        Some(b - 0x41 + 10)
    } else if 0x61 <= b <= 0x66 {
        Some(b - 0x61 + 10)
    } else {
        None
    }
}

/// The byte that two characters stand for, as `u8::from_str_radix` reads them
/// in base sixteen: two digits, or a plus sign and one.
pub open spec fn hex_pair(a: u8, b: u8) -> Option<int> {
    if a == 0x2b {
        hex_value(b)
    } else if hex_value(a) is Some && hex_value(b) is Some {
        Some(16 * hex_value(a)->Some_0 + hex_value(b)->Some_0)
    } else {
        None
    }
}

fn hex_of(b: u8) -> (r: Option<u8>)
    ensures
        match r {
            Some(v) => hex_value(b) == Some(v as int) && v < 16,
            None => hex_value(b) is None,
        },
{
    if 0x30 <= b && b <= 0x39 {
        Some(b - 0x30)
    } else if 0x41 <= b && b <= 0x46 {
        Some(b - 0x41 + 10)
    } else if 0x61 <= b && b <= 0x66 {
        Some(b - 0x61 + 10)
    } else {
        None
    }
}

fn hex_byte(a: u8, b: u8) -> (r: Option<u8>)
    ensures
        match r {
            Some(v) => hex_pair(a, b) == Some(v as int),
            None => hex_pair(a, b) is None,
        },
{
    if a == 0x2b {
        return hex_of(b);
    }
    match (hex_of(a), hex_of(b)) {
        (Some(x), Some(y)) => Some(16 * x + y),
        _ => None,
    }
}

/// Bytes with each percent code made the byte that it stands for. A percent
/// sign without a code behind it stands for itself.
pub open spec fn unescaped(b: Seq<u8>) -> Seq<u8>
    decreases b.len(),
{
    if b.len() == 0 {
        Seq::empty()
    } else if b[0] == 0x25 && b.len() > 2 && hex_pair(b[1], b[2]) is Some {
        seq![hex_pair(b[1], b[2])->Some_0 as u8] + unescaped(b.skip(3))
    } else {
        seq![b[0]] + unescaped(b.drop_first())
    }
}

/// Whether no percent sign is followed by one byte and then the middle of a
/// character, so that the two characters behind it can be taken as text.
pub open spec fn escapes_whole(b: Seq<u8>) -> bool {
    forall|i: int|
        0 <= i && i + 3 < b.len() && #[trigger] b[i] == 0x25 ==> !(0x80 <= b[i + 3] <= 0xbf)
}

/// A text with its percent codes decoded.
pub open spec fn decoded(s: Seq<char>) -> Seq<char> {
    text::lossy(unescaped(vstd::utf8::encode_utf8(s)))
}

/// Decode the percent codes of a file URI.
pub fn percent_decode(s: &str) -> (r: String)
    requires
        escapes_whole(vstd::utf8::encode_utf8(s@)),
    ensures
        r@ == decoded(s@),
        vstd::utf8::valid_utf8(unescaped(vstd::utf8::encode_utf8(s@))) ==> r@
            == vstd::utf8::decode_utf8(unescaped(vstd::utf8::encode_utf8(s@))),
{
    let bytes = s.as_bytes();
    let mut out: Vec<u8> = Vec::new();
    let mut i: usize = 0;
    let ghost all = unescaped(bytes@);
    assert(bytes@.skip(0) == bytes@);
    assert(out@ + all == all);
    while i < bytes.len()
        invariant
            i <= bytes@.len(),
            all == unescaped(bytes@),
            out@ + unescaped(bytes@.skip(i as int)) == all,
        decreases bytes@.len() - i,
    {
        let ghost rest = bytes@.skip(i as int);
        let ghost was = out@;
        assert(rest[0] == bytes@[i as int]);
        let mut code: Option<u8> = None;
        if bytes[i] == 0x25 && bytes.len() - i > 2 {
            assert(rest[1] == bytes@[i + 1]);
            assert(rest[2] == bytes@[i + 2]);
            code = hex_byte(bytes[i + 1], bytes[i + 2]);
        }
        match code {
            Some(b) => {
                out.push(b);
                assert(rest.skip(3) == bytes@.skip(i + 3));
                assert(unescaped(rest) == seq![b] + unescaped(bytes@.skip(i + 3)));
                assert(out@ + unescaped(bytes@.skip(i + 3)) == was + unescaped(rest));
                i = i + 3;
            },
            None => {
                out.push(bytes[i]);
                assert(rest.drop_first() == bytes@.skip(i + 1));
                assert(unescaped(rest) == seq![rest[0]] + unescaped(bytes@.skip(i + 1)));
                assert(out@ + unescaped(bytes@.skip(i + 1)) == was + unescaped(rest));
                i = i + 1;
            },
        }
    }
    assert(bytes@.skip(i as int) == Seq::<u8>::empty());
    assert(out@ == all);
    text::decode_lossy(&out)
}

/// Whether [`percent_decode`] takes `s`.
pub fn can_decode(s: &str) -> (r: bool)
    ensures
        r == escapes_whole(vstd::utf8::encode_utf8(s@)),
{
    let b = s.as_bytes();
    let mut i: usize = 0;
    while i < b.len()
        invariant
            i <= b@.len(),
            b@ == vstd::utf8::encode_utf8(s@),
            forall|k: int|
                0 <= k < i && k + 3 < b@.len() && #[trigger] b@[k] == 0x25 ==> !(0x80 <= b@[k + 3]
                    <= 0xbf),
        decreases b@.len() - i,
    {
        if b[i] == 0x25 && b.len() - i > 3 && 0x80 <= b[i + 3] && b[i + 3] <= 0xbf {
            assert(b@[i as int] == 0x25);
            return false;
        }
        i = i + 1;
    }
    true
}

proof fn lemma_unescaped_plain(b: Seq<u8>)
    requires
        forall|i: int| 0 <= i < b.len() ==> b[i] != 0x25,
    ensures
        unescaped(b) == b,
    decreases b.len(),
{
    if b.len() > 0 {
        lemma_unescaped_plain(b.drop_first());
        assert(seq![b[0]] + b.drop_first() == b);
    }
}

/// A percent sign and two hexadecimal digits stand for one byte, in capitals or
/// small letters; any other byte stands for itself.
pub proof fn law_a_percent_code_is_a_byte(
    high: u8,
    low: u8,
    capital: bool,
    plain: u8,
    rest: Seq<u8>,
)
    requires
        high < 16,
        low < 16,
        plain != 0x25,
    ensures
        ({
            let a: int = if capital {
                0x41
            } else {
                0x61
            };
            let h = (if high < 10 {
                0x30 + high
            } else {
                a + high - 10
            }) as u8;
            let l = (if low < 10 {
                0x30 + low
            } else {
                a + low - 10
            }) as u8;
            unescaped(seq![0x25u8, h, l] + rest) == seq![(16 * high + low) as u8] + unescaped(rest)
        }),
        unescaped(seq![plain] + rest) == seq![plain] + unescaped(rest),
{
    let a: int = if capital {
        0x41
    } else {
        0x61
    };
    let h = (if high < 10 {
        0x30 + high
    } else {
        a + high - 10
    }) as u8;
    let l = (if low < 10 {
        0x30 + low
    } else {
        a + low - 10
    }) as u8;
    let s = seq![0x25u8, h, l] + rest;
    assert(s.skip(3) == rest);
    assert(s[0] == 0x25 && s[1] == h && s[2] == l);
    assert(hex_value(h) == Some(high as int));
    assert(hex_value(l) == Some(low as int));
    assert(unescaped(s) == seq![hex_pair(h, l)->Some_0 as u8] + unescaped(s.skip(3)));
    let t = seq![plain] + rest;
    assert(t.drop_first() == rest);
    assert(t[0] == plain);
}

/// Bytes without a percent sign stay as they are.
pub proof fn law_plain_bytes_decode_to_themselves(b: Seq<u8>)
    requires
        forall|i: int| 0 <= i < b.len() ==> b[i] != 0x25,
    ensures
        unescaped(b) == b,
        escapes_whole(b),
{
    lemma_unescaped_plain(b);
}

/// Whether a trimmed line of a URI list is an entry: not blank, no comment.
pub open spec fn is_entry(t: Seq<char>) -> bool {
    t.len() > 0 && t[0] != '#'
}

/// The entries among some lines, trimmed and in order.
pub open spec fn entries_of(ls: Seq<Seq<char>>) -> Seq<Seq<char>>
    decreases ls.len(),
{
    if ls.len() == 0 {
        Seq::empty()
    } else {
        let before = entries_of(ls.drop_last());
        let t = text::trimmed(ls.last());
        if is_entry(t) {
            before.push(t)
        } else {
            before
        }
    }
}

/// The URIs of a URI list.
pub open spec fn uris(list: Seq<char>) -> Seq<Seq<char>> {
    entries_of(text::lines(list))
}

/// The URIs of a URI list.
pub fn uri_entries(list: &str) -> (r: Vec<String>)
    ensures
        text::texts(r@) == uris(list@),
{
    let lines = text::lines_of(list);
    let ghost ls = text::texts(lines@);
    let mut r: Vec<String> = Vec::new();
    assert(ls.take(0) == Seq::<Seq<char>>::empty());
    for i in 0..lines.len()
        invariant
            ls == text::texts(lines@),
            text::texts(r@) == entries_of(ls.take(i as int)),
    {
        let ghost was = text::texts(r@);
        assert(ls.take(i + 1).drop_last() == ls.take(i as int));
        assert(ls.take(i + 1).last() == lines@[i as int]@);
        let t = text::trim(lines[i].as_str());
        let v = text::chars_of(t.as_str());
        if v.len() > 0 && v[0] != '#' {
            r.push(t);
            assert(text::texts(r@) == was.push(v@));
        }
    }
    assert(ls.take(ls.len() as int) == ls);
    r
}

proof fn lemma_entries_front(line: Seq<char>, ls: Seq<Seq<char>>)
    ensures
        entries_of(seq![line] + ls) == entries_of(seq![line]) + entries_of(ls),
        entries_of(seq![line]) == (if is_entry(text::trimmed(line)) {
            seq![text::trimmed(line)]
        } else {
            Seq::empty()
        }),
    decreases ls.len(),
{
    let all = seq![line] + ls;
    let t = text::trimmed(line);
    assert(seq![line].drop_last() == Seq::<Seq<char>>::empty());
    assert(seq![line].last() == line);
    assert(entries_of(Seq::<Seq<char>>::empty()) == Seq::<Seq<char>>::empty());
    assert(Seq::<Seq<char>>::empty().push(t) == seq![t]);
    if ls.len() > 0 {
        lemma_entries_front(line, ls.drop_last());
        assert(all.drop_last() == seq![line] + ls.drop_last());
        assert(all.last() == ls.last());
        assert(entries_of(all) == entries_of(seq![line]) + entries_of(ls));
    } else {
        assert(all == seq![line]);
        assert(entries_of(all) == entries_of(seq![line]) + entries_of(ls));
    }
}

/// A URI list holds one URI a line, in their order; blank lines and those that begin
/// with `#` are passed over, and white space around a URI does not count.
pub proof fn law_a_uri_list_is_read_line_by_line(line: Seq<char>, rest: Seq<char>)
    requires
        !line.contains('\n'),
        line.len() > 0,
        line.last() != '\r',
    ensures
        ({
            let t = text::trimmed(line);
            let all = uris(line.push('\n') + rest);
            if t.len() > 0 && t[0] != '#' {
                all == seq![t] + uris(rest) && uris(line) == seq![t]
            } else {
                all == uris(rest) && uris(line).len() == 0
            }
        }),
{
    text::law_lines_end_at_line_feeds(line, rest);
    lemma_entries_front(line, text::lines(rest));
    assert(Seq::<Seq<char>>::empty() + uris(rest) == uris(rest));
}

/// The path of a URI, with its percent codes.
pub open spec fn uri_path(uri: Seq<char>) -> Seq<char> {
    text::without_prefix(uri, "file://"@)
}

/// Whether every URI of the list can be decoded.
pub open spec fn list_decodes(list: Seq<char>) -> bool {
    forall|i: int|
        0 <= i < uris(list).len() ==> escapes_whole(
            vstd::utf8::encode_utf8(uri_path(#[trigger] uris(list)[i])),
        )
}

/// The decoded paths of some URIs.
pub open spec fn paths_of(us: Seq<Seq<char>>) -> Seq<Seq<char>> {
    Seq::new(us.len(), |i: int| decoded(uri_path(us[i])))
}

/// Whether every URI of the list can be decoded.
pub fn can_decode_list(list: &str) -> (r: bool)
    ensures
        r == list_decodes(list@),
{
    let us = uri_entries(list);
    for i in 0..us.len()
        invariant
            text::texts(us@) == uris(list@),
            forall|k: int|
                0 <= k < i ==> escapes_whole(
                    vstd::utf8::encode_utf8(uri_path(#[trigger] uris(list@)[k])),
                ),
    {
        assert(uris(list@)[i as int] == us@[i as int]@);
        if !can_decode(text::drop_prefix(us[i].as_str(), "file://").as_str()) {
            return false;
        }
    }
    assert(uris(list@).len() == us@.len());
    true
}

/// The decoded paths of a URI list.
pub fn file_paths(list: &str) -> (r: Vec<String>)
    requires
        list_decodes(list@),
    ensures
        text::texts(r@) == paths_of(uris(list@)),
{
    let us = uri_entries(list);
    let mut r: Vec<String> = Vec::new();
    for i in 0..us.len()
        invariant
            list_decodes(list@),
            text::texts(us@) == uris(list@),
            r@.len() == i,
            text::texts(r@) == paths_of(uris(list@)).take(i as int),
    {
        assert(uris(list@)[i as int] == us@[i as int]@);
        let path = text::drop_prefix(us[i].as_str(), "file://");
        r.push(percent_decode(path.as_str()));
        assert(text::texts(r@) == paths_of(uris(list@)).take(i + 1));
    }
    assert(uris(list@).len() == us@.len());
    assert(paths_of(uris(list@)).take(us@.len() as int) == paths_of(uris(list@)));
    r
}

/// The names that a URI list shows: the base name of each decoded path.
pub open spec fn names_in(list: Seq<char>) -> Seq<Seq<char>> {
    paths_of(uris(list)).map_values(|p: Seq<char>| text::base_name(p))
}

/// The names that a URI list shows.
pub fn file_names(list: &str) -> (r: Vec<String>)
    requires
        list_decodes(list@),
    ensures
        text::texts(r@) == names_in(list@),
{
    let paths = file_paths(list);
    let mut r: Vec<String> = Vec::new();
    for i in 0..paths.len()
        invariant
            text::texts(paths@) == paths_of(uris(list@)),
            r@.len() == i,
            text::texts(r@) == names_in(list@).take(i as int),
    {
        assert(paths_of(uris(list@))[i as int] == paths@[i as int]@);
        r.push(text::base_of(paths[i].as_str()));
        assert(text::texts(r@) == names_in(list@).take(i + 1));
    }
    assert(paths_of(uris(list@)).len() == paths@.len());
    assert(names_in(list@).take(paths@.len() as int) == names_in(list@));
    r
}

/// The first path of a URI list.
pub open spec fn first_path(list: Seq<char>) -> Option<Seq<char>> {
    if uris(list).len() > 0 {
        Some(decoded(uri_path(uris(list)[0])))
    } else {
        None
    }
}

/// Whether the first URI of the list, where it has one, can be decoded.
pub open spec fn first_decodes(list: Seq<char>) -> bool {
    uris(list).len() > 0 ==> escapes_whole(vstd::utf8::encode_utf8(uri_path(uris(list)[0])))
}

/// Whether the first URI of the list, where it has one, can be decoded.
pub fn can_decode_first(list: &str) -> (r: bool)
    ensures
        r == first_decodes(list@),
{
    let us = uri_entries(list);
    assert(uris(list@).len() == us@.len());
    if us.len() == 0 {
        return true;
    }
    assert(uris(list@)[0] == us@[0]@);
    can_decode(text::drop_prefix(us[0].as_str(), "file://").as_str())
}

/// The first path of a URI list.
pub fn first_file_path(list: &str) -> (r: Option<String>)
    requires
        first_decodes(list@),
    ensures
        text::text_in(r) == first_path(list@),
{
    let us = uri_entries(list);
    assert(uris(list@).len() == us@.len());
    if us.len() == 0 {
        return None;
    }
    assert(uris(list@)[0] == us@[0]@);
    Some(percent_decode(text::drop_prefix(us[0].as_str(), "file://").as_str()))
}

/// The folder that a files clip was copied from: the directory of its first
/// path, or the path itself where it has none.
pub open spec fn folder_of(list: Seq<char>) -> Seq<char> {
    match first_path(list) {
        None => Seq::empty(),
        Some(p) => match paths::parent_path(p) {
            Some(d) => if d.len() > 0 {
                d
            } else {
                p
            },
            None => p,
        },
    }
}

/// The "copied from" folder of a files clip.
pub fn file_source(list: &str) -> (r: String)
    requires
        first_decodes(list@),
    ensures
        r@ == folder_of(list@),
{
    match first_file_path(list) {
        None => String::new(),
        Some(p) => {
            let d = paths::parent_of(p.as_str());
            folder_or_path(p, d)
        },
    }
}

/// The directory of a path where there is one, else the path.
pub fn folder_or_path(path: String, parent: Option<String>) -> (r: String)
    ensures
        r@ == (match text::text_in(parent) {
            Some(d) => if d.len() > 0 {
                d
            } else {
                path@
            },
            None => path@,
        }),
{
    match parent {
        Some(d) => if d.as_str().is_empty() {
            path
        } else {
            d
        },
        None => path,
    }
}

/// The word for what a files clip asks for.
pub open spec fn verb_of(cut: bool) -> Seq<char> {
    if cut {
        "cut"@
    } else {
        "copy"@
    }
}

/// "cut" or "copy".
pub fn verb(cut: bool) -> (r: &'static str)
    ensures
        r@ == verb_of(cut),
{
    if cut {
        "cut"
    } else {
        "copy"
    }
}

/// The clip that a URI list makes. The verb takes part in the hash, so that a
/// cut and a copy of the same files are two clips.
pub open spec fn files_clip(list: Seq<char>, cut: bool, now_ms: u64) -> ClipModel {
    ClipModel {
        hash: content_hash(vstd::utf8::encode_utf8(verb_of(cut) + "\n"@ + list)),
        preview: text::capped(text::joined(names_in(list), ", "@), PREVIEW_CAP as int),
        kind: ClipKind::Files,
        mime: "text/uri-list"@,
        text: list,
        cut,
        ..blank(now_ms)
    }
}

/// The clip of a URI list, or `None` for one without entries.
pub fn classify_files(list: &str, cut: bool, now_ms: u64) -> (r: Option<ClipEntry>)
    requires
        list_decodes(list@),
    ensures
        match r {
            Some(e) => uris(list@).len() > 0 && e@ == files_clip(list@, cut, now_ms),
            None => uris(list@).len() == 0,
        },
{
    let names = file_names(list);
    assert(names_in(list@).len() == names@.len());
    if names.len() == 0 {
        return None;
    }
    let mut key = text::concat(verb(cut), "\n");
    key.append(list);
    let mut e = base_entry(now_ms);
    e.hash = hash_bytes(key.as_str().as_bytes());
    e.preview = text::cap(text::join(&names, ", ").as_str(), PREVIEW_CAP);
    e.kind = ClipKind::Files;
    e.mime = text::copy_text("text/uri-list");
    e.text = text::copy_text(list);
    e.cut = cut;
    Some(e)
}

// ---------------------------------------------------------------------------
// Offers
// ---------------------------------------------------------------------------

/// Offers as plain values: a type and the bytes under it.
pub open spec fn offered(v: Seq<(String, Vec<u8>)>) -> Seq<(Seq<char>, Seq<u8>)> {
    Seq::new(v.len(), |i: int| (v[i].0@, v[i].1@))
}

/// One text under the type `mime`.
pub open spec fn as_offer(mime: Seq<char>, body: Seq<char>) -> (Seq<char>, Seq<u8>) {
    (mime, vstd::utf8::encode_utf8(body))
}

fn push_offer(v: &mut Vec<(String, Vec<u8>)>, mime: &str, body: &str)
    ensures
        offered(final(v)@) == offered(old(v)@).push(as_offer(mime@, body@)),
{
    let ghost was = offered(v@);
    v.push((text::copy_text(mime), vstd::slice::slice_to_vec(body.as_bytes())));
    assert(offered(v@) == was.push(as_offer(mime@, body@)));
}

/// What a text clip offers: the same text under its own type, the plain one and
/// the old names that some applications still ask for.
pub open spec fn offers_of_text(s: Seq<char>) -> Seq<(Seq<char>, Seq<u8>)> {
    seq![
        as_offer("text/plain;charset=utf-8"@, s),
        as_offer("text/plain"@, s),
        as_offer("UTF8_STRING"@, s),
        as_offer("STRING"@, s),
        as_offer("TEXT"@, s),
    ]
}

/// What a text clip offers.
pub fn text_offers(s: &str) -> (r: Vec<(String, Vec<u8>)>)
    ensures
        offered(r@) == offers_of_text(s@),
{
    let mut r: Vec<(String, Vec<u8>)> = Vec::new();
    push_offer(&mut r, "text/plain;charset=utf-8", s);
    push_offer(&mut r, "text/plain", s);
    push_offer(&mut r, "UTF8_STRING", s);
    push_offer(&mut r, "STRING", s);
    push_offer(&mut r, "TEXT", s);
    assert(offered(r@) == offers_of_text(s@));
    r
}

/// The text that a file manager pastes from: the verb and the URIs, one a line.
pub open spec fn gnome_text(us: Seq<Seq<char>>, cut: bool) -> Seq<char> {
    verb_of(cut) + "\n"@ + text::joined(us, "\n"@)
}

/// What a files clip offers: nothing without a URI; else the file manager's
/// type, the URI list, and the decoded paths as text.
pub open spec fn offers_of_files(list: Seq<char>, cut: bool) -> Seq<(Seq<char>, Seq<u8>)> {
    let us = uris(list);
    let paths = text::joined(paths_of(us), "\n"@);
    if us.len() == 0 {
        Seq::empty()
    } else {
        seq![
            as_offer("x-special/gnome-copied-files"@, gnome_text(us, cut)),
            as_offer("text/uri-list"@, text::joined(us, "\r\n"@) + "\r\n"@),
            as_offer("text/plain;charset=utf-8"@, paths),
            as_offer("text/plain"@, paths),
            as_offer("UTF8_STRING"@, paths),
        ]
    }
}

/// What a files clip offers.
pub fn file_offers(list: &str, cut: bool) -> (r: Vec<(String, Vec<u8>)>)
    requires
        list_decodes(list@),
    ensures
        offered(r@) == offers_of_files(list@, cut),
{
    let us = uri_entries(list);
    assert(uris(list@).len() == us@.len());
    let mut r: Vec<(String, Vec<u8>)> = Vec::new();
    if us.len() == 0 {
        assert(offered(r@) == offers_of_files(list@, cut));
        return r;
    }
    let mut gnome = text::concat(verb(cut), "\n");
    gnome.append(text::join(&us, "\n").as_str());
    let urilist = text::concat(text::join(&us, "\r\n").as_str(), "\r\n");
    let paths = text::join(&file_paths(list), "\n");
    push_offer(&mut r, "x-special/gnome-copied-files", gnome.as_str());
    push_offer(&mut r, "text/uri-list", urilist.as_str());
    push_offer(&mut r, "text/plain;charset=utf-8", paths.as_str());
    push_offer(&mut r, "text/plain", paths.as_str());
    push_offer(&mut r, "UTF8_STRING", paths.as_str());
    assert(offered(r@) == offers_of_files(list@, cut));
    r
}

/// The bytes that there may be.
pub open spec fn bytes_in(o: Option<Vec<u8>>) -> Option<Seq<u8>> {
    match o {
        Some(b) => Some(b@),
        None => None,
    }
}

/// What a clip offers; `image` are the bytes of an image clip's file, where it
/// has one that could be read.
pub open spec fn offers_of(e: ClipEntry, image: Option<Seq<u8>>) -> Seq<(Seq<char>, Seq<u8>)> {
    match e.kind {
        ClipKind::Text => offers_of_text(e.text@),
        ClipKind::Files => offers_of_files(e.text@, e.cut),
        ClipKind::Image => match (e.image_path, image) {
            (Some(_), Some(b)) => seq![(e.mime@, b)],
            _ => Seq::empty(),
        },
    }
}

/// A restored clip offers its content. An image offers its bytes under its own type,
/// and nothing where they are not there. A text offers itself under each of the
/// types that are asked for. Files offer the verb and their URIs to a file manager,
/// the URI list to others, and their paths as text.
pub proof fn law_a_restored_clip_offers_its_content(e: ClipEntry, image: Option<Seq<u8>>)
    ensures
        e.kind == ClipKind::Image && e.image_path is Some && image is Some ==> offers_of(e, image)
            == seq![(e.mime@, image->Some_0)],
        e.kind == ClipKind::Image && (e.image_path is None || image is None) ==> offers_of(
            e,
            image,
        ).len() == 0,
        e.kind == ClipKind::Text ==> {
            let body = vstd::utf8::encode_utf8(e.text@);
            &&& offers_of(e, image).len() == 5
            &&& forall|i: int| 0 <= i < 5 ==> (#[trigger] offers_of(e, image)[i]).1 == body
            &&& offers_of(e, image).contains(("text/plain;charset=utf-8"@, body))
            &&& offers_of(e, image).contains(("text/plain"@, body))
            &&& offers_of(e, image).contains(("UTF8_STRING"@, body))
            &&& offers_of(e, image).contains(("STRING"@, body))
            &&& offers_of(e, image).contains(("TEXT"@, body))
        },
        e.kind == ClipKind::Files && uris(e.text@).len() == 0 ==> offers_of(e, image).len() == 0,
        e.kind == ClipKind::Files && uris(e.text@).len() > 0 ==> {
            let us = uris(e.text@);
            let o = offers_of(e, image);
            let verb = if e.cut {
                "cut\n"@
            } else {
                "copy\n"@
            };
            let paths = text::joined(
                Seq::new(us.len(), |i: int| decoded(text::without_prefix(us[i], "file://"@))),
                "\n"@,
            );
            &&& o.contains(
                (
                    "x-special/gnome-copied-files"@,
                    vstd::utf8::encode_utf8(verb + text::joined(us, "\n"@)),
                ),
            )
            &&& o.contains(
                ("text/uri-list"@, vstd::utf8::encode_utf8(text::joined(us, "\r\n"@) + "\r\n"@)),
            )
            &&& o.contains(("text/plain;charset=utf-8"@, vstd::utf8::encode_utf8(paths)))
            &&& o.contains(("text/plain"@, vstd::utf8::encode_utf8(paths)))
            &&& o.contains(("UTF8_STRING"@, vstd::utf8::encode_utf8(paths)))
        },
{
    let o = offers_of(e, image);
    if e.kind == ClipKind::Text {
        let body = vstd::utf8::encode_utf8(e.text@);
        assert(o[0] == ("text/plain;charset=utf-8"@, body));
        assert(o[1] == ("text/plain"@, body));
        assert(o[2] == ("UTF8_STRING"@, body));
        assert(o[3] == ("STRING"@, body));
        assert(o[4] == ("TEXT"@, body));
    } else if e.kind == ClipKind::Files && uris(e.text@).len() > 0 {
        let us = uris(e.text@);
        reveal_strlit("cut");
        reveal_strlit("copy");
        reveal_strlit("\n");
        reveal_strlit("cut\n");
        reveal_strlit("copy\n");
        assert("cut"@ + "\n"@ == "cut\n"@);
        assert("copy"@ + "\n"@ == "copy\n"@);
        assert(paths_of(us) == Seq::new(
            us.len(),
            |i: int| decoded(text::without_prefix(us[i], "file://"@)),
        ));
        assert(o[0] == o[0] && o[1] == o[1] && o[2] == o[2] && o[3] == o[3] && o[4] == o[4]);
        assert(o.contains(o[0]) && o.contains(o[1]) && o.contains(o[2]) && o.contains(o[3])
            && o.contains(o[4]));
    }
}

/// The full set of types and bytes that a restored clip offers.
pub fn clip_offers(e: &ClipEntry, image: Option<Vec<u8>>) -> (r: Vec<(String, Vec<u8>)>)
    requires
        e.kind == ClipKind::Files ==> list_decodes(e.text@),
    ensures
        offered(r@) == offers_of(
            *e,
            match image {
                Some(b) => Some(b@),
                None => None,
            },
        ),
        e.kind == ClipKind::Image && e.image_path is Some && image is Some ==> offered(r@) == seq![
            (e.mime@, image->Some_0@),
        ],
        e.kind == ClipKind::Text ==> offered(r@).len() == 5 && forall|i: int|
            0 <= i < 5 ==> (#[trigger] offered(r@)[i]).1 == vstd::utf8::encode_utf8(e.text@),
        e.kind == ClipKind::Files && uris(e.text@).len() > 0 ==> offered(r@).len() == 5,
{
    proof {
        law_a_restored_clip_offers_its_content(*e, bytes_in(image));
    }
    match e.kind {
        ClipKind::Text => text_offers(e.text.as_str()),
        ClipKind::Files => file_offers(e.text.as_str(), e.cut),
        ClipKind::Image => {
            let mut r: Vec<(String, Vec<u8>)> = Vec::new();
            if e.image_path.is_some() {
                if let Some(b) = image {
                    let ghost bytes = b@;
                    r.push((text::copy_text(e.mime.as_str()), b));
                    assert(offered(r@) == seq![(e.mime@, bytes)]);
                    return r;
                }
            }
            assert(offered(r@) == Seq::<(Seq<char>, Seq<u8>)>::empty());
            r
        },
    }
}

/// The trimmed lines of a text that are not blank.
pub open spec fn filled(ls: Seq<Seq<char>>) -> Seq<Seq<char>>
    decreases ls.len(),
{
    if ls.len() == 0 {
        Seq::empty()
    } else {
        let before = filled(ls.drop_last());
        let t = text::trimmed(ls.last());
        if t.len() > 0 {
            before.push(t)
        } else {
            before
        }
    }
}

/// What a file manager's clip says: whether it was cut, and its URIs one a
/// line. A first line that is no verb is kept as a URI of a copy.
pub open spec fn gnome_parsed(raw: Seq<char>) -> (bool, Seq<char>) {
    let ls = filled(text::lines(raw));
    if ls.len() > 0 && text::ascii_lowercase(ls[0]) == "copy"@ {
        (false, text::joined(ls.drop_first(), "\n"@))
    } else if ls.len() > 0 && text::ascii_lowercase(ls[0]) == "cut"@ {
        (true, text::joined(ls.drop_first(), "\n"@))
    } else {
        (false, text::joined(ls, "\n"@))
    }
}

/// Read a file manager's clip into whether it was cut and its URI list.
pub fn parse_gnome_copied(raw: &str) -> (r: (bool, String))
    ensures
        (r.0, r.1@) == gnome_parsed(raw@),
{
    let lines = text::lines_of(raw);
    let ghost ls = text::texts(lines@);
    let mut kept: Vec<String> = Vec::new();
    assert(ls.take(0) == Seq::<Seq<char>>::empty());
    for i in 0..lines.len()
        invariant
            ls == text::texts(lines@),
            text::texts(kept@) == filled(ls.take(i as int)),
    {
        let ghost was = text::texts(kept@);
        assert(ls.take(i + 1).drop_last() == ls.take(i as int));
        assert(ls.take(i + 1).last() == lines@[i as int]@);
        let t = text::trim(lines[i].as_str());
        if !t.as_str().is_empty() {
            let ghost line = t@;
            kept.push(t);
            assert(text::texts(kept@) == was.push(line));
        }
    }
    assert(ls.take(ls.len() as int) == ls);
    let ghost k = text::texts(kept@);
    if kept.len() > 0 {
        assert(k[0] == kept@[0]@);
        let first = text::to_ascii_lower(kept[0].as_str());
        let copy: bool = text::same(first.as_str(), "copy");
        let cut: bool = text::same(first.as_str(), "cut");
        if copy || cut {
            kept.remove(0);
            assert(text::texts(kept@) == k.drop_first());
            return (!copy, text::join(&kept, "\n"));
        }
    }
    (false, text::join(&kept, "\n"))
}

/// The URIs of a list hold no line feed and are trimmed and not blank.
proof fn lemma_entries(ls: Seq<Seq<char>>)
    requires
        forall|i: int| 0 <= i < ls.len() ==> !(#[trigger] ls[i]).contains('\n'),
    ensures
        forall|i: int|
            0 <= i < entries_of(ls).len() ==> text::is_trimmed(#[trigger] entries_of(ls)[i])
                && is_entry(entries_of(ls)[i]) && !entries_of(ls)[i].contains('\n'),
    decreases ls.len(),
{
    if ls.len() > 0 {
        let d = ls.drop_last();
        assert forall|i: int| 0 <= i < d.len() implies !(#[trigger] d[i]).contains('\n') by {
            assert(d[i] == ls[i]);
        }
        lemma_entries(d);
        let last = ls.last();
        text::lemma_trimmed(last);
        assert(!ls[ls.len() - 1].contains('\n'));
        text::lemma_trimmed_holds_no_more(last, '\n');
        let e = entries_of(ls);
        assert forall|i: int| 0 <= i < e.len() implies text::is_trimmed(#[trigger] e[i])
            && is_entry(e[i]) && !e[i].contains('\n') by {
            if i < entries_of(d).len() {
                assert(e[i] == entries_of(d)[i]);
            } else {
                assert(e[i] == text::trimmed(last));
            }
        }
    }
}

proof fn lemma_joined_lines(us: Seq<Seq<char>>)
    requires
        us.len() > 0,
        forall|i: int|
            0 <= i < us.len() ==> text::is_trimmed(#[trigger] us[i]) && us[i].len() > 0
                && !us[i].contains('\n'),
    ensures
        text::lines(text::joined(us, "\n"@)) == us,
    decreases us.len(),
{
    reveal_strlit("\n");
    assert("\n"@ == seq!['\n']);
    let u = us[0];
    assert(!u.contains('\n'));
    assert(text::without_cr(u) == u);
    if us.len() == 1 {
        assert forall|i: int| 0 <= i < u.len() implies u[i] != '\n' by {
            assert(u.contains(u[i]));
        }
        text::lemma_span_to_at(u, '\n', u.len() as int);
        assert(text::lines(u) == seq![u]);
        assert(us == seq![u]);
    } else {
        let rest = us.drop_first();
        text::lemma_joined_front(us, "\n"@);
        assert forall|i: int| 0 <= i < rest.len() implies text::is_trimmed(#[trigger] rest[i])
            && rest[i].len() > 0 && !rest[i].contains('\n') by {
            assert(rest[i] == us[i + 1]);
        }
        lemma_joined_lines(rest);
        let tail = text::joined(rest, "\n"@);
        assert(u + "\n"@ + tail == u.push('\n') + tail);
        text::lemma_lines_front(u, tail);
        assert(seq![u] + rest == us);
    }
}

proof fn lemma_filled_all(ls: Seq<Seq<char>>)
    requires
        forall|i: int| 0 <= i < ls.len() ==> text::is_trimmed(#[trigger] ls[i]) && ls[i].len() > 0,
    ensures
        filled(ls) == ls,
    decreases ls.len(),
{
    if ls.len() > 0 {
        let d = ls.drop_last();
        assert forall|i: int| 0 <= i < d.len() implies text::is_trimmed(#[trigger] d[i])
            && d[i].len() > 0 by {
            assert(d[i] == ls[i]);
        }
        lemma_filled_all(d);
        assert(text::is_trimmed(ls[ls.len() - 1]));
        text::lemma_trim_of_trimmed(ls.last());
        assert(d.push(ls.last()) == ls);
    }
}

/// What a files clip offers to a file manager reads back as the same verb and
/// the same URIs.
pub proof fn law_gnome_offer_reads_back(list: Seq<char>, cut: bool)
    requires
        uris(list).len() > 0,
    ensures
        gnome_parsed(gnome_text(uris(list), cut)) == (cut, text::joined(uris(list), "\n"@)),
{
    let us = uris(list);
    text::lemma_lines_hold_no_feed(list);
    lemma_entries(text::lines(list));
    lemma_joined_lines(us);
    reveal_strlit("\n");
    reveal_strlit("cut");
    reveal_strlit("copy");
    assert("\n"@ == seq!['\n']);
    let v = verb_of(cut);
    let tail = text::joined(us, "\n"@);
    assert(!v.contains('\n'));
    assert(text::without_cr(v) == v);
    assert(gnome_text(us, cut) == v.push('\n') + tail);
    text::lemma_lines_front(v, tail);
    let ls = seq![v] + us;
    assert(text::lines(gnome_text(us, cut)) == ls);
    assert forall|i: int| 0 <= i < ls.len() implies text::is_trimmed(#[trigger] ls[i])
        && ls[i].len() > 0 by {
        if i > 0 {
            assert(ls[i] == us[i - 1]);
        }
    }
    lemma_filled_all(ls);
    assert(ls[0] == v);
    assert(text::ascii_lowercase(v) == v);
    assert(ls.drop_first() == us);
    if cut {
        assert("cut"@.len() != "copy"@.len());
    }
}

/// A clip captured from what a files clip offered offers the same again.
pub proof fn law_captured_files_are_offered_again(list: Seq<char>, cut: bool)
    requires
        uris(list).len() > 0,
    ensures
        ({
            let raw = gnome_text(uris(list), cut);
            let back = gnome_parsed(raw);
            gnome_text(uris(back.1), back.0) == raw
        }),
{
    let us = uris(list);
    law_gnome_offer_reads_back(list, cut);
    text::lemma_lines_hold_no_feed(list);
    lemma_entries(text::lines(list));
    lemma_joined_lines(us);
    lemma_entries_all(us);
}

proof fn lemma_entries_all(ls: Seq<Seq<char>>)
    requires
        forall|i: int|
            0 <= i < ls.len() ==> text::is_trimmed(#[trigger] ls[i]) && is_entry(ls[i]),
    ensures
        entries_of(ls) == ls,
    decreases ls.len(),
{
    if ls.len() > 0 {
        let d = ls.drop_last();
        assert forall|i: int| 0 <= i < d.len() implies text::is_trimmed(#[trigger] d[i])
            && is_entry(d[i]) by {
            assert(d[i] == ls[i]);
        }
        lemma_entries_all(d);
        assert(text::is_trimmed(ls[ls.len() - 1]));
        text::lemma_trim_of_trimmed(ls.last());
        assert(d.push(ls.last()) == ls);
    }
}

/// Every type of a text clip carries the same bytes.
pub proof fn law_text_offers_agree(s: Seq<char>, i: int)
    requires
        0 <= i < offers_of_text(s).len(),
    ensures
        offers_of_text(s)[i].1 == vstd::utf8::encode_utf8(s),
{
}

// ---------------------------------------------------------------------------
// Capturing
// ---------------------------------------------------------------------------

/// The place of the first type that satisfies `p`, or the number of types.
pub open spec fn first_type(types: Seq<Seq<char>>, p: spec_fn(Seq<char>) -> bool) -> int
    decreases types.len(),
{
    if types.len() == 0 || p(types[0]) {
        0
    } else {
        1 + first_type(types.drop_first(), p)
    }
}

proof fn lemma_first_type(types: Seq<Seq<char>>, p: spec_fn(Seq<char>) -> bool, n: int)
    requires
        0 <= n <= types.len(),
        forall|i: int| 0 <= i < n ==> !p(#[trigger] types[i]),
        n < types.len() ==> p(types[n]),
    ensures
        first_type(types, p) == n,
    decreases n,
{
    if n > 0 {
        let d = types.drop_first();
        assert(!p(types[0]));
        assert forall|i: int| 0 <= i < n - 1 implies !p(#[trigger] d[i]) by {
            assert(d[i] == types[i + 1]);
        }
        lemma_first_type(d, p, n - 1);
    }
}

/// The type to read an image under: PNG where it is offered, else the first
/// image type.
pub open spec fn image_type(types: Seq<Seq<char>>) -> Option<Seq<char>> {
    let n = first_type(types, |t: Seq<char>| text::begins_with(t, "image/"@));
    if types.contains("image/png"@) {
        Some("image/png"@)
    } else if n < types.len() {
        Some(types[n])
    } else {
        None
    }
}

/// The best image type on offer.
pub fn image_mime(types: &[String]) -> (r: Option<String>)
    ensures
        text::text_in(r) == image_type(text::texts(types@)),
{
    let ghost ts = text::texts(types@);
    if text::any_same(types, "image/png") {
        return Some(text::copy_text("image/png"));
    }
    let ghost p = |t: Seq<char>| text::begins_with(t, "image/"@);
    for i in 0..types.len()
        invariant
            ts == text::texts(types@),
            !ts.contains("image/png"@),
            p == (|t: Seq<char>| text::begins_with(t, "image/"@)),
            forall|k: int| 0 <= k < i ==> !p(#[trigger] ts[k]),
    {
        assert(ts[i as int] == types@[i as int]@);
        if text::starts_with(types[i].as_str(), "image/") {
            proof {
                lemma_first_type(ts, p, i as int);
            }
            return Some(text::copy_text(types[i].as_str()));
        }
    }
    proof {
        lemma_first_type(ts, p, ts.len() as int);
    }
    None
}

/// The type to put a text back with: the first plain text type with a charset,
/// else plain text.
pub open spec fn text_type(types: Seq<Seq<char>>) -> Seq<char> {
    let n = first_type(
        types,
        |t: Seq<char>| text::begins_with(t, "text/plain"@) && text::holds(t, "charset"@),
    );
    if n < types.len() {
        types[n]
    } else {
        "text/plain"@
    }
}

/// The most specific text type to copy back with.
pub fn best_text_mime(types: &[String]) -> (r: String)
    ensures
        r@ == text_type(text::texts(types@)),
{
    let ghost ts = text::texts(types@);
    let ghost p = |t: Seq<char>|
        text::begins_with(t, "text/plain"@) && text::holds(t, "charset"@);
    for i in 0..types.len()
        invariant
            ts == text::texts(types@),
            p == (|t: Seq<char>|
                text::begins_with(t, "text/plain"@) && text::holds(t, "charset"@)),
            forall|k: int| 0 <= k < i ==> !p(#[trigger] ts[k]),
    {
        assert(ts[i as int] == types@[i as int]@);
        if text::starts_with(types[i].as_str(), "text/plain") && text::contains(
            types[i].as_str(),
            "charset",
        ) {
            proof {
                lemma_first_type(ts, p, i as int);
            }
            return text::copy_text(types[i].as_str());
        }
    }
    proof {
        lemma_first_type(ts, p, ts.len() as int);
    }
    text::copy_text("text/plain")
}

/// The types on offer, from what the clipboard tool printed: one to a word.
/// `None`, where it failed, offers nothing.
pub fn list_types(output: Option<&[u8]>) -> (r: Vec<String>)
    ensures
        text::texts(r@) == (match output {
            Some(b) => text::words(text::lossy(b@)),
            None => Seq::empty(),
        }),
{
    match output {
        Some(b) => text::words_of(text::decode_lossy(b).as_str()),
        None => {
            let r: Vec<String> = Vec::new();
            assert(text::texts(r@) == Seq::<Seq<char>>::empty());
            r
        },
    }
}

/// How the clipboard is to be read.
#[derive(Debug)]
pub enum Reading {
    /// Not at all.
    Skip,
    /// As an image of this type.
    Image(String),
    /// As a file manager's clip, which carries the verb.
    GnomeFiles,
    /// As a URI list, always a copy.
    UriList,
    /// As text, to be put back under this type.
    Text(String),
}

/// Whether any of the types begins with `text/`.
pub open spec fn any_text(types: Seq<Seq<char>>) -> bool {
    exists|i: int| 0 <= i < types.len() && text::begins_with(#[trigger] types[i], "text/"@)
}

/// Decide how to read the clipboard from the types on offer: an image first,
/// then files, then text.
pub fn choose_reading(types: &[String]) -> (r: Reading)
    ensures
        ({
            let ts = text::texts(types@);
            let gnome = ts.contains("x-special/gnome-copied-files"@);
            let list = ts.contains("text/uri-list"@);
            match r {
                Reading::Image(m) => image_type(ts) == Some(m@),
                Reading::GnomeFiles => image_type(ts) is None && gnome,
                Reading::UriList => image_type(ts) is None && !gnome && list,
                Reading::Text(m) => image_type(ts) is None && !gnome && !list && any_text(ts) && m@
                    == text_type(ts),
                Reading::Skip => image_type(ts) is None && !gnome && !list && !any_text(ts),
            }
        }),
{
    let ghost ts = text::texts(types@);
    if let Some(m) = image_mime(types) {
        return Reading::Image(m);
    }
    if text::any_same(types, "x-special/gnome-copied-files") {
        return Reading::GnomeFiles;
    }
    if text::any_same(types, "text/uri-list") {
        return Reading::UriList;
    }
    for i in 0..types.len()
        invariant
            ts == text::texts(types@),
            image_type(ts) is None,
            !ts.contains("x-special/gnome-copied-files"@),
            !ts.contains("text/uri-list"@),
            forall|k: int| 0 <= k < i ==> !text::begins_with(#[trigger] ts[k], "text/"@),
    {
        assert(ts[i as int] == types@[i as int]@);
        if text::starts_with(types[i].as_str(), "text/") {
            return Reading::Text(best_text_mime(types));
        }
    }
    Reading::Skip
}

/// Where the file of an image clip goes: named by its hash, with the end of its
/// type as extension.
pub open spec fn image_file(data_dir: Seq<char>, hash: u64, mime: Seq<char>) -> Seq<char> {
    text::below(
        data_dir,
        "clipboard-images/"@ + text::hex_digits(hash as nat, 16) + "."@ + text::tail_after(
            mime,
            '/',
        ),
    )
}

/// The preview of an image of this size; a width of 0 stands for an unknown
/// size.
pub open spec fn image_label(width: u32, height: u32) -> Seq<char> {
    if width > 0 {
        "Image · "@ + text::decimal(width as nat) + "×"@ + text::decimal(height as nat)
    } else {
        "Image"@
    }
}

/// The clip that an image makes, where `size` is what its header declares.
pub open spec fn image_clip(
    mime: Seq<char>,
    bytes: Seq<u8>,
    size: Option<(u32, u32)>,
    data_dir: Seq<char>,
    now_ms: u64,
) -> ClipModel {
    let hash = content_hash(bytes);
    let (width, height) = match size {
        Some(s) => s,
        None => (0, 0),
    };
    ClipModel {
        hash,
        preview: image_label(width, height),
        kind: ClipKind::Image,
        mime,
        image_path: Some(image_file(data_dir, hash, mime)),
        width,
        height,
        ..blank(now_ms)
    }
}

/// The clip of an image, or `None` where there are no bytes. The bytes are to
/// be written to its `image_path`.
pub fn classify_image(mime: &str, bytes: &[u8], data_dir: &str, now_ms: u64) -> (r: Option<
    ClipEntry,
>)
    requires
        bytes@.len() <= MAX_IMAGE,
    ensures
        match r {
            Some(e) => bytes@.len() > 0 && e@ == image_clip(
                mime@,
                bytes@,
                image_size(bytes@, usize::BITS),
                data_dir@,
                now_ms,
            ),
            None => bytes@.len() == 0,
        },
{
    if bytes.len() == 0 {
        return None;
    }
    Some(image_entry(mime, bytes, image_dimensions(bytes), data_dir, now_ms))
}

/// The clip of an image whose header declares `size`.
pub fn image_entry(
    mime: &str,
    bytes: &[u8],
    size: Option<(u32, u32)>,
    data_dir: &str,
    now_ms: u64,
) -> (e: ClipEntry)
    ensures
        e@ == image_clip(mime@, bytes@, size, data_dir@, now_ms),
{
    let hash = hash_bytes(bytes);
    let (width, height): (u32, u32) = match size {
        Some(s) => s,
        None => (0, 0),
    };
    let mut name = text::concat("clipboard-images/", text::hex16(hash).as_str());
    name.append(".");
    let m = text::chars_of(mime);
    name.append(text::tail_of(&m, '/').as_str());
    let mut preview = text::copy_text("Image");
    if width > 0 {
        preview = text::concat("Image · ", text::number(width as u64).as_str());
        preview.append("×");
        preview.append(text::number(height as u64).as_str());
    }
    let mut e = base_entry(now_ms);
    e.hash = hash;
    e.preview = preview;
    e.kind = ClipKind::Image;
    e.mime = text::copy_text(mime);
    e.image_path = Some(text::join_path(data_dir, name.as_str()));
    e.width = width;
    e.height = height;
    e
}

/// Whether a lowercase window class is a browser's.
pub open spec fn browser_class(c: Seq<char>) -> bool {
    ||| text::holds(c, "firefox"@)
    ||| text::holds(c, "chrome"@)
    ||| text::holds(c, "chromium"@)
    ||| text::holds(c, "brave"@)
    ||| text::holds(c, "edge"@)
    ||| text::holds(c, "vivaldi"@)
    ||| text::holds(c, "opera"@)
    ||| text::holds(c, "librewolf"@)
    ||| text::holds(c, "zen"@)
}

/// The names that browsers put at the end of a window title, in lower case.
pub open spec fn browser_names() -> Seq<Seq<char>> {
    seq![
        "mozilla firefox"@,
        "google chrome"@,
        "chromium"@,
        "brave"@,
        "microsoft edge"@,
        "vivaldi"@,
        "opera"@,
        "librewolf"@,
        "zen browser"@,
    ]
}

/// The browser name at place `i`.
fn browser_name(i: usize) -> (r: &'static str)
    requires
        i < 9,
    ensures
        r@ == browser_names()[i as int],
{
    if i == 0 {
        "mozilla firefox"
    } else if i == 1 {
        "google chrome"
    } else if i == 2 {
        "chromium"
    } else if i == 3 {
        "brave"
    } else if i == 4 {
        "microsoft edge"
    } else if i == 5 {
        "vivaldi"
    } else if i == 6 {
        "opera"
    } else if i == 7 {
        "librewolf"
    } else {
        "zen browser"
    }
}

/// Whether a window is a browser's: by its class, else by the end of its title.
pub open spec fn from_browser(class: Seq<char>, title: Seq<char>) -> bool {
    browser_class(text::lowercase(class)) || exists|i: int|
        0 <= i < browser_names().len() && text::finishes_with(
            text::lowercase(text::trimmed(title)),
            #[trigger] browser_names()[i],
        )
}

/// Whether a link was copied from a browser window.
pub fn is_browser_source(class: &str, title: &str) -> (r: bool)
    ensures
        r == from_browser(class@, title@),
{
    let c = text::to_lower(class);
    let t = text::to_lower(text::trim(title).as_str());
    is_browser(c.as_str(), t.as_str())
}

/// Whether a lowercase class or a trimmed lowercase title is a browser's.
pub fn is_browser(class: &str, title: &str) -> (r: bool)
    ensures
        r == (browser_class(class@) || exists|i: int|
            0 <= i < browser_names().len() && text::finishes_with(
                title@,
                #[trigger] browser_names()[i],
            )),
{
    if text::contains(class, "firefox") || text::contains(class, "chrome") || text::contains(
        class,
        "chromium",
    ) || text::contains(class, "brave") || text::contains(class, "edge") || text::contains(
        class,
        "vivaldi",
    ) || text::contains(class, "opera") || text::contains(class, "librewolf") || text::contains(
        class,
        "zen",
    ) {
        return true;
    }
    for i in 0..9usize
        invariant
            !browser_class(class@),
            forall|k: int|
                0 <= k < i ==> !text::finishes_with(title@, #[trigger] browser_names()[k]),
    {
        if text::ends_with(title, browser_name(i)) {
            return true;
        }
    }
    false
}

fn is_browser_name(s: &str) -> (r: bool)
    ensures
        r == browser_names().contains(s@),
{
    for i in 0..9usize
        invariant
            forall|k: int| 0 <= k < i ==> s@ != #[trigger] browser_names()[k],
    {
        if text::same(s, browser_name(i)) {
            assert(browser_names()[i as int] == s@);
            return true;
        }
    }
    false
}

/// A text split at the last place of `sep`.
pub open spec fn last_split(t: Seq<char>, sep: Seq<char>) -> Option<(Seq<char>, Seq<char>)> {
    let at = text::last_at(t, sep);
    if at >= 0 {
        Some((t.take(at), t.skip(at + sep.len())))
    } else {
        None
    }
}

/// A title split at its last dash or hyphen, whichever stands later.
pub open spec fn split_title(t: Seq<char>) -> Option<(Seq<char>, Seq<char>)> {
    if text::last_at(t, " — "@) >= text::last_at(t, " - "@) {
        last_split(t, " — "@)
    } else {
        last_split(t, " - "@)
    }
}

/// A link title: the trimmed window title without a known browser's name at
/// its end, shortened.
pub open spec fn link_title(title: Seq<char>) -> Seq<char> {
    let t = text::trimmed(title);
    text::capped(
        match split_title(t) {
            Some(parts) => if text::trimmed(parts.0).len() > 0 && browser_names().contains(
                text::lowercase(text::trimmed(parts.1)),
            ) {
                text::trimmed(parts.0)
            } else {
                t
            },
            None => t,
        },
        80,
    )
}

fn split_at_place(v: &[char], sep: &[char]) -> (r: Option<(String, String)>)
    ensures
        match r {
            Some(p) => last_split(v@, sep@) == Some((p.0@, p.1@)),
            None => last_split(v@, sep@) is None,
        },
{
    match text::last_place(v, sep) {
        Some(at) => {
            let end: usize = v.len();
            assert(at + sep@.len() <= end);
            let head = text::slice_text(v, 0, at);
            let tail = text::slice_text(v, at + sep.len(), end);
            assert(head@ == v@.take(at as int));
            assert(tail@ == v@.skip(at + sep@.len()));
            Some((head, tail))
        },
        None => None,
    }
}

fn title_parts(v: &[char]) -> (r: Option<(String, String)>)
    ensures
        match r {
            Some(p) => split_title(v@) == Some((p.0@, p.1@)),
            None => split_title(v@) is None,
        },
{
    let dash = text::chars_of(" — ");
    let hyphen = text::chars_of(" - ");
    let at_dash = text::last_place(v, &dash);
    let at_hyphen = text::last_place(v, &hyphen);
    let hyphen_later: bool = match (at_dash, at_hyphen) {
        (Some(d), Some(h)) => h > d,
        (None, Some(_)) => true,
        _ => false,
    };
    if hyphen_later {
        split_at_place(v, &hyphen)
    } else {
        split_at_place(v, &dash)
    }
}

/// Tidy a browser's window title for use as a link title.
pub fn clean_link_title(title: &str) -> (r: String)
    ensures
        r@ == link_title(title@),
{
    let t = text::trim(title);
    let v = text::chars_of(t.as_str());
    let split = title_parts(&v);
    let (head, tail) = match split {
        Some(p) => p,
        None => return text::cap(t.as_str(), 80),
    };
    let name = text::to_lower(text::trim(tail.as_str()).as_str());
    let lead = text::trim(head.as_str());
    if !lead.as_str().is_empty() && is_browser_name(name.as_str()) {
        text::cap(lead.as_str(), 80)
    } else {
        text::cap(t.as_str(), 80)
    }
}

/// The label of a window: its class and its shortened title, an empty part left
/// out.
pub open spec fn label_of(class: Seq<char>, title: Seq<char>) -> Seq<char> {
    let c = text::trimmed(class);
    let t = text::capped(text::trimmed(title), 60);
    if c.len() > 0 && t.len() > 0 {
        c + " — "@ + t
    } else {
        c + t
    }
}

/// The label of a window.
pub fn window_label(class: &str, title: &str) -> (r: String)
    ensures
        r@ == label_of(class@, title@),
{
    let c = text::trim(class);
    let t = text::cap(text::trim(title).as_str(), 60);
    let mut r = text::copy_text(c.as_str());
    if !c.as_str().is_empty() && !t.as_str().is_empty() {
        r.append(" — ");
    }
    r.append(t.as_str());
    r
}

/// The label of the focused window, empty where there is none.
pub open spec fn window_text(win: Option<(String, String)>) -> Seq<char> {
    match win {
        Some(w) => label_of(w.0@, w.1@),
        None => Seq::empty(),
    }
}

/// Where a clip was copied from: a files clip's folder, else the focused window.
pub open spec fn source_of(e: ClipEntry, win: Option<(String, String)>) -> Seq<char> {
    if e.kind == ClipKind::Files && folder_of(e.text@).len() > 0 {
        folder_of(e.text@)
    } else {
        window_text(win)
    }
}

/// Where a fresh clip was copied from.
pub fn capture_source(e: &ClipEntry, win: &Option<(String, String)>) -> (r: String)
    requires
        e.kind == ClipKind::Files ==> first_decodes(e.text@),
    ensures
        r@ == source_of(*e, *win),
{
    if e.kind == ClipKind::Files {
        let dir = file_source(e.text.as_str());
        if !dir.as_str().is_empty() {
            return dir;
        }
    }
    match win {
        Some((class, title)) => window_label(class.as_str(), title.as_str()),
        None => String::new(),
    }
}

/// Whether a capture is news: its content is not that of the last one, which it
/// then becomes.
pub fn is_news(last_hash: &mut Option<u64>, hash: u64) -> (r: bool)
    ensures
        r == (*old(last_hash) != Some(hash)),
        *final(last_hash) == Some(hash),
{
    let same: bool = match *last_hash {
        Some(h) => h == hash,
        None => false,
    };
    *last_hash = Some(hash);
    !same
}

/// Complete a fresh clip from the focused window `win` (none is asked for with a
/// files clip): where it came from and, for a link, its title. Returns the clip
/// and whether a picture of the window should be kept with it, which only a
/// browser's window is good for.
pub fn enrich_capture(e: ClipEntry, win: &Option<(String, String)>) -> (r: (ClipEntry, bool))
    requires
        e.kind == ClipKind::Files ==> first_decodes(e.text@),
    ensures
        ({
            let linked = e.url() is Some && win is Some;
            &&& r.0@ == (ClipModel {
                source: source_of(e, *win),
                title: if linked {
                    link_title(win->Some_0.1@)
                } else {
                    e@.title
                },
                ..e@
            })
            &&& r.1 == (linked && from_browser(win->Some_0.0@, win->Some_0.1@))
        }),
{
    let mut e = e;
    let source = capture_source(&e, win);
    let link: bool = e.is_link();
    e.source = source;
    let mut picture = false;
    if link {
        if let Some((class, title)) = win {
            e.title = clean_link_title(title.as_str());
            picture = is_browser_source(class.as_str(), title.as_str());
        }
    }
    (e, picture)
}

// ---------------------------------------------------------------------------
// Events and commands
// ---------------------------------------------------------------------------

/// Something that was observed on the clipboard.
#[derive(Debug)]
pub enum ClipEvent {
    /// A new clip landed on it.
    Captured(Box<ClipEntry>),
    /// The clip being served was pasted somewhere.
    Pasted,
}

/// What the clipboard is to be told.
#[derive(Debug)]
pub enum ClipCommand {
    /// Put this clip on it.
    Copy(Box<ClipEntry>),
}

/// The commands that wait to be carried out.
#[derive(Debug)]
pub struct ClipHandle {
    /// In the order in which they were sent.
    pub queue: Vec<ClipCommand>,
    /// Whether anyone still carries them out.
    pub connected: bool,
}

impl ClipHandle {
    /// A handle with nothing waiting.
    pub fn new() -> (r: ClipHandle)
        ensures
            r.queue@.len() == 0,
            r.connected,
    {
        ClipHandle { queue: Vec::new(), connected: true }
    }

    /// Send a command; one that nobody would carry out is dropped.
    pub fn send(&mut self, cmd: ClipCommand)
        ensures
            final(self).queue@ == (if old(self).connected {
                old(self).queue@.push(cmd)
            } else {
                old(self).queue@
            }),
            final(self).connected == old(self).connected,
    {
        if self.connected {
            self.queue.push(cmd);
        }
    }

    /// Take the oldest command.
    pub fn recv(&mut self) -> (r: Option<ClipCommand>)
        ensures
            match r {
                Some(c) => old(self).queue@.len() > 0 && c == old(self).queue@[0]
                    && final(self).queue@ == old(self).queue@.drop_first(),
                None => old(self).queue@.len() == 0 && final(self).queue@ == old(self).queue@,
            },
            final(self).connected == old(self).connected,
    {
        if self.queue.len() == 0 {
            return None;
        }
        let c = self.queue.remove(0);
        assert(self.queue@ == old(self).queue@.drop_first());
        Some(c)
    }
}

// ---------------------------------------------------------------------------
// What holds of captures
// ---------------------------------------------------------------------------

/// A files clip keeps its list and whether it was cut, shows the base names of its
/// files, and a cut and a copy of one list are hashed from different texts.
pub proof fn law_a_files_clip_keeps_its_list(list: Seq<char>, cut: bool, now_ms: u64)
    ensures
        ({
            let c = files_clip(list, cut, now_ms);
            let us = uris(list);
            &&& c.kind == ClipKind::Files
            &&& c.text == list
            &&& c.cut == cut
            &&& c.mime == "text/uri-list"@
            &&& c.timestamp_ms == now_ms
            &&& c.paste_count == 0
            &&& c.pastes.len() == 0
            &&& c.source.len() == 0
            &&& c.image_path is None
            &&& c.hash == content_hash(
                vstd::utf8::encode_utf8(
                    (if cut {
                        "cut\n"@
                    } else {
                        "copy\n"@
                    }) + list,
                ),
            )
            &&& c.preview == text::capped(
                text::joined(
                    Seq::new(
                        us.len(),
                        |i: int| text::base_name(decoded(text::without_prefix(us[i], "file://"@))),
                    ),
                    ", "@,
                ),
                PREVIEW_CAP as int,
            )
        }),
{
    let us = uris(list);
    reveal_strlit("cut");
    reveal_strlit("copy");
    reveal_strlit("\n");
    reveal_strlit("cut\n");
    reveal_strlit("copy\n");
    assert("cut"@ + "\n"@ + list == "cut\n"@ + list);
    assert("copy"@ + "\n"@ + list == "copy\n"@ + list);
    assert(names_in(list) == Seq::new(
        us.len(),
        |i: int| text::base_name(decoded(text::without_prefix(us[i], "file://"@))),
    ));
}

/// An image clip keeps its type and its size, says the size where it is known, and
/// has a file of its own: named by the hash of its bytes, below the data directory.
pub proof fn law_an_image_clip_keeps_its_type(
    mime: Seq<char>,
    bytes: Seq<u8>,
    size: Option<(u32, u32)>,
    data_dir: Seq<char>,
    now_ms: u64,
)
    ensures
        ({
            let c = image_clip(mime, bytes, size, data_dir, now_ms);
            &&& c.kind == ClipKind::Image
            &&& c.mime == mime
            &&& c.hash == content_hash(bytes)
            &&& c.timestamp_ms == now_ms
            &&& c.image_path is Some
            &&& c.text.len() == 0
            &&& c.paste_count == 0
            &&& c.pastes.len() == 0
            &&& size matches Some(s) ==> c.width == s.0 && c.height == s.1
            &&& size is None ==> c.width == 0 && c.height == 0 && c.preview == "Image"@
            &&& size matches Some(s) ==> s.0 > 0 ==> c.preview == "Image · "@ + text::decimal(
                s.0 as nat,
            ) + "×"@ + text::decimal(s.1 as nat)
        }),
{
}

/// The file of an image clip ends in what its type ends in.
pub proof fn law_an_image_file_is_named_by_hash_and_type(
    dir: Seq<char>,
    hash: u64,
    class: Seq<char>,
    kind: Seq<char>,
)
    requires
        dir.len() > 0,
        dir.last() != '/',
        !kind.contains('/'),
    ensures
        image_file(dir, hash, class.push('/') + kind) == dir + "/clipboard-images/"@
            + text::hex_digits(hash as nat, 16) + "."@ + kind,
{
    text::law_the_tail_is_behind_the_last(class, '/', kind);
    reveal_strlit("/clipboard-images/");
    reveal_strlit("clipboard-images/");
    assert(seq!['/'] + "clipboard-images/"@ == "/clipboard-images/"@);
    let name = "clipboard-images/"@ + text::hex_digits(hash as nat, 16) + "."@ + kind;
    text::law_one_slash_stands_between(dir, name);
    assert(dir + seq!['/'] + name == dir + (seq!['/'] + "clipboard-images/"@) + text::hex_digits(
        hash as nat,
        16,
    ) + "."@ + kind);
}

/// An image is read under a type that is on offer and is an image's: PNG wherever it
/// is offered, else the first one. There is one wherever an image is offered.
pub proof fn law_an_image_is_read_under_an_offered_type(types: Seq<Seq<char>>)
    ensures
        types.contains("image/png"@) ==> image_type(types) == Some("image/png"@),
        image_type(types) matches Some(t) ==> types.contains(t) && (t == "image/png"@
            || text::begins_with(t, "image/"@)),
        image_type(types) is None ==> forall|i: int|
            0 <= i < types.len() ==> !text::begins_with(#[trigger] types[i], "image/"@),
        image_type(types) matches Some(t) ==> t != "image/png"@ ==> exists|i: int|
            0 <= i < types.len() && (#[trigger] types[i]) == t && forall|k: int|
                0 <= k < i ==> !text::begins_with(#[trigger] types[k], "image/"@),
{
    lemma_first_type_holds(types, |t: Seq<char>| text::begins_with(t, "image/"@));
    let n = first_type(types, |t: Seq<char>| text::begins_with(t, "image/"@));
    if n < types.len() {
        assert(types.contains(types[n]));
    }
}

proof fn lemma_first_type_holds(types: Seq<Seq<char>>, p: spec_fn(Seq<char>) -> bool)
    ensures
        0 <= first_type(types, p) <= types.len(),
        first_type(types, p) < types.len() ==> p(types[first_type(types, p)]),
        forall|k: int| 0 <= k < first_type(types, p) ==> !p(#[trigger] types[k]),
    decreases types.len(),
{
    if types.len() > 0 && !p(types[0]) {
        let d = types.drop_first();
        lemma_first_type_holds(d, p);
        let n = first_type(d, p);
        assert forall|k: int| 0 <= k < n + 1 implies !p(#[trigger] types[k]) by {
            if k > 0 {
                assert(types[k] == d[k - 1]);
            }
        }
        if n < d.len() {
            assert(d[n] == types[n + 1]);
        }
    }
}

/// A text is put back under the first plain text type with a charset that was on
/// offer, else as plain text.
pub proof fn law_a_text_keeps_its_charset(types: Seq<Seq<char>>, i: int)
    requires
        0 <= i < types.len(),
        text::begins_with(types[i], "text/plain"@),
        text::holds(types[i], "charset"@),
        forall|k: int|
            0 <= k < i ==> !(text::begins_with(#[trigger] types[k], "text/plain"@) && text::holds(
                types[k],
                "charset"@,
            )),
    ensures
        text_type(types) == types[i],
{
    let p = |t: Seq<char>| text::begins_with(t, "text/plain"@) && text::holds(t, "charset"@);
    lemma_first_type(types, p, i);
}

/// Without a plain text type that names a charset a text is put back as plain text.
pub proof fn law_a_text_without_a_charset_is_plain(types: Seq<Seq<char>>)
    requires
        forall|k: int|
            0 <= k < types.len() ==> !(text::begins_with(#[trigger] types[k], "text/plain"@)
                && text::holds(types[k], "charset"@)),
    ensures
        text_type(types) == "text/plain"@,
{
    let p = |t: Seq<char>| text::begins_with(t, "text/plain"@) && text::holds(t, "charset"@);
    lemma_first_type(types, p, types.len() as int);
}

/// A files clip was copied from the directory of its first file. Any other clip, and a
/// files clip without one, was copied from the focused window.
pub proof fn law_a_clip_knows_where_it_is_from(e: ClipEntry, win: Option<(String, String)>)
    ensures
        e.kind == ClipKind::Files && uris(e.text@).len() > 0 ==> {
            let p = decoded(text::without_prefix(uris(e.text@)[0], "file://"@));
            match paths::parent_path(p) {
                Some(d) => if d.len() > 0 {
                    source_of(e, win) == d
                } else {
                    p.len() > 0 ==> source_of(e, win) == p
                },
                None => p.len() > 0 ==> source_of(e, win) == p,
            }
        },
        e.kind != ClipKind::Files || uris(e.text@).len() == 0 ==> match win {
            Some(w) => source_of(e, win) == label_of(w.0@, w.1@),
            None => source_of(e, win).len() == 0,
        },
{
}

/// A window is called by its class and its title with a dash between them, the title
/// cut to length; where one of them is missing, by the other.
pub proof fn law_a_window_is_called_by_class_and_title(class: Seq<char>, title: Seq<char>)
    requires
        text::is_trimmed(class),
        text::is_trimmed(title),
    ensures
        class.len() > 0 && 0 < title.len() <= 60 ==> label_of(class, title) == class + " — "@ + title,
        class.len() == 0 && title.len() <= 60 ==> label_of(class, title) == title,
        title.len() == 0 ==> label_of(class, title) == class,
{
    text::lemma_trim_of_trimmed(class);
    text::lemma_trim_of_trimmed(title);
    assert(class.len() == 0 ==> class + title == title);
    assert(title.len() == 0 ==> class + title == class);
}

/// The windows of the known browsers are browsers', by their class in any case.
pub proof fn law_browsers_are_known_by_their_class(
    class: Seq<char>,
    title: Seq<char>,
    lead: Seq<char>,
    name: Seq<char>,
    trail: Seq<char>,
)
    requires
        name == "firefox"@ || name == "chrome"@ || name == "chromium"@ || name == "brave"@ || name
            == "edge"@ || name == "vivaldi"@ || name == "opera"@ || name == "librewolf"@ || name
            == "zen"@,
        text::lowercase(class) == lead + name + trail,
    ensures
        from_browser(class, title),
{
    let c = lead + name + trail;
    assert(c.subrange(lead.len() as int, (lead.len() + name.len()) as int) == name);
    assert(text::stands_at(c, name, lead.len() as int));
}

/// A browser's window is known by the name at the end of its title too, and no window
/// is taken for a browser's that has neither.
pub proof fn law_browsers_are_known_by_their_title(
    class: Seq<char>,
    title: Seq<char>,
    lead: Seq<char>,
    name: Seq<char>,
)
    ensures
        text::lowercase(text::trimmed(title)) == lead + name && (name == "mozilla firefox"@ || name
            == "google chrome"@ || name == "chromium"@ || name == "brave"@ || name
            == "microsoft edge"@ || name == "vivaldi"@ || name == "opera"@ || name == "librewolf"@
            || name == "zen browser"@) ==> from_browser(class, title),
        text::lowercase(class).len() == 0 && text::lowercase(text::trimmed(title)).len() == 0
            ==> !from_browser(class, title),
{
    let t = text::lowercase(text::trimmed(title));
    let ns = browser_names();
    if t == lead + name {
        assert((lead + name).subrange(lead.len() as int, (lead + name).len() as int) == name);
        assert(text::finishes_with(t, name));
        assert(ns[0] == ns[0] && ns[1] == ns[1] && ns[2] == ns[2] && ns[3] == ns[3] && ns[4]
            == ns[4] && ns[5] == ns[5] && ns[6] == ns[6] && ns[7] == ns[7] && ns[8] == ns[8]);
    }
    reveal_strlit("firefox");
    reveal_strlit("chrome");
    reveal_strlit("chromium");
    reveal_strlit("brave");
    reveal_strlit("edge");
    reveal_strlit("vivaldi");
    reveal_strlit("opera");
    reveal_strlit("librewolf");
    reveal_strlit("zen");
    reveal_strlit("mozilla firefox");
    reveal_strlit("google chrome");
    reveal_strlit("microsoft edge");
    reveal_strlit("zen browser");
    assert forall|i: int| 0 <= i < ns.len() implies (#[trigger] ns[i]).len() > 0 by {}
}

#[verifier::spinoff_prover]
proof fn lemma_no_later_dash(page: Seq<char>, sep: Seq<char>, name: Seq<char>, p: Seq<char>)
    requires
        sep.len() == 3,
        sep[1] != ' ',
        sep[2] == ' ',
        p.len() == 3,
        p[0] == ' ',
        !text::holds(seq![' '] + name, p),
    ensures
        forall|k: int| page.len() < k ==> !text::stands_at(page + sep + name, p, k),
{
    let t = page + sep + name;
    let at = page.len() as int;
    let tail = seq![' '] + name;
    assert forall|k: int| page.len() < k implies !text::stands_at(t, p, k) by {
        if text::stands_at(t, p, k) {
            let here = t.subrange(k, k + 3);
            assert(here == p);
            assert(here[0] == t[k]);
            assert(t[at + 1] == sep[1]);
            assert(k >= at + 2);
            assert(tail.subrange(k - at - 2, k - at + 1) == here);
            assert(text::stands_at(tail, p, k - at - 2));
        }
    }
}

#[verifier::spinoff_prover]
proof fn lemma_sep_is_last(page: Seq<char>, sep: Seq<char>, name: Seq<char>)
    requires
        sep.len() == 3,
        sep[0] == ' ',
        sep[1] != ' ',
        sep[2] == ' ',
        !text::holds(seq![' '] + name, sep),
    ensures
        text::last_at(page + sep + name, sep) == page.len(),
{
    let t = page + sep + name;
    let at = page.len() as int;
    lemma_no_later_dash(page, sep, name, sep);
    assert(t.subrange(at, at + 3) == sep);
    assert(text::stands_at(t, sep, at));
    text::lemma_last_at_place(t, sep, at);
}

#[verifier::spinoff_prover]
proof fn lemma_other_is_earlier(
    page: Seq<char>,
    sep: Seq<char>,
    name: Seq<char>,
    other: Seq<char>,
)
    requires
        sep.len() == 3,
        sep[1] != ' ',
        sep[2] == ' ',
        other.len() == 3,
        other[0] == ' ',
        other[1] != sep[1],
        !text::holds(seq![' '] + name, other),
    ensures
        text::last_at(page + sep + name, other) < page.len(),
{
    let t = page + sep + name;
    let at = page.len() as int;
    lemma_no_later_dash(page, sep, name, other);
    assert(!text::stands_at(t, other, at)) by {
        if text::stands_at(t, other, at) {
            assert(t.subrange(at, at + 3)[1] == other[1]);
            assert(t[at + 1] == sep[1]);
        }
    }
    text::lemma_last_at_place(t, other, at);
}

#[verifier::spinoff_prover]
proof fn lemma_dash_place(
    page: Seq<char>,
    sep: Seq<char>,
    name: Seq<char>,
    other: Seq<char>,
)
    requires
        sep.len() == 3,
        sep[0] == ' ',
        sep[1] != ' ',
        sep[2] == ' ',
        other.len() == 3,
        other[0] == ' ',
        other[1] != sep[1],
        !text::holds(seq![' '] + name, sep),
        !text::holds(seq![' '] + name, other),
    ensures
        last_split(page + sep + name, sep) == Some((page, name)),
        text::last_at(page + sep + name, sep) == page.len(),
        text::last_at(page + sep + name, other) < page.len(),
{
    lemma_sep_is_last(page, sep, name);
    lemma_other_is_earlier(page, sep, name, other);
    let t = page + sep + name;
    let at = page.len() as int;
    assert(t.take(at) == page);
    assert(t.skip(at + 3) == name);
    assert(last_split(t, sep) == Some((t.take(at), t.skip(at + 3))));
}

proof fn lemma_title_split(page: Seq<char>, dash: bool, name: Seq<char>)
    requires
        !text::holds(seq![' '] + name, " — "@),
        !text::holds(seq![' '] + name, " - "@),
    ensures
        dash ==> split_title(page + " — "@ + name) == Some((page, name)),
        !dash ==> split_title(page + " - "@ + name) == Some((page, name)),
{
    reveal_strlit(" — ");
    reveal_strlit(" - ");
    if dash {
        lemma_dash_place(page, " — "@, name, " - "@);
    } else {
        lemma_dash_place(page, " - "@, name, " — "@);
    }
}

proof fn lemma_link_title_parts(t: Seq<char>, page: Seq<char>, name: Seq<char>)
    requires
        text::trimmed(t) == t,
        text::trimmed(page) == page,
        page.len() > 0,
        text::trimmed(name) == name,
        split_title(t) == Some((page, name)),
    ensures
        browser_names().contains(text::lowercase(name)) ==> link_title(t) == text::capped(page, 80),
        !browser_names().contains(text::lowercase(name)) ==> link_title(t) == text::capped(t, 80),
{
}

/// The title of a link is the window's title without the browser's name at its end,
/// behind a dash or a hyphen; a title that ends in no browser's name is kept.
pub proof fn law_a_link_title_drops_the_browser(page: Seq<char>, dash: bool, name: Seq<char>)
    requires
        page.len() > 0,
        text::is_trimmed(page),
        name.len() > 0,
        text::is_trimmed(name),
        !text::holds(seq![' '] + name, " — "@),
        !text::holds(seq![' '] + name, " - "@),
    ensures
        ({
            let title = page + (if dash {
                " — "@
            } else {
                " - "@
            }) + name;
            let n = text::lowercase(name);
            if n == "mozilla firefox"@ || n == "google chrome"@ || n == "chromium"@ || n
                == "brave"@ || n == "microsoft edge"@ || n == "vivaldi"@ || n == "opera"@ || n
                == "librewolf"@ || n == "zen browser"@ {
                link_title(title) == text::capped(page, 80)
            } else {
                link_title(title) == text::capped(title, 80)
            }
        }),
{
    let sep = if dash {
        " — "@
    } else {
        " - "@
    };
    let t = page + sep + name;
    assert(split_title(t) == Some((page, name))) by {
        lemma_title_split(page, dash, name);
    }
    assert(text::trimmed(t) == t && text::trimmed(page) == page && text::trimmed(name) == name) by {
        assert(t[0] == page[0] && t.last() == name.last());
        text::lemma_trim_of_trimmed(t);
        text::lemma_trim_of_trimmed(page);
        text::lemma_trim_of_trimmed(name);
    }
    lemma_browser_names(text::lowercase(name));
    lemma_link_title_parts(t, page, name);
}

proof fn lemma_browser_names(n: Seq<char>)
    ensures
        browser_names().contains(n) <==> (n == "mozilla firefox"@ || n == "google chrome"@ || n
            == "chromium"@ || n == "brave"@ || n == "microsoft edge"@ || n == "vivaldi"@ || n
            == "opera"@ || n == "librewolf"@ || n == "zen browser"@),
{
    let ns = browser_names();
    assert(ns[0] == "mozilla firefox"@ && ns[1] == "google chrome"@ && ns[2] == "chromium"@ && ns[3]
        == "brave"@ && ns[4] == "microsoft edge"@ && ns[5] == "vivaldi"@ && ns[6] == "opera"@
        && ns[7] == "librewolf"@ && ns[8] == "zen browser"@);
}

/// The paths of a list are those of its URIs in their order, without the scheme and
/// with their percent codes decoded; the first path is that of the first.
pub proof fn law_paths_come_from_the_uris(list: Seq<char>, i: int)
    ensures
        paths_of(uris(list)).len() == uris(list).len(),
        0 <= i < uris(list).len() ==> paths_of(uris(list))[i] == decoded(
            text::without_prefix(uris(list)[i], "file://"@),
        ),
        uris(list).len() == 0 ==> first_path(list) is None && folder_of(list).len() == 0,
        uris(list).len() > 0 ==> first_path(list) == Some(
            decoded(text::without_prefix(uris(list)[0], "file://"@)),
        ),
{
}

/// Every text without a percent sign can be decoded, and so can a list of such URIs.
pub proof fn law_texts_without_percent_signs_decode(b: Seq<u8>, i: int)
    ensures
        (forall|k: int| 0 <= k < b.len() ==> #[trigger] b[k] != 0x25) ==> escapes_whole(b),
        0 <= i && i + 3 < b.len() && b[i] == 0x25 && 0x80 <= b[i + 3] <= 0xbf ==> !escapes_whole(b),
        (forall|k: int| 0 <= k < b.len() ==> #[trigger] b[k] < 0x80) ==> escapes_whole(b),
{
}

/// A text is on offer where one of the types is a text's.
pub proof fn law_when_a_text_is_offered(types: Seq<Seq<char>>, i: int)
    ensures
        0 <= i < types.len() && text::begins_with(types[i], "text/"@) ==> any_text(types),
        (forall|k: int|
            0 <= k < types.len() ==> !text::begins_with(#[trigger] types[k], "text/"@))
            ==> !any_text(types),
{
}

proof fn lemma_filled_front(line: Seq<char>, ls: Seq<Seq<char>>)
    ensures
        filled(seq![line] + ls) == (if text::trimmed(line).len() > 0 {
            seq![text::trimmed(line)]
        } else {
            Seq::empty()
        }) + filled(ls),
    decreases ls.len(),
{
    let all = seq![line] + ls;
    let head = if text::trimmed(line).len() > 0 {
        seq![text::trimmed(line)]
    } else {
        Seq::<Seq<char>>::empty()
    };
    if ls.len() == 0 {
        let one = seq![line];
        assert(all == one);
        assert(one.drop_last() == Seq::<Seq<char>>::empty());
        assert(one.last() == line);
        assert(filled(one.drop_last()) == Seq::<Seq<char>>::empty());
        assert(filled(ls) == Seq::<Seq<char>>::empty());
        assert(filled(one) == head);
        assert(head + filled(ls) == head);
    } else {
        let d = ls.drop_last();
        lemma_filled_front(line, d);
        assert(all.drop_last() == seq![line] + d);
        assert(all.last() == ls.last());
        let t = text::trimmed(ls.last());
        if t.len() > 0 {
            assert((head + filled(d)).push(t) == head + filled(d).push(t));
        }
    }
}

/// A file manager's clip begins with what was done, in capitals or not; behind it come
/// the URIs, trimmed and without blank lines. Without such a line all lines are the
/// URIs of a copy.
pub proof fn law_how_a_file_managers_clip_reads(verb: Seq<char>, rest: Seq<char>)
    requires
        verb.len() > 0,
        text::is_trimmed(verb),
        !verb.contains('\n'),
    ensures
        ({
            let raw = verb.push('\n') + rest;
            let us = filled(text::lines(rest));
            let v = text::ascii_lowercase(verb);
            &&& v == "copy"@ ==> gnome_parsed(raw) == (false, text::joined(us, "\n"@))
            &&& v == "cut"@ ==> gnome_parsed(raw) == (true, text::joined(us, "\n"@))
            &&& v != "copy"@ && v != "cut"@ ==> gnome_parsed(raw) == (
                false,
                text::joined(seq![verb] + us, "\n"@),
            )
        }),
{
    reveal_strlit("copy");
    reveal_strlit("cut");
    assert("copy"@.len() == 4 && "cut"@.len() == 3);
    text::lemma_lines_front(verb, rest);
    assert(!text::is_space(verb.last()));
    assert(text::is_space('\r')) by {
        text::law_what_is_blank('\r');
    }
    assert(text::without_cr(verb) == verb);
    text::lemma_trim_of_trimmed(verb);
    lemma_filled_front(verb, text::lines(rest));
    let us = filled(text::lines(rest));
    let ls = seq![verb] + us;
    assert(ls[0] == verb);
    assert(ls.drop_first() == us);
}

} // verus!
