//! Text as sequences of characters: trimming, splitting, joining and
//! comparing, each stated over `Seq<char>`.
use vstd::prelude::*;
use vstd::slice::slice_subrange;

verus! {

/// `String::push` appends one character.
pub assume_specification[ String::push ](s: &mut String, c: char)
    ensures
        final(s)@ == old(s)@.push(c),
;

/// What `str::to_lowercase` makes of a text.
pub uninterp spec fn lowercase(s: Seq<char>) -> Seq<char>;

/// `str::to_lowercase`: the Unicode lowercase of a text, which depends on the
/// text alone (no locale takes part).
#[verifier::external_body]
pub(crate) fn to_lower(s: &str) -> (r: String)
    ensures
        r@ == lowercase(s@),
{
    s.to_lowercase()
}

/// What `String::from_utf8_lossy` makes of bytes.
pub uninterp spec fn lossy(bytes: Seq<u8>) -> Seq<char>;

/// `String::from_utf8_lossy`: valid UTF-8 is decoded as it stands; of other
/// bytes only the name of the result is known here, not where the replacement
/// characters fall.
#[verifier::external_body]
pub(crate) fn decode_lossy(bytes: &[u8]) -> (r: String)
    ensures
        r@ == lossy(bytes@),
        vstd::utf8::valid_utf8(bytes@) ==> r@ == vstd::utf8::decode_utf8(bytes@),
{
    String::from_utf8_lossy(bytes).into_owned()
}

// ---------------------------------------------------------------------------
// Characters
// ---------------------------------------------------------------------------

/// The characters with the Unicode `White_Space` property.
pub open spec fn is_space(c: char) -> bool {
    ||| '\u{9}' <= c <= '\u{d}'
    ||| c == ' '
    ||| c == '\u{85}'
    ||| c == '\u{a0}'
    ||| c == '\u{1680}'
    ||| '\u{2000}' <= c <= '\u{200a}'
    ||| c == '\u{2028}'
    ||| c == '\u{2029}'
    ||| c == '\u{202f}'
    ||| c == '\u{205f}'
    ||| c == '\u{3000}'
}

/// Whether `c` is white space.
pub fn white(c: char) -> (r: bool)
    ensures
        r == is_space(c),
{
    ('\u{9}' <= c && c <= '\u{d}') || c == ' ' || c == '\u{85}' || c == '\u{a0}' || c == '\u{1680}'
        || ('\u{2000}' <= c && c <= '\u{200a}') || c == '\u{2028}' || c == '\u{2029}' || c
        == '\u{202f}' || c == '\u{205f}' || c == '\u{3000}'
}

/// An ASCII capital becomes its small letter; any other character stays.
pub open spec fn ascii_lower(c: char) -> char {
    if 'A' <= c <= 'Z' {
        ((c as u32 + 32) as u32) as char
    } else {
        c
    }
}

/// Every character of `s` through [`ascii_lower`].
pub open spec fn ascii_lowercase(s: Seq<char>) -> Seq<char> {
    s.map_values(|c: char| ascii_lower(c))
}

/// `str::to_ascii_lowercase`.
pub fn to_ascii_lower(s: &str) -> (r: String)
    ensures
        r@ == ascii_lowercase(s@),
{
    let v = chars_of(s);
    let mut r = String::new();
    for i in 0..v.len()
        invariant
            v@ == s@,
            r@ == ascii_lowercase(s@).take(i as int),
    {
        let c = v[i];
        if 'A' <= c && c <= 'Z' {
            r.push((c as u8 + 32) as char);
        } else {
            r.push(c);
        }
        assert(r@ == ascii_lowercase(s@).take(i + 1));
    }
    assert(ascii_lowercase(s@).take(s@.len() as int) == ascii_lowercase(s@));
    r
}

// ---------------------------------------------------------------------------
// Conversions and equality
// ---------------------------------------------------------------------------

/// The characters of `s`.
pub fn chars_of(s: &str) -> (v: Vec<char>)
    ensures
        v@ == s@,
{
    let mut v: Vec<char> = Vec::new();
    for c in it: s.chars()
        invariant
            it.seq() == s@,
            v@ == s@.take(it.index() as int),
    {
        v.push(c);
    }
    v
}

/// The text whose characters are `v`.
pub fn text_of(v: &[char]) -> (s: String)
    ensures
        s@ == v@,
{
    let mut s = String::new();
    for i in 0..v.len()
        invariant
            s@ == v@.take(i as int),
    {
        s.push(v[i]);
    }
    s
}

/// The text of the characters from `from` up to `to`.
pub fn slice_text(v: &[char], from: usize, to: usize) -> (s: String)
    requires
        from <= to <= v@.len(),
    ensures
        s@ == v@.subrange(from as int, to as int),
{
    text_of(slice_subrange(v, from, to))
}

/// Whether two texts hold the same characters.
pub fn same(a: &str, b: &str) -> (r: bool)
    ensures
        r == (a@ == b@),
{
    let x = chars_of(a);
    let y = chars_of(b);
    same_chars(&x, &y)
}

/// Whether two character slices are equal.
pub fn same_chars(x: &[char], y: &[char]) -> (r: bool)
    ensures
        r == (x@ == y@),
{
    if x.len() != y.len() {
        return false;
    }
    for i in 0..x.len()
        invariant
            x@.len() == y@.len(),
            x@.take(i as int) == y@.take(i as int),
    {
        if x[i] != y[i] {
            assert(x@[i as int] != y@[i as int]);
            return false;
        }
        assert(x@.take(i + 1) == x@.take(i as int).push(x@[i as int]));
        assert(y@.take(i + 1) == y@.take(i as int).push(y@[i as int]));
    }
    assert(x@ == x@.take(x@.len() as int));
    assert(y@ == y@.take(y@.len() as int));
    true
}

/// The texts of a list of strings.
pub open spec fn texts(v: Seq<String>) -> Seq<Seq<char>> {
    Seq::new(v.len(), |i: int| v[i]@)
}

/// The text in an optional string.
pub open spec fn text_in(o: Option<String>) -> Option<Seq<char>> {
    match o {
        Some(s) => Some(s@),
        None => None,
    }
}

/// A copy of `s` with the same text.
pub fn copy_text(s: &str) -> (r: String)
    ensures
        r@ == s@,
{
    s.to_owned()
}

/// A copy of an optional text.
pub fn copy_opt(o: &Option<String>) -> (r: Option<String>)
    ensures
        text_in(r) == text_in(*o),
{
    match o {
        Some(s) => Some(copy_text(s.as_str())),
        None => None,
    }
}

/// A copy of a list of texts.
pub fn copy_texts(v: &[String]) -> (r: Vec<String>)
    ensures
        texts(r@) == texts(v@),
{
    let mut r: Vec<String> = Vec::new();
    for i in 0..v.len()
        invariant
            texts(r@) == texts(v@).take(i as int),
            r@.len() == i,
    {
        r.push(copy_text(v[i].as_str()));
        assert(texts(r@) == texts(v@).take(i + 1));
    }
    assert(texts(v@).take(v@.len() as int) == texts(v@));
    r
}

/// Whether `s` is one of the texts of `v`.
pub fn any_same(v: &[String], s: &str) -> (r: bool)
    ensures
        r == texts(v@).contains(s@),
{
    for i in 0..v.len()
        invariant
            forall|j: int| 0 <= j < i ==> texts(v@)[j] != s@,
    {
        if same(v[i].as_str(), s) {
            assert(texts(v@)[i as int] == s@);
            return true;
        }
    }
    false
}

// ---------------------------------------------------------------------------
// Trimming
// ---------------------------------------------------------------------------

/// `s` without its leading white space.
pub open spec fn trim_start(s: Seq<char>) -> Seq<char>
    decreases s.len(),
{
    if s.len() > 0 && is_space(s[0]) {
        trim_start(s.drop_first())
    } else {
        s
    }
}

/// `s` without its trailing white space.
pub open spec fn trim_end(s: Seq<char>) -> Seq<char>
    decreases s.len(),
{
    if s.len() > 0 && is_space(s.last()) {
        trim_end(s.drop_last())
    } else {
        s
    }
}

/// `s` without white space at either end.
pub open spec fn trimmed(s: Seq<char>) -> Seq<char> {
    trim_end(trim_start(s))
}

/// Whether `s` neither begins nor ends with white space.
pub open spec fn is_trimmed(s: Seq<char>) -> bool {
    s.len() > 0 ==> !is_space(s[0]) && !is_space(s.last())
}

proof fn lemma_trim_start_at(s: Seq<char>, n: int)
    requires
        0 <= n <= s.len(),
        forall|i: int| 0 <= i < n ==> is_space(#[trigger] s[i]),
        n < s.len() ==> !is_space(s[n]),
    ensures
        trim_start(s) == s.skip(n),
    decreases n,
{
    if n == 0 {
        assert(s.skip(0) == s);
    } else {
        let t = s.drop_first();
        assert forall|i: int| 0 <= i < n - 1 implies is_space(#[trigger] t[i]) by {
            assert(t[i] == s[i + 1]);
        }
        lemma_trim_start_at(t, n - 1);
        assert(t.skip(n - 1) == s.skip(n));
    }
}

pub proof fn lemma_trim_end_at(s: Seq<char>, n: int)
    requires
        0 <= n <= s.len(),
        forall|i: int| n <= i < s.len() ==> is_space(#[trigger] s[i]),
        n > 0 ==> !is_space(s[n - 1]),
    ensures
        trim_end(s) == s.take(n),
    decreases s.len() - n,
{
    if n == s.len() {
        assert(s.take(n) == s);
    } else {
        let t = s.drop_last();
        lemma_trim_end_at(t, n);
        assert(t.take(n) == s.take(n));
    }
}

pub proof fn lemma_trim_start_first(s: Seq<char>)
    ensures
        trim_start(s).len() <= s.len(),
        trim_start(s).len() > 0 ==> !is_space(trim_start(s)[0]),
        trim_start(s).len() > 0 ==> trim_start(s).last() == s.last(),
        trim_start(s) == s.skip(s.len() - trim_start(s).len()),
    decreases s.len(),
{
    if s.len() > 0 && is_space(s[0]) {
        lemma_trim_start_first(s.drop_first());
        let d = s.drop_first();
        assert(d.skip(d.len() - trim_start(d).len()) == s.skip(s.len() - trim_start(s).len()));
    } else {
        assert(s.skip(0) == s);
    }
}

pub proof fn lemma_trim_end_last(s: Seq<char>)
    ensures
        trim_end(s).len() <= s.len(),
        trim_end(s).len() > 0 ==> !is_space(trim_end(s).last()),
        trim_end(s).len() > 0 ==> trim_end(s)[0] == s[0],
        trim_end(s) == s.take(trim_end(s).len() as int),
    decreases s.len(),
{
    if s.len() > 0 && is_space(s.last()) {
        lemma_trim_end_last(s.drop_last());
        let d = s.drop_last();
        assert(d.take(trim_end(d).len() as int) == s.take(trim_end(s).len() as int));
    } else {
        assert(s.take(s.len() as int) == s);
    }
}

/// Trimming leaves no white space at either end.
pub proof fn lemma_trimmed(s: Seq<char>)
    ensures
        is_trimmed(trimmed(s)),
        trimmed(s).len() <= s.len(),
{
    lemma_trim_start_first(s);
    lemma_trim_end_last(trim_start(s));
}

/// Trimming keeps a text that is already trimmed.
pub proof fn lemma_trim_of_trimmed(s: Seq<char>)
    requires
        is_trimmed(s),
    ensures
        trimmed(s) == s,
        trim_start(s) == s,
        trim_end(s) == s,
{
}

/// Cutting the blanks off the end makes nothing longer.
pub proof fn lemma_trim_end_shorter(s: Seq<char>)
    ensures
        trim_end(s).len() <= s.len(),
    decreases s.len(),
{
    if s.len() > 0 && is_space(s.last()) {
        lemma_trim_end_shorter(s.drop_last());
    }
}

/// `s` without the blanks at its end.
pub fn trim_tail(s: &str) -> (r: String)
    ensures
        r@ == trim_end(s@),
{
    let v = chars_of(s);
    let mut n: usize = v.len();
    assert(v@.take(n as int) == s@);
    while n > 0 && white(v[n - 1])
        invariant
            n <= v@.len(),
            trim_end(v@.take(n as int)) == trim_end(s@),
        decreases n,
    {
        assert(v@.take(n as int).last() == v@[n - 1]);
        assert(v@.take(n as int).drop_last() == v@.take(n - 1));
        n = n - 1;
    }
    assert(n > 0 ==> v@.take(n as int).last() == v@[n - 1]);
    assert(v@.subrange(0, n as int) == v@.take(n as int));
    slice_text(&v, 0, n)
}

/// Where the trimmed part of `v` begins and ends.
pub fn trim_span(v: &[char]) -> (r: (usize, usize))
    ensures
        r.0 <= r.1 <= v@.len(),
        v@.subrange(r.0 as int, r.1 as int) == trimmed(v@),
{
    let mut from: usize = 0;
    while from < v.len() && white(v[from])
        invariant
            from <= v@.len(),
            forall|i: int| 0 <= i < from ==> is_space(#[trigger] v@[i]),
        decreases v@.len() - from,
    {
        from = from + 1;
    }
    proof {
        lemma_trim_start_at(v@, from as int);
    }
    let ghost t = v@.skip(from as int);
    let mut to: usize = v.len();
    while to > from && white(v[to - 1])
        invariant
            from <= to <= v@.len(),
            t == v@.skip(from as int),
            forall|i: int| to - from <= i < t.len() ==> is_space(#[trigger] t[i]),
        decreases to,
    {
        assert(t[to - 1 - from] == v@[to - 1]);
        to = to - 1;
    }
    proof {
        if to > from {
            assert(t[to - 1 - from] == v@[to - 1]);
        }
        lemma_trim_end_at(t, to - from);
        assert(t.take(to - from) == v@.subrange(from as int, to as int));
    }
    (from, to)
}

/// `str::trim` on characters.
pub fn trim_chars(v: &[char]) -> (r: Vec<char>)
    ensures
        r@ == trimmed(v@),
{
    let (from, to) = trim_span(v);
    vstd::slice::slice_to_vec(slice_subrange(v, from, to))
}

/// The positions, in characters, between which the trimmed part of `s` stands.
pub fn trim_bounds(s: &str) -> (r: (usize, usize))
    ensures
        r.0 <= r.1 <= s@.len(),
        s@.subrange(r.0 as int, r.1 as int) == trimmed(s@),
{
    let v = chars_of(s);
    trim_span(&v)
}

/// `str::trim`.
pub fn trim(s: &str) -> (r: String)
    ensures
        r@ == trimmed(s@),
{
    let v = chars_of(s);
    text_of(&trim_chars(&v))
}

// ---------------------------------------------------------------------------
// Lines
// ---------------------------------------------------------------------------

/// How many characters of `s` stand before the first `c` (all of them where
/// there is none).
pub open spec fn span_to(s: Seq<char>, c: char) -> int
    decreases s.len(),
{
    if s.len() == 0 || s[0] == c {
        0
    } else {
        1 + span_to(s.drop_first(), c)
    }
}

pub proof fn lemma_span_to(s: Seq<char>, c: char)
    ensures
        0 <= span_to(s, c) <= s.len(),
        span_to(s, c) < s.len() ==> s[span_to(s, c)] == c,
        forall|i: int| 0 <= i < span_to(s, c) ==> s[i] != c,
    decreases s.len(),
{
    if !(s.len() == 0 || s[0] == c) {
        let d = s.drop_first();
        lemma_span_to(d, c);
        assert forall|i: int| 0 <= i < span_to(s, c) implies s[i] != c by {
            if i > 0 {
                assert(d[i - 1] == s[i]);
            }
        }
    }
}

pub proof fn lemma_span_to_at(s: Seq<char>, c: char, n: int)
    requires
        0 <= n <= s.len(),
        forall|i: int| 0 <= i < n ==> s[i] != c,
        n < s.len() ==> s[n] == c,
    ensures
        span_to(s, c) == n,
{
    lemma_span_to(s, c);
    let m = span_to(s, c);
    if m < n {
        assert(s[m] != c);
    } else if n < m {
        assert(s[n] != c);
    }
}

/// A line without the carriage return that may stand before its line feed.
pub open spec fn without_cr(s: Seq<char>) -> Seq<char> {
    if s.len() > 0 && s.last() == '\r' {
        s.drop_last()
    } else {
        s
    }
}

/// The lines of `s`, as `str::lines` gives them: a line ends at a line feed,
/// with or without a carriage return before it; the last one may end at the
/// end of the text.
pub open spec fn lines(s: Seq<char>) -> Seq<Seq<char>>
    decreases s.len(),
{
    if s.len() == 0 {
        Seq::empty()
    } else {
        let n = span_to(s, '\n');
        if n < 0 || n >= s.len() {
            seq![s]
        } else {
            seq![without_cr(s.take(n))] + lines(s.skip(n + 1))
        }
    }
}

/// `str::lines`.
pub fn lines_of(s: &str) -> (r: Vec<String>)
    ensures
        texts(r@) == lines(s@),
{
    let v = chars_of(s);
    let mut out: Vec<String> = Vec::new();
    let mut start: usize = 0;
    assert(v@.skip(0) == s@);
    assert(texts(out@) + lines(s@) == lines(s@));
    while start < v.len()
        invariant
            v@ == s@,
            start <= v@.len(),
            texts(out@) + lines(v@.skip(start as int)) == lines(s@),
        decreases v@.len() - start,
    {
        let ghost rest = v@.skip(start as int);
        let ghost before = out@;
        let mut end: usize = start;
        while end < v.len() && v[end] != '\n'
            invariant
                start <= end <= v@.len(),
                rest == v@.skip(start as int),
                forall|i: int| 0 <= i < end - start ==> rest[i] != '\n',
            decreases v@.len() - end,
        {
            assert(rest[end - start] == v@[end as int]);
            end = end + 1;
        }
        proof {
            if end < v@.len() {
                assert(rest[end - start] == v@[end as int]);
            }
            lemma_span_to_at(rest, '\n', end - start);
        }
        if end == v.len() {
            let line = slice_text(&v, start, end);
            assert(line@ == rest);
            out.push(line);
            assert(texts(out@) == texts(before).push(rest));
            assert(lines(rest) == seq![rest]);
            assert(v@.skip(end as int).len() == 0);
            assert(lines(v@.skip(end as int)) == Seq::<Seq<char>>::empty());
            start = end;
        } else {
            let ghost whole = rest.take(end - start);
            let stop: usize = if end > start && v[end - 1] == '\r' {
                end - 1
            } else {
                end
            };
            proof {
                if end > start {
                    assert(whole.last() == v@[end - 1]);
                }
            }
            let line = slice_text(&v, start, stop);
            assert(line@ == without_cr(whole));
            out.push(line);
            assert(texts(out@) == texts(before).push(without_cr(whole)));
            assert(rest.skip(end - start + 1) == v@.skip(end + 1));
            assert(texts(out@) + lines(v@.skip(end + 1)) == texts(before) + lines(rest));
            start = end + 1;
        }
    }
    assert(lines(v@.skip(start as int)) == Seq::<Seq<char>>::empty());
    out
}

/// A line that ends at a line feed comes first, the rest of the text after it.
pub proof fn lemma_lines_front(line: Seq<char>, rest: Seq<char>)
    requires
        !line.contains('\n'),
    ensures
        lines(line.push('\n') + rest) == seq![without_cr(line)] + lines(rest),
{
    let s = line.push('\n') + rest;
    let n = line.len() as int;
    assert forall|i: int| 0 <= i < n implies s[i] != '\n' by {
        assert(s[i] == line[i]);
        assert(line.contains(line[i]));
    }
    assert(s[n] == '\n');
    lemma_span_to_at(s, '\n', n);
    assert(s.take(n) == line);
    assert(s.skip(n + 1) == rest);
}

/// No line holds a line feed.
pub proof fn lemma_lines_hold_no_feed(s: Seq<char>)
    ensures
        forall|i: int| 0 <= i < lines(s).len() ==> !(#[trigger] lines(s)[i]).contains('\n'),
    decreases s.len(),
{
    if s.len() > 0 {
        lemma_span_to(s, '\n');
        let n = span_to(s, '\n');
        if n < s.len() {
            let rest = s.skip(n + 1);
            lemma_lines_hold_no_feed(rest);
            let head = without_cr(s.take(n));
            assert(!head.contains('\n')) by {
                if head.contains('\n') {
                    let k = choose|k: int| 0 <= k < head.len() && head[k] == '\n';
                    assert(s[k] == '\n');
                }
            }
            assert forall|i: int| 0 <= i < lines(s).len() implies !(
            #[trigger] lines(s)[i]).contains('\n') by {
                if i > 0 {
                    assert(lines(s)[i] == lines(rest)[i - 1]);
                }
            }
        } else {
            assert(!s.contains('\n')) by {
                if s.contains('\n') {
                    let k = choose|k: int| 0 <= k < s.len() && s[k] == '\n';
                }
            }
        }
    }
}

/// Trimming brings no character in.
pub proof fn lemma_trimmed_holds_no_more(s: Seq<char>, c: char)
    requires
        !s.contains(c),
    ensures
        !trimmed(s).contains(c),
{
    let a = trim_start(s);
    lemma_trim_start_first(s);
    lemma_trim_end_last(a);
    let t = trimmed(s);
    if t.contains(c) {
        let k = choose|k: int| 0 <= k < t.len() && t[k] == c;
        assert(a[k] == c);
        assert(s[s.len() - a.len() + k] == c);
    }
}

// ---------------------------------------------------------------------------
// Words
// ---------------------------------------------------------------------------

/// How many characters of `s` stand before its first white space.
pub open spec fn word_len(s: Seq<char>) -> int
    decreases s.len(),
{
    if s.len() == 0 || is_space(s[0]) {
        0
    } else {
        1 + word_len(s.drop_first())
    }
}

proof fn lemma_word_len_at(s: Seq<char>, n: int)
    requires
        0 <= n <= s.len(),
        forall|i: int| 0 <= i < n ==> !is_space(#[trigger] s[i]),
        n < s.len() ==> is_space(s[n]),
    ensures
        word_len(s) == n,
    decreases n,
{
    if n > 0 {
        let d = s.drop_first();
        assert forall|i: int| 0 <= i < n - 1 implies !is_space(#[trigger] d[i]) by {
            assert(d[i] == s[i + 1]);
        }
        lemma_word_len_at(d, n - 1);
    }
}

pub proof fn lemma_word_len(s: Seq<char>)
    ensures
        0 <= word_len(s) <= s.len(),
        forall|i: int| 0 <= i < word_len(s) ==> !is_space(#[trigger] s[i]),
        word_len(s) < s.len() ==> is_space(s[word_len(s)]),
    decreases s.len(),
{
    if !(s.len() == 0 || is_space(s[0])) {
        let d = s.drop_first();
        lemma_word_len(d);
        assert forall|i: int| 0 <= i < word_len(s) implies !is_space(#[trigger] s[i]) by {
            if i > 0 {
                assert(d[i - 1] == s[i]);
            }
        }
    }
}

/// The white-space separated words of `s`, as `str::split_whitespace` gives
/// them.
pub open spec fn words(s: Seq<char>) -> Seq<Seq<char>>
    decreases s.len(),
{
    let t = trim_start(s);
    if t.len() == 0 {
        Seq::empty()
    } else {
        proof {
            lemma_trim_start_first(s);
            lemma_word_len(t);
            assert(word_len(t) > 0);
        }
        seq![t.take(word_len(t))] + words(t.skip(word_len(t)))
    }
}

/// `str::split_whitespace`.
pub fn words_of(s: &str) -> (r: Vec<String>)
    ensures
        texts(r@) == words(s@),
{
    let v = chars_of(s);
    let mut out: Vec<String> = Vec::new();
    let mut at: usize = 0;
    assert(v@.skip(0) == s@);
    assert(texts(out@) + words(s@) == words(s@));
    loop
        invariant
            v@ == s@,
            at <= v@.len(),
            texts(out@) + words(v@.skip(at as int)) == words(s@),
        ensures
            texts(out@) == words(s@),
        decreases v@.len() - at,
    {
        let ghost rest = v@.skip(at as int);
        let ghost before = out@;
        let mut from: usize = at;
        while from < v.len() && white(v[from])
            invariant
                at <= from <= v@.len(),
                rest == v@.skip(at as int),
                forall|i: int| 0 <= i < from - at ==> is_space(#[trigger] rest[i]),
            decreases v@.len() - from,
        {
            assert(rest[from - at] == v@[from as int]);
            from = from + 1;
        }
        let ghost t = rest.skip(from - at);
        proof {
            if from < v@.len() {
                assert(rest[from - at] == v@[from as int]);
            }
            lemma_trim_start_at(rest, from - at);
            lemma_trim_start_first(rest);
            assert(t == v@.skip(from as int));
        }
        if from == v.len() {
            assert(t.len() == 0);
            assert(words(rest) == Seq::<Seq<char>>::empty());
            assert(texts(out@) + words(rest) == texts(out@));
            break;
        }
        let mut to: usize = from;
        while to < v.len() && !white(v[to])
            invariant
                from <= to <= v@.len(),
                t == v@.skip(from as int),
                forall|i: int| 0 <= i < to - from ==> !is_space(#[trigger] t[i]),
            decreases v@.len() - to,
        {
            assert(t[to - from] == v@[to as int]);
            to = to + 1;
        }
        proof {
            if to < v@.len() {
                assert(t[to - from] == v@[to as int]);
            }
            assert(t[0] == v@[from as int]);
            lemma_word_len_at(t, to - from);
        }
        let word = slice_text(&v, from, to);
        assert(word@ == t.take(to - from));
        out.push(word);
        assert(texts(out@) == texts(before).push(t.take(to - from)));
        assert(t.skip(to - from) == v@.skip(to as int));
        assert(words(rest) == seq![t.take(to - from)] + words(v@.skip(to as int)));
        assert(texts(out@) + words(v@.skip(to as int)) == texts(before) + words(rest));
        at = to;
    }
    out
}

// ---------------------------------------------------------------------------
// Joining
// ---------------------------------------------------------------------------

/// The parts with `sep` between each two.
pub open spec fn joined(parts: Seq<Seq<char>>, sep: Seq<char>) -> Seq<char>
    decreases parts.len(),
{
    if parts.len() == 0 {
        Seq::empty()
    } else if parts.len() == 1 {
        parts[0]
    } else {
        joined(parts.drop_last(), sep) + sep + parts.last()
    }
}

/// `join` on a slice of strings.
pub fn join(parts: &[String], sep: &str) -> (r: String)
    ensures
        r@ == joined(texts(parts@), sep@),
{
    let mut out = String::new();
    for i in 0..parts.len()
        invariant
            out@ == joined(texts(parts@).take(i as int), sep@),
    {
        let ghost before = texts(parts@).take(i as int);
        let ghost now = texts(parts@).take(i + 1);
        assert(now.drop_last() == before);
        assert(now.last() == parts@[i as int]@);
        if i > 0 {
            out.append(sep);
        }
        out.append(parts[i].as_str());
        assert(out@ == joined(now, sep@));
    }
    assert(texts(parts@).take(parts@.len() as int) == texts(parts@));
    out
}

/// `head` followed by `joined(tail)`, separated: joining read from the front.
pub proof fn lemma_joined_front(parts: Seq<Seq<char>>, sep: Seq<char>)
    requires
        parts.len() >= 2,
    ensures
        joined(parts, sep) == parts[0] + sep + joined(parts.drop_first(), sep),
    decreases parts.len(),
{
    let rest = parts.drop_first();
    if parts.len() == 2 {
        assert(parts.drop_last() == seq![parts[0]]);
        assert(joined(parts.drop_last(), sep) == parts[0]);
        assert(joined(rest, sep) == parts[1]);
    } else {
        lemma_joined_front(parts.drop_last(), sep);
        assert(parts.drop_last().drop_first() == rest.drop_last());
        assert(rest.last() == parts.last());
        assert(joined(rest, sep) == joined(rest.drop_last(), sep) + sep + rest.last());
        assert(joined(parts, sep) == parts[0] + sep + joined(rest, sep));
    }
}

/// Two texts one after the other.
pub fn concat(a: &str, b: &str) -> (r: String)
    ensures
        r@ == a@ + b@,
{
    let mut r = copy_text(a);
    r.append(b);
    r
}

// ---------------------------------------------------------------------------
// Searching
// ---------------------------------------------------------------------------

/// Whether `p` stands in `s` from position `at` on.
pub open spec fn stands_at(s: Seq<char>, p: Seq<char>, at: int) -> bool {
    0 <= at && at + p.len() <= s.len() && s.subrange(at, at + p.len()) == p
}

/// Whether `s` begins with `p`.
pub open spec fn begins_with(s: Seq<char>, p: Seq<char>) -> bool {
    stands_at(s, p, 0)
}

/// Whether `s` ends with `p`.
pub open spec fn finishes_with(s: Seq<char>, p: Seq<char>) -> bool {
    stands_at(s, p, s.len() - p.len())
}

/// Whether `p` stands anywhere in `s`.
pub open spec fn holds(s: Seq<char>, p: Seq<char>) -> bool {
    exists|at: int| stands_at(s, p, at)
}

/// Whether `p` stands in `s` from `at` on.
pub fn stands(s: &[char], p: &[char], at: usize) -> (r: bool)
    requires
        at <= s@.len(),
    ensures
        r == stands_at(s@, p@, at as int),
{
    if p.len() > s.len() - at {
        return false;
    }
    same_chars(slice_subrange(s, at, at + p.len()), p)
}

/// `str::starts_with` a text.
pub fn starts_with(s: &str, p: &str) -> (r: bool)
    ensures
        r == begins_with(s@, p@),
{
    let v = chars_of(s);
    let w = chars_of(p);
    stands(&v, &w, 0)
}

/// `str::ends_with` a text.
pub fn ends_with(s: &str, p: &str) -> (r: bool)
    ensures
        r == finishes_with(s@, p@),
{
    let v = chars_of(s);
    let w = chars_of(p);
    if w.len() > v.len() {
        return false;
    }
    stands(&v, &w, v.len() - w.len())
}

/// `str::contains` a text.
pub fn contains(s: &str, p: &str) -> (r: bool)
    ensures
        r == holds(s@, p@),
{
    let v = chars_of(s);
    let w = chars_of(p);
    for at in 0..v.len()
        invariant
            v@ == s@,
            w@ == p@,
            forall|k: int| 0 <= k < at ==> !stands_at(s@, p@, k),
    {
        if stands(&v, &w, at) {
            return true;
        }
    }
    stands(&v, &w, v.len())
}

/// Whether the character `c` stands in `s`.
pub fn contains_char(s: &str, c: char) -> (r: bool)
    ensures
        r == s@.contains(c),
{
    let v = chars_of(s);
    for i in 0..v.len()
        invariant
            v@ == s@,
            forall|k: int| 0 <= k < i ==> s@[k] != c,
    {
        if v[i] == c {
            assert(s@[i as int] == c);
            return true;
        }
    }
    false
}

/// The last position at which `p` stands in `s`, or -1.
pub open spec fn last_at(s: Seq<char>, p: Seq<char>) -> int {
    if holds(s, p) {
        choose|at: int|
            stands_at(s, p, at) && forall|k: int| at < k ==> !stands_at(s, p, k)
    } else {
        -1
    }
}

/// The last place of `p` in `s`.
pub fn last_place(s: &[char], p: &[char]) -> (r: Option<usize>)
    ensures
        match r {
            Some(at) => last_at(s@, p@) == at && stands_at(s@, p@, at as int),
            None => last_at(s@, p@) == -1 && !holds(s@, p@),
        },
{
    let mut left: usize = s.len();
    loop
        invariant
            left <= s@.len(),
            forall|k: int| left < k ==> !stands_at(s@, p@, k),
        decreases left,
    {
        if stands(s, p, left) {
            let ghost at = choose|at: int|
                stands_at(s@, p@, at) && forall|k: int| at < k ==> !stands_at(s@, p@, k);
            assert(stands_at(s@, p@, left as int));
            assert(at == left) by {
                if at < left {
                    assert(!stands_at(s@, p@, left as int));
                }
            }
            return Some(left);
        }
        if left == 0 {
            return None;
        }
        left = left - 1;
    }
}

// ---------------------------------------------------------------------------
// Shortening
// ---------------------------------------------------------------------------

/// `s` where it has at most `n` characters; otherwise its first `n - 1` (none
/// for `n` 0) and an ellipsis.
pub open spec fn capped(s: Seq<char>, n: int) -> Seq<char> {
    if s.len() <= n {
        s
    } else {
        s.take(if n > 0 {
            n - 1
        } else {
            0
        }).push('…')
    }
}

/// Shorten `s` to `n` characters, the last one an ellipsis where any was cut.
pub fn cap(s: &str, n: usize) -> (r: String)
    ensures
        r@ == capped(s@, n as int),
{
    let v = chars_of(s);
    if v.len() <= n {
        return copy_text(s);
    }
    let keep: usize = n.saturating_sub(1);
    let mut out = slice_text(&v, 0, keep);
    out.push('…');
    out
}

/// The first `n` characters of `s`, or all of them.
pub open spec fn first_chars(s: Seq<char>, n: int) -> Seq<char> {
    if s.len() <= n {
        s
    } else {
        s.take(n)
    }
}

/// The first `n` characters.
pub fn take_chars(s: &str, n: usize) -> (r: String)
    ensures
        r@ == first_chars(s@, n as int),
{
    let v = chars_of(s);
    if v.len() <= n {
        return copy_text(s);
    }
    slice_text(&v, 0, n)
}

/// The parts of a text between the places of a character.
pub open spec fn parts(s: Seq<char>, c: char) -> Seq<Seq<char>>
    decreases s.len(),
{
    if s.len() == 0 {
        seq![Seq::<char>::empty()]
    } else {
        let before = parts(s.drop_last(), c);
        if s.last() == c {
            before.push(Seq::empty())
        } else {
            before.drop_last().push(before.last().push(s.last()))
        }
    }
}

/// The parts of a text between the places of a character.
pub fn split_on(s: &str, c: char) -> (r: Vec<String>)
    ensures
        texts(r@) == parts(s@, c),
{
    let v = chars_of(s);
    let mut out: Vec<String> = Vec::new();
    let mut part = String::new();
    assert(v@.take(0) == Seq::<char>::empty());
    assert(texts(out@).push(part@) == parts(v@.take(0), c));
    for i in 0..v.len()
        invariant
            texts(out@).push(part@) == parts(v@.take(i as int), c),
    {
        assert(v@.take(i + 1).drop_last() == v@.take(i as int));
        assert(v@.take(i + 1).last() == v@[i as int]);
        let ghost had = parts(v@.take(i as int), c);
        assert(had.last() == part@);
        assert(had.drop_last() == texts(out@));
        if v[i] == c {
            let ghost before = out@;
            out.push(part);
            assert(texts(out@) == texts(before).push(part@));
            part = String::new();
        } else {
            part.push(v[i]);
        }
    }
    assert(v@.take(v@.len() as int) == v@);
    let ghost before = out@;
    out.push(part);
    assert(texts(out@) == texts(before).push(part@));
    out
}

/// The first place of a text in a list.
pub open spec fn first_text(v: Seq<Seq<char>>, s: Seq<char>) -> Option<usize>
    decreases v.len(),
{
    if v.len() == 0 {
        None
    } else {
        match first_text(v.drop_last(), s) {
            Some(i) => Some(i),
            None => if v.last() == s {
                Some((v.len() - 1) as usize)
            } else {
                None
            },
        }
    }
}

/// The first place of a text is one, no place before it is, and there is one
/// wherever the list holds the text.
pub proof fn lemma_first_text(v: Seq<Seq<char>>, s: Seq<char>)
    requires
        v.len() <= usize::MAX,
    ensures
        first_text(v, s) is Some == v.contains(s),
        first_text(v, s) matches Some(i) ==> i < v.len() && v[i as int] == s && forall|k: int|
            0 <= k < i ==> #[trigger] v[k] != s,
    decreases v.len(),
{
    if v.len() > 0 {
        let rest = v.drop_last();
        lemma_first_text(rest, s);
        assert forall|k: int| 0 <= k < rest.len() implies #[trigger] v[k] == rest[k] by {}
        assert(v.contains(s) == (rest.contains(s) || v.last() == s)) by {
            if v.contains(s) {
                let i = choose|i: int| 0 <= i < v.len() && v[i] == s;
                if i < rest.len() {
                    assert(rest[i] == s);
                }
            }
            if rest.contains(s) {
                let i = choose|i: int| 0 <= i < rest.len() && rest[i] == s;
                assert(v[i] == s);
            }
            if v.last() == s {
                assert(v[v.len() - 1] == s);
            }
        }
    }
}

/// The first place of a text in a list.
pub fn place_of_text(v: &[String], s: &str) -> (r: Option<usize>)
    ensures
        r == first_text(texts(v@), s@),
{
    let mut r: Option<usize> = None;
    let ghost t = texts(v@);
    assert(t.take(0) == Seq::<Seq<char>>::empty());
    for i in 0..v.len()
        invariant
            t == texts(v@),
            r == first_text(t.take(i as int), s@),
    {
        assert(t.take(i + 1).drop_last() == t.take(i as int));
        assert(t.take(i + 1).last() == v@[i as int]@);
        if r.is_none() && same(&v[i], s) {
            r = Some(i);
        }
    }
    assert(t.take(t.len() as int) == t);
    r
}

// ---------------------------------------------------------------------------
// Order
// ---------------------------------------------------------------------------

/// Whether `a` comes before `b` character by character, by code point: the
/// order of `str`.
pub open spec fn text_lt(a: Seq<char>, b: Seq<char>) -> bool
    decreases a.len(),
{
    if b.len() == 0 {
        false
    } else if a.len() == 0 {
        true
    } else if a[0] != b[0] {
        a[0] < b[0]
    } else {
        text_lt(a.drop_first(), b.drop_first())
    }
}

/// The order of texts is total.
pub proof fn lemma_text_lt_total(a: Seq<char>, b: Seq<char>)
    ensures
        text_lt(a, b) || text_lt(b, a) || a == b,
        !(text_lt(a, b) && text_lt(b, a)),
        !text_lt(a, a),
    decreases a.len(),
{
    if a.len() > 0 {
        if b.len() > 0 {
            lemma_text_lt_total(a.drop_first(), b.drop_first());
            if a[0] == b[0] && a.drop_first() == b.drop_first() {
                assert(a == seq![a[0]] + a.drop_first());
                assert(b == seq![b[0]] + b.drop_first());
            }
        }
        lemma_text_lt_total(a.drop_first(), a.drop_first());
    } else if b.len() == 0 {
        assert(a == b);
    }
}

/// The order of texts is transitive.
pub proof fn lemma_text_lt_trans(a: Seq<char>, b: Seq<char>, c: Seq<char>)
    requires
        text_lt(a, b),
        text_lt(b, c),
    ensures
        text_lt(a, c),
    decreases a.len(),
{
    if a.len() > 0 && a[0] == b[0] && b[0] == c[0] {
        lemma_text_lt_trans(a.drop_first(), b.drop_first(), c.drop_first());
    }
}

/// Not coming before is transitive too.
pub proof fn lemma_not_text_lt_trans(a: Seq<char>, b: Seq<char>, c: Seq<char>)
    requires
        !text_lt(a, b),
        !text_lt(b, c),
    ensures
        !text_lt(a, c),
{
    if text_lt(a, c) {
        lemma_text_lt_total(a, b);
        lemma_text_lt_total(b, c);
        if a != b {
            lemma_text_lt_trans(b, a, c);
        }
    }
}

/// Whether `a` comes before `b`.
pub fn before(a: &str, b: &str) -> (r: bool)
    ensures
        r == text_lt(a@, b@),
{
    let x = chars_of(a);
    let y = chars_of(b);
    let mut i: usize = 0;
    assert(x@.skip(0) == a@);
    assert(y@.skip(0) == b@);
    while i < x.len() && i < y.len()
        invariant
            i <= x@.len(),
            i <= y@.len(),
            text_lt(a@, b@) == text_lt(x@.skip(i as int), y@.skip(i as int)),
        decreases x@.len() - i,
    {
        assert(x@.skip(i as int)[0] == x@[i as int]);
        assert(y@.skip(i as int)[0] == y@[i as int]);
        if x[i] != y[i] {
            return x[i] < y[i];
        }
        assert(x@.skip(i as int).drop_first() == x@.skip(i + 1));
        assert(y@.skip(i as int).drop_first() == y@.skip(i + 1));
        i = i + 1;
    }
    i < y.len()
}

/// Whether the texts stand in strictly ascending order (so that none occurs
/// twice).
pub open spec fn ascending(s: Seq<Seq<char>>) -> bool {
    forall|i: int, j: int| 0 <= i < j < s.len() ==> text_lt(#[trigger] s[i], #[trigger] s[j])
}

/// Two ascending lists with the same members are the same list.
pub proof fn lemma_ascending_unique(a: Seq<Seq<char>>, b: Seq<Seq<char>>)
    requires
        ascending(a),
        ascending(b),
        forall|x: Seq<char>| a.contains(x) <==> b.contains(x),
    ensures
        a == b,
    decreases a.len(),
{
    if a.len() == 0 {
        if b.len() > 0 {
            assert(b.contains(b[0]));
            assert(a.contains(b[0]));
        }
        assert(a == b);
    } else {
        assert(a.contains(a[0]));
        assert(b.contains(a[0]));
        let i = choose|i: int| 0 <= i < b.len() && b[i] == a[0];
        assert(b.contains(b[0]));
        assert(a.contains(b[0]));
        let j = choose|j: int| 0 <= j < a.len() && a[j] == b[0];
        assert(a[0] == b[0]) by {
            if i > 0 && j > 0 {
                assert(text_lt(b[0], b[i]));
                assert(text_lt(a[0], a[j]));
                lemma_text_lt_total(a[0], b[0]);
            }
        }
        let a1 = a.drop_first();
        let b1 = b.drop_first();
        assert forall|x: Seq<char>| a1.contains(x) <==> b1.contains(x) by {
            if a1.contains(x) {
                let k = choose|k: int| 0 <= k < a1.len() && a1[k] == x;
                assert(a[k + 1] == x);
                assert(text_lt(a[0], a[k + 1]));
                lemma_text_lt_total(a[0], x);
                assert(b.contains(x));
                let m = choose|m: int| 0 <= m < b.len() && b[m] == x;
                assert(b1[m - 1] == x);
            }
            if b1.contains(x) {
                let k = choose|k: int| 0 <= k < b1.len() && b1[k] == x;
                assert(b[k + 1] == x);
                assert(text_lt(b[0], b[k + 1]));
                lemma_text_lt_total(b[0], x);
                assert(a.contains(x));
                let m = choose|m: int| 0 <= m < a.len() && a[m] == x;
                assert(a1[m - 1] == x);
            }
        }
        lemma_ascending_unique(a1, b1);
        assert(a == seq![a[0]] + a1);
        assert(b == seq![b[0]] + b1);
    }
}

/// An ascending list with one more member can always be had.
pub proof fn lemma_insert_ascending(l: Seq<Seq<char>>, s: Seq<char>) -> (r: Seq<Seq<char>>)
    requires
        ascending(l),
    ensures
        ascending(r),
        forall|x: Seq<char>| #[trigger] r.contains(x) <==> l.contains(x) || x == s,
    decreases l.len(),
{
    if l.contains(s) {
        l
    } else if l.len() == 0 || text_lt(l.last(), s) {
        let r = l.push(s);
        assert forall|i: int, j: int| 0 <= i < j < r.len() implies text_lt(
            #[trigger] r[i],
            #[trigger] r[j],
        ) by {
            if j == l.len() && i < l.len() - 1 {
                assert(text_lt(l[i], l.last()));
                lemma_text_lt_trans(l[i], l.last(), s);
            }
        }
        assert forall|x: Seq<char>| #[trigger] r.contains(x) <==> l.contains(x) || x == s by {
            if l.contains(x) {
                let k = choose|k: int| 0 <= k < l.len() && l[k] == x;
                assert(r[k] == x);
            }
            assert(r[l.len() as int] == s);
        }
        r
    } else {
        let d = l.drop_last();
        let last = l.last();
        assert(!d.contains(s)) by {
            if d.contains(s) {
                let k = choose|k: int| 0 <= k < d.len() && d[k] == s;
                assert(l[k] == s);
            }
        }
        let m = lemma_insert_ascending(d, s);
        lemma_text_lt_total(last, s);
        assert(l[l.len() - 1] == last);
        let r = m.push(last);
        assert forall|i: int, j: int| 0 <= i < j < r.len() implies text_lt(
            #[trigger] r[i],
            #[trigger] r[j],
        ) by {
            if j == m.len() {
                assert(m.contains(m[i]));
                if m[i] != s {
                    let k = choose|k: int| 0 <= k < d.len() && d[k] == m[i];
                    assert(text_lt(l[k], l[l.len() - 1]));
                }
            }
        }
        assert forall|x: Seq<char>| #[trigger] r.contains(x) <==> l.contains(x) || x == s by {
            assert(m.contains(x) <==> d.contains(x) || x == s);
            if m.contains(x) {
                let k = choose|k: int| 0 <= k < m.len() && m[k] == x;
                assert(r[k] == x);
            }
            if d.contains(x) {
                let k = choose|k: int| 0 <= k < d.len() && d[k] == x;
                assert(l[k] == x);
            }
            if l.contains(x) && x != last {
                let k = choose|k: int| 0 <= k < l.len() && l[k] == x;
                assert(d[k] == x);
            }
            assert(r[m.len() as int] == last);
            if r.contains(x) && x != last {
                let k = choose|k: int| 0 <= k < r.len() && r[k] == x;
                assert(m[k] == x);
            }
        }
        r
    }
}

/// Put `s` into an ascending list at its place, unless it is in it.
pub fn insert_sorted(v: &mut Vec<String>, s: String)
    requires
        ascending(texts(old(v)@)),
    ensures
        ascending(texts(final(v)@)),
        forall|x: Seq<char>|
            #![auto]
            texts(final(v)@).contains(x) <==> texts(old(v)@).contains(x) || x == s@,
{
    let mut at: usize = 0;
    while at < v.len() && before(v[at].as_str(), s.as_str())
        invariant
            at <= v@.len(),
            v@ == old(v)@,
            forall|i: int| 0 <= i < at ==> text_lt(#[trigger] texts(v@)[i], s@),
        decreases v@.len() - at,
    {
        assert(texts(v@)[at as int] == v@[at as int]@);
        at = at + 1;
    }
    let ghost t = texts(v@);
    if at < v.len() && same(v[at].as_str(), s.as_str()) {
        assert(t[at as int] == s@);
        return;
    }
    v.insert(at, s);
    let ghost u = texts(v@);
    assert(u == t.insert(at as int, s@));
    proof {
        if at < t.len() {
            lemma_text_lt_total(t[at as int], s@);
        }
        assert forall|i: int, j: int| 0 <= i < j < u.len() implies text_lt(
            #[trigger] u[i],
            #[trigger] u[j],
        ) by {
            if i == at {
                if j - 1 > at {
                    lemma_text_lt_trans(s@, t[at as int], t[j - 1]);
                }
            } else if j == at {
                assert(text_lt(t[i], s@));
            } else if i < at && j > at {
                assert(text_lt(t[i], t[j - 1]));
            } else if i > at {
                assert(text_lt(t[i - 1], t[j - 1]));
            } else {
                assert(text_lt(t[i], t[j]));
            }
        }
        assert forall|x: Seq<char>| #![auto] u.contains(x) <==> t.contains(x) || x == s@ by {
            if t.contains(x) {
                let k = choose|k: int| 0 <= k < t.len() && t[k] == x;
                if k < at {
                    assert(u[k] == x);
                } else {
                    assert(u[k + 1] == x);
                }
            }
            if x == s@ {
                assert(u[at as int] == x);
            }
            if u.contains(x) {
                let k = choose|k: int| 0 <= k < u.len() && u[k] == x;
                if k < at {
                    assert(t[k] == x);
                } else if k > at {
                    assert(t[k - 1] == x);
                }
            }
        }
    }
}

/// The texts of `v`, sorted and each once.
pub fn sorted_set(v: &[String]) -> (r: Vec<String>)
    ensures
        ascending(texts(r@)),
        forall|x: Seq<char>| texts(r@).contains(x) <==> texts(v@).contains(x),
{
    let mut r: Vec<String> = Vec::new();
    assert(texts(v@).take(0) == Seq::<Seq<char>>::empty());
    assert(texts(r@) == Seq::<Seq<char>>::empty());
    for i in 0..v.len()
        invariant
            ascending(texts(r@)),
            forall|x: Seq<char>|
                texts(r@).contains(x) <==> texts(v@).take(i as int).contains(x),
    {
        let ghost was = texts(r@);
        let ghost done = texts(v@).take(i as int);
        insert_sorted(&mut r, copy_text(v[i].as_str()));
        proof {
            let now = texts(v@).take(i + 1);
            assert(now == done.push(v@[i as int]@));
            assert forall|x: Seq<char>| texts(r@).contains(x) <==> now.contains(x) by {
                if now.contains(x) && x != v@[i as int]@ {
                    let k = choose|k: int| 0 <= k < now.len() && now[k] == x;
                    assert(done[k] == x);
                }
                if done.contains(x) {
                    let k = choose|k: int| 0 <= k < done.len() && done[k] == x;
                    assert(now[k] == x);
                }
                assert(now[i as int] == v@[i as int]@);
                assert(texts(r@).contains(x) <==> was.contains(x) || x == v@[i as int]@);
            }
        }
    }
    assert(texts(v@).take(v@.len() as int) == texts(v@));
    r
}

// ---------------------------------------------------------------------------
// Pieces
// ---------------------------------------------------------------------------

/// `base` with `name` one level below it, as `PathBuf::join` puts a relative
/// name: a separator stands between them unless `base` is empty or ends in one.
pub open spec fn below(base: Seq<char>, name: Seq<char>) -> Seq<char> {
    if base.len() == 0 || base.last() == '/' {
        base + name
    } else {
        base.push('/') + name
    }
}

/// A relative `name` below `base`.
pub fn join_path(base: &str, name: &str) -> (r: String)
    ensures
        r@ == below(base@, name@),
{
    let v = chars_of(base);
    let mut r = copy_text(base);
    if v.len() > 0 && v[v.len() - 1] != '/' {
        r.push('/');
    }
    r.append(name);
    r
}

/// What stands behind the last `c` of `s`; all of `s` where there is none.
pub open spec fn tail_after(s: Seq<char>, c: char) -> Seq<char>
    decreases s.len(),
{
    if s.len() == 0 || s.last() == c {
        Seq::empty()
    } else {
        tail_after(s.drop_last(), c).push(s.last())
    }
}

/// The characters behind the last `c`.
pub fn tail_of(v: &[char], c: char) -> (r: String)
    ensures
        r@ == tail_after(v@, c),
{
    let mut from: usize = v.len();
    while from > 0 && v[from - 1] != c
        invariant
            from <= v@.len(),
            forall|i: int| from <= i < v@.len() ==> v@[i] != c,
        decreases from,
    {
        from = from - 1;
    }
    proof {
        lemma_tail_after(v@, c, from as int);
    }
    slice_text(v, from, v.len())
}

proof fn lemma_tail_after(s: Seq<char>, c: char, from: int)
    requires
        0 <= from <= s.len(),
        forall|i: int| from <= i < s.len() ==> s[i] != c,
        from > 0 ==> s[from - 1] == c,
    ensures
        tail_after(s, c) == s.subrange(from, s.len() as int),
    decreases s.len(),
{
    if from < s.len() {
        let d = s.drop_last();
        lemma_tail_after(d, c, from);
        assert(d.subrange(from, d.len() as int).push(s.last()) == s.subrange(
            from,
            s.len() as int,
        ));
    } else {
        assert(s.subrange(from, s.len() as int) == Seq::<char>::empty());
    }
}

/// `s` without the `c` at its end.
pub open spec fn without_trailing(s: Seq<char>, c: char) -> Seq<char>
    decreases s.len(),
{
    if s.len() > 0 && s.last() == c {
        without_trailing(s.drop_last(), c)
    } else {
        s
    }
}

/// The last part of a path that is not empty; the path itself where every part
/// is.
pub open spec fn base_name(s: Seq<char>) -> Seq<char> {
    let t = without_trailing(s, '/');
    if t.len() == 0 {
        s
    } else {
        tail_after(t, '/')
    }
}

proof fn lemma_without_trailing(s: Seq<char>, c: char, to: int)
    requires
        0 <= to <= s.len(),
        forall|i: int| to <= i < s.len() ==> s[i] == c,
        to > 0 ==> s[to - 1] != c,
    ensures
        without_trailing(s, c) == s.take(to),
    decreases s.len(),
{
    if to < s.len() {
        lemma_without_trailing(s.drop_last(), c, to);
        assert(s.drop_last().take(to) == s.take(to));
    } else {
        assert(s.take(to) == s);
    }
}

/// The base name of a path.
pub fn base_of(s: &str) -> (r: String)
    ensures
        r@ == base_name(s@),
{
    let v = chars_of(s);
    let mut to: usize = v.len();
    while to > 0 && v[to - 1] == '/'
        invariant
            to <= v@.len(),
            forall|i: int| to <= i < v@.len() ==> v@[i] == '/',
        decreases to,
    {
        to = to - 1;
    }
    proof {
        lemma_without_trailing(v@, '/', to as int);
    }
    if to == 0 {
        return copy_text(s);
    }
    assert(v@.take(to as int) == v@.subrange(0, to as int));
    tail_of(slice_subrange(&v, 0, to), '/')
}

/// `s` behind the prefix `p`, or `s` where it does not begin with it.
pub open spec fn without_prefix(s: Seq<char>, p: Seq<char>) -> Seq<char> {
    if begins_with(s, p) {
        s.skip(p.len() as int)
    } else {
        s
    }
}

/// `str::strip_prefix`, or the text itself.
pub fn drop_prefix(s: &str, p: &str) -> (r: String)
    ensures
        r@ == without_prefix(s@, p@),
{
    let v = chars_of(s);
    let w = chars_of(p);
    if stands(&v, &w, 0) {
        assert(v@.skip(w@.len() as int) == v@.subrange(w@.len() as int, v@.len() as int));
        return slice_text(&v, w.len(), v.len());
    }
    copy_text(s)
}

// ---------------------------------------------------------------------------
// Numbers
// ---------------------------------------------------------------------------

/// The character of a hexadecimal digit.
pub open spec fn digit(n: int) -> char {
    if n < 10 {
        (('0' as u32 + n) as u32) as char
    } else {
        (('a' as u32 + n - 10) as u32) as char
    }
}

fn digit_char(n: u8) -> (c: char)
    requires
        n < 16,
    ensures
        c == digit(n as int),
{
    if n < 10 {
        (0x30 + n) as char
    } else {
        (0x61 + (n - 10)) as char
    }
}

/// The value of a decimal digit.
pub open spec fn digit_value(c: char) -> Option<int> {
    if '0' <= c <= '9' {
        Some(c as int - '0' as int)
    } else {
        None
    }
}

/// The number that decimal digits stand for; `None` where one of them is no
/// digit.
pub open spec fn digits_value(s: Seq<char>) -> Option<int>
    decreases s.len(),
{
    if s.len() == 0 {
        Some(0)
    } else {
        match (digits_value(s.drop_last()), digit_value(s.last())) {
            (Some(n), Some(d)) => Some(10 * n + d),
            _ => None,
        }
    }
}

/// The integer that a text stands for: a sign or none, then one digit or more,
/// within the range of `i64`.
pub open spec fn integer(s: Seq<char>) -> Option<i64> {
    let signed = s.len() > 0 && (s[0] == '+' || s[0] == '-');
    let digits = if signed {
        s.skip(1)
    } else {
        s
    };
    if digits.len() == 0 {
        None
    } else {
        match digits_value(digits) {
            Some(n) => {
                let v = if signed && s[0] == '-' {
                    -n
                } else {
                    n
                };
                if i64::MIN <= v <= i64::MAX {
                    Some(v as i64)
                } else {
                    None
                }
            },
            None => None,
        }
    }
}

proof fn lemma_digits_grow(s: Seq<char>, n: int)
    requires
        0 <= n <= s.len(),
    ensures
        digits_value(s) is Some ==> digits_value(s.take(n)) is Some && 0 <= digits_value(
            s.take(n),
        )->Some_0 <= digits_value(s)->Some_0,
    decreases s.len(),
{
    if n < s.len() {
        lemma_digits_grow(s.drop_last(), n);
        assert(s.drop_last().take(n) == s.take(n));
    } else {
        assert(s.take(n) == s);
        if s.len() > 0 {
            lemma_digits_grow(s.drop_last(), s.len() - 1);
            assert(s.drop_last().take(s.len() - 1) == s.drop_last());
        }
    }
}

/// The integer that a text stands for.
pub fn parse_integer(s: &str) -> (r: Option<i64>)
    ensures
        r == integer(s@),
{
    let v = chars_of(s);
    let n: usize = v.len();
    let signed: bool = n > 0 && (v[0] == '+' || v[0] == '-');
    let negative: bool = n > 0 && v[0] == '-';
    let from: usize = if signed {
        1
    } else {
        0
    };
    let ghost digits = v@.skip(from as int);
    assert(from == 0 ==> digits == v@);
    if n == from {
        return None;
    }
    let mut total: u128 = 0;
    let mut i: usize = from;
    assert(digits.take(0) == Seq::<char>::empty());
    while i < n
        invariant
            from <= i <= n,
            n == v@.len(),
            n > from,
            v@ == s@,
            signed == (s@.len() > 0 && (s@[0] == '+' || s@[0] == '-')),
            negative == (s@.len() > 0 && s@[0] == '-'),
            from == (if signed { 1int } else { 0 }),
            digits == v@.skip(from as int),
            from == 0 ==> digits == v@,
            digits_value(digits.take(i - from)) == Some(total as int),
            total <= 0x8000_0000_0000_0000,
        decreases n - i,
    {
        let c: char = v[i];
        proof {
            assert(digits.take(i - from + 1).drop_last() == digits.take(i - from));
            assert(digits.take(i - from + 1).last() == c);
            lemma_digits_grow(digits, i - from + 1);
        }
        if c < '0' || c > '9' {
            return None;
        }
        let d: u128 = (c as u32 - 48) as u128;
        total = total * 10 + d;
        if total > 0x8000_0000_0000_0000 {
            return None;
        }
        i = i + 1;
    }
    assert(digits.take(n - from) == digits);
    if negative {
        if total == 0x8000_0000_0000_0000 {
            return Some(i64::MIN);
        }
        Some(-(total as i64))
    } else if total >= 0x8000_0000_0000_0000 {
        None
    } else {
        Some(total as i64)
    }
}

/// The decimal digits of `n`.
pub open spec fn decimal(n: nat) -> Seq<char>
    decreases n,
{
    if n < 10 {
        seq![digit(n as int)]
    } else {
        decimal(n / 10).push(digit((n % 10) as int))
    }
}

/// `n` in decimal digits.
pub fn number(n: u64) -> (r: String)
    ensures
        r@ == decimal(n as nat),
    decreases n,
{
    let mut s = if n < 10 {
        String::new()
    } else {
        number(n / 10)
    };
    s.push(digit_char((n % 10) as u8));
    s
}

/// The last `width` hexadecimal digits of `n`.
pub open spec fn hex_digits(n: nat, width: nat) -> Seq<char>
    decreases width,
{
    if width == 0 {
        Seq::empty()
    } else {
        hex_digits(n / 16, (width - 1) as nat).push(digit((n % 16) as int))
    }
}

fn hex_fixed(n: u64, width: u8) -> (r: String)
    ensures
        r@ == hex_digits(n as nat, width as nat),
    decreases width,
{
    if width == 0 {
        return String::new();
    }
    let mut s = hex_fixed(n / 16, width - 1);
    s.push(digit_char((n % 16) as u8));
    s
}

/// `n` as sixteen small hexadecimal digits.
pub fn hex16(n: u64) -> (r: String)
    ensures
        r@ == hex_digits(n as nat, 16),
{
    hex_fixed(n, 16)
}

// ---------------------------------------------------------------------------
// What holds of texts
// ---------------------------------------------------------------------------

/// The blank, the tab, the line feed and the carriage return are white space, and
/// no character that prints in ASCII is.
pub proof fn law_what_is_blank(c: char)
    ensures
        c == ' ' || c == '\t' || c == '\n' || c == '\r' || c == '\u{a0}' || c == '\u{3000}'
            ==> is_space(c),
        '!' <= c <= '~' ==> !is_space(c),
{
}

/// Trimming takes the blanks around a text, and nothing else.
pub proof fn law_trimming_takes_the_blanks_around(
    lead: Seq<char>,
    body: Seq<char>,
    trail: Seq<char>,
)
    requires
        forall|i: int| 0 <= i < lead.len() ==> is_space(#[trigger] lead[i]),
        forall|i: int| 0 <= i < trail.len() ==> is_space(#[trigger] trail[i]),
        body.len() > 0 ==> !is_space(body[0]) && !is_space(body.last()),
    ensures
        trimmed(lead + body + trail) == body,
{
    let s = lead + body + trail;
    if body.len() > 0 {
        lemma_trim_start_at(s, lead.len() as int);
        let t = s.skip(lead.len() as int);
        assert(t == body + trail);
        lemma_trim_end_at(t, body.len() as int);
        assert(t.take(body.len() as int) == body);
    } else {
        lemma_trim_start_at(s, s.len() as int);
        assert(s.skip(s.len() as int) == Seq::<char>::empty());
        assert(body == Seq::<char>::empty());
    }
}

/// Words come apart at white space: a word in front, white space behind it, and the
/// words of the rest.
pub proof fn law_words_come_apart_at_blanks(word: Seq<char>, gap: char, rest: Seq<char>)
    requires
        word.len() > 0,
        forall|i: int| 0 <= i < word.len() ==> !is_space(#[trigger] word[i]),
        is_space(gap),
    ensures
        words(word) == seq![word],
        words(word.push(gap) + rest) == seq![word] + words(rest),
        words(seq![gap] + rest) == words(rest),
{
    let s = word.push(gap) + rest;
    assert forall|i: int| 0 <= i < word.len() implies !is_space(#[trigger] s[i]) by {
        assert(s[i] == word[i]);
    }
    assert(!is_space(word[0]));
    assert(trim_start(s) == s);
    assert(s[word.len() as int] == gap);
    lemma_word_len_at(s, word.len() as int);
    assert(s.take(word.len() as int) == word);
    let tail = s.skip(word.len() as int);
    assert(tail == seq![gap] + rest);
    assert(tail.drop_first() == rest);
    assert(trim_start(tail) == trim_start(rest));
    assert(words(tail) == words(rest));
    lemma_word_len_at(word, word.len() as int);
    assert(trim_start(word) == word);
    assert(word.take(word.len() as int) == word);
    assert(word.skip(word.len() as int) == Seq::<char>::empty());
    assert(words(Seq::<char>::empty()) == Seq::<Seq<char>>::empty());
    assert(words(word) == seq![word] + words(word.skip(word.len() as int)));
}

/// A line ends at a line feed, with a carriage return before it or without; the last
/// one ends at the end of the text.
pub proof fn law_lines_end_at_line_feeds(line: Seq<char>, rest: Seq<char>)
    requires
        !line.contains('\n'),
        line.len() > 0,
        line.last() != '\r',
    ensures
        lines(line) == seq![line],
        lines(line.push('\n') + rest) == seq![line] + lines(rest),
        lines(line.push('\r').push('\n') + rest) == seq![line] + lines(rest),
        lines(seq!['\n'] + rest) == seq![Seq::<char>::empty()] + lines(rest),
{
    assert forall|i: int| 0 <= i < line.len() implies line[i] != '\n' by {
        assert(line.contains(line[i]));
    }
    lemma_span_to_at(line, '\n', line.len() as int);
    lemma_lines_front(line, rest);
    let cr = line.push('\r');
    assert(!cr.contains('\n')) by {
        if cr.contains('\n') {
            let k = choose|k: int| 0 <= k < cr.len() && cr[k] == '\n';
            assert(line[k] == '\n');
        }
    }
    lemma_lines_front(cr, rest);
    assert(cr.drop_last() == line);
    lemma_lines_front(Seq::empty(), rest);
    assert(Seq::<char>::empty().push('\n') + rest == seq!['\n'] + rest);
}

/// A text that fits is kept. A longer one keeps its beginning, has the wanted length,
/// and ends in an ellipsis.
pub proof fn law_cut_texts_keep_their_beginning(s: Seq<char>, n: int)
    requires
        0 < n,
    ensures
        s.len() <= n ==> capped(s, n) == s,
        s.len() > n ==> capped(s, n).len() == n && capped(s, n).last() == '…' && forall|i: int|
            0 <= i < n - 1 ==> capped(s, n)[i] == s[i],
        s.len() <= n ==> first_chars(s, n) == s,
        s.len() > n ==> first_chars(s, n).len() == n && forall|i: int|
            0 <= i < n ==> first_chars(s, n)[i] == s[i],
{
}

/// The parts of a text do not hold the character that they were split at, and joined
/// with it they are the text.
pub proof fn law_parts_join_to_the_text(s: Seq<char>, c: char)
    ensures
        parts(s, c).len() > 0,
        forall|i: int| 0 <= i < parts(s, c).len() ==> !(#[trigger] parts(s, c)[i]).contains(c),
        joined(parts(s, c), seq![c]) == s,
    decreases s.len(),
{
    let ps = parts(s, c);
    if s.len() > 0 {
        let d = s.drop_last();
        let before = parts(d, c);
        law_parts_join_to_the_text(d, c);
        if s.last() == c {
            assert(ps.drop_last() == before);
            assert(ps.last() == Seq::<char>::empty());
            assert(joined(ps, seq![c]) == d + seq![c] + Seq::<char>::empty());
            assert(d + seq![c] + Seq::<char>::empty() == s);
            assert forall|i: int| 0 <= i < ps.len() implies !(#[trigger] ps[i]).contains(c) by {
                if i < before.len() {
                    assert(ps[i] == before[i]);
                }
            }
        } else {
            let last = before.last().push(s.last());
            assert(ps.drop_last() == before.drop_last());
            assert(ps.last() == last);
            if before.len() == 1 {
                assert(joined(before, seq![c]) == before[0]);
                assert(ps[0] == last);
                assert(before.last() == before[0]);
                assert(ps[0] == s);
            } else {
                let head = joined(before.drop_last(), seq![c]) + seq![c];
                assert(joined(ps, seq![c]) == head + last);
                assert(d == head + before.last());
                assert(head + last == (head + before.last()).push(s.last()));
                assert(d.push(s.last()) == s);
            }
            assert forall|i: int| 0 <= i < ps.len() implies !(#[trigger] ps[i]).contains(c) by {
                assert(!before[i].contains(c));
                if i < before.len() - 1 {
                    assert(ps[i] == before[i]);
                } else {
                    if last.contains(c) {
                        let k = choose|k: int| 0 <= k < last.len() && last[k] == c;
                        assert(before.last()[k] == c);
                    }
                }
            }
        }
    } else {
        assert(ps[0] == Seq::<char>::empty());
        assert(joined(ps, seq![c]) == ps[0]);
    }
}

/// Joined texts stand in their order with the separator between each two.
pub proof fn law_joining_puts_the_separator_between(
    head: Seq<Seq<char>>,
    tail: Seq<char>,
    sep: Seq<char>,
)
    ensures
        joined(seq![tail], sep) == tail,
        head.len() > 0 ==> joined(head.push(tail), sep) == joined(head, sep) + sep + tail,
        joined(Seq::empty(), sep) == Seq::<char>::empty(),
{
    if head.len() > 0 {
        assert(head.push(tail).drop_last() == head);
    }
}

/// What stands behind the last of a character is the part behind it.
pub proof fn law_the_tail_is_behind_the_last(head: Seq<char>, c: char, tail: Seq<char>)
    requires
        !tail.contains(c),
    ensures
        tail_after(head.push(c) + tail, c) == tail,
        tail_after(tail, c) == tail,
{
    let s = head.push(c) + tail;
    let from = head.len() + 1;
    assert forall|i: int| from <= i < s.len() implies s[i] != c by {
        assert(s[i] == tail[i - from]);
        assert(tail.contains(tail[i - from]));
    }
    assert(s[from - 1] == c);
    lemma_tail_after(s, c, from as int);
    assert(s.subrange(from as int, s.len() as int) == tail);
    assert forall|i: int| 0 <= i < tail.len() implies tail[i] != c by {
        assert(tail.contains(tail[i]));
    }
    lemma_tail_after(tail, c, 0);
    assert(tail.subrange(0, tail.len() as int) == tail);
}

/// The base name of a path is its last part, with a slash behind it or without.
pub proof fn law_the_base_name_is_the_last_part(dir: Seq<char>, name: Seq<char>)
    requires
        name.len() > 0,
        !name.contains('/'),
    ensures
        base_name(dir.push('/') + name) == name,
        base_name((dir.push('/') + name).push('/')) == name,
        base_name(name) == name,
{
    let s = dir.push('/') + name;
    assert(name.contains(name.last()));
    assert(s.last() == name.last());
    lemma_without_trailing(s, '/', s.len() as int);
    assert(s.take(s.len() as int) == s);
    lemma_without_trailing(s.push('/'), '/', s.len() as int);
    assert(s.push('/').take(s.len() as int) == s);
    lemma_without_trailing(name, '/', name.len() as int);
    assert(name.take(name.len() as int) == name);
    law_the_tail_is_behind_the_last(dir, '/', name);
}

/// A name is put below a directory with one slash between the two.
pub proof fn law_one_slash_stands_between(base: Seq<char>, name: Seq<char>)
    requires
        base.len() > 0,
        base.last() != '/',
    ensures
        below(base, name) == base + seq!['/'] + name,
        below(base.push('/'), name) == base + seq!['/'] + name,
{
    assert(base.push('/') + name == base + seq!['/'] + name);
}

/// A prefix is taken off the texts that begin with it, and no other text changes.
pub proof fn law_a_prefix_comes_off(p: Seq<char>, rest: Seq<char>, s: Seq<char>)
    ensures
        without_prefix(p + rest, p) == rest,
        without_prefix(s, p) == s || s == p + without_prefix(s, p),
        begins_with(p + rest, p),
        finishes_with(rest + p, p),
        holds(rest + p + s, p),
{
    assert((p + rest).subrange(0, p.len() as int) == p);
    assert((p + rest).skip(p.len() as int) == rest);
    assert((rest + p).subrange(rest.len() as int, (rest + p).len() as int) == p);
    let t = rest + p + s;
    assert(t.subrange(rest.len() as int, (rest.len() + p.len()) as int) == p);
    assert(stands_at(t, p, rest.len() as int));
    if begins_with(s, p) {
        assert(s == p + s.skip(p.len() as int));
    }
}

/// Small letters of ASCII take the place of capitals, and no other character changes.
pub proof fn law_capitals_become_small(c: char)
    ensures
        c == 'A' ==> ascii_lower(c) == 'a',
        c == 'M' ==> ascii_lower(c) == 'm',
        c == 'Z' ==> ascii_lower(c) == 'z',
        'A' <= c <= 'Z' ==> 'a' <= ascii_lower(c) <= 'z' && ascii_lower(c) as int - 'a' as int == c
            as int - 'A' as int,
        !('A' <= c <= 'Z') ==> ascii_lower(c) == c,
{
}

/// A number reads back from its decimal digits, with a sign or without.
pub proof fn law_numbers_read_back(n: nat)
    requires
        n <= i64::MAX,
    ensures
        integer(decimal(n)) == Some(n as i64),
        integer(seq!['+'] + decimal(n)) == Some(n as i64),
        integer(seq!['-'] + decimal(n)) == Some((-(n as int)) as i64),
{
    lemma_decimal(n);
    let d = decimal(n);
    assert((seq!['+'] + d).skip(1) == d);
    assert((seq!['-'] + d).skip(1) == d);
}

proof fn lemma_decimal(n: nat)
    ensures
        decimal(n).len() > 0,
        '0' <= decimal(n)[0] <= '9',
        digits_value(decimal(n)) == Some(n as int),
    decreases n,
{
    if n >= 10 {
        lemma_decimal(n / 10);
        let d = decimal(n / 10);
        let c = digit((n % 10) as int);
        assert(d.push(c).drop_last() == d);
        assert(decimal(n)[0] == d[0]);
    } else {
        let c = digit(n as int);
        assert(seq![c].drop_last() == Seq::<char>::empty());
        assert(digits_value(Seq::<char>::empty()) == Some(0int));
        assert(seq![c].last() == c);
    }
}

/// Decimal digits have the weight of their place: one more at the end is ten times
/// the number and the digit.
pub proof fn law_digits_have_weight(n: nat, k: nat)
    requires
        0 < n,
        k < 10,
    ensures
        decimal(10 * n + k) == decimal(n).push((('0' as u32 + k) as u32) as char),
        decimal(k) == seq![(('0' as u32 + k) as u32) as char],
{
    assert((10 * n + k) / 10 == n && (10 * n + k) % 10 == k);
}

/// The names of two numbers of sixteen hexadecimal digits differ, and have sixteen
/// characters each.
pub proof fn law_hexadecimal_names_differ(a: u64, b: u64)
    ensures
        hex_digits(a as nat, 16).len() == 16,
        hex_digits(a as nat, 16) == hex_digits(b as nat, 16) ==> a == b,
{
    assert(0x1_0000_0000_0000_0000nat == vstd::arithmetic::power::pow(16, 16)) by {
        reveal(vstd::arithmetic::power::pow);
        reveal_with_fuel(vstd::arithmetic::power::pow, 18);
    }
    lemma_hex(a as nat, b as nat, 16);
}

proof fn lemma_hex(a: nat, b: nat, width: nat)
    requires
        a < vstd::arithmetic::power::pow(16, width),
        b < vstd::arithmetic::power::pow(16, width),
    ensures
        hex_digits(a, width).len() == width,
        hex_digits(a, width) == hex_digits(b, width) ==> a == b,
    decreases width,
{
    reveal(vstd::arithmetic::power::pow);
    if width > 0 {
        let w = (width - 1) as nat;
        let p = vstd::arithmetic::power::pow(16, w);
        assert(vstd::arithmetic::power::pow(16, width) == 16 * p);
        assert(a / 16 < p && b / 16 < p);
        lemma_hex(a / 16, b / 16, w);
        lemma_hex(b / 16, b / 16, w);
        let x = hex_digits(a / 16, w);
        let y = hex_digits(b / 16, w);
        let c = digit((a % 16) as int);
        let d = digit((b % 16) as int);
        if x.push(c) == y.push(d) {
            assert(x.push(c).drop_last() == x);
            assert(y.push(d).drop_last() == y);
            assert(x.push(c).last() == c && y.push(d).last() == d);
        }
    } else {
        assert(vstd::arithmetic::power::pow(16, 0) == 1);
    }
}

/// Trimming in front keeps what is no white space.
pub proof fn lemma_trim_start_keeps(s: Seq<char>, i: int)
    requires
        0 <= i < s.len(),
        !is_space(s[i]),
    ensures
        trim_start(s).len() >= s.len() - i,
    decreases s.len(),
{
    if is_space(s[0]) {
        lemma_trim_start_keeps(s.drop_first(), i - 1);
    }
}

/// Trimming keeps what is no white space.
pub proof fn lemma_trimmed_keeps(s: Seq<char>, i: int)
    requires
        0 <= i < s.len(),
        !is_space(s[i]),
    ensures
        trimmed(s).len() > 0,
{
    lemma_trim_start_keeps(s, i);
    lemma_trim_start_first(s);
    lemma_trim_end_last(trim_start(s));
    let t = trim_start(s);
    assert(t[0] == s[s.len() - t.len()]);
    lemma_trim_end_keeps(t);
}

proof fn lemma_trim_end_keeps(s: Seq<char>)
    requires
        s.len() > 0,
        !is_space(s[0]),
    ensures
        trim_end(s).len() > 0,
    decreases s.len(),
{
    if is_space(s.last()) {
        lemma_trim_end_keeps(s.drop_last());
    }
}

/// The last place of a text is one, and no later place is.
pub proof fn lemma_last_at(s: Seq<char>, p: Seq<char>)
    ensures
        holds(s, p) ==> stands_at(s, p, last_at(s, p)) && forall|k: int|
            last_at(s, p) < k ==> !stands_at(s, p, k),
        !holds(s, p) ==> last_at(s, p) == -1,
{
    if holds(s, p) {
        let at = choose|at: int| stands_at(s, p, at);
        let m = lemma_later_place(s, p, at);
        assert(stands_at(s, p, m) && forall|k: int| m < k ==> !stands_at(s, p, k));
    }
}

/// A place behind which there is none is the last one; where none is at or behind a
/// place, the last one is before it.
pub proof fn lemma_last_at_place(s: Seq<char>, p: Seq<char>, m: int)
    requires
        0 <= m,
        forall|k: int| m < k ==> !stands_at(s, p, k),
    ensures
        stands_at(s, p, m) ==> last_at(s, p) == m,
        !stands_at(s, p, m) ==> last_at(s, p) < m,
{
    lemma_last_at(s, p);
    if !stands_at(s, p, m) && holds(s, p) {
        assert(stands_at(s, p, last_at(s, p)));
    }
}

proof fn lemma_later_place(s: Seq<char>, p: Seq<char>, at: int) -> (m: int)
    requires
        stands_at(s, p, at),
    ensures
        stands_at(s, p, m),
        forall|k: int| m < k ==> !stands_at(s, p, k),
    decreases s.len() - at,
{
    if exists|k: int| at < k && stands_at(s, p, k) {
        let k = choose|k: int| at < k && stands_at(s, p, k);
        lemma_later_place(s, p, k)
    } else {
        at
    }
}

/// Cutting the blanks off the end takes nothing but blanks.
pub proof fn lemma_trim_end_drops(s: Seq<char>)
    ensures
        forall|i: int| trim_end(s).len() <= i < s.len() ==> is_space(#[trigger] s[i]),
    decreases s.len(),
{
    if s.len() > 0 && is_space(s.last()) {
        let d = s.drop_last();
        lemma_trim_end_drops(d);
        assert forall|i: int| trim_end(s).len() <= i < s.len() implies is_space(#[trigger] s[i]) by {
            if i < d.len() {
                assert(d[i] == s[i]);
            }
        }
    }
}

/// The first text of a list stands in front of what the others are joined to.
pub proof fn lemma_joined_from_first(first: Seq<char>, rest: Seq<Seq<char>>, sep: Seq<char>)
    ensures
        rest.len() == 0 ==> joined(seq![first] + rest, sep) == first,
        rest.len() > 0 ==> joined(seq![first] + rest, sep) == first + sep + joined(rest, sep),
    decreases rest.len(),
{
    let all = seq![first] + rest;
    if rest.len() == 0 {
        assert(all == seq![first]);
    } else {
        let d = rest.drop_last();
        lemma_joined_from_first(first, d, sep);
        assert(all.drop_last() == seq![first] + d);
        assert(all.last() == rest.last());
        if d.len() == 0 {
            assert(rest == seq![rest.last()]);
            assert(joined(rest, sep) == rest.last());
        } else {
            assert(first + sep + joined(d, sep) + sep + rest.last() == first + sep + (joined(d, sep)
                + sep + rest.last()));
        }
    }
}

/// The parts of a text come one after another: what stands before the first place of
/// the character, and the parts of what stands behind it.
pub proof fn lemma_parts_front(a: Seq<char>, c: char, b: Seq<char>)
    requires
        !a.contains(c),
    ensures
        parts(a, c) == seq![a],
        parts(a.push(c) + b, c) == seq![a] + parts(b, c),
    decreases a.len() + b.len(),
{
    lemma_one_part(a, c);
    let s = a.push(c) + b;
    if b.len() == 0 {
        assert(s == a.push(c));
        assert(s.drop_last() == a);
        assert(parts(s, c) == seq![a].push(Seq::<char>::empty()));
        assert(parts(s, c) == seq![a] + seq![Seq::<char>::empty()]);
    } else {
        let d = b.drop_last();
        lemma_parts_front(a, c, d);
        assert(s.drop_last() == a.push(c) + d);
        assert(s.last() == b.last());
        law_parts_join_to_the_text(d, c);
        let front = seq![a];
        let tail = parts(d, c);
        if b.last() == c {
            assert((front + tail).push(Seq::<char>::empty()) == front + tail.push(
                Seq::<char>::empty(),
            ));
        } else {
            assert((front + tail).last() == tail.last());
            assert((front + tail).drop_last() == front + tail.drop_last());
            let w = tail.last().push(b.last());
            assert((front + tail.drop_last()).push(w) == front + tail.drop_last().push(w));
        }
    }
}

proof fn lemma_one_part(a: Seq<char>, c: char)
    requires
        !a.contains(c),
    ensures
        parts(a, c) == seq![a],
    decreases a.len(),
{
    if a.len() > 0 {
        let d = a.drop_last();
        assert forall|x: char| d.contains(x) implies a.contains(x) by {
            let k = choose|k: int| 0 <= k < d.len() && d[k] == x;
            assert(a[k] == x);
        }
        lemma_one_part(d, c);
        assert(a.contains(a[a.len() - 1]));
        assert(d.push(a.last()) == a);
        assert(parts(d, c).drop_last() == Seq::<Seq<char>>::empty());
        assert(parts(d, c).last() == d);
        assert(parts(a, c) == seq![a]);
    } else {
        assert(a == Seq::<char>::empty());
    }
}

/// A text begins, ends with or holds another where it is made of that one and something
/// behind it, in front of it, or both.
#[verifier::spinoff_prover]
pub proof fn law_a_text_holds_its_parts(a: Seq<char>, p: Seq<char>, b: Seq<char>)
    ensures
        begins_with(p + b, p),
        finishes_with(a + p, p),
        holds(a + p + b, p),
{
    let n = a.len() as int;
    assert((p + b).subrange(0, p.len() as int) == p);
    assert((a + p).subrange(n, n + p.len()) == p);
    assert((a + p + b).subrange(n, n + p.len()) == p);
    assert(stands_at(a + p + b, p, n));
}

/// Where a text stands at a place of another, that one is made of what is in front of
/// the place, the text, and what is behind it.
#[verifier::spinoff_prover]
pub proof fn law_what_stands_there_is_a_part(s: Seq<char>, p: Seq<char>, at: int)
    ensures
        stands_at(s, p, at) <==> 0 <= at && at + p.len() <= s.len() && s == s.take(at) + p + s.skip(
            at + p.len(),
        ),
        begins_with(s, p) <==> stands_at(s, p, 0),
        finishes_with(s, p) <==> stands_at(s, p, s.len() - p.len()),
        holds(s, p) <==> exists|k: int| stands_at(s, p, k),
{
    if stands_at(s, p, at) {
        assert(s.subrange(at, at + p.len()) == p);
        assert(s == s.take(at) + p + s.skip(at + p.len()));
    }
    if 0 <= at && at + p.len() <= s.len() && s == s.take(at) + p + s.skip(at + p.len()) {
        let made = s.take(at) + p + s.skip(at + p.len());
        assert(made.subrange(at, at + p.len()) == p);
    }
}

/// Texts are ordered by the first character in which they differ, and a beginning of a
/// text comes before it. No text comes before itself.
pub proof fn law_how_texts_are_ordered(
    common: Seq<char>,
    a: char,
    b: char,
    x: Seq<char>,
    y: Seq<char>,
)
    ensures
        a != b ==> text_lt(common.push(a) + x, common.push(b) + y) == (a < b),
        text_lt(common, common.push(a) + x),
        !text_lt(common.push(a) + x, common),
        !text_lt(common, common),
    decreases common.len(),
{
    let s = common.push(a) + x;
    let t = common.push(b) + y;
    if common.len() == 0 {
        assert(s[0] == a && t[0] == b);
        assert(common == Seq::<char>::empty());
    } else {
        let d = common.drop_first();
        law_how_texts_are_ordered(d, a, b, x, y);
        assert(s.drop_first() == d.push(a) + x);
        assert(t.drop_first() == d.push(b) + y);
        assert(s[0] == common[0] && t[0] == common[0]);
    }
}

/// A text is made small character by character.
pub proof fn law_texts_are_made_small(s: Seq<char>, i: int)
    requires
        0 <= i < s.len(),
    ensures
        ascii_lowercase(s).len() == s.len(),
        ascii_lowercase(s)[i] == ascii_lower(s[i]),
{
}

/// A text of a list is found at its first place, and nowhere where it is not there.
pub proof fn law_a_text_is_found_at_its_first_place(v: Seq<Seq<char>>, s: Seq<char>, i: int)
    requires
        v.len() <= usize::MAX,
    ensures
        0 <= i < v.len() && v[i] == s && (forall|k: int| 0 <= k < i ==> #[trigger] v[k] != s)
            ==> first_text(v, s) == Some(i as usize),
        (forall|k: int| 0 <= k < v.len() ==> #[trigger] v[k] != s) ==> first_text(v, s) is None,
{
    lemma_first_text(v, s);
    if 0 <= i < v.len() && v[i] == s {
        assert(v.contains(s));
    }
}

/// What is no number: nothing, a sign alone, and a text with anything but digits behind
/// its sign.
pub proof fn law_what_is_no_number(s: Seq<char>, i: int)
    ensures
        integer(Seq::empty()) is None,
        integer(seq!['-']) is None,
        integer(seq!['+']) is None,
        0 < i < s.len() && !('0' <= s[i] <= '9') ==> integer(s) is None,
        s.len() > 0 && !('0' <= s[0] <= '9') && s[0] != '-' && s[0] != '+' ==> integer(s) is None,
{
    assert(seq!['-'].skip(1) == Seq::<char>::empty());
    assert(seq!['+'].skip(1) == Seq::<char>::empty());
    if 0 <= i < s.len() && !('0' <= s[i] <= '9') {
        lemma_no_digits(s, i);
        if i > 0 {
            assert(s.skip(1)[i - 1] == s[i]);
            lemma_no_digits(s.skip(1), i - 1);
        }
    }
    if s.len() > 0 && !('0' <= s[0] <= '9') {
        lemma_no_digits(s, 0);
    }
}

proof fn lemma_no_digits(s: Seq<char>, i: int)
    requires
        0 <= i < s.len(),
        !('0' <= s[i] <= '9'),
    ensures
        digits_value(s) is None,
    decreases s.len(),
{
    if i < s.len() - 1 {
        assert(s.drop_last()[i] == s[i]);
        lemma_no_digits(s.drop_last(), i);
    }
}

/// A list of strings is seen text by text, and an optional string by its text.
pub proof fn law_strings_are_seen_as_their_texts(v: Seq<String>, i: int, s: String)
    ensures
        texts(v).len() == v.len(),
        0 <= i < v.len() ==> texts(v)[i] == v[i]@,
        text_in(Some(s)) == Some(s@),
        text_in(None) is None,
{
}

} // verus!
