//! The emoji picker: searching the table, laying out the grid, and what a click
//! in it does.
use vstd::prelude::*;
use crate::text;

verus! {

// ---------------------------------------------------------------------------
// Outside calls
// ---------------------------------------------------------------------------

/// What `char::to_lowercase` makes of a character.
pub uninterp spec fn char_lower(c: char) -> Seq<char>;

/// `char::to_lowercase`: the Unicode lowercase of a character, one character or
/// more, which depends on the character alone.
#[verifier::external_body]
fn lower_of(c: char) -> (r: Vec<char>)
    ensures
        r@ == char_lower(c),
{
    c.to_lowercase().collect()
}

/// Whether `char::is_alphanumeric` says so of a character.
pub uninterp spec fn alphanumeric(c: char) -> bool;

/// `char::is_alphanumeric`: whether a character has the Unicode property of a
/// letter or of a number.
#[verifier::external_body]
fn is_alnum(c: char) -> (r: bool)
    ensures
        r == alphanumeric(c),
{
    c.is_alphanumeric()
}

// ---------------------------------------------------------------------------
// Searching
// ---------------------------------------------------------------------------

/// One emoji of the table.
#[derive(Debug)]
pub struct EmojiDef {
    /// The emoji itself.
    pub ch: String,
    /// Its name.
    pub name: String,
    /// Its short codes and tags.
    pub keys: String,
    /// The heading that it stands under.
    pub group: u8,
}

/// A text in lowercase, character by character.
pub open spec fn lowered(s: Seq<char>) -> Seq<char>
    decreases s.len(),
{
    if s.len() == 0 {
        Seq::empty()
    } else {
        lowered(s.drop_last()) + char_lower(s.last())
    }
}

/// A text in lowercase, character by character.
pub fn lower_chars(s: &str) -> (r: Vec<char>)
    ensures
        r@ == lowered(s@),
{
    let v = text::chars_of(s);
    let mut out: Vec<char> = Vec::new();
    assert(v@.take(0) == Seq::<char>::empty());
    for i in 0..v.len()
        invariant
            out@ == lowered(v@.take(i as int)),
    {
        assert(v@.take(i + 1).drop_last() == v@.take(i as int));
        assert(v@.take(i + 1).last() == v@[i as int]);
        let mut more = lower_of(v[i]);
        out.append(&mut more);
    }
    assert(v@.take(v@.len() as int) == v@);
    out
}

/// The words of a text in lowercase: what stands between characters that are
/// neither letters nor numbers. Some may be empty.
pub open spec fn lower_words(s: Seq<char>) -> Seq<Seq<char>>
    decreases s.len(),
{
    if s.len() == 0 {
        seq![Seq::<char>::empty()]
    } else {
        let before = lower_words(s.drop_last());
        if alphanumeric(s.last()) {
            before.drop_last().push(before.last() + char_lower(s.last()))
        } else {
            before.push(Seq::empty())
        }
    }
}

/// Words as characters.
pub open spec fn spelled(words: Seq<Vec<char>>) -> Seq<Seq<char>> {
    Seq::new(words.len(), |i: int| words[i]@)
}

/// The words of a text in lowercase.
pub fn lowercase_words(s: &str) -> (r: Vec<Vec<char>>)
    ensures
        spelled(r@) == lower_words(s@),
{
    let v = text::chars_of(s);
    let mut words: Vec<Vec<char>> = Vec::new();
    let mut word: Vec<char> = Vec::new();
    assert(v@.take(0) == Seq::<char>::empty());
    assert(spelled(words@).push(word@) == lower_words(v@.take(0)));
    for i in 0..v.len()
        invariant
            spelled(words@).push(word@) == lower_words(v@.take(i as int)),
    {
        assert(v@.take(i + 1).drop_last() == v@.take(i as int));
        assert(v@.take(i + 1).last() == v@[i as int]);
        let ghost had = lower_words(v@.take(i as int));
        assert(had.last() == word@);
        assert(had.drop_last() == spelled(words@));
        if is_alnum(v[i]) {
            let mut more = lower_of(v[i]);
            word.append(&mut more);
        } else {
            let ghost before = words@;
            words.push(word);
            assert(spelled(words@) == spelled(before).push(word@));
            word = Vec::new();
        }
    }
    assert(v@.take(v@.len() as int) == v@);
    let ghost before = words@;
    words.push(word);
    assert(spelled(words@) == spelled(before).push(word@));
    words
}

/// Whether one of the words begins with a pattern; an empty pattern is met
/// always.
pub open spec fn some_word_begins(words: Seq<Seq<char>>, pattern: Seq<char>) -> bool {
    pattern.len() == 0 || exists|i: int|
        0 <= i < words.len() && text::begins_with(#[trigger] words[i], pattern)
}

/// Whether one of the words begins with a pattern.
pub fn any_word_begins(words: &[Vec<char>], pattern: &[char]) -> (r: bool)
    ensures
        r == some_word_begins(spelled(words@), pattern@),
{
    if pattern.len() == 0 {
        return true;
    }
    for i in 0..words.len()
        invariant
            forall|k: int|
                0 <= k < i ==> !text::begins_with(#[trigger] spelled(words@)[k], pattern@),
    {
        assert(spelled(words@)[i as int] == words@[i as int]@);
        if text::stands(&words[i], pattern, 0) {
            assert(text::begins_with(spelled(words@)[i as int], pattern@));
            return true;
        }
    }
    false
}

/// Whether a word of `hay` begins with `needle`, whatever their case.
pub open spec fn word_begins(hay: Seq<char>, needle: Seq<char>) -> bool {
    some_word_begins(lower_words(hay), lowered(needle))
}

/// Whether a word of `hay` begins with `needle`, whatever their case.
pub fn word_prefix(hay: &str, needle: &str) -> (r: bool)
    ensures
        r == word_begins(hay@, needle@),
{
    let pattern = lower_chars(needle);
    any_word_begins(&lowercase_words(hay), &pattern)
}

/// Whether an emoji answers a search: by its name, or by its keys.
pub open spec fn answers(e: EmojiDef, needle: Seq<char>) -> bool {
    word_begins(e.name@, needle) || word_begins(e.keys@, needle)
}

/// Whether an emoji answers a search.
pub fn emoji_matches(def: &EmojiDef, needle: &str) -> (r: bool)
    ensures
        r == answers(*def, needle@),
{
    word_prefix(&def.name, needle) || word_prefix(&def.keys, needle)
}

/// The positions of the emoji that a search shows.
pub open spec fn found(table: Seq<EmojiDef>, needle: Seq<char>) -> Seq<u32>
    decreases table.len(),
{
    if table.len() == 0 {
        Seq::empty()
    } else {
        let before = found(table.drop_last(), needle);
        if needle.len() == 0 || answers(table.last(), needle) {
            before.push((table.len() - 1) as u32)
        } else {
            before
        }
    }
}

/// The case of a search does not matter: two needles that read the same in
/// lowercase find the same, unless one of them is empty.
pub proof fn law_search_ignores_case(table: Seq<EmojiDef>, a: Seq<char>, b: Seq<char>)
    requires
        lowered(a) == lowered(b),
        a.len() > 0,
        b.len() > 0,
    ensures
        found(table, a) == found(table, b),
    decreases table.len(),
{
    if table.len() > 0 {
        law_search_ignores_case(table.drop_last(), a, b);
    }
}

/// Without a needle the whole table shows, in its order.
pub proof fn law_an_empty_search_shows_all(table: Seq<EmojiDef>)
    requires
        table.len() <= u32::MAX,
    ensures
        found(table, Seq::empty()) == Seq::new(table.len(), |i: int| i as u32),
    decreases table.len(),
{
    if table.len() > 0 {
        law_an_empty_search_shows_all(table.drop_last());
    }
}

// ---------------------------------------------------------------------------
// The grid
// ---------------------------------------------------------------------------

/// Where something stands in the grid: below so many headings and rows of
/// cells, in a column.
#[derive(Debug, Clone, Copy, PartialEq, Eq, Structural)]
pub struct CellPlace {
    pub heads: usize,
    pub rows: usize,
    pub col: usize,
}

/// A heading and where it stands.
#[derive(Debug, Clone, Copy, PartialEq, Eq, Structural)]
pub struct HeadPlace {
    pub group: u8,
    pub heads: usize,
    pub rows: usize,
}

/// A grid that is laid out: its cells, its headings, and how many headings and
/// rows of cells it has.
#[derive(Debug)]
pub struct GridLayout {
    pub cells: Vec<CellPlace>,
    pub headings: Vec<HeadPlace>,
    pub heads: usize,
    pub rows: usize,
}

/// How far the layout has come after some of the emoji.
pub struct LayoutState {
    pub heads: int,
    pub rows: int,
    pub col: int,
    pub last: Option<u8>,
}

/// Whether a heading stands before the next emoji, which is of group `g`.
pub open spec fn heads_next(s: LayoutState, g: u8, headed: bool) -> bool {
    headed && s.last != Some(g)
}

/// Where the next emoji stands: in the next column, or under a new heading at
/// the start of a row.
pub open spec fn next_cell(s: LayoutState, g: u8, headed: bool) -> (int, int, int) {
    if heads_next(s, g, headed) {
        (s.heads + 1, s.rows + (if s.col > 0 { 1int } else { 0 }), 0)
    } else {
        (s.heads, s.rows, s.col)
    }
}

/// The layout after the emoji of some groups.
pub open spec fn laid(groups: Seq<u8>, cols: int, headed: bool) -> LayoutState
    decreases groups.len(),
{
    if groups.len() == 0 {
        LayoutState { heads: 0, rows: 0, col: 0, last: None }
    } else {
        let s = laid(groups.drop_last(), cols, headed);
        let g = groups.last();
        let (heads, rows, col) = next_cell(s, g, headed);
        LayoutState {
            heads,
            rows: if col + 1 == cols {
                rows + 1
            } else {
                rows
            },
            col: if col + 1 == cols {
                0
            } else {
                col + 1
            },
            last: if heads_next(s, g, headed) {
                Some(g)
            } else {
                s.last
            },
        }
    }
}

proof fn lemma_laid_bounds(groups: Seq<u8>, cols: int, headed: bool)
    requires
        0 < cols,
    ensures
        ({
            let s = laid(groups, cols, headed);
            &&& 0 <= s.heads <= groups.len()
            &&& 0 <= s.rows <= groups.len()
            &&& 0 <= s.col < cols
            &&& s.rows + s.col <= groups.len()
        }),
    decreases groups.len(),
{
    if groups.len() > 0 {
        lemma_laid_bounds(groups.drop_last(), cols, headed);
    }
}

/// Lay the grid out in `cols` columns, with a heading where a new group begins
/// if it is `headed`. `groups` holds the group of each emoji that is shown.
pub fn emoji_layout(groups: &[u8], cols: usize, headed: bool) -> (r: GridLayout)
    requires
        0 < cols,
        groups@.len() < usize::MAX,
    ensures
        r.cells@.len() == groups@.len(),
        forall|i: int|
            0 <= i < groups@.len() ==> {
                let s = laid(groups@.take(i), cols as int, headed);
                let c = #[trigger] r.cells@[i];
                (c.heads as int, c.rows as int, c.col as int) == next_cell(
                    s,
                    groups@[i],
                    headed,
                )
            },
        r.headings@.map_values(|h: HeadPlace| (h.group, h.heads as int, h.rows as int))
            == headings_of(groups@, cols as int, headed),
        ({
            let s = laid(groups@, cols as int, headed);
            &&& r.heads == s.heads
            &&& r.rows == s.rows + (if s.col > 0 {
                1int
            } else {
                0
            })
        }),
{
    let mut cells: Vec<CellPlace> = Vec::new();
    let mut headings: Vec<HeadPlace> = Vec::new();
    let mut heads: usize = 0;
    let mut rows: usize = 0;
    let mut col: usize = 0;
    let mut last: Option<u8> = None;
    let ghost show = |h: HeadPlace| (h.group, h.heads as int, h.rows as int);
    assert(groups@.take(0) == Seq::<u8>::empty());
    assert(headings@.map_values(show) == headings_of(groups@.take(0), cols as int, headed));
    for i in 0..groups.len()
        invariant
            0 < cols,
            groups@.len() < usize::MAX,
            show == (|h: HeadPlace| (h.group, h.heads as int, h.rows as int)),
            ({
                let s = laid(groups@.take(i as int), cols as int, headed);
                heads == s.heads && rows == s.rows && col == s.col && last == s.last
            }),
            headings@.map_values(show) == headings_of(
                groups@.take(i as int),
                cols as int,
                headed,
            ),
            cells@.len() == i,
            forall|k: int|
                0 <= k < i ==> {
                    let s = laid(groups@.take(k), cols as int, headed);
                    let c = #[trigger] cells@[k];
                    (c.heads as int, c.rows as int, c.col as int) == next_cell(
                        s,
                        groups@[k],
                        headed,
                    )
                },
    {
        assert(groups@.take(i + 1).drop_last() == groups@.take(i as int));
        assert(groups@.take(i + 1).last() == groups@[i as int]);
        proof {
            lemma_laid_bounds(groups@.take(i as int), cols as int, headed);
        }
        let g: u8 = groups[i];
        let new: bool = match last {
            Some(l) => l != g,
            None => true,
        };
        if headed && new {
            if col > 0 {
                rows = rows + 1;
                col = 0;
            }
            let ghost had = headings@;
            headings.push(HeadPlace { group: g, heads, rows });
            assert(headings@.map_values(show) == had.map_values(show).push(
                (g, heads as int, rows as int),
            ));
            heads = heads + 1;
            last = Some(g);
        }
        cells.push(CellPlace { heads, rows, col });
        col = col + 1;
        if col == cols {
            col = 0;
            rows = rows + 1;
        }
    }
    assert(groups@.take(groups@.len() as int) == groups@);
    proof {
        lemma_laid_bounds(groups@, cols as int, headed);
    }
    if col > 0 {
        rows = rows + 1;
    }
    GridLayout { cells, headings, heads, rows }
}

/// The headings of a grid, each with what stands above it.
pub open spec fn headings_of(groups: Seq<u8>, cols: int, headed: bool) -> Seq<(u8, int, int)>
    decreases groups.len(),
{
    if groups.len() == 0 {
        Seq::empty()
    } else {
        let before = headings_of(groups.drop_last(), cols, headed);
        let s = laid(groups.drop_last(), cols, headed);
        let g = groups.last();
        if heads_next(s, g, headed) {
            before.push((g, s.heads, next_cell(s, g, headed).1))
        } else {
            before
        }
    }
}

/// No two cells of a grid stand in the same place: a later one is in a later
/// row, or in a later column of the same row.
pub proof fn law_cells_do_not_overlap(groups: Seq<u8>, cols: int, headed: bool, i: int, j: int)
    requires
        0 < cols,
        0 <= i < j < groups.len(),
    ensures
        ({
            let a = next_cell(laid(groups.take(i), cols, headed), groups[i], headed);
            let b = next_cell(laid(groups.take(j), cols, headed), groups[j], headed);
            a.1 < b.1 || (a.1 == b.1 && a.2 < b.2)
        }),
    decreases j - i,
{
    lemma_laid_bounds(groups.take(i), cols, headed);
    lemma_laid_bounds(groups.take(j), cols, headed);
    assert(groups.take(i + 1).drop_last() == groups.take(i));
    assert(groups.take(i + 1).last() == groups[i]);
    lemma_laid_bounds(groups.take(i + 1), cols, headed);
    if i + 1 < j {
        law_cells_do_not_overlap(groups, cols, headed, i + 1, j);
    }
}

// ---------------------------------------------------------------------------
// The picker
// ---------------------------------------------------------------------------

/// What the pointer is over in the picker.
#[derive(Debug, Clone, Copy, PartialEq, Eq, Structural)]
pub enum EmojiHit {
    Nothing,
    /// The button that leads back to the history.
    Back,
    /// A cell of the grid.
    Cell(usize),
    /// The search field.
    Search,
}

/// What a click in the picker does.
#[derive(Debug, Clone, Copy, PartialEq, Eq, Structural)]
pub enum EmojiAction {
    /// It is not for the picker.
    Pass,
    /// The picker closes; so does the search field.
    Close,
    /// Type the emoji at this position of the table into the window below.
    Type(usize),
    /// There is no emoji there.
    Empty,
    /// Take the keyboard back.
    Keyboard,
}

/// The picker.
#[derive(Debug)]
pub struct EmojiState {
    pub open: bool,
    /// The emoji that are shown, by their positions in the table.
    pub shown: Vec<u32>,
    pub hit: EmojiHit,
    /// Whether the grid is scrolled to its top.
    pub at_top: bool,
}

impl EmojiState {
    /// A picker that is closed.
    pub fn new() -> (r: Self)
        ensures
            !r.open,
            r.shown@.len() == 0,
            r.hit == EmojiHit::Nothing,
            r.at_top,
    {
        EmojiState { open: false, shown: Vec::new(), hit: EmojiHit::Nothing, at_top: true }
    }

    /// Open the picker, with the whole table.
    pub fn open_emoji(&mut self, table: &[EmojiDef])
        requires
            table@.len() <= u32::MAX,
        ensures
            final(self).open,
            final(self).shown@ == found(table@, Seq::empty()),
            final(self).hit == old(self).hit,
            final(self).at_top,
    {
        self.open = true;
        let none = String::new();
        self.refilter_emoji(table, &none);
    }

    /// Close the picker.
    pub fn close_emoji(&mut self)
        ensures
            *final(self) == (EmojiState { open: false, hit: EmojiHit::Nothing, ..*old(self) }),
    {
        self.open = false;
        self.hit = EmojiHit::Nothing;
    }

    /// The box has closed: the next one is not mid-pick.
    pub fn reset_emoji(&mut self)
        ensures
            *final(self) == (EmojiState {
                open: false,
                hit: EmojiHit::Nothing,
                at_top: true,
                ..*old(self)
            }),
    {
        self.open = false;
        self.hit = EmojiHit::Nothing;
        self.at_top = true;
    }

    /// Search the table anew. What is found reads from its top.
    pub fn refilter_emoji(&mut self, table: &[EmojiDef], needle: &str)
        requires
            table@.len() <= u32::MAX,
        ensures
            final(self).shown@ == found(table@, needle@),
            final(self).at_top,
            final(self).open == old(self).open,
            final(self).hit == old(self).hit,
    {
        let all: bool = needle.unicode_len() == 0;
        let mut shown: Vec<u32> = Vec::new();
        assert(table@.take(0) == Seq::<EmojiDef>::empty());
        for i in 0..table.len()
            invariant
                all == (needle@.len() == 0),
                table@.len() <= u32::MAX,
                shown@ == found(table@.take(i as int), needle@),
        {
            assert(table@.take(i + 1).drop_last() == table@.take(i as int));
            assert(table@.take(i + 1).last() == table@[i as int]);
            if all || emoji_matches(&table[i], needle) {
                shown.push(i as u32);
            }
        }
        assert(table@.take(table@.len() as int) == table@);
        self.shown = shown;
        self.at_top = true;
    }

    /// Keep what the pointer is over, nothing where the picker is closed.
    /// Returns whether that is a change.
    pub fn update_emoji_hit(&mut self, at: Option<EmojiHit>) -> (r: bool)
        ensures
            ({
                let hit = if at is Some && old(self).open {
                    at->Some_0
                } else {
                    EmojiHit::Nothing
                };
                &&& r == (hit != old(self).hit)
                &&& *final(self) == (EmojiState { hit, ..*old(self) })
            }),
    {
        let hit: EmojiHit = match at {
            Some(h) => if self.open {
                h
            } else {
                EmojiHit::Nothing
            },
            None => EmojiHit::Nothing,
        };
        let changed: bool = hit != self.hit;
        self.hit = hit;
        changed
    }

    /// A click in the picker.
    pub fn emoji_click(&mut self) -> (r: EmojiAction)
        ensures
            r == (match old(self).hit {
                EmojiHit::Nothing => EmojiAction::Pass,
                EmojiHit::Back => EmojiAction::Close,
                EmojiHit::Search => EmojiAction::Keyboard,
                EmojiHit::Cell(pos) => if pos < old(self).shown@.len() {
                    EmojiAction::Type(old(self).shown@[pos as int] as usize)
                } else {
                    EmojiAction::Empty
                },
            }),
            *final(self) == (if old(self).hit == EmojiHit::Back {
                EmojiState { open: false, hit: EmojiHit::Nothing, ..*old(self) }
            } else {
                *old(self)
            }),
    {
        match self.hit {
            EmojiHit::Nothing => EmojiAction::Pass,
            EmojiHit::Back => {
                self.close_emoji();
                EmojiAction::Close
            },
            EmojiHit::Search => EmojiAction::Keyboard,
            EmojiHit::Cell(pos) => if pos < self.shown.len() {
                EmojiAction::Type(self.shown[pos] as usize)
            } else {
                EmojiAction::Empty
            },
        }
    }
}

// ---------------------------------------------------------------------------
// What a search and a grid mean
// ---------------------------------------------------------------------------

/// A text is lowered character by character, and its parts on their own.
pub proof fn law_texts_are_lowered_by_characters(a: Seq<char>, c: char, b: Seq<char>)
    ensures
        lowered(Seq::empty()) == Seq::<char>::empty(),
        lowered(seq![c]) == char_lower(c),
        lowered(a + b) == lowered(a) + lowered(b),
    decreases b.len(),
{
    let one = seq![c];
    assert(one.drop_last() == Seq::<char>::empty());
    assert(one.last() == c);
    assert(lowered(one.drop_last()) == Seq::<char>::empty());
    assert(lowered(one) == char_lower(c));
    if b.len() == 0 {
        assert(a + b == a);
        assert(lowered(a) + lowered(b) == lowered(a));
    } else {
        law_texts_are_lowered_by_characters(a, c, b.drop_last());
        assert((a + b).drop_last() == a + b.drop_last());
        assert(lowered(a) + (lowered(b.drop_last()) + char_lower(b.last())) == (lowered(a)
            + lowered(b.drop_last())) + char_lower(b.last()));
    }
}

/// Words stand between characters that are neither letters nor numbers, each lowered:
/// the word in front, and the words behind such a character.
pub proof fn law_words_stand_between_other_characters(word: Seq<char>, c: char, rest: Seq<char>)
    requires
        forall|i: int| 0 <= i < word.len() ==> alphanumeric(#[trigger] word[i]),
        !alphanumeric(c),
    ensures
        lower_words(word) == seq![lowered(word)],
        lower_words(word.push(c) + rest) == seq![lowered(word)] + lower_words(rest),
    decreases rest.len(),
{
    lemma_one_word(word);
    let s = word.push(c) + rest;
    if rest.len() == 0 {
        assert(s == word.push(c));
        assert(s.drop_last() == word);
        assert(lower_words(s) == seq![lowered(word)].push(Seq::<char>::empty()));
        assert(lower_words(s) == seq![lowered(word)] + seq![Seq::<char>::empty()]);
    } else {
        let d = rest.drop_last();
        law_words_stand_between_other_characters(word, c, d);
        assert(s.drop_last() == word.push(c) + d);
        assert(s.last() == rest.last());
        let front = seq![lowered(word)];
        let tail = lower_words(d);
        lemma_some_word(d);
        assert((front + tail).last() == tail.last());
        assert((front + tail).drop_last() == front + tail.drop_last());
        if alphanumeric(rest.last()) {
            let w = tail.last() + char_lower(rest.last());
            assert((front + tail.drop_last()).push(w) == front + tail.drop_last().push(w));
        } else {
            assert((front + tail).push(Seq::<char>::empty()) == front + tail.push(
                Seq::<char>::empty(),
            ));
        }
    }
}

proof fn lemma_some_word(s: Seq<char>)
    ensures
        lower_words(s).len() > 0,
    decreases s.len(),
{
    if s.len() > 0 {
        lemma_some_word(s.drop_last());
    }
}

proof fn lemma_one_word(word: Seq<char>)
    requires
        forall|i: int| 0 <= i < word.len() ==> alphanumeric(#[trigger] word[i]),
    ensures
        lower_words(word) == seq![lowered(word)],
    decreases word.len(),
{
    if word.len() > 0 {
        let d = word.drop_last();
        assert forall|i: int| 0 <= i < d.len() implies alphanumeric(#[trigger] d[i]) by {
            assert(d[i] == word[i]);
        }
        lemma_one_word(d);
        assert(word.last() == word[word.len() - 1]);
        let before = lower_words(d);
        assert(before.drop_last() == Seq::<Seq<char>>::empty());
        assert(before.last() == lowered(d));
        assert(before.drop_last().push(before.last() + char_lower(word.last())) == seq![
            lowered(word),
        ]);
    } else {
        assert(lowered(word) == Seq::<char>::empty());
    }
}

/// A search shows the emoji of which a word of the name or of the keys begins with
/// what was typed, in the order of the table, and no other.
pub proof fn law_a_search_shows_what_begins_with_it(
    table: Seq<EmojiDef>,
    needle: Seq<char>,
    i: int,
)
    requires
        0 <= i < table.len() <= u32::MAX,
        lowered(needle).len() > 0,
    ensures
        found(table, needle).contains(i as u32) <==> {
            ||| exists|w: int|
                0 <= w < lower_words(table[i].name@).len() && text::begins_with(
                    #[trigger] lower_words(table[i].name@)[w],
                    lowered(needle),
                )
            ||| exists|w: int|
                0 <= w < lower_words(table[i].keys@).len() && text::begins_with(
                    #[trigger] lower_words(table[i].keys@)[w],
                    lowered(needle),
                )
        },
        forall|a: int, b: int|
            0 <= a < b < found(table, needle).len() ==> #[trigger] found(table, needle)[a]
                < #[trigger] found(table, needle)[b],
{
    assert(needle.len() > 0) by {
        if needle.len() == 0 {
            assert(lowered(needle) == Seq::<char>::empty());
        }
    }
    lemma_found(table, needle, i);
}

proof fn lemma_found(table: Seq<EmojiDef>, needle: Seq<char>, i: int)
    requires
        table.len() <= u32::MAX,
        needle.len() > 0,
    ensures
        0 <= i < table.len() ==> (found(table, needle).contains(i as u32) <==> answers(
            table[i],
            needle,
        )),
        forall|a: int| 0 <= a < found(table, needle).len() ==> (#[trigger] found(table, needle)[a])
            < table.len(),
        forall|a: int, b: int|
            0 <= a < b < found(table, needle).len() ==> #[trigger] found(table, needle)[a]
                < #[trigger] found(table, needle)[b],
    decreases table.len(),
{
    if table.len() > 0 {
        let d = table.drop_last();
        let n = table.len() - 1;
        lemma_found(d, needle, i);
        let before = found(d, needle);
        let now = found(table, needle);
        if 0 <= i < n {
            assert(table[i] == d[i]);
            if before.contains(i as u32) {
                let a = choose|a: int| 0 <= a < before.len() && before[a] == i as u32;
                assert(now[a] == i as u32);
            }
            if now.contains(i as u32) {
                let a = choose|a: int| 0 <= a < now.len() && now[a] == i as u32;
                assert(a < before.len());
                assert(before[a] == i as u32);
            }
        } else if i == n {
            assert(table.last() == table[n]);
            if answers(table[n], needle) {
                assert(now[before.len() as int] == n as u32);
            } else if now.contains(i as u32) {
                let a = choose|a: int| 0 <= a < now.len() && now[a] == i as u32;
                assert(before[a] < d.len());
            }
        }
    }
}

/// How the grid is laid out: the first emoji stands at the top left, under a heading
/// where there are any. The next one of the same group stands in the next column, or
/// at the start of the next row behind the last one; the first of another group
/// stands under a heading of its own at the start of a row.
pub proof fn law_emoji_stand_in_reading_order(groups: Seq<u8>, cols: int, headed: bool, i: int)
    requires
        0 < cols,
        0 <= i < groups.len(),
    ensures
        ({
            let here = next_cell(laid(groups.take(i), cols, headed), groups[i], headed);
            &&& 0 <= here.2 < cols
            &&& i == 0 ==> here == ((if headed {
                1int
            } else {
                0
            }), 0int, 0int)
            &&& i > 0 ==> {
                let before = next_cell(
                    laid(groups.take(i - 1), cols, headed),
                    groups[i - 1],
                    headed,
                );
                if headed && groups[i] != groups[i - 1] {
                    here == (before.0 + 1, before.1 + 1, 0int)
                } else if before.2 + 1 < cols {
                    here == (before.0, before.1, before.2 + 1)
                } else {
                    here == (before.0, before.1 + 1, 0int)
                }
            }
        }),
{
    lemma_laid_bounds(groups.take(i), cols, headed);
    if i == 0 {
        assert(groups.take(0) == Seq::<u8>::empty());
    } else {
        let t = groups.take(i);
        assert(t.drop_last() == groups.take(i - 1));
        assert(t.last() == groups[i - 1]);
        lemma_laid_bounds(groups.take(i - 1), cols, headed);
        lemma_last_group(t, cols, headed);
    }
}

proof fn lemma_last_group(groups: Seq<u8>, cols: int, headed: bool)
    ensures
        headed && groups.len() > 0 ==> laid(groups, cols, headed).last == Some(groups.last()),
        !headed ==> laid(groups, cols, headed).last is None,
    decreases groups.len(),
{
    if groups.len() > 0 {
        lemma_last_group(groups.drop_last(), cols, headed);
    }
}

/// An emoji of another group than the one before it gets a heading, which stands right
/// above it; any other gets none, and without headings there are none at all.
pub proof fn law_each_run_has_its_heading(groups: Seq<u8>, cols: int, headed: bool, g: u8)
    requires
        0 < cols,
    ensures
        headings_of(Seq::empty(), cols, headed) == Seq::<(u8, int, int)>::empty(),
        ({
            let cell = next_cell(laid(groups, cols, headed), g, headed);
            let before = headings_of(groups, cols, headed);
            if headed && (groups.len() == 0 || groups.last() != g) {
                headings_of(groups.push(g), cols, headed) == before.push((g, cell.0 - 1, cell.1))
                    && cell.2 == 0
            } else {
                headings_of(groups.push(g), cols, headed) == before
            }
        }),
{
    assert(groups.push(g).drop_last() == groups);
    lemma_last_group(groups, cols, headed);
    if groups.len() == 0 {
        assert(groups == Seq::<u8>::empty());
    }
}

} // verus!
