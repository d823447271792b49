//! Offline dictionary lookup across several languages.
//!
//! A headword is found by its lowercase form; failing that, by the form without
//! accents, so that a query typed without them still finds an accented
//! headword.
use vstd::prelude::*;
use vstd::hash_map::StringHashMap;
use crate::text;

verus! {

broadcast use vstd::hash_map::group_hash_map_axioms;

/// The languages looked up, in display order.
pub const LANGUAGES: usize = 2;

/// The label, the data file and the overriding environment variable of a
/// language.
pub fn language(i: usize) -> (r: (&'static str, &'static str, &'static str))
    requires
        i < LANGUAGES,
    ensures
        i == 0 ==> r.0@ == "English"@ && r.1@ == "dictionary.json"@ && r.2@ == "WAVERUNNER_DICT"@,
        i == 1 ==> r.0@ == "Español"@ && r.1@ == "dictionary-es.json"@ && r.2@
            == "WAVERUNNER_DICT_ES"@,
{
    if i == 0 {
        ("English", "dictionary.json", "WAVERUNNER_DICT")
    } else {
        ("Español", "dictionary-es.json", "WAVERUNNER_DICT_ES")
    }
}

/// What a data file holds for a headword: a bare definition, or an etymology
/// and a definition.
#[derive(Debug)]
pub enum RawEntry {
    Plain(String),
    Rich { e: String, d: String },
}

/// A headword's content.
#[derive(Debug)]
pub struct Def {
    pub def: String,
    pub etym: Option<String>,
}

/// A headword's content as plain text.
pub struct DefModel {
    pub def: Seq<char>,
    pub etym: Option<Seq<char>>,
}

impl View for Def {
    type V = DefModel;

    open spec fn view(&self) -> DefModel {
        DefModel { def: self.def@, etym: text::text_in(self.etym) }
    }
}

/// The content that a data file's value stands for; an empty etymology is none.
pub open spec fn content_of(r: RawEntry) -> DefModel {
    match r {
        RawEntry::Plain(d) => DefModel { def: d@, etym: None },
        RawEntry::Rich { e, d } => DefModel {
            def: d@,
            etym: if e@.len() > 0 {
                Some(e@)
            } else {
                None
            },
        },
    }
}

impl Def {
    /// The content of a data file's value.
    pub fn from_raw(r: RawEntry) -> (d: Def)
        ensures
            d@ == content_of(r),
    {
        match r {
            RawEntry::Plain(d) => Def { def: d, etym: None },
            RawEntry::Rich { e, d } => {
                if e.as_str().is_empty() {
                    Def { def: d, etym: None }
                } else {
                    Def { def: d, etym: Some(e) }
                }
            },
        }
    }
}

/// A character without its accent. `ñ` and `ç` are letters of their own and
/// stay.
pub open spec fn plain(c: char) -> char {
    match c {
        'á' | 'à' | 'ä' | 'â' | 'ã' => 'a',
        'é' | 'è' | 'ë' | 'ê' => 'e',
        'í' | 'ì' | 'ï' | 'î' => 'i',
        'ó' | 'ò' | 'ö' | 'ô' | 'õ' => 'o',
        'ú' | 'ù' | 'ü' | 'û' => 'u',
        c => c,
    }
}

/// A text without its accents.
pub open spec fn folded(s: Seq<char>) -> Seq<char> {
    s.map_values(|c: char| plain(c))
}

fn plain_char(c: char) -> (r: char)
    ensures
        r == plain(c),
{
    match c {
        'á' | 'à' | 'ä' | 'â' | 'ã' => 'a',
        'é' | 'è' | 'ë' | 'ê' => 'e',
        'í' | 'ì' | 'ï' | 'î' => 'i',
        'ó' | 'ò' | 'ö' | 'ô' | 'õ' => 'o',
        'ú' | 'ù' | 'ü' | 'û' => 'u',
        c => c,
    }
}

/// Strip the accents of a text.
pub fn fold_accents(s: &str) -> (r: String)
    ensures
        r@ == folded(s@),
{
    let v = text::chars_of(s);
    let mut r = String::new();
    for i in 0..v.len()
        invariant
            v@ == s@,
            r@ == folded(s@).take(i as int),
    {
        r.push(plain_char(v[i]));
        assert(r@ == folded(s@).take(i + 1));
    }
    assert(folded(s@).take(s@.len() as int) == folded(s@));
    r
}

/// Folding twice is folding once, and `ñ` and `ç` are never folded.
pub proof fn law_folding_is_idempotent(s: Seq<char>)
    ensures
        folded(folded(s)) == folded(s),
        plain('ñ') == 'ñ',
        plain('ç') == 'ç',
{
    assert forall|i: int| 0 <= i < s.len() implies plain(plain(s[i])) == #[trigger] plain(
        s[i],
    ) by {}
    assert(folded(folded(s)) == folded(s));
}

/// One loaded language.
pub struct LangData {
    pub label: &'static str,
    /// Lowercase headword to content.
    pub map: StringHashMap<Def>,
    /// Headword without accents to headword, for those that have any.
    pub fold: StringHashMap<String>,
}

/// The contents of a data file: lowercase headwords, the last value of each.
pub open spec fn contents(raw: Seq<(String, RawEntry)>) -> Map<Seq<char>, DefModel>
    decreases raw.len(),
{
    if raw.len() == 0 {
        Map::empty()
    } else {
        contents(raw.drop_last()).insert(text::lowercase(raw.last().0@), content_of(raw.last().1))
    }
}

/// The accented headwords of a data file by their form without accents, the
/// first of each.
pub open spec fn accented(raw: Seq<(String, RawEntry)>) -> Map<Seq<char>, Seq<char>>
    decreases raw.len(),
{
    if raw.len() == 0 {
        Map::empty()
    } else {
        let before = accented(raw.drop_last());
        let key = text::lowercase(raw.last().0@);
        if folded(key) != key && !before.contains_key(folded(key)) {
            before.insert(folded(key), key)
        } else {
            before
        }
    }
}

impl LangData {
    /// Headword to content, as plain text.
    pub open spec fn words(self) -> Map<Seq<char>, DefModel> {
        Map::new(|k: Seq<char>| self.map@.contains_key(k), |k: Seq<char>| self.map@[k]@)
    }

    /// Headword without accents to headword, as plain text.
    pub open spec fn folds(self) -> Map<Seq<char>, Seq<char>> {
        Map::new(|k: Seq<char>| self.fold@.contains_key(k), |k: Seq<char>| self.fold@[k]@)
    }

    /// The content that a lowercase word has: an exact headword wins; failing
    /// that, one with the same form without accents, an accented one first.
    pub open spec fn content(self, key: Seq<char>) -> Option<DefModel> {
        if self.words().contains_key(key) {
            Some(self.words()[key])
        } else if self.folds().contains_key(folded(key)) && self.words().contains_key(
            self.folds()[folded(key)],
        ) {
            Some(self.words()[self.folds()[folded(key)]])
        } else if self.words().contains_key(folded(key)) {
            Some(self.words()[folded(key)])
        } else {
            None
        }
    }

    /// A language from the entries of its data file, in the order in which they
    /// were read.
    pub fn new(label: &'static str, raw: Vec<(String, RawEntry)>) -> (r: LangData)
        ensures
            r.label@ == label@,
            r.words() == contents(raw@),
            r.folds() == accented(raw@),
    {
        let ghost all = raw@;
        let map: StringHashMap<Def> = StringHashMap::new();
        let fold: StringHashMap<String> = StringHashMap::new();
        let mut lang = LangData { label, map, fold };
        assert(all.take(0) == Seq::<(String, RawEntry)>::empty());
        assert(lang.words() == contents(all.take(0)));
        assert(lang.folds() == accented(all.take(0)));
        let mut rest = raw;
        let ghost mut done: int = 0;
        // The entries are taken from the back of a reversed list, so that each
        // can be moved out.
        let mut turned: Vec<(String, RawEntry)> = Vec::new();
        while rest.len() > 0
            invariant
                turned@ + rest@.reverse() == all.reverse(),
            decreases rest@.len(),
        {
            let ghost was = rest@;
            let ghost t = turned@;
            match rest.pop() {
                Some(p) => {
                    turned.push(p);
                    assert(was.reverse() == seq![p] + rest@.reverse());
                    assert(turned@ + rest@.reverse() == t + was.reverse());
                },
                None => {},
            }
        }
        assert(rest@.reverse() == Seq::<(String, RawEntry)>::empty());
        assert(turned@ == all.reverse());
        while turned.len() > 0
            invariant
                0 <= done <= all.len(),
                turned@ == all.skip(done).reverse(),
                lang.label == label,
                lang.words() == contents(all.take(done)),
                lang.folds() == accented(all.take(done)),
            decreases turned@.len(),
        {
            let ghost was = turned@;
            if let Some((word, value)) = turned.pop() {
                assert(was.last() == all.skip(done)[0]);
                assert(all[done] == (word, value));
                assert(turned@ == all.skip(done + 1).reverse());
                assert(all.take(done + 1).drop_last() == all.take(done));
                assert(all.take(done + 1).last() == all[done]);
                lang.learn(word, value);
                assert(lang.words() == contents(all.take(done + 1)));
                assert(lang.folds() == accented(all.take(done + 1)));
                proof {
                    done = done + 1;
                }
            }
        }
        assert(all.skip(done).len() == 0);
        assert(all.take(done) == all);
        lang
    }

    /// The content of the accented headword with this form without accents.
    fn accented_headword(&self, f: &str) -> (r: Option<&Def>)
        ensures
            match r {
                Some(d) => self.folds().contains_key(f@) && self.words().contains_key(
                    self.folds()[f@],
                ) && d@ == self.words()[self.folds()[f@]],
                None => !(self.folds().contains_key(f@) && self.words().contains_key(
                    self.folds()[f@],
                )),
            },
    {
        match self.fold.get(f) {
            Some(canon) => self.map.get(canon.as_str()),
            None => None,
        }
    }

    fn learn(&mut self, word: String, value: RawEntry)
        ensures
            final(self).label == old(self).label,
            final(self).words() == old(self).words().insert(
                text::lowercase(word@),
                content_of(value),
            ),
            final(self).folds() == ({
                let key = text::lowercase(word@);
                if folded(key) != key && !old(self).folds().contains_key(folded(key)) {
                    old(self).folds().insert(folded(key), key)
                } else {
                    old(self).folds()
                }
            }),
    {
        let key = text::to_lower(word.as_str());
        let f = fold_accents(key.as_str());
        if !text::same(f.as_str(), key.as_str()) && !self.fold.contains_key(f.as_str()) {
            self.fold.insert(f, text::copy_text(key.as_str()));
        }
        let def = Def::from_raw(value);
        self.map.insert(key, def);
    }
}

/// A resident dictionary of several languages, in display order.
pub struct Dict {
    pub langs: Vec<LangData>,
}

/// One language's hit for a word.
#[derive(Debug)]
pub struct Entry<'a> {
    /// The label of the language.
    pub lang: &'static str,
    pub definition: &'a str,
    /// The word's origin, where the data has one.
    pub etymology: Option<&'a str>,
}

/// A hit as plain text.
pub struct DictHit {
    pub lang: Seq<char>,
    pub content: DefModel,
}

impl<'a> View for Entry<'a> {
    type V = DictHit;

    open spec fn view(&self) -> DictHit {
        DictHit {
            lang: self.lang@,
            content: DefModel {
                def: self.definition@,
                etym: match self.etymology {
                    Some(e) => Some(e@),
                    None => None,
                },
            },
        }
    }
}

/// The hits of a lowercase word in the languages, in their order.
pub open spec fn hits(langs: Seq<LangData>, key: Seq<char>) -> Seq<DictHit>
    decreases langs.len(),
{
    if langs.len() == 0 {
        Seq::empty()
    } else {
        let before = hits(langs.drop_last(), key);
        match langs.last().content(key) {
            Some(content) => before.push(DictHit { lang: langs.last().label@, content }),
            None => before,
        }
    }
}

/// The hits of a word as it was typed: its case and the white space around it
/// do not matter, and a blank one has none.
pub open spec fn looked_up(langs: Seq<LangData>, word: Seq<char>) -> Seq<DictHit> {
    let key = text::lowercase(text::trimmed(word));
    if key.len() == 0 {
        Seq::empty()
    } else {
        hits(langs, key)
    }
}

/// The number of headwords in the languages.
pub open spec fn word_count(langs: Seq<LangData>) -> nat
    decreases langs.len(),
{
    if langs.len() == 0 {
        0
    } else {
        word_count(langs.drop_last()) + langs.last().map@.len()
    }
}

proof fn lemma_word_count(langs: Seq<LangData>, n: int)
    requires
        0 <= n <= langs.len(),
    ensures
        word_count(langs.take(n)) <= word_count(langs),
    decreases langs.len() - n,
{
    if n < langs.len() {
        lemma_word_count(langs, n + 1);
        assert(langs.take(n + 1).drop_last() == langs.take(n));
    } else {
        assert(langs.take(n) == langs);
    }
}

/// The hits as plain text.
pub open spec fn entry_models(v: Seq<Entry>) -> Seq<DictHit> {
    Seq::new(v.len(), |i: int| v[i]@)
}

impl Dict {
    /// Every language that defines `word`, in display order.
    pub fn lookup(&self, word: &str) -> (r: Vec<Entry<'_>>)
        ensures
            entry_models(r@) == looked_up(self.langs@, word@),
    {
        let key = text::to_lower(text::trim(word).as_str());
        self.lookup_key(key.as_str())
    }

    /// Every language that defines a word already trimmed and in lower case.
    pub fn lookup_key(&self, key: &str) -> (r: Vec<Entry<'_>>)
        ensures
            entry_models(r@) == (if key@.len() == 0 {
                Seq::empty()
            } else {
                hits(self.langs@, key@)
            }),
    {
        let mut out: Vec<Entry<'_>> = Vec::new();
        assert(entry_models(out@) == Seq::<DictHit>::empty());
        if key.is_empty() {
            return out;
        }
        let f = fold_accents(key);
        assert(self.langs@.take(0) == Seq::<LangData>::empty());
        for i in 0..self.langs.len()
            invariant
                f@ == folded(key@),
                entry_models(out@) == hits(self.langs@.take(i as int), key@),
        {
            let ghost was = entry_models(out@);
            let lang = &self.langs[i];
            assert(self.langs@.take(i + 1).drop_last() == self.langs@.take(i as int));
            assert(self.langs@.take(i + 1).last() == self.langs@[i as int]);
            let def: Option<&Def> = match lang.map.get(key) {
                Some(d) => Some(d),
                None => match lang.accented_headword(f.as_str()) {
                    Some(d) => Some(d),
                    None => lang.map.get(f.as_str()),
                },
            };
            if let Some(d) = def {
                let entry = Entry {
                    lang: lang.label,
                    definition: d.def.as_str(),
                    etymology: match &d.etym {
                        Some(e) => Some(e.as_str()),
                        None => None,
                    },
                };
                assert(entry@.content == lang.content(key@)->Some_0);
                let ghost h = entry@;
                out.push(entry);
                assert(entry_models(out@) == was.push(h));
            }
        }
        assert(self.langs@.take(self.langs@.len() as int) == self.langs@);
        out
    }

    /// The number of headwords in all languages.
    pub fn total_words(&self) -> (r: usize)
        requires
            word_count(self.langs@) <= usize::MAX,
        ensures
            r == word_count(self.langs@),
    {
        let mut n: usize = 0;
        assert(self.langs@.take(0) == Seq::<LangData>::empty());
        for i in 0..self.langs.len()
            invariant
                word_count(self.langs@) <= usize::MAX,
                n == word_count(self.langs@.take(i as int)),
        {
            proof {
                lemma_word_count(self.langs@, i + 1);
            }
            assert(self.langs@.take(i + 1).drop_last() == self.langs@.take(i as int));
            assert(self.langs@.take(i + 1).last() == self.langs@[i as int]);
            n = n + self.langs[i].map.len();
        }
        assert(self.langs@.take(self.langs@.len() as int) == self.langs@);
        n
    }
}

/// A finished load.
pub enum Event {
    /// The dictionary, or why there is none.
    Loaded(Result<Dict, String>),
}

/// The languages that have any headword, in order.
pub open spec fn filled_langs(langs: Seq<LangData>) -> Seq<LangData>
    decreases langs.len(),
{
    if langs.len() == 0 {
        Seq::empty()
    } else if langs.last().map@.len() > 0 {
        filled_langs(langs.drop_last()).push(langs.last())
    } else {
        filled_langs(langs.drop_last())
    }
}

/// Make the dictionary of the languages that were found, leaving out those
/// without a headword. Without any there is only the reason.
pub fn assemble(found: Vec<LangData>) -> (r: Result<Dict, String>)
    ensures
        match r {
            Ok(d) => d.langs@ == filled_langs(found@) && d.langs@.len() > 0,
            Err(e) => filled_langs(found@).len() == 0 && e@
                == "no dictionary data (expected dictionary.json in the data dir)"@,
        },
{
    let ghost all = found@;
    let mut langs = found;
    let mut at: usize = 0;
    assert(all.skip(0) == all);
    assert(all.take(0) == Seq::<LangData>::empty());
    let ghost mut done: int = 0;
    while at < langs.len()
        invariant
            0 <= done <= all.len(),
            at <= langs@.len(),
            langs@.take(at as int) == filled_langs(all.take(done)),
            langs@.skip(at as int) == all.skip(done),
        decreases all.len() - done,
    {
        assert(all.skip(done).len() == langs@.len() - at);
        assert(langs@[at as int] == langs@.skip(at as int)[0]);
        assert(langs@[at as int] == all[done]);
        assert(all.take(done + 1).drop_last() == all.take(done));
        assert(all.take(done + 1).last() == all[done]);
        assert(all.skip(done).drop_first() == all.skip(done + 1));
        let ghost was = langs@;
        if langs[at].map.len() > 0 {
            assert(was.take(at + 1) == was.take(at as int).push(was[at as int]));
            assert(was.skip(at + 1) == was.skip(at as int).drop_first());
            at = at + 1;
        } else {
            langs.remove(at);
            assert(langs@.take(at as int) == was.take(at as int));
            assert(langs@.skip(at as int) == was.skip(at as int).drop_first());
        }
        proof {
            done = done + 1;
        }
    }
    assert(langs@.skip(at as int).len() == 0);
    assert(all.take(done) == all);
    assert(langs@.take(at as int) == langs@);
    if langs.len() == 0 {
        return Err(
            text::copy_text("no dictionary data (expected dictionary.json in the data dir)"),
        );
    }
    Ok(Dict { langs })
}

/// Where a language's data file is: where its environment variable says, else
/// in the data directory.
pub fn dict_path(file: &str, overriding: &Option<String>, data_dir: &str) -> (r: String)
    ensures
        r@ == (match text::text_in(*overriding) {
            Some(p) => if p.len() > 0 {
                p
            } else {
                text::below(data_dir@, file@)
            },
            None => text::below(data_dir@, file@),
        }),
{
    if let Some(p) = overriding {
        if !p.as_str().is_empty() {
            return text::copy_text(p.as_str());
        }
    }
    text::join_path(data_dir, file)
}

/// An exact headword wins over one that differs by its accents.
pub proof fn law_an_exact_headword_wins(lang: LangData, key: Seq<char>)
    requires
        lang.words().contains_key(key),
    ensures
        lang.content(key) == Some(lang.words()[key]),
{
}

proof fn lemma_accented(raw: Seq<(String, RawEntry)>, f: Seq<char>)
    ensures
        accented(raw).contains_key(f) ==> contents(raw).contains_key(accented(raw)[f]) && folded(
            accented(raw)[f],
        ) == f,
        forall|k: Seq<char>|
            #![trigger contents(raw).contains_key(k)]
            contents(raw).contains_key(k) && folded(k) == f && k != f ==> accented(
                raw,
            ).contains_key(f),
    decreases raw.len(),
{
    if raw.len() > 0 {
        let d = raw.drop_last();
        lemma_accented(d, f);
        assert forall|k: Seq<char>|
            #![trigger contents(raw).contains_key(k)]
            contents(raw).contains_key(k) && folded(k) == f && k != f implies accented(
            raw,
        ).contains_key(f) by {
            if k != text::lowercase(raw.last().0@) {
                assert(contents(d).contains_key(k));
            }
        }
    }
}

/// Accents do not matter: a word has a content exactly where some headword is
/// the same without accents, and the content is that of such a headword.
pub proof fn law_accents_do_not_matter(
    lang: LangData,
    raw: Seq<(String, RawEntry)>,
    query: Seq<char>,
)
    requires
        lang.words() == contents(raw),
        lang.folds() == accented(raw),
    ensures
        forall|word: Seq<char>| #[trigger]
            contents(raw).contains_key(word) && folded(word) == folded(query) ==> lang.content(
                query,
            ) is Some,
        lang.content(query) matches Some(c) ==> exists|word: Seq<char>| #[trigger]
            contents(raw).contains_key(word) && folded(word) == folded(query) && contents(
                raw,
            )[word] == c,
{
    let f = folded(query);
    lemma_accented(raw, f);
    law_folding_is_idempotent(query);
    if lang.content(query) is Some {
        let word = if contents(raw).contains_key(query) {
            query
        } else if accented(raw).contains_key(f) {
            accented(raw)[f]
        } else {
            f
        };
        assert(contents(raw).contains_key(word) && folded(word) == f);
    }
}

// ---------------------------------------------------------------------------
// What folding and looking up are for
// ---------------------------------------------------------------------------

/// Whether `c` is the vowel `d` with an accent on it.
pub open spec fn accent_on(c: char, d: char) -> bool {
    ||| d == 'a' && (c == 'á' || c == 'à' || c == 'ä' || c == 'â' || c == 'ã')
    ||| d == 'e' && (c == 'é' || c == 'è' || c == 'ë' || c == 'ê')
    ||| d == 'i' && (c == 'í' || c == 'ì' || c == 'ï' || c == 'î')
    ||| d == 'o' && (c == 'ó' || c == 'ò' || c == 'ö' || c == 'ô' || c == 'õ')
    ||| d == 'u' && (c == 'ú' || c == 'ù' || c == 'ü' || c == 'û')
}

/// Every accented vowel becomes its bare vowel, and every other character stays.
pub proof fn law_accented_vowels_become_bare(s: Seq<char>, i: int)
    requires
        0 <= i < s.len(),
    ensures
        folded(s).len() == s.len(),
        forall|d: char| accent_on(s[i], d) ==> folded(s)[i] == d,
        (forall|d: char| !accent_on(s[i], d)) ==> folded(s)[i] == s[i],
        forall|d: char| !accent_on(folded(s)[i], d),
{
    let c = s[i];
    assert(folded(s)[i] == plain(c));
    assert(accent_on('á', 'a') && accent_on('à', 'a') && accent_on('ä', 'a') && accent_on('â', 'a')
        && accent_on('ã', 'a'));
    assert(accent_on('é', 'e') && accent_on('è', 'e') && accent_on('ë', 'e') && accent_on(
        'ê',
        'e',
    ));
    assert(accent_on('í', 'i') && accent_on('ì', 'i') && accent_on('ï', 'i') && accent_on(
        'î',
        'i',
    ));
    assert(accent_on('ó', 'o') && accent_on('ò', 'o') && accent_on('ö', 'o') && accent_on('ô', 'o')
        && accent_on('õ', 'o'));
    assert(accent_on('ú', 'u') && accent_on('ù', 'u') && accent_on('ü', 'u') && accent_on(
        'û',
        'u',
    ));
}

/// A word typed without some or all of its accents has a content wherever the word
/// is a headword.
pub proof fn law_a_query_without_accents_finds_the_word(
    lang: LangData,
    raw: Seq<(String, RawEntry)>,
    i: int,
    query: Seq<char>,
)
    requires
        lang.words() == contents(raw),
        lang.folds() == accented(raw),
        0 <= i < raw.len(),
        query.len() == text::lowercase(raw[i].0@).len(),
        forall|j: int|
            0 <= j < query.len() ==> #[trigger] query[j] == text::lowercase(raw[i].0@)[j]
                || accent_on(text::lowercase(raw[i].0@)[j], query[j]),
    ensures
        lang.content(query) is Some,
{
    let word = text::lowercase(raw[i].0@);
    assert forall|j: int| 0 <= j < query.len() implies folded(query)[j] == folded(word)[j] by {
        law_accented_vowels_become_bare(query, j);
        law_accented_vowels_become_bare(word, j);
        assert(query[j] == word[j] || accent_on(word[j], query[j]));
        assert(folded(query)[j] == plain(query[j]) && folded(word)[j] == plain(word[j]));
    }
    assert(folded(query) == folded(word));
    lemma_contents(raw, i);
    law_accents_do_not_matter(lang, raw, query);
    assert(contents(raw).contains_key(word) && folded(word) == folded(query));
}

proof fn lemma_contents(raw: Seq<(String, RawEntry)>, i: int)
    requires
        0 <= i < raw.len(),
    ensures
        contents(raw).contains_key(text::lowercase(raw[i].0@)),
        (forall|k: int|
            i < k < raw.len() ==> text::lowercase((#[trigger] raw[k]).0@) != text::lowercase(
                raw[i].0@,
            )) ==> contents(raw)[text::lowercase(raw[i].0@)] == content_of(raw[i].1),
    decreases raw.len(),
{
    let d = raw.drop_last();
    if i < d.len() {
        assert(forall|k: int| 0 <= k < d.len() ==> raw[k] == d[k]);
        lemma_contents(d, i);
        assert(raw.last() == raw[raw.len() - 1]);
    }
}

/// A headword has the definition that the data file gives it last, and an origin
/// where that gives one that is not empty. Only what the data file holds is a
/// headword.
pub proof fn law_a_headword_has_its_own_content(raw: Seq<(String, RawEntry)>, i: int)
    requires
        0 <= i < raw.len(),
        forall|k: int|
            i < k < raw.len() ==> text::lowercase((#[trigger] raw[k]).0@) != text::lowercase(
                raw[i].0@,
            ),
    ensures
        ({
            let c = contents(raw)[text::lowercase(raw[i].0@)];
            &&& contents(raw).contains_key(text::lowercase(raw[i].0@))
            &&& raw[i].1 matches RawEntry::Plain(d) ==> c.def == d@ && c.etym is None
            &&& raw[i].1 matches RawEntry::Rich { e, d } ==> c.def == d@ && (e@.len() == 0
                ==> c.etym is None) && (e@.len() > 0 ==> c.etym == Some(e@))
        }),
        forall|w: Seq<char>| #[trigger]
            contents(raw).contains_key(w) ==> exists|k: int|
                0 <= k < raw.len() && text::lowercase((#[trigger] raw[k]).0@) == w,
{
    lemma_contents(raw, i);
    assert forall|w: Seq<char>| #[trigger] contents(raw).contains_key(w) implies exists|k: int|
        0 <= k < raw.len() && text::lowercase((#[trigger] raw[k]).0@) == w by {
        lemma_headword_is_read(raw, w);
    }
}

proof fn lemma_headword_is_read(raw: Seq<(String, RawEntry)>, w: Seq<char>)
    requires
        contents(raw).contains_key(w),
    ensures
        exists|k: int| 0 <= k < raw.len() && text::lowercase((#[trigger] raw[k]).0@) == w,
    decreases raw.len(),
{
    if raw.len() > 0 {
        let d = raw.drop_last();
        if text::lowercase(raw.last().0@) == w {
            assert(raw[raw.len() - 1] == raw.last());
        } else {
            lemma_headword_is_read(d, w);
            let k = choose|k: int| 0 <= k < d.len() && text::lowercase((#[trigger] d[k]).0@) == w;
            assert(raw[k] == d[k]);
        }
    }
}

/// Of several headwords that are one word without their accents, a query that is none
/// of them gets the first accented one that the data file holds; the bare one counts
/// only where there is no accented one.
pub proof fn law_the_first_accented_headword_answers(
    lang: LangData,
    raw: Seq<(String, RawEntry)>,
    i: int,
    query: Seq<char>,
)
    requires
        lang.words() == contents(raw),
        lang.folds() == accented(raw),
        0 <= i < raw.len(),
        !contents(raw).contains_key(query),
        folded(text::lowercase(raw[i].0@)) == folded(query),
        text::lowercase(raw[i].0@) != folded(query),
        forall|k: int|
            0 <= k < i ==> folded(text::lowercase((#[trigger] raw[k]).0@)) != folded(query)
                || text::lowercase(raw[k].0@) == folded(query),
    ensures
        lang.content(query) == Some(contents(raw)[text::lowercase(raw[i].0@)]),
{
    lemma_contents(raw, i);
    lemma_first_accented(raw, i, folded(query));
}

proof fn lemma_first_accented(raw: Seq<(String, RawEntry)>, i: int, f: Seq<char>)
    requires
        0 <= i < raw.len(),
        folded(text::lowercase(raw[i].0@)) == f,
        text::lowercase(raw[i].0@) != f,
        forall|k: int|
            0 <= k < i ==> folded(text::lowercase((#[trigger] raw[k]).0@)) != f || text::lowercase(
                raw[k].0@,
            ) == f,
    ensures
        accented(raw).contains_key(f),
        accented(raw)[f] == text::lowercase(raw[i].0@),
    decreases raw.len(),
{
    let d = raw.drop_last();
    assert(forall|k: int| 0 <= k < d.len() ==> raw[k] == d[k]);
    if i < d.len() {
        lemma_first_accented(d, i, f);
    } else {
        assert(raw.last() == raw[i]);
        lemma_none_accented(d, f);
    }
}

proof fn lemma_none_accented(raw: Seq<(String, RawEntry)>, f: Seq<char>)
    requires
        forall|k: int|
            0 <= k < raw.len() ==> folded(text::lowercase((#[trigger] raw[k]).0@)) != f
                || text::lowercase(raw[k].0@) == f,
    ensures
        !accented(raw).contains_key(f),
    decreases raw.len(),
{
    if raw.len() > 0 {
        let d = raw.drop_last();
        assert(forall|k: int| 0 <= k < d.len() ==> raw[k] == d[k]);
        assert(raw.last() == raw[raw.len() - 1]);
        lemma_none_accented(d, f);
    }
}

/// A word's hits are one for each language that has a content for it, in the order
/// of the languages and each under its language's label. `at` says which they are.
pub proof fn law_every_language_answers_once(langs: Seq<LangData>, key: Seq<char>) -> (at: Seq<int>)
    ensures
        at.len() == hits(langs, key).len(),
        forall|a: int|
            0 <= a < at.len() ==> 0 <= (#[trigger] at[a]) < langs.len() && hits(langs, key)[a].lang
                == langs[at[a]].label@ && langs[at[a]].content(key) == Some(
                hits(langs, key)[a].content,
            ),
        forall|a: int, b: int| 0 <= a < b < at.len() ==> #[trigger] at[a] < #[trigger] at[b],
        forall|i: int|
            0 <= i < langs.len() && (#[trigger] langs[i]).content(key) is Some ==> at.contains(i),
    decreases langs.len(),
{
    if langs.len() == 0 {
        Seq::empty()
    } else {
        let d = langs.drop_last();
        let n = langs.len() - 1;
        let was = law_every_language_answers_once(d, key);
        assert(forall|i: int| 0 <= i < n ==> langs[i] == d[i]);
        let now = if langs[n].content(key) is Some {
            was.push(n)
        } else {
            was
        };
        assert forall|i: int|
            0 <= i < langs.len() && (#[trigger] langs[i]).content(key) is Some implies now.contains(
            i,
        ) by {
            if i < n {
                assert(d[i].content(key) is Some);
                let a = choose|a: int| 0 <= a < was.len() && was[a] == i;
                assert(now[a] == i);
            } else {
                assert(now[was.len() as int] == n);
            }
        }
        now
    }
}

/// White space around a word and the case of its letters do not matter to a look-up,
/// and a blank word has no hits.
pub proof fn law_a_look_up_reads_the_trimmed_lowercase_word(
    langs: Seq<LangData>,
    lead: Seq<char>,
    word: Seq<char>,
    trail: Seq<char>,
)
    requires
        forall|i: int| 0 <= i < lead.len() ==> text::is_space(#[trigger] lead[i]),
        forall|i: int| 0 <= i < trail.len() ==> text::is_space(#[trigger] trail[i]),
        text::is_trimmed(word),
    ensures
        text::lowercase(word).len() > 0 ==> looked_up(langs, lead + word + trail) == hits(
            langs,
            text::lowercase(word),
        ),
        text::lowercase(word).len() == 0 ==> looked_up(langs, lead + word + trail).len() == 0,
{
    text::law_trimming_takes_the_blanks_around(lead, word, trail);
}

/// A dictionary holds every language that has a headword, in order, and no other.
/// `at` says which they are.
pub proof fn law_languages_without_words_are_left_out(langs: Seq<LangData>) -> (at: Seq<int>)
    ensures
        at.len() == filled_langs(langs).len(),
        forall|a: int|
            0 <= a < at.len() ==> 0 <= (#[trigger] at[a]) < langs.len() && filled_langs(langs)[a]
                == langs[at[a]] && langs[at[a]].map@.len() > 0,
        forall|a: int, b: int| 0 <= a < b < at.len() ==> #[trigger] at[a] < #[trigger] at[b],
        forall|i: int|
            0 <= i < langs.len() && (#[trigger] langs[i]).map@.len() > 0 ==> at.contains(i),
    decreases langs.len(),
{
    if langs.len() == 0 {
        Seq::empty()
    } else {
        let d = langs.drop_last();
        let n = langs.len() - 1;
        let was = law_languages_without_words_are_left_out(d);
        assert(forall|i: int| 0 <= i < n ==> langs[i] == d[i]);
        let now = if langs[n].map@.len() > 0 {
            was.push(n)
        } else {
            was
        };
        assert forall|i: int|
            0 <= i < langs.len() && (#[trigger] langs[i]).map@.len() > 0 implies now.contains(
            i,
        ) by {
            if i < n {
                assert(d[i].map@.len() > 0);
                let a = choose|a: int| 0 <= a < was.len() && was[a] == i;
                assert(now[a] == i);
            } else {
                assert(now[was.len() as int] == n);
            }
        }
        now
    }
}

/// The words of a language more are as many more as it holds.
pub proof fn law_words_add_up(langs: Seq<LangData>, more: LangData)
    ensures
        word_count(Seq::empty()) == 0,
        word_count(langs.push(more)) == word_count(langs) + more.map@.len(),
{
    assert(langs.push(more).drop_last() == langs);
}

/// A content and a hit are seen as their texts, and hits one by one.
pub proof fn law_hits_are_seen_as_they_are(d: Def, hits: Seq<Entry>, i: int)
    ensures
        d@.def == d.def@,
        d@.etym == text::text_in(d.etym),
        entry_models(hits).len() == hits.len(),
        0 <= i < hits.len() ==> {
            let m = entry_models(hits)[i];
            &&& m.lang == hits[i].lang@
            &&& m.content.def == hits[i].definition@
            &&& hits[i].etymology matches Some(e) ==> m.content.etym == Some(e@)
            &&& hits[i].etymology is None ==> m.content.etym is None
        },
{
}

} // verus!
