//! Fuzzy matching over indexed applications, backed by `nucleo_matcher`.
use vstd::prelude::*;
use crate::order;
use crate::text;
use nucleo_matcher::chars;
use nucleo_matcher::pattern::{CaseMatching, Normalization, Pattern};
use nucleo_matcher::{Config, Matcher, Utf32Str};

verus! {

/// The matcher's scratch memory and configuration.
#[verifier::external_type_specification]
#[verifier::external_body]
pub struct ExMatcher(Matcher);

/// The heaviest word that is matched. The matcher adds up the score of one word
/// in 16 bits: with the default configuration the first character of a word
/// scores at most 36 and each further one at most 26, so that a word of this
/// length scores at most 65530.
pub const MAX_WORD: usize = 2_520;

/// The longest query that is matched, in characters. The scores of its words add
/// up in 32 bits, and a character weighs at most 2 and scores at most 36 for each
/// unit of weight.
pub const MAX_QUERY: usize = 59_652_323;

/// The lower case of a character, by simple Unicode case folding.
pub uninterp spec fn folded_char(c: char) -> char;

/// `nucleo_matcher::chars::to_lower_case`: looks the character up in a fixed
/// table of simple case folding.
#[verifier::external_body]
fn fold_char(c: char) -> (r: char)
    ensures
        r == folded_char(c),
{
    chars::to_lower_case(c)
}

/// A character without its accents.
pub uninterp spec fn bare_char(c: char) -> char;

/// `nucleo_matcher::chars::normalize`: looks a Latin character up in fixed tables
/// of what is left of it without its accents; another stays as it is.
#[verifier::external_body]
fn strip_char(c: char) -> (r: char)
    ensures
        r == bare_char(c),
{
    chars::normalize(c)
}

/// Whether `char::is_lowercase` says so of a character.
pub uninterp spec fn lower_char(c: char) -> bool;

/// `char::is_lowercase`: whether a character has the Unicode property of a lower
/// case letter.
#[verifier::external_body]
fn is_lower(c: char) -> (r: bool)
    ensures
        r == lower_char(c),
{
    c.is_lowercase()
}

/// What `Pattern::score` gives for a query and a text, with smart
/// normalization, case ignored and the default configuration.
pub uninterp spec fn fuzzy_score(query: Seq<char>, text: Seq<char>) -> Option<u32>;

/// `Matcher::new` with the default configuration: fresh scratch memory.
#[verifier::external_body]
fn new_matcher() -> Matcher {
    Matcher::new(Config::DEFAULT)
}

/// `Pattern::parse` and `Pattern::score`: how well `query` matches `text`,
/// `None` where it does not. The configuration is reset, so that the result
/// depends on the two texts alone. The outside code panics on a text of more
/// than `u32::MAX` bytes, where the product of a text's length and a word's
/// leaves `usize`, where the score of one word leaves 16 bits or that of the
/// query 32, and on a text that starts a match with a lower case letter which
/// folding changes, where the query keeps its accents.
#[verifier::external_body]
fn score_of(matcher: &mut Matcher, query: &str, text: &str) -> (r: Option<u32>)
    requires
        parsable(query@),
        scorable(query@, text@),
    ensures
        r == fuzzy_score(query@, text@),
{
    matcher.config = Config::DEFAULT;
    let mut buf = Vec::new();
    let pattern = Pattern::parse(query, CaseMatching::Ignore, Normalization::Smart);
    pattern.score(Utf32Str::new(text, &mut buf), matcher)
}

/// `Pattern::match_list`: the texts that the query matches with their scores,
/// the best first; texts of one score keep their order. It scores as
/// `Pattern::score` does, under the same bounds.
#[verifier::external_body]
fn match_list<'a>(matcher: &mut Matcher, query: &str, haystack: &[&'a str]) -> (r: Vec<(&'a str, u32)>)
    requires
        parsable(query@),
        searchable(query@, haystack@),
    ensures
        r@.len() == ranked(query@, haystack@).len(),
        forall|k: int|
            0 <= k < r@.len() ==> {
                let i = ranked(query@, haystack@)[k] as int;
                &&& (#[trigger] r@[k]).0@ == haystack@[i]@
                &&& Some(r@[k].1) == fuzzy_score(query@, haystack@[i]@)
            },
{
    matcher.config = Config::DEFAULT;
    let pattern = Pattern::parse(query, CaseMatching::Ignore, Normalization::Smart);
    pattern.match_list(haystack.iter().copied(), matcher)
}

/// Whether a space at the end of `query` ends a word: it is not escaped.
pub open spec fn ends_word(query: Seq<char>) -> bool {
    query.last() == ' ' && !(query.len() > 1 && query[query.len() - 2] == '\\')
}

/// What the word at the end of `query` weighs: one for each character, and two
/// for a backslash, which the matcher can take twice.
pub open spec fn word_weight(query: Seq<char>) -> int
    decreases query.len(),
{
    if query.len() == 0 || ends_word(query) {
        0
    } else {
        word_weight(query.drop_last()) + (if query.last() == '\\' {
            2int
        } else {
            1
        })
    }
}

/// Whether a query is short enough to be matched, in all and word by word.
pub open spec fn parsable(query: Seq<char>) -> bool {
    &&& query.len() <= MAX_QUERY
    &&& forall|n: int|
        0 <= n <= query.len() ==> word_weight(#[trigger] query.take(n)) <= MAX_WORD
}

/// Whether a query keeps its accents: in lower case, it has a letter with one.
pub open spec fn keeps_accents(query: Seq<char>) -> bool {
    exists|i: int| 0 <= i < query.len() && is_accented(#[trigger] query[i])
}

/// Whether the lower case of a letter has an accent.
pub open spec fn is_accented(c: char) -> bool {
    bare_char(folded_char(c)) != folded_char(c)
}

/// Whether a letter is lower case, folds to another, and folds to what some
/// letter of the query folds to.
pub open spec fn is_odd(query: Seq<char>, c: char) -> bool {
    &&& lower_char(c)
    &&& folded_char(c) != c
    &&& exists|j: int| 0 <= j < query.len() && folded_char(#[trigger] query[j]) == folded_char(c)
}

/// Whether a text has an odd letter for the query.
pub open spec fn has_odd(query: Seq<char>, text: Seq<char>) -> bool {
    exists|i: int| 0 <= i < text.len() && is_odd(query, #[trigger] text[i])
}

/// Whether a text can be scored for a query: it is short enough, and has no odd
/// letter where the query keeps its accents.
pub open spec fn scorable(query: Seq<char>, text: Seq<char>) -> bool {
    &&& vstd::utf8::encode_utf8(text).len() <= u32::MAX
    &&& vstd::utf8::encode_utf8(text).len() <= usize::MAX / MAX_WORD
    &&& !(keeps_accents(query) && has_odd(query, text))
}

/// Whether every text can be scored.
pub open spec fn searchable(query: Seq<char>, haystack: Seq<&str>) -> bool {
    forall|i: int| 0 <= i < haystack.len() ==> scorable(query, (#[trigger] haystack[i])@)
}

/// Whether a query can be matched against a haystack: it is empty, which needs
/// no matching, or it can be parsed and every text can be scored.
pub open spec fn fits(query: Seq<char>, haystack: Seq<&str>) -> bool {
    query.len() == 0 || (parsable(query) && searchable(query, haystack))
}

fn can_parse(query: &[char]) -> (r: bool)
    ensures
        r == parsable(query@),
{
    let n: usize = query.len();
    if n > MAX_QUERY {
        return false;
    }
    let mut weight: usize = 0;
    assert(query@.take(0).len() == 0);
    for i in 0..n
        invariant
            n == query@.len(),
            weight == word_weight(query@.take(i as int)),
            forall|k: int|
                0 <= k <= i ==> word_weight(#[trigger] query@.take(k)) <= MAX_WORD,
    {
        let ghost next = query@.take(i + 1);
        assert(next.drop_last() == query@.take(i as int));
        assert(next.last() == query@[i as int]);
        assert(i > 0 ==> next[next.len() - 2] == query@[i - 1]);
        if query[i] == ' ' && !(i > 0 && query[i - 1] == '\\') {
            weight = 0;
        } else if query[i] == '\\' {
            weight = weight + 2;
        } else {
            weight = weight + 1;
        }
        assert(weight == word_weight(next));
        if weight > MAX_WORD {
            return false;
        }
    }
    true
}

fn has_accents(query: &[char]) -> (r: bool)
    ensures
        r == keeps_accents(query@),
{
    for i in 0..query.len()
        invariant
            forall|k: int| 0 <= k < i ==> !is_accented(#[trigger] query@[k]),
    {
        let c = fold_char(query[i]);
        if strip_char(c) != c {
            assert(is_accented(query@[i as int]));
            return true;
        }
    }
    false
}

fn is_odd_char(query: &[char], c: char) -> (r: bool)
    ensures
        r == is_odd(query@, c),
{
    if !is_lower(c) {
        return false;
    }
    let f = fold_char(c);
    if f == c {
        return false;
    }
    for j in 0..query.len()
        invariant
            f == folded_char(c),
            lower_char(c),
            f != c,
            forall|k: int| 0 <= k < j ==> folded_char(#[trigger] query@[k]) != f,
    {
        if fold_char(query[j]) == f {
            assert(folded_char(query@[j as int]) == f);
            return true;
        }
    }
    false
}

fn can_score(query: &[char], accents: bool, s: &str) -> (r: bool)
    requires
        accents == keeps_accents(query@),
    ensures
        r == scorable(query@, s@),
{
    let bytes = s.as_bytes();
    let size: usize = bytes.len();
    if size > u32::MAX as usize || size > usize::MAX / MAX_WORD {
        return false;
    }
    if accents {
        let letters = text::chars_of(s);
        for i in 0..letters.len()
            invariant
                letters@ == s@,
                accents == keeps_accents(query@),
                accents,
                forall|k: int| 0 <= k < i ==> !is_odd(query@, #[trigger] letters@[k]),
        {
            if is_odd_char(query, letters[i]) {
                assert(is_odd(query@, s@[i as int]));
                return false;
            }
        }
    }
    true
}

/// Whether a query can be matched against a haystack.
pub fn can_match(query: &str, haystack: &[&str]) -> (r: bool)
    ensures
        r == fits(query@, haystack@),
{
    let letters = text::chars_of(query);
    if letters.len() == 0 {
        return true;
    }
    if !can_parse(letters.as_slice()) {
        return false;
    }
    let accents = has_accents(letters.as_slice());
    for i in 0..haystack.len()
        invariant
            letters@ == query@,
            query@.len() > 0,
            accents == keeps_accents(query@),
            forall|k: int| 0 <= k < i ==> scorable(query@, (#[trigger] haystack@[k])@),
    {
        if !can_score(letters.as_slice(), accents, haystack[i]) {
            assert(!scorable(query@, haystack@[i as int]@));
            return false;
        }
    }
    true
}

/// Whether text `i` ranks before text `j`: it matches with a higher score, or
/// it matches and the other does not.
pub open spec fn ranks_before(query: Seq<char>, haystack: Seq<&str>) -> spec_fn(int, int) -> bool {
    |i: int, j: int|
        match (fuzzy_score(query, haystack[i]@), fuzzy_score(query, haystack[j]@)) {
            (Some(a), Some(b)) => a > b,
            (Some(_), None) => true,
            _ => false,
        }
}

/// How many of the first `n` texts the query matches.
pub open spec fn matches_below(query: Seq<char>, haystack: Seq<&str>, n: int) -> int
    decreases n,
{
    if n <= 0 {
        0
    } else {
        matches_below(query, haystack, n - 1) + (if fuzzy_score(query, haystack[n - 1]@) is Some {
            1int
        } else {
            0
        })
    }
}

/// The positions of the texts that the query matches, the best first and those
/// of one score in their own order.
pub open spec fn ranked(query: Seq<char>, haystack: Seq<&str>) -> Seq<usize> {
    order::sorted_positions(haystack.len() as int, ranks_before(query, haystack)).take(
        matches_below(query, haystack, haystack.len() as int),
    )
}

/// A reusable fuzzy searcher, which keeps the matcher's scratch memory.
pub struct Searcher {
    matcher: Matcher,
}

impl Searcher {
    /// A searcher for items of a user interface.
    pub fn new() -> Searcher {
        Searcher { matcher: new_matcher() }
    }

    /// Rank `haystack` against `query`, the best score first. An empty query
    /// returns every text unranked, with score 0.
    pub fn search<'a>(&mut self, query: &str, haystack: &[&'a str]) -> (r: Vec<(&'a str, u32)>)
        requires
            fits(query@, haystack@),
        ensures
            query@.len() == 0 ==> r@ == Seq::new(haystack@.len(), |i: int| (haystack@[i], 0u32)),
            query@.len() > 0 ==> r@.len() == ranked(query@, haystack@).len() && forall|k: int|
                0 <= k < r@.len() ==> {
                    let i = ranked(query@, haystack@)[k] as int;
                    &&& (#[trigger] r@[k]).0@ == haystack@[i]@
                    &&& Some(r@[k].1) == fuzzy_score(query@, haystack@[i]@)
                },
    {
        if query.is_empty() {
            let mut r: Vec<(&'a str, u32)> = Vec::new();
            for i in 0..haystack.len()
                invariant
                    r@ == Seq::new(i as nat, |k: int| (haystack@[k], 0u32)),
            {
                r.push((haystack[i], 0));
            }
            return r;
        }
        match_list(&mut self.matcher, query, haystack)
    }

    /// Rank `haystack` against `query` as `search` does, `None` where they cannot
    /// be matched.
    pub fn try_search<'a>(&mut self, query: &str, haystack: &[&'a str]) -> (r: Option<
        Vec<(&'a str, u32)>,
    >)
        ensures
            r is Some <==> fits(query@, haystack@),
            r is Some ==> {
                let v = r->Some_0@;
                &&& query@.len() == 0 ==> v == Seq::new(
                    haystack@.len(),
                    |i: int| (haystack@[i], 0u32),
                )
                &&& query@.len() > 0 ==> v.len() == ranked(query@, haystack@).len() && forall|k: int|
                    0 <= k < v.len() ==> {
                        let i = ranked(query@, haystack@)[k] as int;
                        &&& (#[trigger] v[k]).0@ == haystack@[i]@
                        &&& Some(v[k].1) == fuzzy_score(query@, haystack@[i]@)
                    }
            },
    {
        if can_match(query, haystack) {
            Some(self.search(query, haystack))
        } else {
            None
        }
    }

    /// Rank `haystack` against `query` by position, the best first; texts that
    /// do not match are left out. An empty query keeps every position.
    pub fn rank(&mut self, query: &str, haystack: &[&str]) -> (r: Vec<usize>)
        requires
            fits(query@, haystack@),
        ensures
            query@.len() == 0 ==> r@ == Seq::new(haystack@.len(), |i: int| i as usize),
            query@.len() > 0 ==> r@ == ranked(query@, haystack@),
    {
        if query.is_empty() {
            let mut r: Vec<usize> = Vec::new();
            for i in 0..haystack.len()
                invariant
                    r@ == Seq::new(i as nat, |k: int| k as usize),
            {
                r.push(i);
            }
            return r;
        }
        let mut scores: Vec<Option<u32>> = Vec::new();
        for i in 0..haystack.len()
            invariant
                parsable(query@),
                searchable(query@, haystack@),
                scores@ == Seq::new(i as nat, |k: int| fuzzy_score(query@, haystack@[k]@)),
        {
            scores.push(score_of(&mut self.matcher, query, haystack[i]));
        }
        rank_scores(&scores, Ghost(query@), Ghost(haystack@))
    }

    /// Rank `haystack` against `query` by position as `rank` does, `None` where
    /// they cannot be matched.
    pub fn try_rank(&mut self, query: &str, haystack: &[&str]) -> (r: Option<Vec<usize>>)
        ensures
            r is Some <==> fits(query@, haystack@),
            r is Some ==> r->Some_0@ == (if query@.len() == 0 {
                Seq::new(haystack@.len(), |i: int| i as usize)
            } else {
                ranked(query@, haystack@)
            }),
    {
        if can_match(query, haystack) {
            Some(self.rank(query, haystack))
        } else {
            None
        }
    }
}

impl Default for Searcher {
    fn default() -> Searcher {
        Searcher::new()
    }
}

/// Whether score `a` comes before score `b`: the higher one, and any before
/// none.
pub open spec fn score_before(scores: Seq<Option<u32>>) -> spec_fn(int, int) -> bool {
    |i: int, j: int|
        match (scores[i], scores[j]) {
            (Some(a), Some(b)) => a > b,
            (Some(_), None) => true,
            _ => false,
        }
}

/// How many scores of the first `n` there are.
pub open spec fn scored_below(scores: Seq<Option<u32>>, n: int) -> int
    decreases n,
{
    if n <= 0 {
        0
    } else {
        scored_below(scores, n - 1) + (if scores[n - 1] is Some {
            1int
        } else {
            0
        })
    }
}

/// The positions that have a score, the highest first and equal ones in their
/// own order.
pub fn rank_by_score(scores: &[Option<u32>]) -> (r: Vec<usize>)
    ensures
        r@ == order::sorted_positions(scores@.len() as int, score_before(scores@)).take(
            scored_below(scores@, scores@.len() as int),
        ),
{
    let ghost lt = score_before(scores@);
    let less = |i: usize, j: usize| -> (b: bool)
        requires
            i < scores@.len(),
            j < scores@.len(),
        ensures
            b == lt(i as int, j as int),
        {
            match scores[i] {
                Some(a) => match scores[j] {
                    Some(b) => a > b,
                    None => true,
                },
                None => false,
            }
        };
    let mut p = order::stable_sort(scores.len(), less, Ghost(lt));
    let mut n: usize = 0;
    for i in 0..scores.len()
        invariant
            n == scored_below(scores@, i as int),
            n <= i,
    {
        if scores[i].is_some() {
            n = n + 1;
        }
    }
    p.truncate(n);
    p
}

fn rank_scores(
    scores: &[Option<u32>],
    Ghost(query): Ghost<Seq<char>>,
    Ghost(haystack): Ghost<Seq<&str>>,
) -> (r: Vec<usize>)
    requires
        scores@ == Seq::new(haystack.len(), |k: int| fuzzy_score(query, haystack[k]@)),
    ensures
        r@ == ranked(query, haystack),
{
    let n: usize = scores.len();
    proof {
        assert(n == scores@.len());
        lemma_scored(scores@, query, haystack, scores@.len() as int);
        lemma_same_order(scores@, query, haystack);
    }
    rank_by_score(scores)
}

proof fn lemma_scored(scores: Seq<Option<u32>>, query: Seq<char>, haystack: Seq<&str>, n: int)
    requires
        scores == Seq::new(haystack.len(), |k: int| fuzzy_score(query, haystack[k]@)),
        n <= scores.len(),
    ensures
        scored_below(scores, n) == matches_below(query, haystack, n),
    decreases n,
{
    if n > 0 {
        lemma_scored(scores, query, haystack, n - 1);
    }
}

proof fn lemma_same_order(scores: Seq<Option<u32>>, query: Seq<char>, haystack: Seq<&str>)
    requires
        scores.len() <= usize::MAX,
        scores == Seq::new(haystack.len(), |k: int| fuzzy_score(query, haystack[k]@)),
    ensures
        order::sorted_positions(scores.len() as int, score_before(scores))
            == order::sorted_positions(haystack.len() as int, ranks_before(query, haystack)),
{
    let n = scores.len() as int;
    let a = score_before(scores);
    let b = ranks_before(query, haystack);
    let p = order::lemma_sort_exists(n, a);
    order::lemma_stable_sort_unique(p, order::sorted_positions(n, a), n, a);
    assert(order::stably_sorted(p, n, b));
    order::lemma_stable_sort_unique(p, order::sorted_positions(n, b), n, b);
}

/// A query never ranks a text twice, and every ranked position is one of the
/// haystack's.
pub proof fn law_ranking_holds_no_position_twice(query: Seq<char>, haystack: Seq<&str>)
    requires
        haystack.len() <= usize::MAX,
    ensures
        forall|k: int|
            0 <= k < ranked(query, haystack).len() ==> (#[trigger] ranked(query, haystack)[k])
                < haystack.len(),
        forall|a: int, b: int|
            0 <= a < b < ranked(query, haystack).len() ==> #[trigger] ranked(query, haystack)[a]
                != #[trigger] ranked(query, haystack)[b],
{
    let n = haystack.len() as int;
    let lt = ranks_before(query, haystack);
    let p = order::lemma_sort_exists(n, lt);
    order::lemma_stable_sort_unique(p, order::sorted_positions(n, lt), n, lt);
    lemma_matches_bounded(query, haystack, n);
}

proof fn lemma_matches_bounded(query: Seq<char>, haystack: Seq<&str>, n: int)
    requires
        0 <= n,
    ensures
        0 <= matches_below(query, haystack, n) <= n,
    decreases n,
{
    if n > 0 {
        lemma_matches_bounded(query, haystack, n - 1);
    }
}

/// Whether the query matches text `i`.
pub open spec fn is_match(query: Seq<char>, haystack: Seq<&str>, i: int) -> bool {
    fuzzy_score(query, haystack[i]@) is Some
}

/// The positions below `n` of the texts that the query matches.
spec fn matched(query: Seq<char>, haystack: Seq<&str>, n: int) -> Set<int> {
    vstd::set_lib::set_int_range(0, n).filter(|i: int| is_match(query, haystack, i))
}

proof fn lemma_matched_count(query: Seq<char>, haystack: Seq<&str>, n: int)
    requires
        0 <= n,
    ensures
        matched(query, haystack, n).finite(),
        matched(query, haystack, n).len() == matches_below(query, haystack, n),
    decreases n,
{
    vstd::set_lib::lemma_int_range(0, n);
    if n > 0 {
        lemma_matched_count(query, haystack, n - 1);
        let before = matched(query, haystack, n - 1);
        if is_match(query, haystack, n - 1) {
            assert(matched(query, haystack, n) =~= before.insert(n - 1));
        } else {
            assert(matched(query, haystack, n) =~= before);
        }
    } else {
        assert(matched(query, haystack, n) =~= Set::<int>::empty());
    }
}

/// How many positions at the front of `p` are of texts that the query matches,
/// counted from `from` on.
proof fn lemma_leading(
    query: Seq<char>,
    haystack: Seq<&str>,
    p: Seq<usize>,
    from: int,
) -> (d: int)
    requires
        0 <= from <= p.len(),
        forall|k: int| 0 <= k < from ==> is_match(query, haystack, #[trigger] p[k] as int),
    ensures
        from <= d <= p.len(),
        forall|k: int| 0 <= k < d ==> is_match(query, haystack, #[trigger] p[k] as int),
        d < p.len() ==> !is_match(query, haystack, p[d] as int),
    decreases p.len() - from,
{
    if from < p.len() && is_match(query, haystack, p[from] as int) {
        lemma_leading(query, haystack, p, from + 1)
    } else {
        from
    }
}

/// A ranking holds exactly the texts that the query matches, the best first and
/// those of one score in their own order.
pub proof fn law_matches_rank_best_first(query: Seq<char>, haystack: Seq<&str>)
    requires
        haystack.len() <= usize::MAX,
    ensures
        forall|k: int|
            0 <= k < ranked(query, haystack).len() ==> is_match(
                query,
                haystack,
                #[trigger] ranked(query, haystack)[k] as int,
            ),
        forall|i: int|
            0 <= i < haystack.len() && #[trigger] is_match(query, haystack, i) ==> ranked(
                query,
                haystack,
            ).contains(i as usize),
        forall|a: int, b: int|
            0 <= a < b < ranked(query, haystack).len() ==> {
                let x = #[trigger] ranked(query, haystack)[a];
                let y = #[trigger] ranked(query, haystack)[b];
                let s = fuzzy_score(query, haystack[x as int]@)->Some_0;
                let t = fuzzy_score(query, haystack[y as int]@)->Some_0;
                s > t || (s == t && x < y)
            },
{
    let n = haystack.len() as int;
    let lt = ranks_before(query, haystack);
    let sorted = order::lemma_sort_exists(n, lt);
    let p = order::sorted_positions(n, lt);
    order::lemma_stable_sort_unique(sorted, p, n, lt);
    let d = lemma_leading(query, haystack, p, 0);
    assert forall|k: int| d <= k < n implies !is_match(query, haystack, #[trigger] p[k] as int) by {
        if k > d {
            assert(!lt(p[k] as int, p[d] as int));
        }
    }
    let lead = p.take(d).map_values(|u: usize| u as int);
    assert(lead.no_duplicates());
    lead.unique_seq_to_set();
    let all = matched(query, haystack, n);
    lemma_matched_count(query, haystack, n);
    vstd::set_lib::lemma_int_range(0, n);
    assert(lead.to_set() =~= all) by {
        assert forall|i: int| all.contains(i) implies lead.to_set().contains(i) by {
            order::lemma_permutes_covers(p, n, i);
            let a = choose|a: int| 0 <= a < n && p[a] == i;
            assert(a < d);
            assert(lead[a] == i);
        }
        assert forall|i: int| lead.to_set().contains(i) implies all.contains(i) by {
            let a = choose|a: int| 0 <= a < lead.len() && lead[a] == i;
            assert(p[a] == i);
        }
    }
    let r = ranked(query, haystack);
    assert(r == p.take(d));
    assert forall|i: int| 0 <= i < haystack.len() && #[trigger] is_match(query, haystack, i) implies
        r.contains(i as usize) by {
        order::lemma_permutes_covers(p, n, i);
        let a = choose|a: int| 0 <= a < n && p[a] == i;
        assert(r[a] == i as usize);
    }
    assert forall|a: int, b: int| 0 <= a < b < r.len() implies {
        let x = #[trigger] r[a];
        let y = #[trigger] r[b];
        let s = fuzzy_score(query, haystack[x as int]@)->Some_0;
        let t = fuzzy_score(query, haystack[y as int]@)->Some_0;
        s > t || (s == t && x < y)
    } by {
        assert(!lt(p[b] as int, p[a] as int));
        assert(is_match(query, haystack, p[a] as int));
        assert(is_match(query, haystack, p[b] as int));
    }
}

/// The positions below `n` that have a score.
spec fn with_score(scores: Seq<Option<u32>>, n: int) -> Set<int> {
    vstd::set_lib::set_int_range(0, n).filter(|i: int| scores[i] is Some)
}

proof fn lemma_with_score(scores: Seq<Option<u32>>, n: int)
    requires
        0 <= n,
    ensures
        with_score(scores, n).finite(),
        with_score(scores, n).len() == scored_below(scores, n),
    decreases n,
{
    vstd::set_lib::lemma_int_range(0, n);
    if n > 0 {
        lemma_with_score(scores, n - 1);
        let before = with_score(scores, n - 1);
        if scores[n - 1] is Some {
            assert(with_score(scores, n) =~= before.insert(n - 1));
        } else {
            assert(with_score(scores, n) =~= before);
        }
    } else {
        assert(with_score(scores, n) =~= Set::<int>::empty());
    }
}

proof fn lemma_scores_lead(scores: Seq<Option<u32>>, p: Seq<usize>, from: int) -> (d: int)
    requires
        0 <= from <= p.len(),
        forall|k: int| 0 <= k < from ==> scores[(#[trigger] p[k]) as int] is Some,
    ensures
        from <= d <= p.len(),
        forall|k: int| 0 <= k < d ==> scores[(#[trigger] p[k]) as int] is Some,
        d < p.len() ==> scores[p[d] as int] is None,
    decreases p.len() - from,
{
    if from < p.len() && scores[p[from] as int] is Some {
        lemma_scores_lead(scores, p, from + 1)
    } else {
        from
    }
}

/// Ranked by their scores, all positions with a score stand there and no other, the
/// highest score first and equal ones in their own order.
pub proof fn law_scores_rank_highest_first(scores: Seq<Option<u32>>)
    requires
        scores.len() <= usize::MAX,
    ensures
        ({
            let r = order::sorted_positions(scores.len() as int, score_before(scores)).take(
                scored_below(scores, scores.len() as int),
            );
            &&& forall|k: int|
                0 <= k < r.len() ==> (#[trigger] r[k]) < scores.len() && scores[r[k] as int] is Some
            &&& forall|i: int|
                0 <= i < scores.len() && (#[trigger] scores[i]) is Some ==> r.contains(i as usize)
            &&& forall|a: int, b: int|
                0 <= a < b < r.len() ==> {
                    let s = scores[(#[trigger] r[a]) as int]->Some_0;
                    let t = scores[(#[trigger] r[b]) as int]->Some_0;
                    s > t || (s == t && r[a] < r[b])
                }
        }),
{
    let n = scores.len() as int;
    let lt = score_before(scores);
    let sorted = order::lemma_sort_exists(n, lt);
    let p = order::sorted_positions(n, lt);
    order::lemma_stable_sort_unique(sorted, p, n, lt);
    let d = lemma_scores_lead(scores, p, 0);
    assert forall|k: int| d <= k < n implies scores[(#[trigger] p[k]) as int] is None by {
        if k > d {
            assert(!lt(p[k] as int, p[d] as int));
        }
    }
    let lead = p.take(d).map_values(|u: usize| u as int);
    assert(lead.no_duplicates());
    lead.unique_seq_to_set();
    let all = with_score(scores, n);
    lemma_with_score(scores, n);
    vstd::set_lib::lemma_int_range(0, n);
    assert(lead.to_set() =~= all) by {
        assert forall|i: int| all.contains(i) implies lead.to_set().contains(i) by {
            order::lemma_permutes_covers(p, n, i);
            let a = choose|a: int| 0 <= a < n && p[a] == i;
            assert(a < d);
            assert(lead[a] == i);
        }
        assert forall|i: int| lead.to_set().contains(i) implies all.contains(i) by {
            let a = choose|a: int| 0 <= a < lead.len() && lead[a] == i;
            assert(p[a] == i);
        }
    }
    let r = p.take(scored_below(scores, n));
    assert(r == p.take(d));
    assert forall|i: int| 0 <= i < n && (#[trigger] scores[i]) is Some implies r.contains(
        i as usize,
    ) by {
        order::lemma_permutes_covers(p, n, i);
        let a = choose|a: int| 0 <= a < n && p[a] == i;
        assert(r[a] == i as usize);
    }
    assert forall|a: int, b: int| 0 <= a < b < r.len() implies {
        let s = scores[(#[trigger] r[a]) as int]->Some_0;
        let t = scores[(#[trigger] r[b]) as int]->Some_0;
        s > t || (s == t && r[a] < r[b])
    } by {
        assert(!lt(p[b] as int, p[a] as int));
        assert(scores[p[a] as int] is Some);
        assert(scores[p[b] as int] is Some);
    }
}

/// A query of up to 1260 characters can be matched, whatever it is made of; so can a
/// longer one of short words. A text is refused only for its length, or for a letter
/// that a query with accents cannot tell apart.
pub proof fn law_ordinary_queries_can_be_matched(query: Seq<char>, text: Seq<char>)
    ensures
        query.len() <= 1_260 ==> parsable(query),
        (forall|i: int|
            0 <= i < query.len() ==> bare_char(folded_char(#[trigger] query[i])) == folded_char(
                query[i],
            )) && vstd::utf8::encode_utf8(text).len() <= 0x10_0000 ==> scorable(query, text),
        (forall|i: int|
            0 <= i < text.len() ==> !lower_char(#[trigger] text[i]) || folded_char(text[i])
                == text[i]) && vstd::utf8::encode_utf8(text).len() <= 0x10_0000 ==> scorable(
            query,
            text,
        ),
        query.len() > 59_652_323 ==> !parsable(query),
{
    if query.len() <= 1_260 {
        assert forall|n: int| 0 <= n <= query.len() implies word_weight(#[trigger] query.take(n))
            <= MAX_WORD by {
            lemma_weight_bounded(query.take(n));
        }
    }
    assert(usize::MAX / 2_520 >= 0x10_0000) by {
        assert(usize::MAX >= 0xffff_ffff);
        vstd::arithmetic::div_mod::lemma_div_is_ordered(0xffff_ffff, usize::MAX as int, 2_520);
    }
}

proof fn lemma_weight_bounded(query: Seq<char>)
    ensures
        0 <= word_weight(query) <= 2 * query.len(),
    decreases query.len(),
{
    if query.len() > 0 && !ends_word(query) {
        lemma_weight_bounded(query.drop_last());
    }
}

/// A word weighs one for each of its characters and two for a backslash, and a space
/// that is not escaped begins a new one.
pub proof fn law_what_a_word_weighs(query: Seq<char>, c: char)
    ensures
        word_weight(Seq::empty()) == 0,
        c == ' ' && (query.len() == 0 || query.last() != '\\') ==> word_weight(query.push(c)) == 0,
        c == ' ' && query.len() > 0 && query.last() == '\\' ==> word_weight(query.push(c))
            == word_weight(query) + 1,
        c == '\\' ==> word_weight(query.push(c)) == word_weight(query) + 2,
        c != ' ' && c != '\\' ==> word_weight(query.push(c)) == word_weight(query) + 1,
{
    let t = query.push(c);
    assert(t.drop_last() == query);
    assert(t.last() == c);
    if query.len() > 0 {
        assert(t[t.len() - 2] == query.last());
    }
}

/// An empty query can always be matched; any other where it can be read and every text
/// can be scored, and one text that cannot be scored is enough to refuse it.
pub proof fn law_which_searches_can_be_made(query: Seq<char>, haystack: Seq<&str>, i: int)
    requires
        query.len() > 0,
    ensures
        fits(Seq::empty(), haystack),
        !parsable(query) ==> !fits(query, haystack),
        0 <= i < haystack.len() && !scorable(query, haystack[i]@) ==> !fits(query, haystack),
        parsable(query) && (forall|k: int|
            0 <= k < haystack.len() ==> scorable(query, (#[trigger] haystack[k])@)) ==> fits(
            query,
            haystack,
        ),
{
}

} // verus!
