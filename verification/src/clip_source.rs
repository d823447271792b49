//! The clipboard's source: what it offers, what it hands out, and which reads
//! count as a paste. Moments are milliseconds on one clock.
use vstd::prelude::*;
use crate::text;

verus! {

/// After an offer, reads are taken for our own for this long.
pub const SELF_READ_IGNORE: u64 = 1200;

/// Reads this close together are one paste.
pub const PASTE_DEBOUNCE: u64 = 400;

/// What owns the selection.
#[derive(Debug)]
pub struct ClipSource {
    /// Whether the selection is ours.
    pub owning: bool,
    /// What is offered: a type and its bytes.
    pub offers: Vec<(String, Vec<u8>)>,
    /// When the selection was last taken.
    pub last_serve: Option<u64>,
    /// When a paste was last reported.
    pub last_paste: Option<u64>,
}

/// Whether `at` lies less than `span` before `now`.
pub open spec fn within(at: Option<u64>, now: u64, span: u64) -> bool {
    at matches Some(t) && (now <= t || now - t < span)
}

fn recent(at: Option<u64>, now: u64, span: u64) -> (r: bool)
    requires
        span > 0,
    ensures
        r == within(at, now, span),
{
    match at {
        Some(t) => now.saturating_sub(t) < span,
        None => false,
    }
}

/// Whether a read at `now` counts as a paste.
pub open spec fn is_paste(last_serve: Option<u64>, last_paste: Option<u64>, now: u64) -> bool {
    !within(last_serve, now, SELF_READ_IGNORE) && !within(last_paste, now, PASTE_DEBOUNCE)
}

/// The types that are offered.
pub open spec fn offered(offers: Seq<(String, Vec<u8>)>) -> Seq<Seq<char>> {
    Seq::new(offers.len(), |i: int| offers[i].0@)
}

/// The place of the first offer of a type.
pub open spec fn offer_of(offers: Seq<(String, Vec<u8>)>, mime: Seq<char>) -> Option<int>
    decreases offers.len(),
{
    if offers.len() == 0 {
        None
    } else {
        match offer_of(offers.drop_last(), mime) {
            Some(i) => Some(i),
            None => if offers.last().0@ == mime {
                Some(offers.len() - 1)
            } else {
                None
            },
        }
    }
}

impl ClipSource {
    /// Nothing is offered.
    pub fn new() -> (r: Self)
        ensures
            !r.owning,
            r.offers@.len() == 0,
            r.last_serve is None,
            r.last_paste is None,
    {
        ClipSource { owning: false, offers: Vec::new(), last_serve: None, last_paste: None }
    }

    /// Take the selection with new offers. Without any, nothing changes. Returns
    /// whether the selection is taken.
    pub fn serve(&mut self, offers: Vec<(String, Vec<u8>)>, now: u64) -> (r: bool)
        ensures
            r == (offers@.len() > 0),
            *final(self) == (if r {
                ClipSource {
                    owning: true,
                    offers,
                    last_serve: Some(now),
                    last_paste: old(self).last_paste,
                }
            } else {
                *old(self)
            }),
    {
        if offers.len() == 0 {
            return false;
        }
        self.owning = true;
        self.offers = offers;
        self.last_serve = Some(now);
        true
    }

    /// A read of the selection. Returns whether it is a paste to report.
    pub fn note_read(&mut self, now: u64) -> (r: bool)
        ensures
            r == is_paste(old(self).last_serve, old(self).last_paste, now),
            *final(self) == (if r {
                ClipSource { last_paste: Some(now), ..*old(self) }
            } else {
                *old(self)
            }),
    {
        if recent(self.last_serve, now, SELF_READ_IGNORE) || recent(
            self.last_paste,
            now,
            PASTE_DEBOUNCE,
        ) {
            return false;
        }
        self.last_paste = Some(now);
        true
    }

    /// The bytes of the first offer of a type, where there is one.
    fn bytes_for(&self, mime: &str) -> (r: Option<usize>)
        ensures
            match r {
                Some(i) => i < self.offers@.len() && offer_of(self.offers@, mime@) == Some(
                    i as int,
                ),
                None => offer_of(self.offers@, mime@) is None,
            },
    {
        let ghost v = self.offers@;
        let mut r: Option<usize> = None;
        assert(v.take(0) == Seq::<(String, Vec<u8>)>::empty());
        for i in 0..self.offers.len()
            invariant
                v == self.offers@,
                match r {
                    Some(j) => j < i && offer_of(v.take(i as int), mime@) == Some(j as int),
                    None => offer_of(v.take(i as int), mime@) is None,
                },
        {
            assert(v.take(i + 1).drop_last() == v.take(i as int));
            assert(v.take(i + 1).last() == v[i as int]);
            if r.is_none() && text::same(&self.offers[i].0, mime) {
                r = Some(i);
            }
        }
        assert(v.take(v.len() as int) == v);
        r
    }

    /// A reader asks for a type. Returns the bytes to hand out, and whether this
    /// is a paste to report; a type that is not offered gets nothing and counts
    /// for nothing.
    pub fn on_send(&mut self, mime: &str, now: u64) -> (r: (Option<Vec<u8>>, bool))
        ensures
            match offer_of(old(self).offers@, mime@) {
                Some(i) => {
                    &&& r.0 matches Some(b) && b@ == old(self).offers@[i].1@
                    &&& r.1 == is_paste(old(self).last_serve, old(self).last_paste, now)
                    &&& *final(self) == (if r.1 {
                        ClipSource { last_paste: Some(now), ..*old(self) }
                    } else {
                        *old(self)
                    })
                },
                None => r.0 is None && !r.1 && *final(self) == *old(self),
            },
    {
        match self.bytes_for(mime) {
            Some(i) => {
                let bytes = vstd::slice::slice_to_vec(self.offers[i].1.as_slice());
                let paste: bool = self.note_read(now);
                (Some(bytes), paste)
            },
            None => (None, false),
        }
    }

    /// Another client took the selection from a source of ours; `current` says
    /// whether it was the one that owns it.
    pub fn on_cancelled(&mut self, current: bool)
        ensures
            if current {
                &&& !final(self).owning
                &&& final(self).offers@.len() == 0
                &&& final(self).last_serve == old(self).last_serve
                &&& final(self).last_paste == old(self).last_paste
            } else {
                *final(self) == *old(self)
            },
    {
        if current {
            self.owning = false;
            self.offers = Vec::new();
        }
    }
}

/// Reads in quick succession are one paste: after a reported one, none is
/// reported within the debounce, and none right after the selection was taken.
pub proof fn law_a_burst_is_one_paste(last_serve: Option<u64>, first: u64, second: u64)
    requires
        first <= second,
    ensures
        is_paste(last_serve, Some(first), second) ==> second - first >= PASTE_DEBOUNCE,
        last_serve matches Some(t) ==> is_paste(last_serve, None, second) ==> second >= t
            + SELF_READ_IGNORE,
{
}

/// When a read is a paste: 1200 milliseconds after the selection was taken at the
/// earliest, and 400 after the last paste.
pub proof fn law_which_reads_are_pastes(last_serve: Option<u64>, last_paste: Option<u64>, now: u64)
    ensures
        is_paste(None, None, now),
        is_paste(last_serve, last_paste, now) <==> (last_serve matches Some(t) ==> now >= t + 1200)
            && (last_paste matches Some(t) ==> now >= t + 400),
{
}

/// A type is answered with the first offer of it, and one that is not offered with
/// none.
pub proof fn law_the_first_offer_of_a_type_answers(
    offers: Seq<(String, Vec<u8>)>,
    mime: Seq<char>,
)
    ensures
        offer_of(offers, mime) matches Some(i) ==> 0 <= i < offers.len() && offers[i].0@ == mime
            && forall|k: int| 0 <= k < i ==> (#[trigger] offers[k]).0@ != mime,
        offer_of(offers, mime) is None ==> forall|k: int|
            0 <= k < offers.len() ==> (#[trigger] offers[k]).0@ != mime,
    decreases offers.len(),
{
    if offers.len() > 0 {
        let d = offers.drop_last();
        law_the_first_offer_of_a_type_answers(d, mime);
        assert(forall|k: int| 0 <= k < d.len() ==> offers[k] == d[k]);
        assert(offers[offers.len() - 1] == offers.last());
    }
}

} // verus!
