//! The track that an answered offer leaves: what was offered, what was answered,
//! and when, so that it can be called back.
use vstd::prelude::*;
use std::collections::HashMap;
use crate::text;

verus! {

/// Who speaks in a track.
pub const TRACK_APP: &'static str = "Golem";

/// One answered offer.
#[derive(Debug)]
pub struct ActionTrack {
    /// The stable id of the offer.
    pub id: String,
    /// What was offered, in the words it was offered in.
    pub offered: String,
    /// The answer, as its card shows it.
    pub answer: String,
    /// Whether the offer was accepted.
    pub taken: bool,
    /// When it was answered, which is the key of its card.
    pub at_ms: u64,
    /// The offer's action, written out, so that it can be run again.
    pub action: String,
}

/// A card in the list of notifications.
#[derive(Debug)]
pub struct NotifRecord {
    pub app: String,
    pub title: String,
    pub body: String,
    pub at_ms: u64,
}

/// What a click on a card does.
#[derive(Debug)]
pub enum Replay {
    /// The card is no track.
    NotATrack,
    /// The offer with this id is on the bar again: get out of its way.
    Recalled(String),
    /// There was nothing to bring back: run this action.
    Run(String),
}

/// The tracks, by the moment of the answer.
#[derive(Debug)]
pub struct ActionTracks {
    pub tracks: HashMap<u64, ActionTrack>,
}

/// Whether a track holds these.
pub open spec fn holds(
    t: ActionTrack,
    id: Seq<char>,
    offered: Seq<char>,
    answer: Seq<char>,
    taken: bool,
    action: Seq<char>,
    at_ms: u64,
) -> bool {
    &&& t.id@ == id
    &&& t.offered@ == offered
    &&& t.answer@ == answer
    &&& t.taken == taken
    &&& t.action@ == action
    &&& t.at_ms == at_ms
}

impl ActionTracks {
    /// No tracks.
    pub fn new() -> (r: Self)
        ensures
            r.tracks@ == Map::<u64, ActionTrack>::empty(),
    {
        ActionTracks { tracks: HashMap::new() }
    }

    /// File an answered offer. Returns the card for the list of notifications.
    /// The action is kept whatever the answer was.
    pub fn track_action(
        &mut self,
        id: &str,
        offered: &str,
        answer: &str,
        taken: bool,
        action: String,
        now_ms: u64,
    ) -> (r: NotifRecord)
        ensures
            r.app@ == TRACK_APP@,
            r.title@ == offered@,
            r.body@ == answer@,
            r.at_ms == now_ms,
            final(self).tracks@.dom() == old(self).tracks@.dom().insert(now_ms),
            holds(final(self).tracks@[now_ms], id@, offered@, answer@, taken, action@, now_ms),
            forall|k: u64|
                k != now_ms && old(self).tracks@.contains_key(k) ==> #[trigger] final(
                    self).tracks@[k] == old(self).tracks@[k],
    {
        broadcast use vstd::std_specs::hash::group_hash_axioms;

        self.tracks.insert(
            now_ms,
            ActionTrack {
                id: text::copy_text(id),
                offered: text::copy_text(offered),
                answer: text::copy_text(answer),
                taken,
                at_ms: now_ms,
                action,
            },
        );
        NotifRecord {
            app: text::copy_text(TRACK_APP),
            title: text::copy_text(offered),
            body: text::copy_text(answer),
            at_ms: now_ms,
        }
    }

    /// The offer that a card stands for, to be brought back to the bar; `None`
    /// for a card that is no track.
    pub fn offer_at(&self, at_ms: u64) -> (r: Option<String>)
        ensures
            text::text_in(r) == (if self.tracks@.contains_key(at_ms) {
                Some(self.tracks@[at_ms].id@)
            } else {
                None
            }),
    {
        broadcast use vstd::std_specs::hash::group_hash_axioms;

        match self.tracks.get(&at_ms) {
            Some(t) => Some(text::copy_text(&t.id)),
            None => None,
        }
    }

    /// What a click on a card does: the offer comes back where it can, else its
    /// action runs. The track itself stays as it is. `recalled` says whether
    /// the offer came back.
    pub fn replay_action_track(&self, at_ms: u64, recalled: bool) -> (r: Replay)
        ensures
            match r {
                Replay::NotATrack => !self.tracks@.contains_key(at_ms),
                Replay::Recalled(id) => self.tracks@.contains_key(at_ms) && recalled && id@
                    == self.tracks@[at_ms].id@,
                Replay::Run(action) => self.tracks@.contains_key(at_ms) && !recalled && action@
                    == self.tracks@[at_ms].action@,
            },
    {
        broadcast use vstd::std_specs::hash::group_hash_axioms;

        match self.tracks.get(&at_ms) {
            Some(t) => if recalled {
                Replay::Recalled(text::copy_text(&t.id))
            } else {
                Replay::Run(text::copy_text(&t.action))
            },
            None => Replay::NotATrack,
        }
    }
}

/// A track holds what was offered and answered where each of its fields does.
pub proof fn law_a_track_holds_the_whole_answer(t: ActionTrack)
    ensures
        forall|
            id: Seq<char>,
            offered: Seq<char>,
            answer: Seq<char>,
            taken: bool,
            action: Seq<char>,
            at_ms: u64,
        | #[trigger]
            holds(t, id, offered, answer, taken, action, at_ms) <==> t.id@ == id && t.offered@
                == offered && t.answer@ == answer && t.taken == taken && t.action@ == action
                && t.at_ms == at_ms,
{
}

} // verus!
