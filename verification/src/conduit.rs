//! The bounded conduit between the searchers and the consumer of the results.
//!
//! Any number of producers put matches in at one end; one consumer takes them
//! out at the other, in the order in which they went in. The conduit holds at
//! most a fixed number of matches: a producer that finds it full waits and
//! offers again, so results never pile up without bound. The conduit also
//! keeps count of its producers, and that is how the consumer learns that the
//! search is over: only when the last producer has left and the last match has
//! been taken does the conduit say that it is closed.

use vstd::prelude::*;
use std::collections::VecDeque;
use crate::searcher::{match_views, MatchResult, MatchView};

verus! {

/// The number of matches that the conduit of a search holds at most.
pub const DEFAULT_CAPACITY: usize = 100;

/// The state of a conduit.
pub struct ConduitView {
    /// The matches on their way, oldest first.
    pub queued: Seq<MatchView>,
    /// How many matches fit.
    pub capacity: nat,
    /// How many producers there are: the traversal, while it runs, and every
    /// search that was dispatched and has not ended.
    pub producers: nat,
    /// Whether the consumer is still there.
    pub attended: bool,
}

impl ConduitView {
    /// There is room for at least one match, and no more matches are on
    /// their way than fit.
    pub open spec fn bounded(self) -> bool {
        1 <= self.capacity && self.queued.len() <= self.capacity
    }

    /// A producer can put a match in.
    pub open spec fn open(self) -> bool {
        self.attended && self.producers > 0
    }

    /// No room is left.
    pub open spec fn full(self) -> bool {
        self.queued.len() >= self.capacity
    }

    /// Nothing is on its way and nothing will come any more.
    pub open spec fn exhausted(self) -> bool {
        self.queued.len() == 0 && self.producers == 0
    }

    /// The state after `found` was offered.
    pub open spec fn after_offer(self, found: MatchView) -> ConduitView {
        if self.open() && !self.full() {
            ConduitView { queued: self.queued.push(found), ..self }
        } else {
            self
        }
    }

    /// The state after the consumer asked for a match.
    pub open spec fn after_take(self) -> ConduitView {
        if self.queued.len() > 0 {
            ConduitView { queued: self.queued.drop_first(), ..self }
        } else {
            self
        }
    }

    /// The state after a producer was to be added. None is added to a conduit
    /// that has none: once the last producer has left, no other comes.
    pub open spec fn after_attach(self) -> ConduitView {
        if 0 < self.producers < usize::MAX {
            ConduitView { producers: self.producers + 1, ..self }
        } else {
            self
        }
    }

    /// The state after a producer left.
    pub open spec fn after_detach(self) -> ConduitView {
        if self.producers > 0 {
            ConduitView { producers: (self.producers - 1) as nat, ..self }
        } else {
            self
        }
    }

    /// The state after the consumer left.
    pub open spec fn after_abandon(self) -> ConduitView {
        ConduitView { attended: false, ..self }
    }

    /// A conduit never holds more than fits, whatever is done with it.
    pub proof fn lemma_stays_bounded(self, found: MatchView)
        requires
            self.bounded(),
        ensures
            self.after_offer(found).bounded(),
            self.after_take().bounded(),
            self.after_attach().bounded(),
            self.after_detach().bounded(),
            self.after_abandon().bounded(),
    {
    }

    /// The end of the stream is final: once nothing is on its way and no
    /// producer is left, nothing that is done changes that.
    pub proof fn lemma_exhausted_for_good(self, found: MatchView)
        requires
            self.exhausted(),
        ensures
            self.after_offer(found).exhausted(),
            self.after_take().exhausted(),
            self.after_attach().exhausted(),
            self.after_detach().exhausted(),
            self.after_abandon().exhausted(),
    {
    }

    /// The state after the consumer asked for a match `count` times in a
    /// row.
    pub open spec fn after_takes(self, count: nat) -> ConduitView
        decreases count,
    {
        if count == 0 {
            self
        } else {
            self.after_take().after_takes((count - 1) as nat)
        }
    }

    /// The consumer is not kept waiting for ever: once the last producer has
    /// left, the stream is at its end as soon as the consumer has taken what
    /// was still on its way.
    pub proof fn lemma_ends_when_all_have_left(self)
        requires
            self.producers == 0,
        ensures
            self.after_takes(self.queued.len()).exhausted(),
        decreases self.queued.len(),
    {
        if self.queued.len() > 0 {
            self.after_take().lemma_ends_when_all_have_left();
        }
    }

    /// Matches leave in the order in which they came: what is offered goes
    /// behind everything on its way, and what is taken is the oldest.
    pub proof fn lemma_first_in_first_out(self, found: MatchView)
        requires
            self.open(),
            !self.full(),
        ensures
            self.after_offer(found).queued == self.queued.push(found),
            self.queued.len() > 0 ==> self.after_offer(found).after_take().queued
                == self.after_take().queued.push(found),
    {
        if self.queued.len() > 0 {
            assert(self.queued.push(found).drop_first() =~= self.queued.drop_first().push(found));
        }
    }
}

/// What became of a match that a producer offered.
#[derive(Debug, PartialEq, Eq)]
pub enum Offer {
    /// The conduit has it.
    Accepted,
    /// There was no room. The producer keeps the match and offers it again
    /// once the consumer has taken something out.
    Full(MatchResult),
    /// The conduit takes nothing any more. The producer keeps the match and
    /// gives up.
    Severed(MatchResult),
}

/// What the consumer got when it asked for a match.
#[derive(Debug, PartialEq, Eq)]
pub enum Taken {
    /// The oldest match on its way.
    Item(MatchResult),
    /// Nothing is there yet, but more may come: ask again later.
    Pending,
    /// Nothing is there and nothing will come: the stream of results is over.
    Closed,
}

/// A bounded first-in, first-out conduit for matches.
#[derive(Debug)]
pub struct Conduit {
    queue: VecDeque<MatchResult>,
    capacity: usize,
    producers: usize,
    attended: bool,
}

impl View for Conduit {
    type V = ConduitView;

    closed spec fn view(&self) -> ConduitView {
        ConduitView {
            queued: match_views(self.queue@),
            capacity: self.capacity as nat,
            producers: self.producers as nat,
            attended: self.attended,
        }
    }
}

impl Conduit {
    /// An empty conduit for at most `capacity` matches, with its consumer and
    /// one producer: whoever made it.
    pub fn new(capacity: usize) -> (conduit: Conduit)
        requires
            capacity >= 1,
        ensures
            conduit@ == (ConduitView {
                queued: Seq::empty(),
                capacity: capacity as nat,
                producers: 1,
                attended: true,
            }),
    {
        let conduit = Conduit { queue: VecDeque::new(), capacity, producers: 1, attended: true };
        assert(conduit@.queued =~= Seq::empty());
        conduit
    }

    /// How many matches are on their way.
    pub fn len(&self) -> (len: usize)
        ensures
            len == self@.queued.len(),
    {
        self.queue.len()
    }

    /// How many matches fit.
    pub fn capacity(&self) -> (capacity: usize)
        ensures
            capacity == self@.capacity,
    {
        self.capacity
    }

    /// How many producers there are.
    pub fn producers(&self) -> (producers: usize)
        ensures
            producers == self@.producers,
    {
        self.producers
    }

    /// Adds a producer, as when a search is dispatched. Only a conduit that
    /// still has a producer can get another: once the last one has left,
    /// the conduit stays closed. Returns whether the producer was added.
    pub fn attach(&mut self) -> (attached: bool)
        ensures
            attached == (0 < old(self)@.producers < usize::MAX),
            final(self)@ == old(self)@.after_attach(),
    {
        if 0 < self.producers && self.producers < usize::MAX {
            self.producers = self.producers + 1;
            true
        } else {
            false
        }
    }

    /// Removes a producer, as when a search or the traversal ends. What that
    /// producer put in stays until it is taken.
    pub fn detach(&mut self)
        ensures
            final(self)@ == old(self)@.after_detach(),
    {
        if self.producers > 0 {
            self.producers = self.producers - 1;
        }
    }

    /// The consumer leaves. From now on every offer is turned down.
    pub fn abandon(&mut self)
        ensures
            final(self)@ == old(self)@.after_abandon(),
    {
        self.attended = false;
    }

    /// A producer offers a match. It goes in behind those already on their
    /// way, unless the conduit is full or takes nothing any more; then the
    /// producer gets it back.
    pub fn offer(&mut self, found: MatchResult) -> (offer: Offer)
        ensures
            final(self)@ == old(self)@.after_offer(found@),
            match offer {
                Offer::Accepted => old(self)@.open() && !old(self)@.full(),
                Offer::Full(back) => old(self)@.open() && old(self)@.full() && back == found,
                Offer::Severed(back) => !old(self)@.open() && back == found,
            },
    {
        if !self.attended || self.producers == 0 {
            Offer::Severed(found)
        } else if self.queue.len() >= self.capacity {
            Offer::Full(found)
        } else {
            let ghost before = self.queue@;
            self.queue.push_back(found);
            assert(match_views(self.queue@) =~= match_views(before).push(found@));
            Offer::Accepted
        }
    }

    /// The consumer asks for the next match. It gets the oldest one on its
    /// way. If none is there, it is told to wait as long as a producer
    /// remains, and that the stream is closed exactly when none does: the
    /// closing signal comes if and only if the traversal and every search
    /// that was dispatched have ended and all they found has been taken.
    pub fn take(&mut self) -> (taken: Taken)
        ensures
            final(self)@ == old(self)@.after_take(),
            taken is Closed <==> old(self)@.exhausted(),
            taken is Pending <==> old(self)@.queued.len() == 0 && old(self)@.producers > 0,
            taken is Item <==> old(self)@.queued.len() > 0,
            taken matches Taken::Item(found) ==> found@ == old(self)@.queued.first(),
    {
        let ghost before = self.queue@;
        match self.queue.pop_front() {
            Some(found) => {
                assert(match_views(self.queue@) =~= match_views(before).drop_first());
                Taken::Item(found)
            },
            None => {
                if self.producers > 0 {
                    Taken::Pending
                } else {
                    Taken::Closed
                }
            },
        }
    }
}

} // verus!
