//! The queue of events, ordered by time.
//!
//! Each event is filed under its instant and a sequence number that breaks
//! ties, so that events of one instant leave the queue in the order in which
//! they entered it.

use vstd::prelude::*;
use crate::time::Instant;

verus! {

/// The place of an event in the queue: its instant, and among events of one
/// instant its sequence number.
#[derive(Debug, Clone, Copy, PartialEq, Eq, PartialOrd, Ord, Structural)]
pub struct EventTime {
    pub time: Instant,
    // trick: to handle ties in the times, use an offset. We simply
    // use the event count (number of events scheduled so far).
    pub offset: usize,
}

impl EventTime {
    /// The order of the queue: earlier instants first, and within one
    /// instant smaller offsets first.
    pub open spec fn spec_before(self, other: EventTime) -> bool {
        self.time.nanos < other.time.nanos || (self.time.nanos == other.time.nanos && self.offset
            < other.offset)
    }

    /// Whether this place comes strictly before `other`.
    pub fn before(&self, other: &EventTime) -> (r: bool)
        ensures
            r == self.spec_before(*other),
    {
        self.time.nanos < other.time.nanos || (self.time.nanos == other.time.nanos && self.offset
            < other.offset)
    }
}

/// A queue of events of type `E`, each under a place of its own.
pub struct EventQueue<E> {
    entries: Vec<(EventTime, E)>,
}

/// The entries are in strictly increasing order of their places.
spec fn sorted<E>(entries: Seq<(EventTime, E)>) -> bool {
    forall|i: int, j: int|
        0 <= i < j < entries.len() ==> (#[trigger] entries[i]).0.spec_before(
            (#[trigger] entries[j]).0,
        )
}

/// Whether some entry is filed under `key`.
spec fn has_key<E>(entries: Seq<(EventTime, E)>, key: EventTime) -> bool {
    exists|i: int| 0 <= i < entries.len() && (#[trigger] entries[i]).0 == key
}

/// The position of an entry filed under `key`.
spec fn position_of<E>(entries: Seq<(EventTime, E)>, key: EventTime) -> int {
    choose|i: int| 0 <= i < entries.len() && (#[trigger] entries[i]).0 == key
}

/// The entries as a map from places to events.
spec fn events_of<E>(entries: Seq<(EventTime, E)>) -> Map<EventTime, E> {
    Map::new(
        |key: EventTime| has_key(entries, key),
        |key: EventTime| entries[position_of(entries, key)].1,
    )
}

proof fn lemma_events_of_entry<E>(entries: Seq<(EventTime, E)>, i: int)
    requires
        sorted(entries),
        0 <= i < entries.len(),
    ensures
        events_of(entries).contains_key(entries[i].0),
        events_of(entries)[entries[i].0] == entries[i].1,
        position_of(entries, entries[i].0) == i,
{
    let j = position_of(entries, entries[i].0);
    if j < i {
        assert(entries[j].0.spec_before(entries[i].0));
    }
    if i < j {
        assert(entries[i].0.spec_before(entries[j].0));
    }
}

proof fn lemma_events_of_insert<E>(entries: Seq<(EventTime, E)>, at: int, key: EventTime, event: E)
    requires
        sorted(entries),
        0 <= at <= entries.len(),
        forall|i: int| 0 <= i < at ==> (#[trigger] entries[i]).0.spec_before(key),
        forall|i: int| at <= i < entries.len() ==> key.spec_before((#[trigger] entries[i]).0),
    ensures
        sorted(entries.insert(at, (key, event))),
        events_of(entries.insert(at, (key, event))) == events_of(entries).insert(key, event),
{
    let after = entries.insert(at, (key, event));
    assert forall|i: int, j: int| 0 <= i < j < after.len() implies (
    #[trigger] after[i]).0.spec_before((#[trigger] after[j]).0) by {
        let a = if i < at { i } else { i - 1 };
        let b = if j < at { j } else { j - 1 };
        if i != at {
            assert(after[i] == entries[a]);
        }
        if j != at {
            assert(after[j] == entries[b]);
        }
    }
    assert forall|k: EventTime| has_key(after, k) <==> (has_key(entries, k) || k == key) by {
        if has_key(entries, k) {
            let i = position_of(entries, k);
            let shifted = if i < at { i } else { i + 1 };
            assert(after[shifted] == entries[i]);
        }
        if k == key {
            assert(after[at].0 == k);
        }
        if has_key(after, k) {
            let i = position_of(after, k);
            if i != at {
                let a = if i < at { i } else { i - 1 };
                assert(after[i] == entries[a]);
            }
        }
    }
    assert forall|k: EventTime| has_key(after, k) implies events_of(after)[k] == events_of(
        entries,
    ).insert(key, event)[k] by {
        let i = position_of(after, k);
        lemma_events_of_entry(after, i);
        if i != at {
            let a = if i < at { i } else { i - 1 };
            assert(after[i] == entries[a]);
            lemma_events_of_entry(entries, a);
            if k == key {
                if a < at {
                    assert(entries[a].0.spec_before(key));
                } else {
                    assert(key.spec_before(entries[a].0));
                }
            }
        }
    }
    assert(events_of(after) =~= events_of(entries).insert(key, event));
}

proof fn lemma_events_of_update<E>(entries: Seq<(EventTime, E)>, at: int, event: E)
    requires
        sorted(entries),
        0 <= at < entries.len(),
    ensures
        sorted(entries.update(at, (entries[at].0, event))),
        events_of(entries.update(at, (entries[at].0, event))) == events_of(entries).insert(
            entries[at].0,
            event,
        ),
{
    let key = entries[at].0;
    let after = entries.update(at, (key, event));
    assert forall|i: int, j: int| 0 <= i < j < after.len() implies (
    #[trigger] after[i]).0.spec_before((#[trigger] after[j]).0) by {
        assert(after[i].0 == entries[i].0);
        assert(after[j].0 == entries[j].0);
    }
    assert forall|k: EventTime| has_key(after, k) <==> has_key(entries, k) by {
        if has_key(entries, k) {
            let i = position_of(entries, k);
            assert(after[i].0 == k);
        }
        if has_key(after, k) {
            let i = position_of(after, k);
            assert(entries[i].0 == k);
        }
    }
    lemma_events_of_entry(entries, at);
    assert forall|k: EventTime| has_key(after, k) implies events_of(after)[k] == events_of(
        entries,
    ).insert(key, event)[k] by {
        let i = position_of(after, k);
        lemma_events_of_entry(after, i);
        if i != at {
            assert(after[i] == entries[i]);
            lemma_events_of_entry(entries, i);
        }
    }
    assert(events_of(after) =~= events_of(entries).insert(key, event));
}

proof fn lemma_events_of_remove_first<E>(entries: Seq<(EventTime, E)>)
    requires
        sorted(entries),
        entries.len() > 0,
    ensures
        sorted(entries.remove(0)),
        events_of(entries.remove(0)) == events_of(entries).remove(entries[0].0),
        forall|k: EventTime| #[trigger]
            events_of(entries).contains_key(k) ==> k == entries[0].0 || entries[0].0.spec_before(k),
{
    let after = entries.remove(0);
    assert forall|i: int, j: int| 0 <= i < j < after.len() implies (
    #[trigger] after[i]).0.spec_before((#[trigger] after[j]).0) by {
        assert(after[i] == entries[i + 1]);
        assert(after[j] == entries[j + 1]);
    }
    assert forall|k: EventTime| has_key(after, k) <==> (has_key(entries, k) && k
        != entries[0].0) by {
        if has_key(entries, k) && k != entries[0].0 {
            let i = position_of(entries, k);
            assert(after[i - 1] == entries[i]);
        }
        if has_key(after, k) {
            let i = position_of(after, k);
            assert(after[i] == entries[i + 1]);
            assert(entries[0].0.spec_before(entries[i + 1].0));
        }
    }
    assert forall|k: EventTime| has_key(after, k) implies events_of(after)[k] == events_of(
        entries,
    ).remove(entries[0].0)[k] by {
        let i = position_of(after, k);
        lemma_events_of_entry(after, i);
        assert(after[i] == entries[i + 1]);
        lemma_events_of_entry(entries, i + 1);
    }
    assert(events_of(after) =~= events_of(entries).remove(entries[0].0));
    assert forall|k: EventTime| #[trigger] events_of(entries).contains_key(k) implies k
        == entries[0].0 || entries[0].0.spec_before(k) by {
        let i = position_of(entries, k);
        if i > 0 {
            assert(entries[0].0.spec_before(entries[i].0));
        }
    }
}

impl<E> View for EventQueue<E> {
    type V = Map<EventTime, E>;

    closed spec fn view(&self) -> Map<EventTime, E> {
        events_of(self.entries@)
    }
}

impl<E> EventQueue<E> {
    /// What holds of a queue between calls: its entries are kept in the
    /// order of their places.
    pub closed spec fn inv(&self) -> bool {
        sorted(self.entries@)
    }

    /// The empty queue.
    pub fn new() -> (queue: EventQueue<E>)
        ensures
            queue.inv(),
            queue@ == Map::<EventTime, E>::empty(),
    {
        let queue = EventQueue { entries: Vec::new() };
        assert(events_of(queue.entries@) =~= Map::<EventTime, E>::empty());
        queue
    }

    /// Files `event` under `key`, in place of the event that was filed
    /// there, if there was one.
    pub fn insert(&mut self, key: EventTime, event: E)
        requires
            old(self).inv(),
        ensures
            final(self).inv(),
            final(self)@ == old(self)@.insert(key, event),
    {
        let mut at: usize = 0;
        while at < self.entries.len() && self.entries[at].0.before(&key)
            invariant
                at <= self.entries.len(),
                self.entries@ == old(self).entries@,
                forall|i: int| 0 <= i < at ==> (#[trigger] self.entries@[i]).0.spec_before(key),
            decreases self.entries.len() - at,
        {
            at += 1;
        }
        let ghost before = self.entries@;
        if at < self.entries.len() && !key.before(&self.entries[at].0) {
            proof {
                assert(before[at as int].0 == key);
                lemma_events_of_update(before, at as int, event);
            }
            self.entries.set(at, (key, event));
        } else {
            proof {
                assert forall|i: int| at <= i < before.len() implies key.spec_before(
                    (#[trigger] before[i]).0,
                ) by {
                    if i > at {
                        assert(before[at as int].0.spec_before(before[i].0));
                    }
                }
                lemma_events_of_insert(before, at as int, key, event);
            }
            self.entries.insert(at, (key, event));
        }
    }

    /// Takes the event with the first place out of the queue, if there is
    /// any event.
    pub fn pop_first(&mut self) -> (first: Option<(EventTime, E)>)
        requires
            old(self).inv(),
        ensures
            final(self).inv(),
            match first {
                Some((key, event)) => {
                    &&& old(self)@.contains_key(key)
                    &&& old(self)@[key] == event
                    &&& final(self)@ == old(self)@.remove(key)
                    &&& forall|other: EventTime| #[trigger]
                        old(self)@.contains_key(other) ==> other == key || key.spec_before(other)
                },
                None => old(self)@ == Map::<EventTime, E>::empty() && final(self)@ == old(self)@,
            },
    {
        if self.entries.len() == 0 {
            assert(events_of(self.entries@) =~= Map::<EventTime, E>::empty());
            return None;
        }
        proof {
            lemma_events_of_remove_first(self.entries@);
            lemma_events_of_entry(self.entries@, 0);
        }
        Some(self.entries.remove(0))
    }
}

} // verus!
