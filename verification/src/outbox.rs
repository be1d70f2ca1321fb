//! Compatibility outbox and shadow-read comparison helpers.

use crate::identity::NamespaceId;
use std::collections::VecDeque;
use vstd::prelude::*;
use vstd::std_specs::cmp::PartialEqSpec;

verus! {

/// Largest number of events a single `pending` call hands out.
pub const MAX_PENDING: usize = 10_000;

#[derive(Debug)]
pub struct OutboxEvent {
    pub sequence: u64,
    pub namespace: NamespaceId,
    pub event_type: String,
    pub payload: Vec<u8>,
}

/// Clones a byte vector.
pub fn clone_bytes(v: &Vec<u8>) -> (r: Vec<u8>)
    ensures
        r@ == v@,
{
    let r = v.clone();
    proof {
        assert(r@ =~= v@);
    }
    r
}

impl OutboxEvent {
    /// The two events carry the same data.
    pub open spec fn same_as(&self, other: &OutboxEvent) -> bool {
        &&& self.sequence == other.sequence
        &&& self.namespace == other.namespace
        &&& self.event_type == other.event_type
        &&& self.payload@ == other.payload@
    }
}

impl Clone for OutboxEvent {
    fn clone(&self) -> (r: Self)
        ensures
            r.same_as(self),
    {
        OutboxEvent {
            sequence: self.sequence,
            namespace: self.namespace.clone(),
            event_type: self.event_type.clone(),
            payload: clone_bytes(&self.payload),
        }
    }
}

/// The events of `events` in `namespace`, in order.
pub open spec fn events_in(events: Seq<OutboxEvent>, namespace: Seq<char>) -> Seq<OutboxEvent>
    decreases events.len(),
{
    if events.len() == 0 {
        Seq::empty()
    } else {
        let rest = events_in(events.drop_last(), namespace);
        if events.last().namespace@ == namespace {
            rest.push(events.last())
        } else {
            rest
        }
    }
}

/// `limit` clamped to `1..=MAX_PENDING`.
pub open spec fn clamp_limit(limit: usize) -> int {
    if limit < 1 {
        1
    } else if limit > MAX_PENDING {
        MAX_PENDING as int
    } else {
        limit as int
    }
}

/// The first `clamp_limit(limit)` events of `namespace`, in order.
pub open spec fn pending_spec(events: Seq<OutboxEvent>, namespace: Seq<char>, limit: usize) -> Seq<OutboxEvent> {
    let all = events_in(events, namespace);
    if all.len() <= clamp_limit(limit) {
        all
    } else {
        all.take(clamp_limit(limit))
    }
}

/// How many leading events have a sequence number at most `sequence`.
pub open spec fn acknowledged_prefix(events: Seq<OutboxEvent>, sequence: u64) -> nat
    decreases events.len(),
{
    if events.len() == 0 || events[0].sequence > sequence {
        0
    } else {
        1 + acknowledged_prefix(events.drop_first(), sequence)
    }
}

/// Every sequence number in `events` is below `next`.
pub open spec fn sequences_below(events: Seq<OutboxEvent>, next: u64) -> bool {
    forall|i: int| 0 <= i < events.len() ==> #[trigger] events[i].sequence < next
}

/// Sequence numbers increase strictly along `events` and stay below `next`.
pub open spec fn sequences_ordered(events: Seq<OutboxEvent>, next: u64) -> bool {
    &&& forall|i: int, j: int| 0 <= i < j < events.len() ==> #[trigger] events[i].sequence < #[trigger] events[j].sequence
    &&& sequences_below(events, next)
}

/// In-memory outbox of events waiting to be delivered, oldest first.
pub struct Outbox {
    next_sequence: u64,
    events: VecDeque<OutboxEvent>,
}

impl Outbox {
    pub closed spec fn wf(&self) -> bool {
        sequences_below(self.events@, self.next_sequence)
    }

    /// The waiting events are in strictly increasing sequence order.
    pub closed spec fn ordered(&self) -> bool {
        sequences_ordered(self.events@, self.next_sequence)
    }

    /// The waiting events, oldest first.
    pub closed spec fn view(&self) -> Seq<OutboxEvent> {
        self.events@
    }

    /// The sequence number the next appended event receives.
    pub closed spec fn next_seq(&self) -> u64 {
        self.next_sequence
    }

    pub fn new() -> (r: Self)
        ensures
            r.wf(),
            r.ordered(),
            r@ == Seq::<OutboxEvent>::empty(),
            r.next_seq() == 0,
    {
        Outbox { next_sequence: 0, events: VecDeque::new() }
    }

    /// Appends an event and returns the sequence number it received.
    pub fn append(&mut self, namespace: NamespaceId, event_type: String, payload: Vec<u8>) -> (r: u64)
        requires
            old(self).wf(),
            old(self).next_seq() < u64::MAX,
        ensures
            final(self).wf(),
            r == old(self).next_seq(),
            final(self).next_seq() == old(self).next_seq() + 1,
            final(self)@ == old(self)@.push(
                OutboxEvent { sequence: r, namespace, event_type, payload },
            ),
            old(self).ordered() ==> final(self).ordered(),
    {
        let sequence = self.next_sequence;
        self.next_sequence = self.next_sequence + 1;
        self.events.push_back(OutboxEvent { sequence, namespace, event_type, payload });
        sequence
    }

    /// The first waiting events of `namespace`, at most `limit` of them (with `limit`
    /// clamped to `1..=MAX_PENDING`).
    pub fn pending(&self, namespace: &NamespaceId, limit: usize) -> (r: Vec<&OutboxEvent>)
        requires
            self.wf(),
        ensures
            r@.len() == pending_spec(self@, namespace@, limit).len(),
            forall|i: int| 0 <= i < r@.len() ==> *(#[trigger] r@[i]) == pending_spec(self@, namespace@, limit)[i],
    {
        let cap: usize = if limit < 1 { 1 } else if limit > MAX_PENDING { MAX_PENDING } else { limit };
        let mut out: Vec<&OutboxEvent> = Vec::new();
        let mut i: usize = 0;
        let n = self.events.len();
        while i < n && out.len() < cap
            invariant
                n == self.events@.len(),
                0 <= i <= n,
                cap == clamp_limit(limit),
                out@.len() <= cap,
                out@.len() == events_in(self.events@.take(i as int), namespace@).len(),
                forall|j: int| 0 <= j < out@.len() ==> *(#[trigger] out@[j]) == events_in(self.events@.take(i as int), namespace@)[j],
            decreases n - i,
        {
            let event = &self.events[i];
            proof {
                assert(self.events@.take(i + 1).drop_last() =~= self.events@.take(i as int));
                assert(self.events@.take(i + 1).last() == self.events@[i as int]);
            }
            if &event.namespace == namespace {
                out.push(event);
            }
            i = i + 1;
        }
        proof {
            lemma_events_in_prefix(self.events@, namespace@, i as int);
            let all = events_in(self.events@, namespace@);
            let pre = events_in(self.events@.take(i as int), namespace@);
            let spec_r = pending_spec(self.events@, namespace@, limit);
            assert(pre == all.take(pre.len() as int));
            if i == n {
                assert(self.events@.take(n as int) =~= self.events@);
                assert(pre == all);
                assert(spec_r == all);
            } else {
                assert(pre.len() == cap);
                assert(pre.len() <= all.len());
                assert(spec_r.len() == cap);
                assert forall|j: int| 0 <= j < out@.len() implies *(#[trigger] out@[j]) == spec_r[j] by {
                    assert(pre[j] == all[j]);
                }
            }
        }
        out
    }

    /// Drops the leading events whose sequence number is at most `sequence`.
    pub fn acknowledge_through(&mut self, sequence: u64)
        requires
            old(self).wf(),
        ensures
            final(self).wf(),
            final(self).next_seq() == old(self).next_seq(),
            final(self)@ == old(self)@.skip(acknowledged_prefix(old(self)@, sequence) as int),
            old(self).ordered() ==> final(self).ordered(),
    {
        let ghost start = self.events@;
        let ghost mut dropped: int = 0;
        while self.events.len() > 0 && self.events[0].sequence <= sequence
            invariant
                0 <= dropped <= start.len(),
                self.events@ == start.skip(dropped),
                acknowledged_prefix(start, sequence) == dropped + acknowledged_prefix(self.events@, sequence),
                sequences_below(self.events@, self.next_sequence),
                sequences_ordered(start, self.next_sequence) ==> sequences_ordered(self.events@, self.next_sequence),
                self.next_sequence == old(self).next_sequence,
            decreases self.events@.len(),
        {
            let ghost before = self.events@;
            let _ = self.events.pop_front();
            proof {
                assert(self.events@ =~= before.drop_first());
                dropped = dropped + 1;
                assert(start.skip(dropped) =~= before.drop_first());
            }
        }
        proof {
            if self.events@.len() > 0 {
                assert(self.events@[0].sequence > sequence);
            }
            assert(acknowledged_prefix(self.events@, sequence) == 0);
            assert(dropped == acknowledged_prefix(start, sequence));
            assert(start == old(self)@);
        }
    }

    /// Puts back an event read from a log, at the end: the next sequence moves past it.
    /// The outbox stays ordered when the event is numbered above every waiting one.
    pub fn replay_event(&mut self, event: OutboxEvent)
        requires
            old(self).wf(),
            event.sequence < u64::MAX,
        ensures
            final(self).wf(),
            final(self)@ == old(self)@.push(event),
            final(self).next_seq() == (if old(self).next_seq() > event.sequence {
                old(self).next_seq()
            } else {
                (event.sequence + 1) as u64
            }),
            old(self).ordered() && (old(self)@.len() == 0 || old(self)@.last().sequence < event.sequence)
                ==> final(self).ordered(),
    {
        if self.next_sequence <= event.sequence {
            self.next_sequence = event.sequence + 1;
        }
        self.events.push_back(event);
    }

    /// The sequence number the next appended event receives.
    pub fn next_sequence(&self) -> (n: u64)
        ensures
            n == self.next_seq(),
    {
        self.next_sequence
    }

    pub fn len(&self) -> (n: usize)
        ensures
            n == self@.len(),
    {
        self.events.len()
    }

    pub fn is_empty(&self) -> (r: bool)
        ensures
            r == (self@.len() == 0),
    {
        self.events.len() == 0
    }
}

impl Default for Outbox {
    fn default() -> (r: Self)
        ensures
            r.wf(),
            r.ordered(),
            r@ == Seq::<OutboxEvent>::empty(),
            r.next_seq() == 0,
    {
        Outbox::new()
    }
}

proof fn lemma_events_in_len(events: Seq<OutboxEvent>, namespace: Seq<char>, i: int, j: int)
    requires
        0 <= i <= j <= events.len(),
    ensures
        events_in(events.take(i), namespace).len() <= events_in(events.take(j), namespace).len(),
        events_in(events.take(i), namespace) == events_in(events.take(j), namespace).take(
            events_in(events.take(i), namespace).len() as int,
        ),
    decreases j - i,
{
    if i < j {
        lemma_events_in_len(events, namespace, i, j - 1);
        assert(events.take(j).drop_last() =~= events.take(j - 1));
        let a = events_in(events.take(j - 1), namespace);
        let b = events_in(events.take(j), namespace);
        let c = events_in(events.take(i), namespace);
        if b != a {
            assert(b == a.push(events.take(j).last()));
            assert(c =~= b.take(c.len() as int));
        } else {
            assert(c =~= b.take(c.len() as int));
        }
    } else {
        let c = events_in(events.take(i), namespace);
        assert(c =~= c.take(c.len() as int));
    }
}

proof fn lemma_events_in_prefix(events: Seq<OutboxEvent>, namespace: Seq<char>, i: int)
    requires
        0 <= i <= events.len(),
    ensures
        events_in(events.take(i), namespace).len() <= events_in(events, namespace).len(),
        events_in(events.take(i), namespace) == events_in(events, namespace).take(
            events_in(events.take(i), namespace).len() as int,
        ),
{
    lemma_events_in_len(events, namespace, i, events.len() as int);
    assert(events.take(events.len() as int) =~= events);
}

/// A canonical read next to a candidate read, and whether they agree.
#[derive(Debug, PartialEq)]
pub struct ShadowReadDiff<T> {
    pub canonical: T,
    pub candidate: T,
    pub equivalent: bool,
}

/// Pairs a canonical read with a candidate read and records whether they are equal by
/// `T`'s `==`.
pub fn compare_shadow_reads<T: PartialEq>(canonical: T, candidate: T) -> (r: ShadowReadDiff<T>)
    ensures
        r.canonical == canonical,
        r.candidate == candidate,
        T::obeys_eq_spec() ==> r.equivalent == canonical.eq_spec(&candidate),
{
    let equivalent = canonical == candidate;
    ShadowReadDiff { canonical, candidate, equivalent }
}

/// Acknowledging through `sequence` drops exactly the waiting events numbered up to it:
/// every dropped event is numbered at most `sequence`, and every event left is numbered
/// above it.
pub proof fn acknowledgement_drops_exactly_the_acknowledged(events: Seq<OutboxEvent>, next: u64, sequence: u64)
    requires
        sequences_ordered(events, next),
    ensures
        forall|i: int| 0 <= i < acknowledged_prefix(events, sequence) ==> (#[trigger] events[i]).sequence <= sequence,
        forall|i: int| acknowledged_prefix(events, sequence) <= i < events.len() ==> (#[trigger] events[i]).sequence > sequence,
        acknowledged_prefix(events, sequence) <= events.len(),
    decreases events.len(),
{
    if events.len() > 0 && events[0].sequence <= sequence {
        let rest = events.drop_first();
        assert(sequences_ordered(rest, next)) by {
            assert forall|i: int, j: int| 0 <= i < j < rest.len() implies #[trigger] rest[i].sequence < #[trigger] rest[j].sequence by {
                assert(rest[i] == events[i + 1] && rest[j] == events[j + 1]);
            }
            assert forall|i: int| 0 <= i < rest.len() implies #[trigger] rest[i].sequence < next by {
                assert(rest[i] == events[i + 1]);
            }
        }
        acknowledgement_drops_exactly_the_acknowledged(rest, next, sequence);
        let p = acknowledged_prefix(rest, sequence);
        assert forall|i: int| 0 <= i < acknowledged_prefix(events, sequence) implies (#[trigger] events[i]).sequence <= sequence by {
            if i > 0 {
                assert(events[i] == rest[i - 1]);
            }
        }
        assert forall|i: int| acknowledged_prefix(events, sequence) <= i < events.len() implies (#[trigger] events[i]).sequence > sequence by {
            assert(events[i] == rest[i - 1]);
        }
    } else if events.len() > 0 {
        assert forall|i: int| 0 <= i < events.len() implies (#[trigger] events[i]).sequence > sequence by {
            if i > 0 {
                assert(events[0].sequence < events[i].sequence);
            }
        }
    }
}

/// What `pending` hands out for a namespace belongs to that namespace.
pub proof fn pending_is_tenant_scoped(events: Seq<OutboxEvent>, namespace: Seq<char>, limit: usize)
    ensures
        forall|i: int| 0 <= i < pending_spec(events, namespace, limit).len() ==> (#[trigger] pending_spec(events, namespace, limit)[i]).namespace@ == namespace,
{
    lemma_events_in_scoped(events, namespace);
}

proof fn lemma_events_in_scoped(events: Seq<OutboxEvent>, namespace: Seq<char>)
    ensures
        forall|i: int| 0 <= i < events_in(events, namespace).len() ==> (#[trigger] events_in(events, namespace)[i]).namespace@ == namespace,
    decreases events.len(),
{
    if events.len() > 0 {
        lemma_events_in_scoped(events.drop_last(), namespace);
        let rest = events_in(events.drop_last(), namespace);
        if events.last().namespace@ == namespace {
            assert forall|i: int| 0 <= i < events_in(events, namespace).len() implies (#[trigger] events_in(events, namespace)[i]).namespace@
                == namespace by {
                if i < rest.len() {
                    assert(events_in(events, namespace)[i] == rest[i]);
                }
            }
        }
    }
}

} // verus!
