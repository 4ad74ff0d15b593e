//! Feedback a node reports about its own state, shown in the properties panel between the node's
//! title and its parameters, and how long each piece of feedback stays visible.

use std::time::{Duration, Instant};

use vstd::prelude::*;

use crate::assoc::{lookup, AssocMap};
use crate::graph::topology::GraphNodeId;
use crate::node::error::{error_message, error_severity, NodeError};

verus! {

#[verifier::external_type_specification]
#[verifier::external_body]
pub struct ExInstant(Instant);

/// The total length of a `Duration`, in nanoseconds, as `Duration::as_nanos` reports it.
pub uninterp spec fn duration_nanos(d: Duration) -> u128;

/// `Duration::as_nanos`: the whole length of `d` in nanoseconds.
#[verifier::external_body]
fn duration_as_nanos(d: &Duration) -> (n: u128)
    ensures
        n == duration_nanos(*d),
{
    d.as_nanos()
}

/// `Duration::checked_sub`: `a - b`, or `None` when `b` is longer than `a`.
#[verifier::external_body]
fn duration_checked_sub(a: Duration, b: Duration) -> (r: Option<Duration>)
    ensures
        r is Some <==> duration_nanos(a) >= duration_nanos(b),
        r matches Some(d) ==> duration_nanos(d) == duration_nanos(a) - duration_nanos(b),
{
    a.checked_sub(b)
}

/// `Duration::from_secs`: a length of `secs` seconds.
#[verifier::external_body]
fn duration_from_secs(secs: u64) -> (d: Duration)
    ensures
        duration_nanos(d) == secs * 1_000_000_000,
{
    Duration::from_secs(secs)
}

/// `Instant::now`: the current reading of the monotonic clock. Nothing is claimed of it.
#[verifier::external_body]
fn instant_now() -> Instant {
    Instant::now()
}

/// `Instant::elapsed`: the time since `t`. It depends on the clock, so nothing is claimed of it.
#[verifier::external_body]
fn instant_elapsed(t: &Instant) -> Duration {
    t.elapsed()
}

/// Severity of a message a node reports about its own state.
#[derive(Debug, Clone, Copy, PartialEq, Eq, Structural)]
pub enum NodeMessageSeverity {
    Error,
    Warning,
    Info,
}

/// A single error, warning, or informational message associated with a node.
#[derive(Debug, Clone)]
pub struct NodeMessage {
    pub severity: NodeMessageSeverity,
    pub text: String,
}

impl NodeMessage {
    pub fn error(text: String) -> (m: Self)
        ensures
            m.severity == NodeMessageSeverity::Error,
            m.text == text,
    {
        NodeMessage { severity: NodeMessageSeverity::Error, text }
    }

    pub fn warning(text: String) -> (m: Self)
        ensures
            m.severity == NodeMessageSeverity::Warning,
            m.text == text,
    {
        NodeMessage { severity: NodeMessageSeverity::Warning, text }
    }

    pub fn info(text: String) -> (m: Self)
        ensures
            m.severity == NodeMessageSeverity::Info,
            m.text == text,
    {
        NodeMessage { severity: NodeMessageSeverity::Info, text }
    }
}

/// How long a [`NodeMessage`] stays visible before it is dropped. Errors are `Persistent` - they
/// stay until superseded by the next attempt on the same node - while a success confirmation
/// times out on its own after a few seconds.
#[derive(Debug, Clone, Copy)]
pub enum MessageLifetime {
    Persistent,
    Timed(Duration),
}

/// Whether a message of lifetime `lifetime`, raised `elapsed` nanoseconds ago, has expired.
pub open spec fn expired_after(lifetime: MessageLifetime, elapsed: u128) -> bool {
    match lifetime {
        MessageLifetime::Persistent => false,
        MessageLifetime::Timed(d) => elapsed >= duration_nanos(d),
    }
}

/// `r` is the time left once `elapsed` has passed on a message of `lifetime`: `None` for a
/// persistent message or one already expired, else the rest of its duration.
pub open spec fn time_left(lifetime: MessageLifetime, elapsed: Duration, r: Option<Duration>) -> bool {
    match lifetime {
        MessageLifetime::Persistent => r is None,
        MessageLifetime::Timed(d) => {
            &&& r is Some <==> duration_nanos(elapsed) < duration_nanos(d)
            &&& r matches Some(left) ==> duration_nanos(left) == duration_nanos(d) - duration_nanos(elapsed)
        },
    }
}

/// `after` is `before` without the messages that have expired by `readings`, the time passed
/// since each node's message was raised, in nanoseconds.
pub open spec fn pruned_with(
    before: Map<GraphNodeId, TimedNodeMessage>,
    readings: Map<GraphNodeId, u128>,
    after: Map<GraphNodeId, TimedNodeMessage>,
) -> bool {
    &&& before.dom().subset_of(readings.dom())
    &&& after == before.restrict(before.dom().filter(|k: GraphNodeId| !expired_after(before[k].lifetime_of(), readings[k])))
}

/// Pruning hides nothing that a read at the same readings would show, and pruning again at the
/// same readings removes nothing more.
pub proof fn lemma_pruning_keeps_what_reads_show(
    before: Map<GraphNodeId, TimedNodeMessage>,
    readings: Map<GraphNodeId, u128>,
    after: Map<GraphNodeId, TimedNodeMessage>,
    again: Map<GraphNodeId, TimedNodeMessage>,
)
    requires
        pruned_with(before, readings, after),
        pruned_with(after, readings, again),
    ensures
        forall|k: GraphNodeId| #[trigger] before.contains_key(k) && !expired_after(before[k].lifetime_of(), readings[k])
            ==> after.contains_key(k) && after[k] == before[k],
        forall|k: GraphNodeId| #[trigger] after.contains_key(k) ==> before.contains_key(k) && !expired_after(
            before[k].lifetime_of(),
            readings[k],
        ),
        again == after,
{
    assert(again =~= after);
}

/// A message whose lifetime is a timed one of zero length: it has expired as soon as it is
/// raised, whatever the clock reads.
pub open spec fn expires_at_once(lifetime: MessageLifetime) -> bool {
    lifetime matches MessageLifetime::Timed(d) && duration_nanos(d) == 0
}

/// A [`NodeMessage`] paired with when it was raised, so a timed one can be told apart from an
/// expired one.
#[derive(Debug)]
pub struct TimedNodeMessage {
    pub message: NodeMessage,
    raised_at: Instant,
    lifetime: MessageLifetime,
}

impl TimedNodeMessage {
    pub closed spec fn lifetime_of(&self) -> MessageLifetime {
        self.lifetime
    }

    pub closed spec fn message_of(&self) -> NodeMessage {
        self.message
    }

    /// Stamps `message` with the current time.
    pub fn new(message: NodeMessage, lifetime: MessageLifetime) -> (m: Self)
        ensures
            m.message_of() == message,
            m.lifetime_of() == lifetime,
    {
        TimedNodeMessage { message, raised_at: instant_now(), lifetime }
    }

    /// Whether the message has expired once `elapsed` has passed since it was raised.
    pub fn is_expired_after(&self, elapsed: Duration) -> (r: bool)
        ensures
            r == expired_after(self.lifetime_of(), duration_nanos(elapsed)),
    {
        match self.lifetime {
            MessageLifetime::Persistent => false,
            MessageLifetime::Timed(duration) => duration_as_nanos(&elapsed) >= duration_as_nanos(&duration),
        }
    }

    /// Time left once `elapsed` has passed since the message was raised, or `None` if it never
    /// expires on its own or already has.
    pub fn remaining_after(&self, elapsed: Duration) -> (r: Option<Duration>)
        ensures
            time_left(self.lifetime_of(), elapsed, r),
    {
        match self.lifetime {
            MessageLifetime::Persistent => None,
            MessageLifetime::Timed(duration) => {
                if duration_as_nanos(&elapsed) >= duration_as_nanos(&duration) {
                    None
                } else {
                    duration_checked_sub(duration, elapsed)
                }
            },
        }
    }

    /// The time since the message was raised, as the clock reads it now.
    fn elapsed(&self) -> Duration {
        instant_elapsed(&self.raised_at)
    }

    /// Whether the message has expired by now. A persistent message never does; a timed one
    /// does once its duration has passed, which depends on the clock.
    pub fn is_expired(&self) -> (r: bool)
        ensures
            self.lifetime_of() is Persistent ==> !r,
            r ==> self.lifetime_of() is Timed,
            expires_at_once(self.lifetime_of()) ==> r,
            exists|e: Duration| r == expired_after(self.lifetime_of(), duration_nanos(e)),
    {
        self.is_expired_after(self.elapsed())
    }

    /// Time left before this message expires on its own, or `None` if it never does (already
    /// expired, or persistent). Used to schedule a repaint so the UI updates the moment it should
    /// disappear.
    pub fn remaining(&self) -> (r: Option<Duration>)
        ensures
            self.lifetime_of() is Persistent ==> r is None,
            (self.lifetime_of() is Timed && r is Some) ==> 0 < duration_nanos(r.unwrap()) <= duration_nanos(
                self.lifetime_of()->Timed_0,
            ),
            exists|e: Duration| time_left(self.lifetime_of(), e, r),
    {
        self.remaining_after(self.elapsed())
    }
}

/// The message `set_result` records for the result of an action.
pub open spec fn result_message(result: Result<Seq<char>, NodeError>) -> (NodeMessageSeverity, Seq<char>) {
    match result {
        Ok(text) => (NodeMessageSeverity::Info, text),
        Err(e) => (error_severity(e), error_message(e)),
    }
}

/// `after` is what recording `result` for `node_id` makes of the feedback `before`: the node's
/// entry is replaced by the message for `result`, timed to three seconds for a success and
/// persistent for an error, and every other entry stays.
pub open spec fn records_result(
    before: Map<GraphNodeId, TimedNodeMessage>,
    after: Map<GraphNodeId, TimedNodeMessage>,
    node_id: GraphNodeId,
    result: Result<Seq<char>, NodeError>,
) -> bool {
    &&& after.dom() == before.dom().insert(node_id)
    &&& forall|k: GraphNodeId| k != node_id && #[trigger] before.contains_key(k) ==> after[k] == before[k]
    &&& after[node_id].message_of().severity == result_message(result).0
    &&& after[node_id].message_of().text@ == result_message(result).1
    &&& result is Ok ==> (after[node_id].lifetime_of() matches MessageLifetime::Timed(d) && duration_nanos(d)
        == 3_000_000_000)
    &&& result is Err ==> after[node_id].lifetime_of() is Persistent
}

/// What is recorded for a node is what a read gives back: the message for the result, live while
/// less than three seconds have passed for a success and at any time for an error; the feedback
/// of every other node reads as before.
pub proof fn lemma_recorded_result_reads_back(
    before: Map<GraphNodeId, TimedNodeMessage>,
    after: Map<GraphNodeId, TimedNodeMessage>,
    node_id: GraphNodeId,
    result: Result<Seq<char>, NodeError>,
    elapsed: u128,
    other: GraphNodeId,
)
    requires
        records_result(before, after, node_id, result),
    ensures
        after.contains_key(node_id),
        after[node_id].message_of().severity == result_message(result).0,
        after[node_id].message_of().text@ == result_message(result).1,
        !expired_after(after[node_id].lifetime_of(), elapsed) <==> (result is Ok ==> elapsed < 3_000_000_000),
        other != node_id ==> (after.contains_key(other) <==> before.contains_key(other)),
        other != node_id && before.contains_key(other) ==> after[other] == before[other],
{
    assert(after.dom().contains(node_id));
    if other != node_id {
        assert(after.dom().contains(other) <==> before.dom().contains(other));
    }
}

/// Per-node feedback from the most recent `on_action`/`set_param` call, keyed by the node it came
/// from: an error persists until the next call on that node, while a success confirmation fades
/// out on its own.
pub struct NodeMessageLog {
    messages: AssocMap<GraphNodeId, TimedNodeMessage>,
}

impl NodeMessageLog {
    /// The feedback currently kept for each node.
    pub closed spec fn entries(&self) -> Map<GraphNodeId, TimedNodeMessage> {
        self.messages.map()
    }

    pub closed spec fn wf(&self) -> bool {
        self.messages.wf()
    }

    pub fn new() -> (r: Self)
        ensures
            r.wf(),
            r.entries() == Map::<GraphNodeId, TimedNodeMessage>::empty(),
    {
        NodeMessageLog { messages: AssocMap::new() }
    }

    /// How long a success confirmation stays visible before it fades out: three seconds.
    pub fn action_message_duration() -> (d: Duration)
        ensures
            duration_nanos(d) == 3_000_000_000,
    {
        duration_from_secs(3)
    }

    /// Records the feedback of an `on_action`/`set_param` call on `node_id`, replacing whatever
    /// was shown before it: an info message with the success text that fades out after
    /// `action_message_duration`, or the error's message, until the next call.
    pub fn set_result(&mut self, node_id: GraphNodeId, result: Result<String, NodeError>)
        requires
            old(self).wf(),
        ensures
            final(self).wf(),
            records_result(
                old(self).entries(),
                final(self).entries(),
                node_id,
                match result {
                    Ok(t) => Ok(t@),
                    Err(e) => Err(e),
                },
            ),
    {
        let timed = match result {
            Ok(text) => TimedNodeMessage::new(
                NodeMessage::info(text),
                MessageLifetime::Timed(Self::action_message_duration()),
            ),
            Err(err) => TimedNodeMessage::new(
                NodeMessage { severity: err.severity(), text: err.message() },
                MessageLifetime::Persistent,
            ),
        };
        self.messages.insert(node_id, timed);
        proof {
            assert(self.entries().dom() =~= old(self).entries().dom().insert(node_id));
        }
    }

    /// Drops any feedback currently shown for `node_id`.
    pub fn clear(&mut self, node_id: GraphNodeId)
        requires
            old(self).wf(),
        ensures
            final(self).wf(),
            final(self).entries() == old(self).entries().remove(node_id),
    {
        self.messages.remove(&node_id);
    }

    /// The feedback for `node_id`, if there is any and it is still live once `elapsed` has passed
    /// since it was raised.
    pub fn get_after(&self, node_id: GraphNodeId, elapsed: Duration) -> (r: Option<&NodeMessage>)
        requires
            self.wf(),
        ensures
            r is Some <==> self.entries().contains_key(node_id) && !expired_after(
                self.entries()[node_id].lifetime_of(),
                duration_nanos(elapsed),
            ),
            r matches Some(m) ==> *m == self.entries()[node_id].message_of(),
    {
        match self.messages.get(&node_id) {
            Some(m) => {
                if m.is_expired_after(elapsed) {
                    None
                } else {
                    Some(&m.message)
                }
            },
            None => None,
        }
    }

    /// The still-live feedback for `node_id`, if any. Persistent feedback is always live; timed
    /// feedback is live until it expires, read against the clock now (see `get_after`).
    pub fn get(&self, node_id: GraphNodeId) -> (r: Option<&NodeMessage>)
        requires
            self.wf(),
        ensures
            !self.entries().contains_key(node_id) ==> r is None,
            r matches Some(m) ==> self.entries().contains_key(node_id) && *m == self.entries()[node_id].message_of(),
            self.entries().contains_key(node_id) && self.entries()[node_id].lifetime_of() is Persistent ==> r is Some,
            exists|n: u128|
                r is Some <==> self.entries().contains_key(node_id) && !#[trigger] expired_after(
                    self.entries()[node_id].lifetime_of(),
                    n,
                ),
    {
        match self.messages.get(&node_id) {
            Some(m) => {
                let e = m.elapsed();
                let r = self.get_after(node_id, e);
                proof {
                    assert(r is Some <==> self.entries().contains_key(node_id) && !expired_after(
                        self.entries()[node_id].lifetime_of(),
                        duration_nanos(e),
                    ));
                }
                r
            },
            None => {
                proof {
                    assert(!self.entries().contains_key(node_id));
                    let l = self.entries()[node_id].lifetime_of();
                    let b = expired_after(l, 0);
                    assert(false <==> self.entries().contains_key(node_id) && !b);
                }
                None
            },
        }
    }

    /// Time left before `node_id`'s feedback expires on its own once `elapsed` has passed since it
    /// was raised: `None` when there is none, it is persistent, or it has expired.
    pub fn remaining_after(&self, node_id: GraphNodeId, elapsed: Duration) -> (r: Option<Duration>)
        requires
            self.wf(),
        ensures
            !self.entries().contains_key(node_id) ==> r is None,
            self.entries().contains_key(node_id) ==> time_left(self.entries()[node_id].lifetime_of(), elapsed, r),
    {
        match self.messages.get(&node_id) {
            Some(m) => m.remaining_after(elapsed),
            None => None,
        }
    }

    /// Time left before `node_id`'s feedback expires on its own, if it is timed and still live,
    /// read against the clock now (see `remaining_after`).
    pub fn remaining(&self, node_id: GraphNodeId) -> (r: Option<Duration>)
        requires
            self.wf(),
        ensures
            !self.entries().contains_key(node_id) ==> r is None,
            self.entries().contains_key(node_id) && self.entries()[node_id].lifetime_of() is Persistent ==> r is None,
            (self.entries().contains_key(node_id) && r is Some) ==> (self.entries()[node_id].lifetime_of() matches MessageLifetime::Timed(d)
                && 0 < duration_nanos(r.unwrap()) <= duration_nanos(d)),
            self.entries().contains_key(node_id) ==> exists|e: Duration| time_left(self.entries()[node_id].lifetime_of(), e, r),
    {
        match self.messages.get(&node_id) {
            Some(m) => m.remaining(),
            None => None,
        }
    }

    /// Drops every message that has expired once the time `elapsed` gives for its node has
    /// passed since it was raised; nothing else changes.
    pub fn prune_expired_after(&mut self, elapsed: &AssocMap<GraphNodeId, Duration>)
        requires
            old(self).wf(),
            elapsed.wf(),
            forall|k: GraphNodeId| #[trigger] old(self).entries().contains_key(k) ==> elapsed.map().contains_key(k),
        ensures
            final(self).wf(),
            final(self).entries() == old(self).entries().restrict(
                old(self).entries().dom().filter(
                    |k: GraphNodeId| !expired_after(old(self).entries()[k].lifetime_of(), duration_nanos(elapsed.map()[k])),
                ),
            ),
            pruned_with(old(self).entries(), elapsed.map().map_values(|d: Duration| duration_nanos(d)), final(self).entries()),
    {
        let ghost o = self.messages.map();
        let ghost live = |k: GraphNodeId| !expired_after(o[k].lifetime_of(), duration_nanos(elapsed.map()[k]));
        proof {
            assert forall|k: GraphNodeId| #[trigger] o.contains_key(k) implies elapsed.map().contains_key(k) by {
                assert(old(self).entries().contains_key(k));
            }
        }
        let mut i: usize = self.messages.len();
        while i > 0
            invariant
                self.messages.wf(),
                elapsed.wf(),
                forall|k: GraphNodeId| #[trigger] o.contains_key(k) ==> elapsed.map().contains_key(k),
                forall|k: GraphNodeId| #[trigger] live(k) == !expired_after(o[k].lifetime_of(), duration_nanos(elapsed.map()[k])),
                i <= self.messages@.len(),
                forall|j: int| i <= j < self.messages@.len() ==> #[trigger] live(self.messages@[j].0),
                self.messages.map() == o.restrict(o.dom().filter(|k: GraphNodeId| live(k) || self.messages.map().contains_key(k))),
            decreases i,
        {
            i = i - 1;
            let k = self.messages.key_at(i);
            proof {
                crate::assoc::lemma_lookup(self.messages@);
                assert(self.messages.map().contains_key(k) && self.messages.map()[k] == self.messages@[i as int].1);
            }
            let expired = match elapsed.get(&k) {
                Some(e) => self.messages.value_at(i).is_expired_after(*e),
                None => false,
            };
            if expired {
                let ghost seq_before = self.messages@;
                self.messages.remove_at(i);
                proof {
                    assert forall|j: int| i <= j < self.messages@.len() implies #[trigger] live(self.messages@[j].0) by {
                        assert(self.messages@[j] == seq_before[j + 1]);
                    }
                }
            }
        }
        proof {
            crate::assoc::lemma_lookup(self.messages@);
            assert forall|k: GraphNodeId| #[trigger] self.messages.map().contains_key(k) implies live(k) by {
                let j = choose|j: int|
                    0 <= j < self.messages@.len() && self.messages@[j].0 == k && crate::assoc::lookup(self.messages@, k) == Some(
                        self.messages@[j].1,
                    );
            }
            assert(self.messages.map() =~= o.restrict(o.dom().filter(|k: GraphNodeId| live(k))));
            let readings = elapsed.map().map_values(|d: Duration| duration_nanos(d));
            assert(o.dom().filter(|k: GraphNodeId| !expired_after(o[k].lifetime_of(), readings[k])) =~= o.dom().filter(
                |k: GraphNodeId| live(k),
            ));
        }
    }

    /// Drops every message that has expired, each read against the clock now (see
    /// `prune_expired_after`): persistent feedback always stays, and nothing else changes.
    pub fn prune_expired(&mut self)
        requires
            old(self).wf(),
        ensures
            final(self).wf(),
            forall|k: GraphNodeId| #[trigger] final(self).entries().contains_key(k) ==> old(self).entries().contains_key(k)
                && final(self).entries()[k] == old(self).entries()[k],
            forall|k: GraphNodeId|
                #[trigger] old(self).entries().contains_key(k) && old(self).entries()[k].lifetime_of() is Persistent
                    ==> final(self).entries().contains_key(k),
            forall|k: GraphNodeId|
                #[trigger] old(self).entries().contains_key(k) && expires_at_once(old(self).entries()[k].lifetime_of())
                    ==> !final(self).entries().contains_key(k),
            exists|readings: Map<GraphNodeId, u128>|
                #[trigger] pruned_with(old(self).entries(), readings, final(self).entries()),
    {
        let mut readings: AssocMap<GraphNodeId, Duration> = AssocMap::new();
        let mut i: usize = 0;
        while i < self.messages.len()
            invariant
                self.messages.wf(),
                readings.wf(),
                i <= self.messages@.len(),
                forall|j: int| 0 <= j < i ==> readings.map().contains_key(#[trigger] self.messages@[j].0),
            decreases self.messages@.len() - i,
        {
            let k = self.messages.key_at(i);
            let e = self.messages.value_at(i).elapsed();
            let ghost r0 = readings.map();
            readings.insert(k, e);
            proof {
                assert forall|j: int| 0 <= j < i + 1 implies readings.map().contains_key(#[trigger] self.messages@[j].0) by {
                    if j < i {
                        assert(r0.contains_key(self.messages@[j].0));
                    }
                }
            }
            i = i + 1;
        }
        proof {
            crate::assoc::lemma_lookup(self.messages@);
            assert forall|k: GraphNodeId| #[trigger] self.messages.map().contains_key(k) implies readings.map().contains_key(k) by {
                let j = choose|j: int|
                    0 <= j < self.messages@.len() && self.messages@[j].0 == k && crate::assoc::lookup(self.messages@, k) == Some(
                        self.messages@[j].1,
                    );
            }
        }
        let ghost o = self.entries();
        self.prune_expired_after(&readings);
        proof {
            let nanos = readings.map().map_values(|d: Duration| duration_nanos(d));
            assert(self.entries() =~= o.restrict(o.dom().filter(|k: GraphNodeId| !expired_after(o[k].lifetime_of(), nanos[k]))));
            assert(pruned_with(o, nanos, self.entries()));
        }
    }
}

} // verus!
