//! Time primitives: epoch-millisecond [`Timestamp`] and the temporal
//! [`Validity`] interval carried by every node and edge.
//!
//! Repeated observations of the same entity fold into one record: the interval
//! widens to cover the new observation and `event_count` increments.

use vstd::prelude::*;

verus! {

/// A point in time, in milliseconds since the Unix epoch (UTC).
#[derive(Debug, Clone, Copy, PartialEq, Eq, PartialOrd, Ord, Hash)]
pub struct Timestamp(pub i64);

impl Timestamp {
    /// Smallest representable instant (an open lower bound).
    pub fn earliest() -> (t: Timestamp)
        ensures
            t.0 == i64::MIN,
    {
        Timestamp(i64::MIN)
    }

    /// Largest representable instant (an open upper bound).
    pub fn latest() -> (t: Timestamp)
        ensures
            t.0 == i64::MAX,
    {
        Timestamp(i64::MAX)
    }

    /// Construct from epoch milliseconds.
    pub fn from_millis(ms: i64) -> (t: Timestamp)
        ensures
            t.0 == ms,
    {
        Timestamp(ms)
    }

    /// Epoch milliseconds.
    pub fn millis(self) -> (ms: i64)
        ensures
            ms == self.0,
    {
        self.0
    }

    /// Epoch seconds, truncating toward zero (Rust integer division).
    pub fn secs(self) -> (s: i64)
        ensures
            s as int == if self.0 >= 0 {
                self.0 / 1000
            } else {
                -((-self.0) / 1000)
            },
    {
        self.0 / 1000
    }
}

impl From<i64> for Timestamp {
    fn from(ms: i64) -> (t: Timestamp) {
        Timestamp(ms)
    }
}

impl vstd::std_specs::convert::FromSpecImpl<i64> for Timestamp {
    open spec fn obeys_from_spec() -> bool {
        true
    }

    open spec fn from_spec(ms: i64) -> Timestamp {
        Timestamp(ms)
    }
}

/// Temporal validity interval: `[first_seen, last_seen]` plus the number of
/// observations folded into it.
#[derive(Debug, Clone, Copy, PartialEq, Eq)]
pub struct Validity {
    pub first_seen: Timestamp,
    pub last_seen: Timestamp,
    pub event_count: u64,
}

/// The validity after one more observation at `at`.
pub open spec fn observed(v: Validity, at: i64) -> Validity {
    Validity {
        first_seen: if at < v.first_seen.0 {
            Timestamp(at)
        } else {
            v.first_seen
        },
        last_seen: if at > v.last_seen.0 {
            Timestamp(at)
        } else {
            v.last_seen
        },
        event_count: (v.event_count + 1) as u64,
    }
}

/// The union of two validity intervals, with counts added.
pub open spec fn merged(a: Validity, b: Validity) -> Validity {
    Validity {
        first_seen: if b.first_seen.0 < a.first_seen.0 {
            b.first_seen
        } else {
            a.first_seen
        },
        last_seen: if b.last_seen.0 > a.last_seen.0 {
            b.last_seen
        } else {
            a.last_seen
        },
        event_count: (a.event_count + b.event_count) as u64,
    }
}

/// A single observation at `at`.
pub open spec fn single(at: i64) -> Validity {
    Validity { first_seen: Timestamp(at), last_seen: Timestamp(at), event_count: 1 }
}

impl Validity {
    /// The interval is well formed (non-empty, counted).
    pub open spec fn wf(self) -> bool {
        self.first_seen.0 <= self.last_seen.0 && self.event_count >= 1
    }

    /// A validity seeded by a single observation at `at`.
    pub fn at(at: Timestamp) -> (v: Validity)
        ensures
            v == single(at.0),
            v.wf(),
    {
        Validity { first_seen: at, last_seen: at, event_count: 1 }
    }

    /// Fold another observation in: widen the interval to include `at` and
    /// increment `event_count`. Observations may arrive out of order.
    pub fn observe(&mut self, at: Timestamp)
        requires
            old(self).event_count < u64::MAX,
        ensures
            *final(self) == observed(*old(self), at.0),
    {
        if at.0 < self.first_seen.0 {
            self.first_seen = at;
        }
        if at.0 > self.last_seen.0 {
            self.last_seen = at;
        }
        self.event_count = self.event_count + 1;
    }

    /// Merge another interval into this one: counts add, the interval widens
    /// to the union.
    pub fn merge(&mut self, other: &Validity)
        requires
            old(self).event_count + other.event_count <= u64::MAX,
        ensures
            *final(self) == merged(*old(self), *other),
    {
        if other.first_seen.0 < self.first_seen.0 {
            self.first_seen = other.first_seen;
        }
        if other.last_seen.0 > self.last_seen.0 {
            self.last_seen = other.last_seen;
        }
        self.event_count = self.event_count + other.event_count;
    }

    /// Present at instant `t` iff `first_seen <= t <= last_seen`.
    pub fn live_at(&self, t: Timestamp) -> (b: bool)
        ensures
            b == (self.first_seen.0 <= t.0 && t.0 <= self.last_seen.0),
    {
        self.first_seen.0 <= t.0 && t.0 <= self.last_seen.0
    }

    /// Present over the closed window `[lo, hi]` iff the intervals overlap.
    pub fn live_in(&self, lo: Timestamp, hi: Timestamp) -> (b: bool)
        ensures
            b == (self.first_seen.0 <= hi.0 && self.last_seen.0 >= lo.0),
    {
        self.first_seen.0 <= hi.0 && self.last_seen.0 >= lo.0
    }
}

// ---------------------------------------------------------------------------
// Laws
// ---------------------------------------------------------------------------

/// Observation order does not matter: folding `a` then `b` gives the same
/// validity as folding `b` then `a`.
pub proof fn law_observe_commutes(v: Validity, a: i64, b: i64)
    requires
        v.event_count + 2 <= u64::MAX,
    ensures
        observed(observed(v, a), b) == observed(observed(v, b), a),
{
}

/// Observing `at` is merging the single observation at `at`.
pub proof fn law_observe_is_merge_of_single(v: Validity, at: i64)
    requires
        v.event_count < u64::MAX,
    ensures
        observed(v, at) == merged(v, single(at)),
{
}

/// After observing `at`, the interval is well formed, covers `at`, and still
/// covers everything it covered before.
pub proof fn law_observe_covers(v: Validity, at: i64, t: i64)
    requires
        v.wf(),
        v.event_count < u64::MAX,
    ensures
        observed(v, at).wf(),
        observed(v, at).first_seen.0 <= at <= observed(v, at).last_seen.0,
        v.first_seen.0 <= t <= v.last_seen.0 ==> observed(v, at).first_seen.0 <= t <= observed(
            v,
            at,
        ).last_seen.0,
{
}

/// Merging is commutative.
pub proof fn law_merge_commutes(a: Validity, b: Validity)
    requires
        a.event_count + b.event_count <= u64::MAX,
    ensures
        merged(a, b) == merged(b, a),
{
}

/// Merging is associative.
pub proof fn law_merge_associates(a: Validity, b: Validity, c: Validity)
    requires
        a.event_count + b.event_count + c.event_count <= u64::MAX,
    ensures
        merged(merged(a, b), c) == merged(a, merged(b, c)),
{
}

/// Presence at an instant is presence over the degenerate window `[t, t]`.
pub proof fn law_live_at_is_point_window(v: Validity, t: i64)
    ensures
        (v.first_seen.0 <= t && t <= v.last_seen.0) == (v.first_seen.0 <= t && v.last_seen.0
            >= t),
{
}

} // verus!
