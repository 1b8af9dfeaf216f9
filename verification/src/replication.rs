//! The replication engine's merge decision.
//!
//! On an inbound `crdt_put` the local and remote clocks are compared and the
//! decision table below determines what is stored, whether subscribers are
//! notified, and what is rebroadcast. Conflicts (concurrent clocks) are
//! resolved deterministically: the clocks are merged pointwise and the
//! lexicographically larger payload wins, with an absent payload below any
//! present one.

use vstd::prelude::*;

use crate::component::{data_view, VersionedComponent};
use crate::order::{str_compare, str_lt, StrOrd};
use crate::vclock::lemma_le_antisymmetric;

verus! {

/// Strict order on optional payloads: `None` below any string, strings
/// by lexicographic order.
pub open spec fn opt_str_lt(a: Option<Seq<char>>, b: Option<Seq<char>>) -> bool {
    match (a, b) {
        (Option::None, Option::Some(_)) => true,
        (Option::Some(x), Option::Some(y)) => str_lt(x, y),
        _ => false,
    }
}

/// Whether the local payload loses the conflict against the remote one.
pub fn data_lt(a: &Option<String>, b: &Option<String>) -> (r: bool)
    ensures
        r == opt_str_lt(data_view(*a), data_view(*b)),
{
    match (a, b) {
        (Option::None, Option::Some(_)) => true,
        (Option::Some(x), Option::Some(y)) => {
            matches!(str_compare(x.as_str(), y.as_str()), StrOrd::Lt)
        },
        _ => false,
    }
}

/// What the engine does with an inbound `crdt_put`.
pub struct CrdtOutcome {
    /// The component this peer holds after the decision.
    pub stored: VersionedComponent,
    /// Whether `stored` must be written back to the store.
    pub persist: bool,
    /// Whether subscribers are told of a remote change.
    pub notify: bool,
    /// A component to rebroadcast as `crdt_put`, if any.
    pub reply: Option<VersionedComponent>,
}

/// The components read the same: equal clocks, equal payloads.
pub open spec fn comp_view_eq(x: VersionedComponent, y: VersionedComponent) -> bool {
    x.clock.equal(y.clock) && data_view(x.data) == data_view(y.data)
}

/// The decision table for an inbound `crdt_put` against the local component.
pub open spec fn is_decide_outcome(
    l: VersionedComponent,
    r: VersionedComponent,
    o: CrdtOutcome,
) -> bool {
    &&& o.stored.wf()
    &&& (if l.clock.equal(r.clock) {
        // Identical histories: persisting the remote copy keeps re-delivery idempotent.
        &&& comp_view_eq(o.stored, r)
        &&& o.persist
        &&& !o.notify
        &&& o.reply is None
    } else if l.clock.le(r.clock) {
        // Remote is strictly newer: adopt it.
        &&& comp_view_eq(o.stored, r)
        &&& o.persist
        &&& o.notify
        &&& o.reply is None
    } else if r.clock.le(l.clock) {
        // Local is strictly newer: keep it and echo it back.
        &&& comp_view_eq(o.stored, l)
        &&& !o.persist
        &&& !o.notify
        &&& o.reply is Some
        &&& comp_view_eq(o.reply->0, l)
    } else {
        // Concurrent: merge clocks, larger payload wins, broadcast the result.
        &&& forall|a: Seq<char>|
            #[trigger] o.stored.clock.dot(a) == if l.clock.dot(a) >= r.clock.dot(a) {
                l.clock.dot(a)
            } else {
                r.clock.dot(a)
            }
        &&& data_view(o.stored.data) == if opt_str_lt(data_view(l.data), data_view(r.data)) {
            data_view(r.data)
        } else {
            data_view(l.data)
        }
        &&& o.persist
        &&& o.notify
        &&& o.reply is Some
        &&& comp_view_eq(o.reply->0, o.stored)
    })
}

/// Runs the merge decision for an inbound `crdt_put`.
pub fn decide_crdt_put(local: &VersionedComponent, remote: &VersionedComponent) -> (o: CrdtOutcome)
    requires
        local.wf(),
        remote.wf(),
    ensures
        is_decide_outcome(*local, *remote, o),
        local.clock.le(o.stored.clock),
{
    let ord = local.clock.compare(&remote.clock);
    proof {
        lemma_le_antisymmetric(local.clock, remote.clock);
    }
    match ord {
        crate::vclock::ClockOrder::Equal => {
            let o = CrdtOutcome {
                stored: remote.duplicate(),
                persist: true,
                notify: false,
                reply: None,
            };
            proof {
                assert forall|a: Seq<char>| true implies #[trigger] local.clock.dot(a)
                    <= o.stored.clock.dot(a) by {
                    assert(local.clock.dot(a) == remote.clock.dot(a));
                    assert(o.stored.clock.dot(a) == remote.clock.dot(a));
                }
            }
            o
        },
        crate::vclock::ClockOrder::Less => {
            let o = CrdtOutcome {
                stored: remote.duplicate(),
                persist: true,
                notify: true,
                reply: None,
            };
            proof {
                assert forall|a: Seq<char>| true implies #[trigger] local.clock.dot(a)
                    <= o.stored.clock.dot(a) by {
                    assert(local.clock.dot(a) <= remote.clock.dot(a));
                    assert(o.stored.clock.dot(a) == remote.clock.dot(a));
                }
            }
            o
        },
        crate::vclock::ClockOrder::Greater => {
            let o = CrdtOutcome {
                stored: local.duplicate(),
                persist: false,
                notify: false,
                reply: Some(local.duplicate()),
            };
            proof {
                assert forall|a: Seq<char>| true implies #[trigger] local.clock.dot(a)
                    <= o.stored.clock.dot(a) by {
                    assert(o.stored.clock.dot(a) == local.clock.dot(a));
                }
            }
            o
        },
        crate::vclock::ClockOrder::Concurrent => {
            let mut clock = local.clock.duplicate();
            clock.merge(&remote.clock);
            let data = if data_lt(&local.data, &remote.data) {
                match &remote.data {
                    Some(s) => Some(s.clone()),
                    None => None,
                }
            } else {
                match &local.data {
                    Some(s) => Some(s.clone()),
                    None => None,
                }
            };
            let stored = VersionedComponent { clock, data };
            let reply = stored.duplicate();
            let o = CrdtOutcome { stored, persist: true, notify: true, reply: Some(reply) };
            proof {
                assert forall|a: Seq<char>| true implies #[trigger] local.clock.dot(a)
                    <= o.stored.clock.dot(a) by {
                    assert(o.stored.clock.dot(a) >= local.clock.dot(a));
                }
            }
            o
        },
    }
}

/// The stored clock never falls below the local clock: whatever the decision,
/// a peer's clock for a key is non-decreasing in the partial order.
pub proof fn lemma_decide_monotonic(l: VersionedComponent, r: VersionedComponent, o: CrdtOutcome)
    requires
        is_decide_outcome(l, r, o),
    ensures
        l.clock.le(o.stored.clock),
{
    if l.clock.equal(r.clock) {
        assert forall|a: Seq<char>| true implies #[trigger] l.clock.dot(a)
            <= o.stored.clock.dot(a) by {
            assert(l.clock.dot(a) == r.clock.dot(a));
            assert(o.stored.clock.dot(a) == r.clock.dot(a));
        }
    } else if l.clock.le(r.clock) {
        assert forall|a: Seq<char>| true implies #[trigger] l.clock.dot(a)
            <= o.stored.clock.dot(a) by {
            assert(l.clock.dot(a) <= r.clock.dot(a));
            assert(o.stored.clock.dot(a) == r.clock.dot(a));
        }
    } else if r.clock.le(l.clock) {
        assert forall|a: Seq<char>| true implies #[trigger] l.clock.dot(a)
            <= o.stored.clock.dot(a) by {
            assert(o.stored.clock.dot(a) == l.clock.dot(a));
        }
    } else {
        assert forall|a: Seq<char>| true implies #[trigger] l.clock.dot(a)
            <= o.stored.clock.dot(a) by {
            assert(o.stored.clock.dot(a) >= l.clock.dot(a));
        }
    }
}

/// Re-delivery of the same `crdt_put` is a no-op: deciding the same remote
/// component again leaves the stored component unchanged and raises no
/// remote-change event.
pub proof fn lemma_redelivery_no_op(
    l: VersionedComponent,
    r: VersionedComponent,
    o1: CrdtOutcome,
    o2: CrdtOutcome,
)
    requires
        is_decide_outcome(l, r, o1),
        is_decide_outcome(o1.stored, r, o2),
    ensures
        comp_view_eq(o2.stored, o1.stored),
        !o2.notify,
{
    let s = o1.stored;
    if l.clock.equal(r.clock) || (l.clock.le(r.clock) && !l.clock.equal(r.clock)) {
        // First delivery stored the remote component itself.
        assert(s.clock.equal(r.clock));
        assert forall|a: Seq<char>| true implies #[trigger] o2.stored.clock.dot(a)
            == s.clock.dot(a) by {
            assert(s.clock.dot(a) == r.clock.dot(a));
            assert(o2.stored.clock.dot(a) == r.clock.dot(a));
        }
    } else if r.clock.le(l.clock) {
        // First delivery kept the local component.
        assert(s.clock.equal(l.clock));
        assert(!s.clock.equal(r.clock)) by {
            if s.clock.equal(r.clock) {
                assert forall|a: Seq<char>| true implies #[trigger] l.clock.dot(a)
                    == r.clock.dot(a) by {
                    assert(s.clock.dot(a) == l.clock.dot(a));
                    assert(s.clock.dot(a) == r.clock.dot(a));
                }
            }
        }
        assert(!s.clock.le(r.clock)) by {
            if s.clock.le(r.clock) {
                assert forall|a: Seq<char>| true implies #[trigger] l.clock.dot(a)
                    == r.clock.dot(a) by {
                    assert(s.clock.dot(a) == l.clock.dot(a));
                    assert(s.clock.dot(a) <= r.clock.dot(a));
                    assert(r.clock.dot(a) <= l.clock.dot(a));
                }
            }
        }
        assert(r.clock.le(s.clock)) by {
            assert forall|a: Seq<char>| true implies #[trigger] r.clock.dot(a)
                <= s.clock.dot(a) by {
                assert(r.clock.dot(a) <= l.clock.dot(a));
                assert(s.clock.dot(a) == l.clock.dot(a));
            }
        }
    } else {
        // First delivery stored the merged component, which strictly
        // dominates the remote clock.
        assert(!s.clock.equal(r.clock)) by {
            if s.clock.equal(r.clock) {
                assert forall|a: Seq<char>| true implies #[trigger] l.clock.dot(a)
                    <= r.clock.dot(a) by {
                    assert(s.clock.dot(a) == r.clock.dot(a));
                }
            }
        }
        assert(!s.clock.le(r.clock)) by {
            if s.clock.le(r.clock) {
                assert forall|a: Seq<char>| true implies #[trigger] l.clock.dot(a)
                    <= r.clock.dot(a) by {
                    assert(s.clock.dot(a) <= r.clock.dot(a));
                    assert(s.clock.dot(a) >= l.clock.dot(a));
                }
            }
        }
        assert(r.clock.le(s.clock)) by {
            assert forall|a: Seq<char>| true implies #[trigger] r.clock.dot(a)
                <= s.clock.dot(a) by {
                assert(s.clock.dot(a) >= r.clock.dot(a));
            }
        }
    }
}

/// Pairwise convergence: after one peer decides on the other's component
/// and the result is carried back, the second peer's decision stores the
/// very same component, so both peers agree.
pub proof fn lemma_convergence(
    a: VersionedComponent,
    b: VersionedComponent,
    o1: CrdtOutcome,
    o2: CrdtOutcome,
)
    requires
        is_decide_outcome(a, b, o1),
        is_decide_outcome(b, o1.stored, o2),
    ensures
        comp_view_eq(o2.stored, o1.stored),
{
    let s = o1.stored;
    if a.clock.equal(b.clock) || (a.clock.le(b.clock) && !a.clock.equal(b.clock)) {
        // The first peer adopted b; the second sees its own history.
        assert(s.clock.equal(b.clock));
        assert(b.clock.equal(s.clock)) by {
            assert forall|a_: Seq<char>| true implies #[trigger] b.clock.dot(a_)
                == s.clock.dot(a_) by {
                assert(s.clock.dot(a_) == b.clock.dot(a_));
            }
        }
    } else if b.clock.le(a.clock) {
        // The first peer kept a and echoed it back; b is strictly behind.
        assert(s.clock.equal(a.clock));
        assert(!b.clock.equal(s.clock)) by {
            if b.clock.equal(s.clock) {
                assert forall|a_: Seq<char>| true implies #[trigger] a.clock.dot(a_)
                    == b.clock.dot(a_) by {
                    assert(b.clock.dot(a_) == s.clock.dot(a_));
                    assert(s.clock.dot(a_) == a.clock.dot(a_));
                }
            }
        }
        assert(b.clock.le(s.clock)) by {
            assert forall|a_: Seq<char>| true implies #[trigger] b.clock.dot(a_)
                <= s.clock.dot(a_) by {
                assert(b.clock.dot(a_) <= a.clock.dot(a_));
                assert(s.clock.dot(a_) == a.clock.dot(a_));
            }
        }
    } else {
        // Conflict: the merged component strictly dominates b.
        assert(!b.clock.equal(s.clock)) by {
            if b.clock.equal(s.clock) {
                assert forall|a_: Seq<char>| true implies #[trigger] a.clock.dot(a_)
                    <= b.clock.dot(a_) by {
                    assert(b.clock.dot(a_) == s.clock.dot(a_));
                    assert(s.clock.dot(a_) >= a.clock.dot(a_));
                }
            }
        }
        assert(b.clock.le(s.clock)) by {
            assert forall|a_: Seq<char>| true implies #[trigger] b.clock.dot(a_)
                <= s.clock.dot(a_) by {
                assert(s.clock.dot(a_) >= b.clock.dot(a_));
            }
        }
    }
}

} // verus!
