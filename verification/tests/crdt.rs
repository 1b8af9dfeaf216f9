//! Version vectors and the merge decision.

use allotize::component::VersionedComponent;
use allotize::replication::decide_crdt_put;
use allotize::vclock::{ClockOrder, VClock};

fn clock_of(entries: &[(&str, u64)]) -> VClock {
    let mut c = VClock::new();
    for (actor, n) in entries {
        for _ in 0..*n {
            let d = c.inc(actor);
            c.apply(&d);
        }
    }
    c
}

fn comp(entries: &[(&str, u64)], data: Option<&str>) -> VersionedComponent {
    VersionedComponent { clock: clock_of(entries), data: data.map(|s| s.to_string()) }
}

#[test]
fn inc_and_apply_count_up() {
    let mut c = VClock::new();
    assert_eq!(c.get("a"), 0);
    let d = c.inc("a");
    assert_eq!(d.counter, 1);
    c.apply(&d);
    assert_eq!(c.get("a"), 1);
    assert_eq!(c.get("b"), 0);
}

#[test]
fn apply_takes_the_maximum() {
    let mut c = clock_of(&[("a", 3)]);
    let d = allotize::vclock::Dot { actor: "a".to_string(), counter: 2 };
    c.apply(&d);
    assert_eq!(c.get("a"), 3);
    let d = allotize::vclock::Dot { actor: "a".to_string(), counter: 7 };
    c.apply(&d);
    assert_eq!(c.get("a"), 7);
}

#[test]
fn merge_is_elementwise_max() {
    let mut x = clock_of(&[("a", 2), ("b", 1)]);
    let y = clock_of(&[("a", 1), ("c", 4)]);
    x.merge(&y);
    assert_eq!(x.get("a"), 2);
    assert_eq!(x.get("b"), 1);
    assert_eq!(x.get("c"), 4);
}

#[test]
fn compare_orders_clocks() {
    let e = VClock::new();
    let a1 = clock_of(&[("a", 1)]);
    let a2 = clock_of(&[("a", 2)]);
    let b1 = clock_of(&[("b", 1)]);
    assert_eq!(e.compare(&e), ClockOrder::Equal);
    assert_eq!(a1.compare(&a2), ClockOrder::Less);
    assert_eq!(a2.compare(&a1), ClockOrder::Greater);
    assert_eq!(a1.compare(&b1), ClockOrder::Concurrent);
    assert_eq!(clock_of(&[("a", 1)]).compare(&a1), ClockOrder::Equal);
}

#[test]
fn decide_equal_persists_remote_quietly() {
    let local = comp(&[("a", 1)], Some("v"));
    let remote = comp(&[("a", 1)], Some("v"));
    let o = decide_crdt_put(&local, &remote);
    assert!(o.persist);
    assert!(!o.notify);
    assert!(o.reply.is_none());
    assert_eq!(o.stored.data, Some("v".to_string()));
}

#[test]
fn decide_less_adopts_remote() {
    let local = comp(&[("a", 1)], Some("old"));
    let remote = comp(&[("a", 2)], Some("new"));
    let o = decide_crdt_put(&local, &remote);
    assert!(o.persist);
    assert!(o.notify);
    assert!(o.reply.is_none());
    assert_eq!(o.stored.data, Some("new".to_string()));
    assert_eq!(o.stored.clock.get("a"), 2);
}

#[test]
fn decide_greater_echoes_local() {
    let local = comp(&[("a", 2)], Some("mine"));
    let remote = comp(&[("a", 1)], Some("stale"));
    let o = decide_crdt_put(&local, &remote);
    assert!(!o.persist);
    assert!(!o.notify);
    let reply = o.reply.unwrap();
    assert_eq!(reply.data, Some("mine".to_string()));
    assert_eq!(o.stored.data, Some("mine".to_string()));
}

#[test]
fn decide_concurrent_merges_and_larger_payload_wins() {
    let local = comp(&[("local", 2)], Some("value2"));
    let remote = comp(&[("remote", 2)], Some("value4"));
    let o = decide_crdt_put(&local, &remote);
    assert!(o.persist);
    assert!(o.notify);
    assert_eq!(o.stored.clock.get("local"), 2);
    assert_eq!(o.stored.clock.get("remote"), 2);
    // "value2" sorts below "value4", so the remote payload is adopted.
    assert_eq!(o.stored.data, Some("value4".to_string()));
    let reply = o.reply.unwrap();
    assert_eq!(reply.data, Some("value4".to_string()));
}

#[test]
fn decide_concurrent_keeps_local_when_not_below() {
    let local = comp(&[("local", 1)], Some("zz"));
    let remote = comp(&[("remote", 1)], Some("aa"));
    let o = decide_crdt_put(&local, &remote);
    assert_eq!(o.stored.data, Some("zz".to_string()));
    assert_eq!(o.stored.clock.get("local"), 1);
    assert_eq!(o.stored.clock.get("remote"), 1);
}

#[test]
fn absent_payload_loses_conflicts() {
    let local = comp(&[("local", 1)], None);
    let remote = comp(&[("remote", 1)], Some("aa"));
    let o = decide_crdt_put(&local, &remote);
    assert_eq!(o.stored.data, Some("aa".to_string()));
}

#[test]
fn redelivery_is_a_no_op() {
    let local = comp(&[("local", 2)], Some("mine"));
    let remote = comp(&[("remote", 1)], Some("theirs"));
    let first = decide_crdt_put(&local, &remote);
    let second = decide_crdt_put(&first.stored, &remote);
    assert!(!second.notify);
    assert_eq!(second.stored.data, first.stored.data);
    assert_eq!(second.stored.clock.get("local"), first.stored.clock.get("local"));
    assert_eq!(second.stored.clock.get("remote"), first.stored.clock.get("remote"));
}

#[test]
fn pairwise_exchange_converges() {
    let a = comp(&[("a", 3)], Some("pear"));
    let b = comp(&[("b", 5)], Some("plum"));
    // a handles b's component, then b handles a's resulting component.
    let at_a = decide_crdt_put(&a, &b);
    let carried = match &at_a.reply {
        Some(r) => VersionedComponent { clock: r.clock.duplicate(), data: r.data.clone() },
        None => VersionedComponent {
            clock: at_a.stored.clock.duplicate(),
            data: at_a.stored.data.clone(),
        },
    };
    let at_b = decide_crdt_put(&b, &carried);
    assert_eq!(at_b.stored.data, at_a.stored.data);
    assert_eq!(at_b.stored.clock.get("a"), at_a.stored.clock.get("a"));
    assert_eq!(at_b.stored.clock.get("b"), at_a.stored.clock.get("b"));
}

#[test]
fn clocks_never_move_backwards() {
    let local = comp(&[("a", 4), ("b", 1)], Some("x"));
    let remote = comp(&[("b", 3), ("c", 2)], Some("y"));
    let o = decide_crdt_put(&local, &remote);
    assert!(o.stored.clock.get("a") >= 4);
    assert!(o.stored.clock.get("b") >= 1);
}
