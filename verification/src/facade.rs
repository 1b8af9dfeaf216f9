//! The host-facing facade: one store, one identity, one set of peer
//! channels.
//!
//! Writes go through the store; every change yields a subscriber event
//! named `key@local` or `key@remote`, and replication messages to send
//! are handed back as values for the transport to deliver. Inbound
//! messages run the verified merge decision against the stored component.

use vstd::prelude::*;

use crate::component::{data_view, VersionedComponent};
use crate::engine::{KvStore, KvsError, RangeBound};
use crate::identity::Identity;
use crate::messages::{RtcCommand, RtcMessage};
use crate::order::str_lt;
use crate::replication::{decide_crdt_put, is_decide_outcome, CrdtOutcome};
use crate::session::{
    channel_metadata, channels_ready, AppMetadata, PeerConnectionStatus, PoolMetadata,
};
use crate::wire::{
    decode_component, encode_component, entry_views, fold_dot, lemma_parse_comp_chars,
    parse_comp,
};

verus! {

/// Whether a change was made by this peer or learned from another.
#[derive(Debug, Clone, Copy, PartialEq, Eq, Structural)]
pub enum ChangeOrigin {
    Local,
    Remote,
}

/// A subscriber notification: the event name and the component it is
/// about.
pub struct ChangeEvent {
    pub name: String,
    pub component: VersionedComponent,
}

/// The event name for a key: the key with `@local` or `@remote` behind
/// it, depending on where the change came from.
pub fn event_name(key: &str, origin: ChangeOrigin) -> (n: String)
    ensures
        n@ == key@ + (match origin {
            ChangeOrigin::Local => "@local"@,
            ChangeOrigin::Remote => "@remote"@,
        }),
{
    let mut n = key.to_owned();
    match origin {
        ChangeOrigin::Local => {
            n.append("@local");
        },
        ChangeOrigin::Remote => {
            n.append("@remote");
        },
    }
    n
}

/// Whether `k` lies in the range a prefix query asks for: at or above
/// the prefix, at or below the prefix with a greatest character behind
/// it.
pub open spec fn in_prefix_range(p: Seq<char>, k: Seq<char>) -> bool {
    crate::order::str_le(p, k) && crate::order::str_le(k, p.push('\u{10ffff}'))
}

/// The application: identity, store, channel states, and subscriptions.
pub struct App {
    identity: Identity,
    store: KvStore,
    channels: Vec<PeerConnectionStatus>,
    subscriptions: Vec<String>,
}

/// A transaction over the application: it owns the application while it
/// lives and collects the events and outbound messages the operations
/// produce, for the host to dispatch after [`Tx::finish`].
pub struct Tx {
    pub app: App,
    pub events: Vec<ChangeEvent>,
    pub outbound: Vec<RtcMessage>,
}

impl App {
    /// The store is consistent.
    pub closed spec fn inv(self) -> bool {
        self.store.inv()
    }

    /// What the store holds for a key.
    pub closed spec fn val_of(self, k: Seq<char>) -> Option<Seq<char>> {
        self.store.val_of(k)
    }

    /// Builds an application over a freshly opened (or handed-back)
    /// store.
    pub fn new(username: &str, store: KvStore) -> (a: App)
        requires
            store.inv(),
        ensures
            a.inv(),
            a.spec_username() == username@,
            forall|k: Seq<char>| #[trigger] a.val_of(k) == store.val_of(k),
    {
        App {
            identity: Identity::new(username),
            store,
            channels: Vec::new(),
            subscriptions: Vec::new(),
        }
    }

    /// This peer's identity.
    pub fn identity(&self) -> (id: Identity)
        ensures
            id.username@ == self.spec_username(),
    {
        Identity::new(self.identity.username.as_str())
    }

    /// The actor name this peer writes under.
    pub closed spec fn spec_username(self) -> Seq<char> {
        self.identity.username@
    }

    /// The channel states the host reported last.
    pub closed spec fn spec_channels(self) -> Seq<PeerConnectionStatus> {
        self.channels@
    }

    /// The host tells the facade about its channels' states.
    pub fn set_channel_states(&mut self, channels: Vec<PeerConnectionStatus>)
        requires
            old(self).inv(),
        ensures
            final(self).inv(),
            final(self).spec_channels() == channels@,
            forall|k: Seq<char>| #[trigger] final(self).val_of(k) == old(self).val_of(k),
            final(self).spec_username() == old(self).spec_username(),
    {
        self.channels = channels;
    }

    /// The "require N open channels" probe: whether the requirement is
    /// met right now, so an awaiting caller can be scheduled.
    pub fn require_channels(&self, open_channels: u64) -> (r: bool)
        requires
            self.spec_channels().len() < usize::MAX,
        ensures
            r == (crate::session::count_status(
                self.spec_channels(),
                PeerConnectionStatus::Open,
            ) >= open_channels),
    {
        channels_ready(&self.channels, open_channels)
    }

    /// Channel counts for the host.
    pub fn metadata(&self) -> (m: AppMetadata)
        requires
            self.spec_channels().len() < usize::MAX,
        ensures
            m.pool.rtc.open == crate::session::count_status(
                self.spec_channels(),
                PeerConnectionStatus::Open,
            ),
            m.pool.rtc.connecting == crate::session::count_status(
                self.spec_channels(),
                PeerConnectionStatus::Connecting,
            ),
            m.pool.rtc.closed == crate::session::count_status(
                self.spec_channels(),
                PeerConnectionStatus::Closed,
            ),
    {
        AppMetadata { pool: PoolMetadata { rtc: channel_metadata(&self.channels) } }
    }

    /// Whether the host asked to hear about changes to key `k`. The host
    /// dispatches an event to its callbacks only when its key is
    /// subscribed.
    pub closed spec fn spec_subscribed(self, k: Seq<char>) -> bool {
        exists|i: int|
            0 <= i < self.subscriptions@.len() && (#[trigger] self.subscriptions@[i])@ == k
    }

    /// Whether `key` is currently subscribed.
    pub fn is_subscribed(&self, key: &str) -> (r: bool)
        ensures
            r == self.spec_subscribed(key@),
    {
        let mut i: usize = 0;
        while i < self.subscriptions.len()
            invariant
                i <= self.subscriptions@.len(),
                forall|j: int| 0 <= j < i ==> (#[trigger] self.subscriptions@[j])@ != key@,
            decreases self.subscriptions@.len() - i,
        {
            if matches!(
                crate::order::str_compare(self.subscriptions[i].as_str(), key),
                crate::order::StrOrd::Eq
            ) {
                return true;
            }
            i = i + 1;
        }
        false
    }

    /// Starts listening for changes to `key`, local and remote.
    pub fn subscribe(&mut self, key: &str)
        requires
            old(self).inv(),
        ensures
            final(self).inv(),
            forall|k: Seq<char>|
                #[trigger] final(self).spec_subscribed(k) == (old(self).spec_subscribed(k) || k
                    == key@),
            forall|k: Seq<char>| #[trigger] final(self).val_of(k) == old(self).val_of(k),
    {
        let ghost subs0 = self.subscriptions@;
        self.subscriptions.push(key.to_owned());
        proof {
            assert(self.subscriptions@.last()@ == key@);
            assert(forall|j: int|
                0 <= j < subs0.len() ==> #[trigger] self.subscriptions@[j] == subs0[j]);
            assert forall|k: Seq<char>| true implies #[trigger] self.spec_subscribed(k) == (
            old(self).spec_subscribed(k) || k == key@) by {
                if old(self).spec_subscribed(k) {
                    let j = choose|j: int| 0 <= j < subs0.len() && subs0[j]@ == k;
                    assert(self.subscriptions@[j]@ == k);
                }
                if k == key@ {
                    assert(self.subscriptions@[self.subscriptions@.len() - 1]@ == k);
                }
                if self.spec_subscribed(k) {
                    let j = choose|j: int|
                        0 <= j < self.subscriptions@.len() && self.subscriptions@[j]@ == k;
                    if j < subs0.len() {
                        assert(subs0[j]@ == k);
                    }
                }
            }
        }
    }

    /// Stops listening for changes to `key`.
    pub fn unsubscribe(&mut self, key: &str)
        requires
            old(self).inv(),
        ensures
            final(self).inv(),
            forall|k: Seq<char>|
                #[trigger] final(self).spec_subscribed(k) == (old(self).spec_subscribed(k) && k
                    != key@),
            forall|k: Seq<char>| #[trigger] final(self).val_of(k) == old(self).val_of(k),
    {
        let ghost subs0 = self.subscriptions@;
        let mut kept: Vec<String> = Vec::new();
        let mut i: usize = 0;
        while i < self.subscriptions.len()
            invariant
                subs0 == self.subscriptions@,
                i <= subs0.len(),
                forall|a: int|
                    0 <= a < kept@.len() ==> (#[trigger] kept@[a])@ != key@ && (exists|j: int|
                        0 <= j < i && (#[trigger] subs0[j])@ == kept@[a]@),
                forall|j: int|
                    0 <= j < i && (#[trigger] subs0[j])@ != key@ ==> exists|a: int|
                        0 <= a < kept@.len() && (#[trigger] kept@[a])@ == subs0[j]@,
            decreases subs0.len() - i,
        {
            let ghost kept0 = kept@;
            let keep = !matches!(
                crate::order::str_compare(self.subscriptions[i].as_str(), key),
                crate::order::StrOrd::Eq
            );
            if keep {
                kept.push(self.subscriptions[i].clone());
            }
            proof {
                if keep {
                    assert(kept@.last()@ == subs0[i as int]@);
                    assert(forall|a: int|
                        0 <= a < kept0.len() ==> #[trigger] kept@[a] == kept0[a]);
                }
                assert forall|j: int| 0 <= j < i + 1 && (#[trigger] subs0[j])@ != key@
                    implies exists|a: int|
                    0 <= a < kept@.len() && (#[trigger] kept@[a])@ == subs0[j]@ by {
                    if j < i {
                        let a = choose|a: int|
                            0 <= a < kept0.len() && (#[trigger] kept0[a])@ == subs0[j]@;
                        assert(kept@[a]@ == subs0[j]@);
                    } else {
                        assert(kept@[kept@.len() - 1]@ == subs0[j]@);
                    }
                }
            }
            i = i + 1;
        }
        self.subscriptions = kept;
        proof {
            assert forall|k: Seq<char>| true implies #[trigger] self.spec_subscribed(k) == (
            old(self).spec_subscribed(k) && k != key@) by {
                if self.spec_subscribed(k) {
                    let a = choose|a: int|
                        0 <= a < self.subscriptions@.len() && (#[trigger] self.subscriptions@[
                            a
                        ])@ == k;
                    let j = choose|j: int|
                        0 <= j < subs0.len() && (#[trigger] subs0[j])@ == self.subscriptions@[
                            a
                        ]@;
                }
                if old(self).spec_subscribed(k) && k != key@ {
                    let j = choose|j: int| 0 <= j < subs0.len() && (#[trigger] subs0[j])@ == k;
                    let a = choose|a: int|
                        0 <= a < self.subscriptions@.len() && (#[trigger] self.subscriptions@[
                            a
                        ])@ == subs0[j]@;
                }
            }
        }
    }

    /// All key/value pairs the store holds — every one of them — in
    /// ascending key order.
    pub fn get_all(&self) -> (r: Result<Vec<(String, String)>, KvsError>)
        requires
            self.inv(),
        ensures
            r matches Ok(items) && {
                &&& forall|a: int, b: int|
                    0 <= a < b < items@.len() ==> crate::order::str_lt(
                        (#[trigger] items@[a]).0@,
                        (#[trigger] items@[b]).0@,
                    )
                &&& forall|a: int|
                    0 <= a < items@.len() ==> self.val_of((#[trigger] items@[a]).0@) == Some(
                        items@[a].1@,
                    )
                &&& forall|k: Seq<char>|
                    (#[trigger] self.val_of(k)) is Some ==> exists|a: int|
                        0 <= a < items@.len() && items@[a].0@ == k
            },
    {
        self.store.get_all()
    }

    /// Opens a transaction.
    pub fn tx(self) -> (t: Tx)
        ensures
            t.app == self,
            t.events@.len() == 0,
            t.outbound@.len() == 0,
    {
        Tx { app: self, events: Vec::new(), outbound: Vec::new() }
    }

    /// Hands the store back for persisting; the application is done.
    pub fn into_store(self) -> (s: KvStore)
        ensures
            self.inv() ==> s.inv(),
            forall|k: Seq<char>| #[trigger] s.val_of(k) == self.val_of(k),
    {
        self.store
    }
}

impl Tx {
    /// Ends the transaction: the application, the subscriber events to
    /// fire, and the messages to broadcast.
    pub fn finish(self) -> (r: (App, Vec<ChangeEvent>, Vec<RtcMessage>))
        ensures
            r.0 == self.app,
            r.1 == self.events,
            r.2 == self.outbound,
    {
        (self.app, self.events, self.outbound)
    }

    /// The store is consistent.
    pub closed spec fn inv(self) -> bool {
        self.app.inv()
    }

    /// What the store holds for a key.
    pub closed spec fn val_of(self, k: Seq<char>) -> Option<Seq<char>> {
        self.app.val_of(k)
    }

    /// The actor name this peer writes under.
    pub closed spec fn spec_username(self) -> Seq<char> {
        self.app.spec_username()
    }

    /// The parse of the text stored under `k`: the clock entries and the
    /// payload, when the key holds a readable component.
    pub closed spec fn stored_parse(self, k: Seq<char>) -> Option<
        (Seq<(Seq<char>, u64)>, Option<Seq<char>>),
    > {
        match self.val_of(k) {
            Some(s) => parse_comp(s),
            None => None,
        }
    }

    /// The dot the stored component under `k` carries for actor `a`;
    /// zero when the key is absent or unreadable.
    pub open spec fn stored_dot(self, k: Seq<char>, a: Seq<char>) -> u64 {
        match self.stored_parse(k) {
            Some((es, _)) => fold_dot(es, a),
            None => 0,
        }
    }

    /// The payload the stored component under `k` carries.
    pub open spec fn stored_data(self, k: Seq<char>) -> Option<Seq<char>> {
        match self.stored_parse(k) {
            Some((_, d)) => d,
            None => None,
        }
    }

    /// Component `c` reads as what is stored under `k`: same dot for
    /// every actor, same payload.
    pub open spec fn reads_as_stored(self, k: Seq<char>, c: VersionedComponent) -> bool {
        &&& forall|a: Seq<char>| #[trigger] c.clock.dot(a) == self.stored_dot(k, a)
        &&& data_view(c.data) == self.stored_data(k)
    }

    /// Broadcasts a key and component to connected peers without touching
    /// the store.
    pub fn share(&mut self, key: String, value: Option<VersionedComponent>)
        requires
            old(self).inv(),
        ensures
            final(self).inv(),
            forall|k: Seq<char>| #[trigger] final(self).val_of(k) == old(self).val_of(k),
            final(self).outbound@ == old(self).outbound@.push(final(self).outbound@.last()),
            final(self).outbound@.last().command == RtcCommand::Share,
            final(self).outbound@.last().key@ == key@,
            final(self).outbound@.last().value == value,
            final(self).events == old(self).events,
    {
        self.outbound.push(RtcMessage { command: RtcCommand::Share, key, value });
    }

    /// Stores a plain value and tells peers and subscribers.
    pub fn put(&mut self, key: String, value: String) -> (r: Result<(), KvsError>)
        requires
            old(self).inv(),
        ensures
            final(self).inv(),
            r is Ok,
            final(self).val_of(key@) == Some(value@),
            forall|k: Seq<char>|
                k != key@ ==> #[trigger] final(self).val_of(k) == old(self).val_of(k),
            final(self).outbound@.len() == old(self).outbound@.len() + 1,
            final(self).outbound@.last().command == RtcCommand::Put,
            final(self).events@.len() == old(self).events@.len() + 1,
    {
        let name = event_name(key.as_str(), ChangeOrigin::Local);
        let component = VersionedComponent::new_with_value(Some(value.clone()));
        let r = self.app.store.set(key.clone(), value);
        self.events.push(ChangeEvent { name, component: component.duplicate() });
        self.outbound.push(
            RtcMessage { command: RtcCommand::Put, key, value: Some(component) },
        );
        r
    }

    /// Reads a plain value.
    pub fn get(&self, key: &str) -> (r: Result<Option<String>, KvsError>)
        requires
            self.inv(),
        ensures
            r matches Ok(o) && data_view(o) == self.val_of(key@),
    {
        self.app.store.get(key)
    }

    /// Removes a key, tells peers and subscribers. `KeyNotFound` when the
    /// key is absent.
    pub fn remove(&mut self, key: String) -> (r: Result<(), KvsError>)
        requires
            old(self).inv(),
        ensures
            final(self).inv(),
            r is Ok <==> old(self).val_of(key@) is Some,
            final(self).val_of(key@) is None,
            forall|k: Seq<char>|
                k != key@ ==> #[trigger] final(self).val_of(k) == old(self).val_of(k),
    {
        let r = self.app.store.remove(key.clone());
        if r.is_ok() {
            self.outbound.push(
                RtcMessage { command: RtcCommand::Remove, key, value: None },
            );
        }
        r
    }

    /// The pairs with keys in the given range, ascending.
    pub fn get_range(&self, start: &RangeBound, end: &RangeBound) -> (r: Result<
        Vec<(String, String)>,
        KvsError,
    >)
        requires
            self.inv(),
        ensures
            r matches Ok(items) && {
                &&& forall|a: int, b: int|
                    0 <= a < b < items@.len() ==> str_lt(
                        (#[trigger] items@[a]).0@,
                        (#[trigger] items@[b]).0@,
                    )
                &&& forall|a: int|
                    0 <= a < items@.len() ==> crate::engine::in_range(
                        *start,
                        *end,
                        (#[trigger] items@[a]).0@,
                    ) && self.val_of(items@[a].0@) == Some(items@[a].1@)
                &&& forall|k: Seq<char>|
                    crate::engine::in_range(*start, *end, k) && (#[trigger] self.val_of(k))
                        is Some ==> exists|a: int| 0 <= a < items@.len() && items@[a].0@ == k
            },
    {
        self.app.store.get_range(start, end)
    }

    /// The pairs whose keys lie between the prefix and the prefix with a
    /// greatest character behind it — exactly those, in ascending order.
    pub fn begins_with(&self, prefix: &str) -> (r: Result<Vec<(String, String)>, KvsError>)
        requires
            self.inv(),
        ensures
            r matches Ok(items) && {
                &&& forall|a: int, b: int|
                    0 <= a < b < items@.len() ==> str_lt(
                        (#[trigger] items@[a]).0@,
                        (#[trigger] items@[b]).0@,
                    )
                &&& forall|a: int|
                    0 <= a < items@.len() ==> in_prefix_range(
                        prefix@,
                        (#[trigger] items@[a]).0@,
                    ) && self.val_of(items@[a].0@) == Some(items@[a].1@)
                &&& forall|k: Seq<char>|
                    in_prefix_range(prefix@, k) && (#[trigger] self.val_of(k)) is Some
                        ==> exists|a: int| 0 <= a < items@.len() && items@[a].0@ == k
            },
    {
        let mut hi = prefix.to_owned();
        crate::wire::push_max_char(&mut hi);
        let lo = RangeBound::Included(prefix.to_owned());
        let hi_bound = RangeBound::Included(hi);
        let r = self.app.store.get_range(&lo, &hi_bound);
        proof {
            assert(forall|k: Seq<char>|
                #[trigger] crate::engine::in_range(lo, hi_bound, k) == in_prefix_range(
                    prefix@,
                    k,
                ));
        }
        r
    }

    /// Reads the component stored under a key; an absent key or an
    /// unreadable value reads as the default component, never an error.
    pub fn crdt_get(&self, key: &str) -> (r: Result<VersionedComponent, KvsError>)
        requires
            self.inv(),
        ensures
            r matches Ok(c) && c.wf() && self.reads_as_stored(key@, c),
    {
        let stored = match self.app.store.get(key) {
            Ok(o) => o,
            Err(e) => {
                return Err(e);
            },
        };
        match stored {
            Some(s) => match decode_component(s.as_str()) {
                Some(c) => Ok(c),
                None => Ok(VersionedComponent::empty()),
            },
            None => Ok(VersionedComponent::empty()),
        }
    }

    /// Applies a local CRDT write: advances this peer's dot on the stored
    /// component, replaces its payload, persists it, and tells peers and
    /// subscribers.
    pub fn crdt_put(&mut self, key: String, value: String) -> (r: Result<(), KvsError>)
        requires
            old(self).inv(),
        ensures
            final(self).inv(),
            r is Ok,
            final(self).spec_username() == old(self).spec_username(),
            forall|k: Seq<char>|
                k != key@ ==> #[trigger] final(self).val_of(k) == old(self).val_of(k),
            final(self).outbound@.len() == old(self).outbound@.len() + 1,
            final(self).outbound@.last().command == RtcCommand::CrdtPut,
            final(self).outbound@.last().key@ == key@,
            // The broadcast component carries the new payload and the old
            // clock with this actor's dot advanced by one (saturating at
            // the counter's ceiling), every other dot unchanged.
            final(self).outbound@.last().value matches Some(c) && {
                &&& c.wf()
                &&& data_view(c.data) == Some(value@)
                &&& c.clock.dot(old(self).spec_username()) as int == (if old(self).stored_dot(
                    key@,
                    old(self).spec_username(),
                ) < u64::MAX {
                    old(self).stored_dot(key@, old(self).spec_username()) + 1
                } else {
                    u64::MAX as int
                })
                &&& forall|a: Seq<char>|
                    a != old(self).spec_username() ==> #[trigger] c.clock.dot(a) == old(self).stored_dot(key@, a)
            },
            // What now stands in the store is exactly the broadcast component.
            match final(self).val_of(key@) {
                Some(s) => final(self).outbound@.last().value matches Some(c) && parse_comp(s)
                    == Some(
                    (
                        crate::wire::entry_views(c.clock.spec_entries()),
                        data_view(c.data),
                    ),
                ),
                None => false,
            },
            // The subscriber event names the local change.
            final(self).events@.len() == old(self).events@.len() + 1,
            final(self).events@.last().name@ == key@ + "@local"@,
    {
        let mut component = match self.crdt_get(key.as_str()) {
            Ok(c) => c,
            Err(e) => {
                proof {
                    assert(false);
                }
                return Err(e);
            },
        };
        let actor = self.app.identity.username.clone();
        if component.clock.get(actor.as_str()) < u64::MAX {
            component.apply(actor.as_str());
        }
        component.data = Some(value);
        let encoded = encode_component(&component);
        let r = self.app.store.set(key.clone(), encoded);
        proof {
            lemma_parse_comp_chars(
                crate::wire::entry_views(component.clock.spec_entries()),
                data_view(component.data),
            );
        }
        let name = event_name(key.as_str(), ChangeOrigin::Local);
        self.events.push(ChangeEvent { name, component: component.duplicate() });
        self.outbound.push(
            RtcMessage { command: RtcCommand::CrdtPut, key, value: Some(component) },
        );
        r
    }

    /// Broadcasts the current component for a key as `crdt_put`, so any
    /// peer that is ahead answers with its newer version.
    pub fn sync_with_peers(&mut self, key: String) -> (r: Result<(), KvsError>)
        requires
            old(self).inv(),
        ensures
            final(self).inv(),
            r is Ok,
            forall|k: Seq<char>| #[trigger] final(self).val_of(k) == old(self).val_of(k),
            final(self).outbound@.len() == old(self).outbound@.len() + 1,
            final(self).outbound@.last().command == RtcCommand::CrdtPut,
            final(self).outbound@.last().key@ == key@,
            final(self).outbound@.last().value matches Some(c) && c.wf() && old(self).reads_as_stored(key@, c),
            final(self).events == old(self).events,
    {
        let component = match self.crdt_get(key.as_str()) {
            Ok(c) => c,
            Err(e) => {
                proof {
                    assert(false);
                }
                return Err(e);
            },
        };
        self.outbound.push(
            RtcMessage { command: RtcCommand::CrdtPut, key, value: Some(component) },
        );
        Ok(())
    }

    /// Handles one inbound data-channel message: notifications are
    /// re-raised, plain writes and removals are applied, and `crdt_put`
    /// runs the merge decision — what the decision rules is what gets
    /// persisted, notified and rebroadcast.
    pub fn handle_message(&mut self, msg: RtcMessage) -> (r: Result<(), KvsError>)
        requires
            old(self).inv(),
        ensures
            final(self).inv(),
            r is Ok,
            final(self).spec_username() == old(self).spec_username(),
            forall|k: Seq<char>|
                k != msg.key@ ==> #[trigger] final(self).val_of(k) == old(self).val_of(k),
            match msg.command {
                RtcCommand::Share => {
                    &&& forall|k: Seq<char>|
                        #[trigger] final(self).val_of(k) == old(self).val_of(k)
                    &&& final(self).outbound == old(self).outbound
                    &&& match msg.value {
                        Some(c) => final(self).events@.len() == old(self).events@.len() + 1
                            && final(self).events@.last().name@ == msg.key@ + "@remote"@
                            && final(self).events@.last().component == c,
                        None => final(self).events == old(self).events,
                    }
                },
                RtcCommand::Put => match msg.value {
                    Some(c) => {
                        &&& (final(self).val_of(msg.key@) matches Some(s) && parse_comp(s)
                            == Some(
                            (entry_views(c.clock.spec_entries()), data_view(c.data)),
                        ))
                        &&& final(self).events@.len() == old(self).events@.len() + 1
                        &&& final(self).events@.last().name@ == msg.key@ + "@remote"@
                        &&& final(self).events@.last().component == c
                        &&& final(self).outbound == old(self).outbound
                    },
                    None => tx_unchanged(*old(self), *final(self)),
                },
                RtcCommand::Remove => {
                    &&& final(self).val_of(msg.key@) is None
                    &&& final(self).outbound == old(self).outbound
                    &&& if old(self).val_of(msg.key@) is Some {
                        final(self).events@.len() == old(self).events@.len() + 1 && final(self).events@.last().name@ == msg.key@ + "@remote"@
                    } else {
                        final(self).events == old(self).events
                    }
                },
                RtcCommand::CrdtPut => match msg.value {
                    Some(rc) => if rc.clock.wf() {
                        exists|l: VersionedComponent, o: CrdtOutcome|
                            {
                                &&& l.wf()
                                &&& old(self).reads_as_stored(msg.key@, l)
                                &&& #[trigger] is_decide_outcome(l, rc, o)
                                &&& if o.persist {
                                    final(self).val_of(msg.key@) matches Some(s)
                                        && parse_comp(s) == Some(
                                        (
                                            entry_views(o.stored.clock.spec_entries()),
                                            data_view(o.stored.data),
                                        ),
                                    )
                                } else {
                                    final(self).val_of(msg.key@) == old(self).val_of(
                                        msg.key@,
                                    )
                                }
                                &&& if o.notify {
                                    final(self).events@.len() == old(self).events@.len() + 1
                                        && final(self).events@.last().name@ == msg.key@
                                        + "@remote"@
                                } else {
                                    final(self).events == old(self).events
                                }
                                &&& match o.reply {
                                    Some(rep) => final(self).outbound@.len() == old(self).outbound@.len() + 1 && final(self).outbound@.last().command == RtcCommand::CrdtPut
                                        && final(self).outbound@.last().key@ == msg.key@
                                        && final(self).outbound@.last().value == Some(rep),
                                    None => final(self).outbound == old(self).outbound,
                                }
                            }
                    } else {
                        tx_unchanged(*old(self), *final(self))
                    },
                    None => tx_unchanged(*old(self), *final(self)),
                },
                RtcCommand::Done => tx_unchanged(*old(self), *final(self)),
            },
    {
        match msg.command {
            RtcCommand::Share => {
                match msg.value {
                    Some(c) => {
                        let name = event_name(msg.key.as_str(), ChangeOrigin::Remote);
                        self.events.push(ChangeEvent { name, component: c });
                    },
                    None => {},
                }
                Ok(())
            },
            RtcCommand::Put => {
                match msg.value {
                    Some(c) => {
                        let name = event_name(msg.key.as_str(), ChangeOrigin::Remote);
                        let encoded = encode_component(&c);
                        proof {
                            lemma_parse_comp_chars(
                                entry_views(c.clock.spec_entries()),
                                data_view(c.data),
                            );
                        }
                        let r = self.app.store.set(msg.key, encoded);
                        self.events.push(ChangeEvent { name, component: c });
                        r
                    },
                    None => Ok(()),
                }
            },
            RtcCommand::Remove => {
                let name = event_name(msg.key.as_str(), ChangeOrigin::Remote);
                match self.app.store.remove(msg.key) {
                    Ok(_) => {
                        self.events.push(
                            ChangeEvent {
                                name,
                                component: VersionedComponent::empty(),
                            },
                        );
                        Ok(())
                    },
                    Err(_) => Ok(()),
                }
            },
            RtcCommand::CrdtPut => {
                let remote = match msg.value {
                    Some(c) => c,
                    None => {
                        return Ok(());
                    },
                };
                if !remote.clock.wf_check() {
                    // A malformed clock cannot enter the merge.
                    return Ok(());
                }
                let local = match self.crdt_get(msg.key.as_str()) {
                    Ok(c) => c,
                    Err(e) => {
                        proof {
                            assert(false);
                        }
                        return Err(e);
                    },
                };
                let outcome = decide_crdt_put(&local, &remote);
                let ghost lw = local;
                let ghost ow = outcome;
                if outcome.persist {
                    let encoded = encode_component(&outcome.stored);
                    proof {
                        lemma_parse_comp_chars(
                            entry_views(ow.stored.clock.spec_entries()),
                            data_view(ow.stored.data),
                        );
                    }
                    let r = self.app.store.set(msg.key.clone(), encoded);
                    if r.is_err() {
                        proof {
                            assert(false);
                        }
                        return r;
                    }
                }
                if outcome.notify {
                    let name = event_name(msg.key.as_str(), ChangeOrigin::Remote);
                    self.events.push(
                        ChangeEvent { name, component: outcome.stored },
                    );
                }
                match outcome.reply {
                    Some(reply) => {
                        self.outbound.push(
                            RtcMessage {
                                command: RtcCommand::CrdtPut,
                                key: msg.key,
                                value: Some(reply),
                            },
                        );
                    },
                    None => {},
                }
                proof {
                    assert(is_decide_outcome(lw, remote, ow));
                }
                Ok(())
            },
            RtcCommand::Done => Ok(()),
        }
    }
}

/// Nothing observable moved: same store contents, same queued events and
/// messages.
pub open spec fn tx_unchanged(pre: Tx, post: Tx) -> bool {
    &&& forall|k: Seq<char>| #[trigger] post.val_of(k) == pre.val_of(k)
    &&& post.events == pre.events
    &&& post.outbound == pre.outbound
}

} // verus!
