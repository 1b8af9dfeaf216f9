//! The application facade: transactions, events, replication flows
//! between two peers, and channel accounting.

use allotize::engine::KvStore;
use allotize::messages::{heartbeat_message, Protocol, SignalingAction};
use allotize::messages::handle_connection_message;
use allotize::session::{event_of_action, session_step, CandidateBuffer, SessionEvent, SessionState};
use allotize::facade::{App, ChangeOrigin};
use allotize::messages::{RtcCommand, RtcMessage};
use allotize::session::PeerConnectionStatus;
use allotize::storage::Folder;

fn fresh_app(username: &str) -> App {
    App::new(username, KvStore::open(Folder::new()).unwrap())
}

fn carry(msg: &RtcMessage) -> RtcMessage {
    RtcMessage {
        command: msg.command,
        key: msg.key.clone(),
        value: msg.value.as_ref().map(|c| c.duplicate()),
    }
}

#[test]
fn put_get_and_events() {
    let app = fresh_app("me");
    let mut tx = app.tx();
    tx.put("k".to_string(), "v".to_string()).unwrap();
    assert_eq!(tx.get("k").unwrap(), Some("v".to_string()));
    let (_app, events, outbound) = tx.finish();
    assert_eq!(events.len(), 1);
    assert_eq!(events[0].name, "k@local");
    assert_eq!(outbound.len(), 1);
    assert_eq!(outbound[0].command, RtcCommand::Put);
}

#[test]
fn event_names_carry_the_origin() {
    assert_eq!(allotize::facade::event_name("k", ChangeOrigin::Local), "k@local");
    assert_eq!(allotize::facade::event_name("k", ChangeOrigin::Remote), "k@remote");
}

#[test]
fn crdt_put_advances_the_writers_dot() {
    let app = fresh_app("me");
    let mut tx = app.tx();
    tx.crdt_put("k".to_string(), "one".to_string()).unwrap();
    let c = tx.crdt_get("k").unwrap();
    assert_eq!(c.data, Some("one".to_string()));
    assert_eq!(c.clock.get("me"), 1);
    tx.crdt_put("k".to_string(), "two".to_string()).unwrap();
    let c = tx.crdt_get("k").unwrap();
    assert_eq!(c.data, Some("two".to_string()));
    assert_eq!(c.clock.get("me"), 2);
}

#[test]
fn crdt_get_of_absent_key_is_the_empty_component() {
    let app = fresh_app("me");
    let tx = app.tx();
    let c = tx.crdt_get("missing").unwrap();
    assert_eq!(c.data, None);
    assert_eq!(c.clock.get("me"), 0);
}

#[test]
fn remote_crdt_put_is_adopted() {
    // One peer writes; the other receives the broadcast and stores it.
    let remote = fresh_app("remote");
    let mut rtx = remote.tx();
    rtx.crdt_put("key1".to_string(), "value1".to_string()).unwrap();
    let (_remote, _events, outbound) = rtx.finish();
    assert_eq!(outbound.len(), 1);

    let local = fresh_app("local");
    let mut ltx = local.tx();
    ltx.handle_message(carry(&outbound[0])).unwrap();
    let c = ltx.crdt_get("key1").unwrap();
    assert_eq!(c.clock.get("remote"), 1);
    assert_eq!(c.data, Some("value1".to_string()));
    let (_local, events, _out) = ltx.finish();
    assert_eq!(events.len(), 1);
    assert_eq!(events[0].name, "key1@remote");
}

#[test]
fn redelivered_crdt_put_changes_nothing() {
    let remote = fresh_app("remote");
    let mut rtx = remote.tx();
    rtx.crdt_put("k".to_string(), "v".to_string()).unwrap();
    let (_r, _e, outbound) = rtx.finish();

    let local = fresh_app("local");
    let mut ltx = local.tx();
    ltx.handle_message(carry(&outbound[0])).unwrap();
    let first = ltx.crdt_get("k").unwrap();
    let events_after_first = ltx.events.len();
    ltx.handle_message(carry(&outbound[0])).unwrap();
    let second = ltx.crdt_get("k").unwrap();
    assert_eq!(second.data, first.data);
    assert_eq!(second.clock.get("remote"), first.clock.get("remote"));
    // No further remote-change event was raised.
    assert_eq!(ltx.events.len(), events_after_first);
}

#[test]
fn conflicting_writes_converge() {
    // Both peers write the same key while apart, then exchange.
    let a = fresh_app("local");
    let mut atx = a.tx();
    atx.crdt_put("key1".to_string(), "value1".to_string()).unwrap();
    atx.crdt_put("key1".to_string(), "value2".to_string()).unwrap();
    let (a, _ae, a_out) = atx.finish();

    let b = fresh_app("remote");
    let mut btx = b.tx();
    btx.crdt_put("key1".to_string(), "value3".to_string()).unwrap();
    btx.crdt_put("key1".to_string(), "value4".to_string()).unwrap();
    let (b, _be, b_out) = btx.finish();

    // a receives b's newest message; the conflict merges both clocks.
    let mut atx = a.tx();
    atx.handle_message(carry(&b_out[1])).unwrap();
    let merged_at_a = atx.crdt_get("key1").unwrap();
    assert_eq!(merged_at_a.clock.get("local"), 2);
    assert_eq!(merged_at_a.clock.get("remote"), 2);
    // The lexicographically larger payload wins the conflict.
    assert_eq!(merged_at_a.data, Some("value4".to_string()));
    let (_a, _e, a_replies) = atx.finish();
    // The merge is rebroadcast; b adopts it and the peers agree.
    let reply = a_replies.last().unwrap();
    let mut btx = b.tx();
    btx.handle_message(carry(reply)).unwrap();
    let at_b = btx.crdt_get("key1").unwrap();
    assert_eq!(at_b.clock.get("local"), 2);
    assert_eq!(at_b.clock.get("remote"), 2);
    assert_eq!(at_b.data, merged_at_a.data);
    let _ = a_out;
}

#[test]
fn share_broadcasts_without_storing() {
    let app = fresh_app("me");
    let mut tx = app.tx();
    let c = allotize::component::VersionedComponent::new_with_value(Some("x".to_string()));
    tx.share("k".to_string(), Some(c));
    assert_eq!(tx.get("k").unwrap(), None);
    let (_a, _e, out) = tx.finish();
    assert_eq!(out.len(), 1);
    assert_eq!(out[0].command, RtcCommand::Share);
}

#[test]
fn sync_with_peers_broadcasts_the_current_component() {
    let app = fresh_app("me");
    let mut tx = app.tx();
    tx.crdt_put("k".to_string(), "v".to_string()).unwrap();
    tx.sync_with_peers("k".to_string()).unwrap();
    let (_a, _e, out) = tx.finish();
    assert_eq!(out.len(), 2);
    assert_eq!(out[1].command, RtcCommand::CrdtPut);
    let c = out[1].value.as_ref().unwrap();
    assert_eq!(c.data, Some("v".to_string()));
}

#[test]
fn remote_put_and_remove_apply() {
    let app = fresh_app("me");
    let mut tx = app.tx();
    let c = allotize::component::VersionedComponent::new_with_value(Some("payload".to_string()));
    tx.handle_message(RtcMessage {
        command: RtcCommand::Put,
        key: "k".to_string(),
        value: Some(c),
    })
    .unwrap();
    assert!(tx.get("k").unwrap().is_some());
    tx.handle_message(RtcMessage { command: RtcCommand::Remove, key: "k".to_string(), value: None })
        .unwrap();
    assert_eq!(tx.get("k").unwrap(), None);
}

#[test]
fn begins_with_selects_the_prefix() {
    let app = fresh_app("me");
    let mut tx = app.tx();
    tx.put("user/alice".to_string(), "1".to_string()).unwrap();
    tx.put("user/bob".to_string(), "2".to_string()).unwrap();
    tx.put("zother".to_string(), "3".to_string()).unwrap();
    let items = tx.begins_with("user/").unwrap();
    assert_eq!(items.len(), 2);
    assert_eq!(items[0].0, "user/alice");
    assert_eq!(items[1].0, "user/bob");
}

#[test]
fn require_channels_counts_open_ones() {
    let mut app = fresh_app("me");
    app.set_channel_states(vec![
        PeerConnectionStatus::Open,
        PeerConnectionStatus::Connecting,
        PeerConnectionStatus::Open,
    ]);
    assert!(app.require_channels(2));
    assert!(!app.require_channels(3));
    let m = app.metadata();
    assert_eq!(m.pool.rtc.open, 2);
    assert_eq!(m.pool.rtc.connecting, 1);
}

#[test]
fn facade_state_survives_reopen() {
    let app = fresh_app("me");
    let mut tx = app.tx();
    tx.crdt_put("k".to_string(), "v".to_string()).unwrap();
    let (app, _e, _o) = tx.finish();
    let store = app.into_store();
    let reopened = KvStore::open(store.into_folder()).unwrap();
    let app2 = App::new("me", reopened);
    let tx2 = app2.tx();
    let c = tx2.crdt_get("k").unwrap();
    assert_eq!(c.data, Some("v".to_string()));
    assert_eq!(c.clock.get("me"), 1);
}

#[test]
fn session_steps_follow_the_handshake() {
    let s = SessionState::Disconnected;
    let s = session_step(s, SessionEvent::OfferReceived);
    assert_eq!(s, SessionState::GotOffer);
    let s = session_step(s, SessionEvent::AnswerSent);
    assert_eq!(s, SessionState::Negotiating);
    let s = session_step(s, SessionEvent::CandidatesComplete);
    assert_eq!(s, SessionState::Connected);
    let s = session_step(s, SessionEvent::ChannelClosed);
    assert_eq!(s, SessionState::Disconnected);
}

#[test]
fn inbound_actions_map_to_handshake_events() {
    assert_eq!(
        event_of_action(SignalingAction::Offer),
        Some(SessionEvent::OfferReceived)
    );
    assert_eq!(
        event_of_action(SignalingAction::Answer),
        Some(SessionEvent::AnswerReceived)
    );
    assert_eq!(event_of_action(SignalingAction::Heartbeat), None);
}

#[test]
fn heartbeat_is_one_to_self() {
    let m = heartbeat_message("test-room".to_string());
    assert_eq!(m.action, SignalingAction::Heartbeat);
    assert_eq!(m.protocol, Protocol::OneToSelf);
    assert_eq!(m.room, "test-room");
}

#[test]
fn subscriptions_are_tracked() {
    let mut app = fresh_app("me");
    assert!(!app.is_subscribed("k"));
    app.subscribe("k");
    app.subscribe("other");
    assert!(app.is_subscribed("k"));
    app.unsubscribe("k");
    assert!(!app.is_subscribed("k"));
    assert!(app.is_subscribed("other"));
}

#[test]
fn candidates_buffer_until_the_description_is_set() {
    let mut b = CandidateBuffer::new();
    assert_eq!(b.on_candidate("c1".to_string()), None);
    assert_eq!(b.on_candidate("c2".to_string()), None);
    let flushed = b.on_remote_description();
    assert_eq!(flushed, vec!["c1".to_string(), "c2".to_string()]);
    assert_eq!(b.on_candidate("c3".to_string()), Some("c3".to_string()));
}

#[test]
fn connection_envelope_asks_the_room() {
    let m = handle_connection_message("r".to_string(), "me".to_string());
    assert_eq!(m.action, SignalingAction::HandleConnection);
    assert_eq!(m.protocol, Protocol::OneToRoom);
    assert_eq!(m.endpoint.as_deref(), Some("any"));
    assert_eq!(m.from, "me");
}
