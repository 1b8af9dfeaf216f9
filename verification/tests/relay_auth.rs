//! Relay routing, room isolation, and admission.

use allotize::auth::{api_key_valid, authorize, Claims, WebError};
use allotize::messages::{Protocol, SignalingAction, SignalingMessage};
use allotize::relay::RoomRegistry;

const API_KEY: &str = "ZXlKMGVYQWlPaUpLVjFRaUxDSmhiR2NpT2lKSVV6STFOaUo5LmV5SnpkV0lpT2lKeVlYTjJhU0lzSW1GMVpDSTZJbWgwZEhCek9pOHZZV3hzYjNScGVtVXVZMjl0SWl3aVpYaHdJam94TmpVM01Ea3hNVGN4ZlEuR09YQnRRTGJYUHRtYkhDSy00b3pMSnI1Q09QRzgtMXNzTjgtMWROeXlmQQ==";

fn offer(from: &str, room: &str, endpoint: Option<&str>, protocol: Protocol) -> SignalingMessage {
    SignalingMessage {
        action: SignalingAction::Offer,
        data: Some("sdp".to_string()),
        endpoint: endpoint.map(|s| s.to_string()),
        from: from.to_string(),
        protocol,
        room: room.to_string(),
    }
}

#[test]
fn one_to_one_reaches_the_endpoint_only() {
    let mut reg = RoomRegistry::new();
    reg.join("r1", "A");
    reg.join("r1", "B");
    reg.join("r2", "C");
    let msg = offer("A", "r1", Some("B"), Protocol::OneToOne);
    let out = reg.route("r1", "A", &msg);
    assert_eq!(out, vec!["B".to_string()]);
}

#[test]
fn room_messages_never_cross_rooms() {
    let mut reg = RoomRegistry::new();
    reg.join("r1", "A");
    reg.join("r1", "B");
    reg.join("r2", "C");
    let msg = offer("A", "r1", None, Protocol::OneToRoom);
    let out = reg.route("r1", "A", &msg);
    assert_eq!(out, vec!["B".to_string()]);
    // The subscriber of the other room sees nothing.
    assert!(!out.contains(&"C".to_string()));
}

#[test]
fn fan_out_skips_the_sender() {
    let mut reg = RoomRegistry::new();
    reg.join("r", "A");
    reg.join("r", "B");
    reg.join("r", "C");
    let msg = offer("B", "r", None, Protocol::OneToAll);
    let out = reg.route("r", "B", &msg);
    assert_eq!(out.len(), 2);
    assert!(out.contains(&"A".to_string()));
    assert!(out.contains(&"C".to_string()));
    assert!(!out.contains(&"B".to_string()));
}

#[test]
fn one_to_one_to_absent_endpoint_drops() {
    let mut reg = RoomRegistry::new();
    reg.join("r", "A");
    let msg = offer("A", "r", Some("ghost"), Protocol::OneToOne);
    let out = reg.route("r", "A", &msg);
    assert!(out.is_empty());
}

#[test]
fn leaving_empties_and_deletes_the_room() {
    let mut reg = RoomRegistry::new();
    reg.join("r", "A");
    reg.join("r", "B");
    reg.leave("r", "A");
    let msg = offer("B", "r", None, Protocol::OneToRoom);
    assert!(reg.route("r", "B", &msg).is_empty());
    reg.leave("r", "B");
    assert!(reg.route("r", "B", &msg).is_empty());
}

#[test]
fn valid_key_is_accepted() {
    assert!(api_key_valid(API_KEY));
    let r = authorize(API_KEY, 3600);
    let (session, token) = r.unwrap();
    assert_eq!(session, "ok");
    assert!(!token.is_empty());
}

#[test]
fn invalid_key_gets_401() {
    assert!(!api_key_valid("nope"));
    let r = authorize("nope", 3600);
    assert_eq!(r, Err(WebError::InvalidAPIKey));
    assert_eq!(WebError::InvalidAPIKey.status_code(), 401);
}

#[test]
fn generate_api_key() {
    let claims = Claims::new(
        "rasvi".to_string(),
        "https://allotize.com".to_string(),
        365 * 24 * 3600,
    );
    let token = claims.tokenize();
    assert!(token.is_some());
}

#[test]
fn issue() {
    let claims = Claims::new("rasmus".to_string(), "localhost".to_string(), 24 * 3600);
    let token = claims.tokenize().unwrap();
    let decoded = Claims::decode(&token).expect("Failed to decode token");
    assert_eq!(decoded.sub, "rasmus");
    assert_eq!(decoded.aud, "localhost");
    assert_eq!(decoded.exp, claims.exp);
}

#[test]
fn verify() {
    // A fixture token whose expiry (July 2022) has long passed: the
    // signature is genuine, but an expired claim must be refused.
    let token = "ZXlKMGVYQWlPaUpLVjFRaUxDSmhiR2NpT2lKSVV6STFOaUo5LmV5SnpkV0lpT2lKeVlYTjJhU0lzSW1GMVpDSTZJbWgwZEhCek9pOHZZV3hzYjNScGVtVXVZMjl0SWl3aVpYaHdJam94TmpVM01Ea3hNVGN4ZlEuR09YQnRRTGJYUHRtYkhDSy00b3pMSnI1Q09QRzgtMXNzTjgtMWROeXlmQQ==";
    assert!(allotize::auth::Claims::decode(token).is_none());
}

#[test]
fn garbage_tokens_are_refused() {
    assert!(allotize::auth::Claims::decode("not base64 at all!!!").is_none());
}
