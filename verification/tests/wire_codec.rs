//! Component serialisation round trips, and the record codec behind the
//! log.

use allotize::codec::{encode_command, parse_command, Command};
use allotize::component::VersionedComponent;
use allotize::vclock::VClock;
use allotize::wire::{decode_component, encode_component};

fn clock_of(entries: &[(&str, u64)]) -> VClock {
    let mut c = VClock::new();
    for (actor, n) in entries {
        for _ in 0..*n {
            let d = c.inc(actor);
            c.apply(&d);
        }
    }
    c
}

#[test]
fn component_round_trip() {
    let c = VersionedComponent {
        clock: clock_of(&[("alice", 2), ("bob", 7)]),
        data: Some("hello world".to_string()),
    };
    let text = encode_component(&c);
    let back = decode_component(&text).unwrap();
    assert_eq!(back.data, Some("hello world".to_string()));
    assert_eq!(back.clock.get("alice"), 2);
    assert_eq!(back.clock.get("bob"), 7);
    assert_eq!(back.clock.get("carol"), 0);
}

#[test]
fn it_works() {
    let vcomp = VersionedComponent { clock: VClock::new(), data: None };
    let text = encode_component(&vcomp);
    let back = decode_component(&text).unwrap();
    assert_eq!(back.data, None);
    assert_eq!(back.clock.get("anyone"), 0);
}

#[test]
fn component_with_unicode_payload() {
    let c = VersionedComponent {
        clock: clock_of(&[("päron", 1)]),
        data: Some("smörgåsbord ✓".to_string()),
    };
    let text = encode_component(&c);
    let back = decode_component(&text).unwrap();
    assert_eq!(back.data, Some("smörgåsbord ✓".to_string()));
    assert_eq!(back.clock.get("päron"), 1);
}

#[test]
fn garbage_does_not_decode() {
    assert!(decode_component("").is_none());
    assert!(decode_component("short").is_none());
}

#[test]
fn record_round_trip() {
    let cmd = Command::set("key".to_string(), "value".to_string());
    let bytes = encode_command(&cmd);
    let (back, end) = parse_command(&bytes, 0).unwrap();
    assert_eq!(end, bytes.len());
    match back {
        Command::Put { key, value } => {
            assert_eq!(key, "key");
            assert_eq!(value, "value");
        },
        _ => panic!("wrong record kind"),
    }
}

#[test]
fn remove_record_round_trip() {
    let cmd = Command::remove("gone".to_string());
    let bytes = encode_command(&cmd);
    let (back, end) = parse_command(&bytes, 0).unwrap();
    assert_eq!(end, bytes.len());
    match back {
        Command::Remove { key } => assert_eq!(key, "gone"),
        _ => panic!("wrong record kind"),
    }
}

#[test]
fn truncated_record_does_not_parse() {
    let cmd = Command::set("key".to_string(), "value".to_string());
    let bytes = encode_command(&cmd);
    let torn = &bytes[..bytes.len() - 1];
    assert!(parse_command(torn, 0).is_none());
}
