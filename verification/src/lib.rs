//! A peer-to-peer, eventually-consistent key/value store.
//!
//! Each peer keeps a log-structured local store and replicates values
//! between peers as CRDTs carrying version vectors, bootstrapped through
//! a room-scoped signaling relay.
//!
//! The store persists by replaying a folder of framed log records
//! ([`storage`], [`codec`], [`log`], [`engine`]); replication compares
//! version vectors and resolves conflicts deterministically ([`vclock`],
//! [`component`], [`replication`], [`wire`]); the relay tracks rooms and
//! fans messages out within them ([`relay`], [`messages`], [`auth`]); and
//! the facade ties the store, the merge decision and the peer channels
//! together for the host ([`facade`], [`session`]).

pub mod auth;
pub mod codec;
pub mod component;
pub mod engine;
pub mod facade;
pub mod identity;
pub mod log;
pub mod messages;
pub mod order;
pub mod relay;
pub mod replication;
pub mod session;
pub mod storage;
pub mod vclock;
pub mod wire;

pub use identity::Identity;
