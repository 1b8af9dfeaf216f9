//! Versioned components: the atomic unit of replication.
//!
//! A component carries a version vector and an optional string payload;
//! `data == None` stands for an absent value.

use vstd::prelude::*;

use crate::vclock::VClock;

verus! {

/// The payload of an optional string, as a sequence of characters.
pub open spec fn data_view(d: Option<String>) -> Option<Seq<char>> {
    match d {
        Some(s) => Some(s@),
        None => None,
    }
}

/// A replicated value: a version vector and an optional payload.
pub struct VersionedComponent {
    pub clock: VClock,
    pub data: Option<String>,
}

impl VersionedComponent {
    /// The clock keeps one entry per actor.
    pub open spec fn wf(self) -> bool {
        self.clock.wf()
    }

    /// A component with the empty clock and the given payload.
    pub fn new_with_value(value: Option<String>) -> (c: VersionedComponent)
        ensures
            c.wf(),
            forall|a: Seq<char>| #[trigger] c.clock.dot(a) == 0,
            c.data == value,
    {
        VersionedComponent { clock: VClock::new(), data: value }
    }

    /// The default component: empty clock, absent payload.
    pub fn empty() -> (c: VersionedComponent)
        ensures
            c.wf(),
            forall|a: Seq<char>| #[trigger] c.clock.dot(a) == 0,
            c.data is None,
    {
        VersionedComponent { clock: VClock::new(), data: None }
    }

    /// Advances this component's clock by one dot for `actor`.
    pub fn apply(&mut self, actor: &str)
        requires
            old(self).wf(),
            old(self).clock.dot(actor@) < u64::MAX,
        ensures
            final(self).wf(),
            final(self).clock.dot(actor@) == old(self).clock.dot(actor@) + 1,
            forall|a: Seq<char>|
                a != actor@ ==> #[trigger] final(self).clock.dot(a) == old(self).clock.dot(a),
            final(self).data == old(self).data,
    {
        let d = self.clock.inc(actor);
        self.clock.apply(&d);
    }

    /// Copies this component; clock and payload read the same.
    pub fn duplicate(&self) -> (c: VersionedComponent)
        ensures
            c.wf() <==> self.wf(),
            forall|a: Seq<char>| #[trigger] c.clock.dot(a) == self.clock.dot(a),
            data_view(c.data) == data_view(self.data),
    {
        let data = match &self.data {
            Some(s) => Some(s.clone()),
            None => None,
        };
        VersionedComponent { clock: self.clock.duplicate(), data }
    }
}

impl Default for VersionedComponent {
    /// The default component: empty clock, absent payload.
    fn default() -> (c: VersionedComponent)
        ensures
            c.wf(),
            forall|a: Seq<char>| #[trigger] c.clock.dot(a) == 0,
            c.data is None,
    {
        VersionedComponent { clock: VClock::new(), data: None }
    }
}

/// A replicated value with a byte payload.
pub struct Versioned {
    pub clock: VClock,
    pub data: Vec<u8>,
}

impl Versioned {
    /// A component with the empty clock and the given bytes.
    pub fn new(data: Vec<u8>) -> (c: Versioned)
        ensures
            c.clock.wf(),
            forall|a: Seq<char>| #[trigger] c.clock.dot(a) == 0,
            c.data == data,
    {
        Versioned { clock: VClock::new(), data }
    }

    /// Advances this component's clock by one dot for `actor`.
    pub fn apply(&mut self, actor: &str)
        requires
            old(self).clock.wf(),
            old(self).clock.dot(actor@) < u64::MAX,
        ensures
            final(self).clock.wf(),
            final(self).clock.dot(actor@) == old(self).clock.dot(actor@) + 1,
            forall|a: Seq<char>|
                a != actor@ ==> #[trigger] final(self).clock.dot(a) == old(self).clock.dot(a),
            final(self).data == old(self).data,
    {
        let d = self.clock.inc(actor);
        self.clock.apply(&d);
    }
}

} // verus!
