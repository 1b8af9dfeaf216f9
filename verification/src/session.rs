//! The client-side session machine for one remote peer, and channel
//! accounting for the "require open channels" primitive.

use vstd::prelude::*;

use crate::messages::SignalingAction;

verus! {

/// The state of one data-channel.
#[derive(Debug, Clone, Copy, PartialEq, Eq, Structural)]
pub enum PeerConnectionStatus {
    Open,
    Closed,
    Connecting,
}

/// Where the handshake with a remote peer stands.
#[derive(Debug, Clone, Copy, PartialEq, Eq, Structural)]
pub enum SessionState {
    Disconnected,
    SentOffer,
    GotOffer,
    Negotiating,
    Connected,
}

/// What moves the handshake along.
#[derive(Debug, Clone, Copy, PartialEq, Eq, Structural)]
pub enum SessionEvent {
    ConnectionSent,
    OfferReceived,
    AnswerReceived,
    AnswerSent,
    CandidatesComplete,
    ChannelClosed,
}

/// The handshake graph: offers cross, answers meet them, candidate
/// exchange completes the channel, and a closed channel starts over.
/// An event that does not apply leaves the state alone.
pub open spec fn spec_session_step(s: SessionState, e: SessionEvent) -> SessionState {
    match (s, e) {
        (SessionState::Disconnected, SessionEvent::ConnectionSent) => SessionState::SentOffer,
        (SessionState::Disconnected, SessionEvent::OfferReceived) => SessionState::GotOffer,
        (SessionState::SentOffer, SessionEvent::AnswerReceived) => SessionState::Negotiating,
        (SessionState::GotOffer, SessionEvent::AnswerSent) => SessionState::Negotiating,
        (SessionState::Negotiating, SessionEvent::CandidatesComplete) => SessionState::Connected,
        (_, SessionEvent::ChannelClosed) => SessionState::Disconnected,
        _ => s,
    }
}

/// Advances the handshake by one event.
pub fn session_step(s: SessionState, e: SessionEvent) -> (s2: SessionState)
    ensures
        s2 == spec_session_step(s, e),
{
    match (s, e) {
        (SessionState::Disconnected, SessionEvent::ConnectionSent) => SessionState::SentOffer,
        (SessionState::Disconnected, SessionEvent::OfferReceived) => SessionState::GotOffer,
        (SessionState::SentOffer, SessionEvent::AnswerReceived) => SessionState::Negotiating,
        (SessionState::GotOffer, SessionEvent::AnswerSent) => SessionState::Negotiating,
        (SessionState::Negotiating, SessionEvent::CandidatesComplete) => SessionState::Connected,
        (_, SessionEvent::ChannelClosed) => SessionState::Disconnected,
        _ => s,
    }
}

/// Which session event an inbound signaling action stands for, for a
/// message from another peer. Heartbeats and candidate exchange do not
/// move the handshake by themselves.
pub fn event_of_action(a: SignalingAction) -> (e: Option<SessionEvent>)
    ensures
        e == match a {
            SignalingAction::Offer => Some(SessionEvent::OfferReceived),
            SignalingAction::ReconnectOffer => Some(SessionEvent::OfferReceived),
            SignalingAction::HandleConnection => Some(SessionEvent::ConnectionSent),
            SignalingAction::Answer => Some(SessionEvent::AnswerReceived),
            SignalingAction::Heartbeat => None::<SessionEvent>,
            SignalingAction::Candidate => None::<SessionEvent>,
        },
{
    match a {
        SignalingAction::Offer => Some(SessionEvent::OfferReceived),
        SignalingAction::ReconnectOffer => Some(SessionEvent::OfferReceived),
        SignalingAction::HandleConnection => Some(SessionEvent::ConnectionSent),
        SignalingAction::Answer => Some(SessionEvent::AnswerReceived),
        SignalingAction::Heartbeat => None,
        SignalingAction::Candidate => None,
    }
}

/// Inbound ICE candidates for a peer whose remote description is not yet
/// set are held back; setting the description flushes them in arrival
/// order, and later candidates apply at once.
pub struct CandidateBuffer {
    remote_description_set: bool,
    queued: Vec<String>,
}

impl CandidateBuffer {
    /// Whether the remote description has been set.
    pub closed spec fn spec_ready(self) -> bool {
        self.remote_description_set
    }

    /// The candidates waiting for the description, oldest first.
    pub closed spec fn spec_queued(self) -> Seq<String> {
        self.queued@
    }

    /// A buffer for a connection whose remote description is pending.
    pub fn new() -> (b: CandidateBuffer)
        ensures
            !b.spec_ready(),
            b.spec_queued() == Seq::<String>::empty(),
    {
        CandidateBuffer { remote_description_set: false, queued: Vec::new() }
    }

    /// A candidate arrives: handed straight back for applying when the
    /// description is set, else queued behind the ones already waiting.
    pub fn on_candidate(&mut self, candidate: String) -> (apply_now: Option<String>)
        ensures
            final(self).spec_ready() == old(self).spec_ready(),
            old(self).spec_ready() ==> apply_now == Some(candidate) && final(self).spec_queued()
                == old(self).spec_queued(),
            !old(self).spec_ready() ==> apply_now is None && final(self).spec_queued() == old(
                self,
            ).spec_queued().push(candidate),
    {
        if self.remote_description_set {
            Some(candidate)
        } else {
            self.queued.push(candidate);
            None
        }
    }

    /// The remote description was set: every queued candidate flushes, in
    /// arrival order, and nothing queues from here on.
    pub fn on_remote_description(&mut self) -> (flush: Vec<String>)
        ensures
            final(self).spec_ready(),
            flush@ == old(self).spec_queued(),
            final(self).spec_queued() == Seq::<String>::empty(),
    {
        self.remote_description_set = true;
        let mut out: Vec<String> = Vec::new();
        std::mem::swap(&mut out, &mut self.queued);
        out
    }
}

/// How many channels are in the given state.
pub open spec fn count_status(s: Seq<PeerConnectionStatus>, q: PeerConnectionStatus) -> int
    decreases s.len(),
{
    if s.len() == 0 {
        0
    } else {
        (if s[0] == q {
            1int
        } else {
            0int
        }) + count_status(s.drop_first(), q)
    }
}

/// Channel counts by state.
pub struct RtcMetadata {
    pub connecting: usize,
    pub open: usize,
    pub closing: usize,
    pub closed: usize,
}

/// Pool-level counts; the pool holds one channel set.
pub struct PoolMetadata {
    pub rtc: RtcMetadata,
}

/// Application-level counts, aggregating the pool's.
pub struct AppMetadata {
    pub pool: PoolMetadata,
}

/// Counts the channels in each state. Nothing here half-closes, so
/// `closing` is always zero.
pub fn channel_metadata(channels: &Vec<PeerConnectionStatus>) -> (m: RtcMetadata)
    requires
        channels@.len() < usize::MAX,
    ensures
        m.open == count_status(channels@, PeerConnectionStatus::Open),
        m.connecting == count_status(channels@, PeerConnectionStatus::Connecting),
        m.closed == count_status(channels@, PeerConnectionStatus::Closed),
        m.closing == 0,
{
    let mut open_n: usize = 0;
    let mut connecting_n: usize = 0;
    let mut closed_n: usize = 0;
    let mut i: usize = 0;
    proof {
        assert(channels@.skip(0) =~= channels@);
        lemma_count_bounds(channels@, PeerConnectionStatus::Open);
        lemma_count_bounds(channels@, PeerConnectionStatus::Connecting);
        lemma_count_bounds(channels@, PeerConnectionStatus::Closed);
    }
    while i < channels.len()
        invariant
            i <= channels@.len(),
            channels@.len() < usize::MAX,
            open_n == count_status(channels@.take(i as int), PeerConnectionStatus::Open),
            connecting_n == count_status(
                channels@.take(i as int),
                PeerConnectionStatus::Connecting,
            ),
            closed_n == count_status(channels@.take(i as int), PeerConnectionStatus::Closed),
            open_n <= i && connecting_n <= i && closed_n <= i,
        decreases channels@.len() - i,
    {
        proof {
            lemma_count_take_step(channels@, i as int, PeerConnectionStatus::Open);
            lemma_count_take_step(channels@, i as int, PeerConnectionStatus::Connecting);
            lemma_count_take_step(channels@, i as int, PeerConnectionStatus::Closed);
        }
        match channels[i] {
            PeerConnectionStatus::Open => {
                open_n = open_n + 1;
            },
            PeerConnectionStatus::Connecting => {
                connecting_n = connecting_n + 1;
            },
            PeerConnectionStatus::Closed => {
                closed_n = closed_n + 1;
            },
        }
        i = i + 1;
    }
    proof {
        assert(channels@.take(channels@.len() as int) =~= channels@);
    }
    RtcMetadata { connecting: connecting_n, open: open_n, closing: 0, closed: closed_n }
}

/// Counts never exceed the list length.
proof fn lemma_count_bounds(s: Seq<PeerConnectionStatus>, q: PeerConnectionStatus)
    ensures
        0 <= count_status(s, q) <= s.len(),
    decreases s.len(),
{
    if s.len() > 0 {
        lemma_count_bounds(s.drop_first(), q);
    }
}

/// One more element extends the count by at most one.
proof fn lemma_count_take_step(s: Seq<PeerConnectionStatus>, i: int, q: PeerConnectionStatus)
    requires
        0 <= i < s.len(),
    ensures
        count_status(s.take(i + 1), q) == count_status(s.take(i), q) + (if s[i] == q {
            1int
        } else {
            0int
        }),
    decreases i,
{
    if i == 0 {
        assert(s.take(1)[0] == s[0]);
        assert(s.take(1).drop_first() =~= s.take(0));
        assert(count_status(s.take(0), q) == 0);
    } else {
        assert(s.take(i + 1)[0] == s[0]);
        assert(s.take(i)[0] == s[0]);
        assert(s.take(i + 1).drop_first() =~= s.drop_first().take(i));
        assert(s.take(i).drop_first() =~= s.drop_first().take(i - 1));
        assert(s.drop_first()[i - 1] == s[i]);
        lemma_count_take_step(s.drop_first(), i - 1, q);
    }
}

/// The "require N open channels" check: whether at least `required`
/// channels are open right now. The await primitive first asks this, so a
/// requirement met before the wait is satisfied retroactively.
pub fn channels_ready(channels: &Vec<PeerConnectionStatus>, required: u64) -> (r: bool)
    requires
        channels@.len() < usize::MAX,
    ensures
        r == (count_status(channels@, PeerConnectionStatus::Open) >= required),
{
    let m = channel_metadata(channels);
    proof {
        lemma_count_bounds(channels@, PeerConnectionStatus::Open);
    }
    m.open as u64 >= required
}

} // verus!
