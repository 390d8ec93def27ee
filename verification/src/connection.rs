//! Per-socket state: the socket identifier and the connection record that
//! the namespace owns for each open WebSocket.

use vstd::prelude::*;
use rand::Rng;
use crate::app::App;
use crate::text::{dec_of, find_str, seq_has_str, distinct_strs, u64_to_string, vec_contains_str};

verus! {

/// Largest value of either random half of a socket id: ten digits.
pub const SOCKET_ID_PART_MAX: u64 = 9999999999;

/// A socket id reads as two unpadded decimals joined by `.`.
pub open spec fn spec_valid_socket_id(s: Seq<char>) -> bool {
    exists|a: nat, b: nat|
        a <= SOCKET_ID_PART_MAX && b <= SOCKET_ID_PART_MAX && s == #[trigger] (dec_of(a)
            + seq!['.'] + dec_of(b))
}

/// Relies on rand's `thread_rng` and `gen_range` for a uniform draw from
/// `0..=max`; only the bound is stated.
#[verifier::external_body]
fn random_in_range(max: u64) -> (r: u64)
    ensures
        r <= max,
{
    rand::thread_rng().gen_range(0..=max)
}

/// Relies on chrono's `Utc::now().to_rfc3339()`; the clock's reading cannot
/// be pinned down, so nothing is stated of it.
#[verifier::external_body]
fn now_rfc3339() -> String {
    chrono::Utc::now().to_rfc3339()
}

/// Stable per-connection identifier.
#[derive(Debug, Clone)]
pub struct SocketId(pub String);

impl View for SocketId {
    type V = Seq<char>;

    open spec fn view(&self) -> Seq<char> {
        self.0@
    }
}

impl SocketId {
    pub fn new() -> (r: Self)
        ensures
            spec_valid_socket_id(r@),
    {
        Self(Self::generate_socket_id())
    }

    pub(crate) fn generate_socket_id() -> (r: String)
        ensures
            spec_valid_socket_id(r@),
    {
        let a = random_in_range(SOCKET_ID_PART_MAX);
        let b = random_in_range(SOCKET_ID_PART_MAX);
        let mut s = u64_to_string(a);
        s.append(".");
        let t = u64_to_string(b);
        s.append(t.as_str());
        proof {
            reveal_strlit(".");
            assert("."@ =~= seq!['.']);
            assert(s@ == dec_of(a as nat) + seq!['.'] + dec_of(b as nat));
        }
        s
    }

    pub fn as_str(&self) -> (r: &str)
        ensures
            r@ == self@,
    {
        self.0.as_str()
    }
}

/// Presence data this connection carries on one presence channel.
#[derive(Debug)]
pub struct PresenceData {
    pub channel: String,
    pub user_id: String,
    pub user_info: String,
}

/// One WebSocket connection as the namespace owns it.
#[derive(Debug)]
pub struct ConnectionState {
    pub socket_id: SocketId,
    pub app: Option<App>,
    pub subscribed_channels: Vec<String>,
    pub user_id: Option<String>,
    pub last_ping: String,
    pub presence: Vec<PresenceData>,
    pub user: Option<String>,
}

impl ConnectionState {
    /// Subscribed channel names never repeat.
    pub open spec fn wf(self) -> bool {
        distinct_strs(self.subscribed_channels@)
    }

    pub open spec fn spec_subscribed(self, channel: Seq<char>) -> bool {
        seq_has_str(self.subscribed_channels@, channel)
    }

    pub open spec fn spec_channel_count(self) -> nat {
        self.subscribed_channels@.len()
    }

    /// Everything but the subscription list reads as in `other`.
    pub open spec fn same_except_subscriptions(self, other: Self) -> bool {
        &&& self.socket_id == other.socket_id
        &&& self.app == other.app
        &&& self.user_id == other.user_id
        &&& self.last_ping == other.last_ping
        &&& self.presence == other.presence
        &&& self.user == other.user
    }

    pub fn new() -> (r: Self)
        ensures
            r.wf(),
            spec_valid_socket_id(r.socket_id@),
            r.spec_channel_count() == 0,
            r.app is None,
            r.user_id is None,
            r.last_ping@ == Seq::<char>::empty(),
            r.presence@.len() == 0,
            r.user is None,
    {
        Self {
            socket_id: SocketId::new(),
            app: Option::None,
            subscribed_channels: Vec::new(),
            user_id: Option::None,
            last_ping: String::new(),
            presence: Vec::new(),
            user: Option::None,
        }
    }

    pub fn is_presence(&self) -> (r: bool)
        ensures
            r == (self.presence@.len() > 0),
    {
        self.presence.len() > 0
    }

    pub fn is_subscribed(&self, channel: &str) -> (r: bool)
        ensures
            r == self.spec_subscribed(channel@),
    {
        vec_contains_str(&self.subscribed_channels, channel)
    }

    /// Record a subscription; a name already present is not repeated.
    pub fn add_subscription(&mut self, channel: String)
        requires
            old(self).wf(),
        ensures
            final(self).wf(),
            final(self).same_except_subscriptions(*old(self)),
            forall|c: Seq<char>|
                #[trigger] final(self).spec_subscribed(c) == (old(self).spec_subscribed(c) || c
                    == channel@),
            final(self).spec_channel_count() == old(self).spec_channel_count() + (
            if old(self).spec_subscribed(channel@) {
                0int
            } else {
                1int
            }),
    {
        if self.is_subscribed(channel.as_str()) {
            proof {
                assert forall|c: Seq<char>| #[trigger]
                    self.spec_subscribed(c) == (old(self).spec_subscribed(c) || c == channel@)
                by {}
            }
            return;
        }
        let ghost pre = self.subscribed_channels@;
        let ghost ch = channel@;
        self.subscribed_channels.push(channel);
        proof {
            assert(self.subscribed_channels@.drop_last() =~= pre);
            assert(self.subscribed_channels@.last()@ == ch);
            assert forall|c: Seq<char>| #[trigger]
                self.spec_subscribed(c) == (old(self).spec_subscribed(c) || c == ch)
            by {
                if self.spec_subscribed(c) {
                    let i = choose|i: int|
                        0 <= i < self.subscribed_channels@.len()
                            && self.subscribed_channels@[i]@ == c;
                    if i < pre.len() {
                        assert(pre[i]@ == c);
                    }
                } else {
                    if old(self).spec_subscribed(c) {
                        let i = choose|i: int| 0 <= i < pre.len() && pre[i]@ == c;
                        assert(self.subscribed_channels@[i]@ == c);
                    }
                }
            }
        }
    }

    /// Drop a subscription if it is present.
    pub fn remove_subscription(&mut self, channel: &str)
        requires
            old(self).wf(),
        ensures
            final(self).wf(),
            final(self).same_except_subscriptions(*old(self)),
            forall|c: Seq<char>|
                #[trigger] final(self).spec_subscribed(c) == (old(self).spec_subscribed(c) && c
                    != channel@),
            final(self).spec_channel_count() == old(self).spec_channel_count() - (
            if old(self).spec_subscribed(channel@) {
                1int
            } else {
                0int
            }),
    {
        let idx = match find_str(&self.subscribed_channels, channel) {
            Option::Some(i) => i,
            Option::None => {
                proof {
                    assert forall|c: Seq<char>| #[trigger]
                        self.spec_subscribed(c) == (old(self).spec_subscribed(c) && c != channel@)
                    by {
                        if old(self).spec_subscribed(c) && c == channel@ {
                            assert(seq_has_str(self.subscribed_channels@, channel@));
                        }
                    }
                }
                return;
            },
        };
        let ghost pre = self.subscribed_channels@;
        self.subscribed_channels.remove(idx);
        proof {
            assert forall|c: Seq<char>| #[trigger]
                self.spec_subscribed(c) == (old(self).spec_subscribed(c) && c != channel@)
            by {
                if self.spec_subscribed(c) {
                    let i = choose|i: int|
                        0 <= i < self.subscribed_channels@.len()
                            && self.subscribed_channels@[i]@ == c;
                    let orig = if i < idx {
                        i
                    } else {
                        i + 1
                    };
                    assert(pre[orig]@ == c);
                    assert(c != channel@);
                } else {
                    if old(self).spec_subscribed(c) && c != channel@ {
                        let i = choose|i: int| 0 <= i < pre.len() && pre[i]@ == c;
                        if i < idx {
                            assert(self.subscribed_channels@[i]@ == c);
                        } else {
                            assert(i != idx);
                            assert(self.subscribed_channels@[i - 1]@ == c);
                        }
                    }
                }
            }
        }
    }

    /// Stamp the connection with the wall clock of the last ping.
    pub fn update_ping(&mut self)
        requires
            old(self).wf(),
        ensures
            final(self).wf(),
            final(self).socket_id == old(self).socket_id,
            final(self).app == old(self).app,
            final(self).subscribed_channels == old(self).subscribed_channels,
            final(self).user_id == old(self).user_id,
            final(self).presence == old(self).presence,
            final(self).user == old(self).user,
    {
        self.last_ping = now_rfc3339();
    }

    /// The public key of the app this connection belongs to, or empty.
    pub fn get_app_key(&self) -> (r: String)
        ensures
            r@ == (match self.app {
                Option::Some(a) => a.key@,
                Option::None => Seq::<char>::empty(),
            }),
    {
        match &self.app {
            Option::Some(app) => app.key.clone(),
            Option::None => String::new(),
        }
    }
}


/// What the idle watchdog should do next: wait, probe with a ping, or
/// close with protocol code 4201.
#[derive(Clone, Copy, Debug, PartialEq, Eq, Structural)]
pub enum ActivityAction {
    Wait,
    SendPing,
    ClosePingTimeout,
}

/// The idle decision: past `activity_timeout_ms` without a frame, a ping
/// goes out; a ping left unanswered past `pong_timeout_ms` closes the
/// socket.
pub open spec fn spec_activity_action(
    last_frame_ms: u64,
    ping_sent_ms: Option<u64>,
    now_ms: u64,
    activity_timeout_ms: u64,
    pong_timeout_ms: u64,
) -> ActivityAction {
    match ping_sent_ms {
        Option::Some(sent) => if now_ms >= sent && now_ms - sent >= pong_timeout_ms {
            ActivityAction::ClosePingTimeout
        } else {
            ActivityAction::Wait
        },
        Option::None => if now_ms >= last_frame_ms && now_ms - last_frame_ms
            >= activity_timeout_ms {
            ActivityAction::SendPing
        } else {
            ActivityAction::Wait
        },
    }
}

pub fn activity_action(
    last_frame_ms: u64,
    ping_sent_ms: Option<u64>,
    now_ms: u64,
    activity_timeout_ms: u64,
    pong_timeout_ms: u64,
) -> (r: ActivityAction)
    ensures
        r == spec_activity_action(
            last_frame_ms,
            ping_sent_ms,
            now_ms,
            activity_timeout_ms,
            pong_timeout_ms,
        ),
{
    match ping_sent_ms {
        Option::Some(sent) => {
            if now_ms >= sent && now_ms - sent >= pong_timeout_ms {
                ActivityAction::ClosePingTimeout
            } else {
                ActivityAction::Wait
            }
        },
        Option::None => {
            if now_ms >= last_frame_ms && now_ms - last_frame_ms >= activity_timeout_ms {
                ActivityAction::SendPing
            } else {
                ActivityAction::Wait
            }
        },
    }
}

} // verus!
