//! The subscription state machine: subscribe, unsubscribe, close cleanup,
//! and the rule for client events, together with the lifecycle events they
//! emit.
//!
//! A ghost history of emitted events rides along with the state. Its
//! invariant pins the webhook discipline: `channel_occupied` and
//! `channel_vacated` alternate per channel and track the transitions of
//! `count == 0` to `count > 0`; `member_added` and `member_removed` pair up
//! per `(channel, user)` and track roster membership.

use vstd::prelude::*;
use crate::app::{App, AppRegistry};
use crate::channel::{spec_channel_type, spec_requires_auth, channel_type, requires_auth, ChannelType};
use crate::connection::{ConnectionState, SocketId};
use crate::namespace::Namespace;
use crate::presence::PresenceRegistry;

verus! {

/// A lifecycle event as the webhook pipeline sees it (ghost mirror).
pub enum EventRecord {
    Occupied { channel: Seq<char> },
    Vacated { channel: Seq<char> },
    Added { channel: Seq<char>, user: Seq<char> },
    Removed { channel: Seq<char>, user: Seq<char> },
}

pub open spec fn occ_delta(e: EventRecord, ch: Seq<char>) -> int {
    match e {
        EventRecord::Occupied { channel } => if channel == ch {
            1int
        } else {
            0int
        },
        EventRecord::Vacated { channel } => if channel == ch {
            -1int
        } else {
            0int
        },
        _ => 0int,
    }
}

/// Occupied events minus vacated events for one channel.
pub open spec fn occ_balance(h: Seq<EventRecord>, ch: Seq<char>) -> int
    decreases h.len(),
{
    if h.len() == 0 {
        0int
    } else {
        occ_balance(h.drop_last(), ch) + occ_delta(h.last(), ch)
    }
}

/// `channel_occupied` is emitted only while the channel reads vacated and
/// `channel_vacated` only while it reads occupied — so the two alternate.
pub open spec fn occ_ok(h: Seq<EventRecord>, ch: Seq<char>) -> bool
    decreases h.len(),
{
    if h.len() == 0 {
        true
    } else {
        occ_ok(h.drop_last(), ch) && (match h.last() {
            EventRecord::Occupied { channel } => channel == ch ==> occ_balance(h.drop_last(), ch)
                == 0,
            EventRecord::Vacated { channel } => channel == ch ==> occ_balance(h.drop_last(), ch)
                == 1,
            _ => true,
        })
    }
}

pub open spec fn mem_delta(e: EventRecord, ch: Seq<char>, user: Seq<char>) -> int {
    match e {
        EventRecord::Added { channel, user: u } => if channel == ch && u == user {
            1int
        } else {
            0int
        },
        EventRecord::Removed { channel, user: u } => if channel == ch && u == user {
            -1int
        } else {
            0int
        },
        _ => 0int,
    }
}

/// Added events minus removed events for one `(channel, user)` pair.
pub open spec fn mem_balance(h: Seq<EventRecord>, ch: Seq<char>, user: Seq<char>) -> int
    decreases h.len(),
{
    if h.len() == 0 {
        0int
    } else {
        mem_balance(h.drop_last(), ch, user) + mem_delta(h.last(), ch, user)
    }
}

/// `member_added` is emitted only while the user is absent and
/// `member_removed` only while present — each added member is removed
/// exactly once before being added again.
pub open spec fn mem_ok(h: Seq<EventRecord>, ch: Seq<char>, user: Seq<char>) -> bool
    decreases h.len(),
{
    if h.len() == 0 {
        true
    } else {
        mem_ok(h.drop_last(), ch, user) && (match h.last() {
            EventRecord::Added { channel, user: u } => channel == ch && u == user ==> mem_balance(
                h.drop_last(),
                ch,
                user,
            ) == 0,
            EventRecord::Removed { channel, user: u } => channel == ch && u == user
                ==> mem_balance(h.drop_last(), ch, user) == 1,
            _ => true,
        })
    }
}

/// How one appended event moves the balances and preserves the discipline.
pub proof fn lemma_history_push(h: Seq<EventRecord>, e: EventRecord)
    ensures
        forall|c: Seq<char>|
            #[trigger] occ_balance(h.push(e), c) == occ_balance(h, c) + occ_delta(e, c),
        forall|c: Seq<char>, u: Seq<char>|
            #[trigger] mem_balance(h.push(e), c, u) == mem_balance(h, c, u) + mem_delta(e, c, u),
        forall|c: Seq<char>|
            occ_ok(h, c) && (match e {
                EventRecord::Occupied { channel } => channel == c ==> occ_balance(h, c) == 0,
                EventRecord::Vacated { channel } => channel == c ==> occ_balance(h, c) == 1,
                _ => true,
            }) ==> #[trigger] occ_ok(h.push(e), c),
        forall|c: Seq<char>, u: Seq<char>|
            mem_ok(h, c, u) && (match e {
                EventRecord::Added { channel, user } => channel == c && user == u ==> mem_balance(
                    h,
                    c,
                    u,
                ) == 0,
                EventRecord::Removed { channel, user } => channel == c && user == u
                    ==> mem_balance(h, c, u) == 1,
                _ => true,
            }) ==> #[trigger] mem_ok(h.push(e), c, u),
{
    assert(h.push(e).drop_last() =~= h);
    assert(h.push(e).last() == e);
}

/// Along every prefix of a disciplined history the occupied/vacated balance
/// stays in `{0, 1}`: the two event kinds strictly alternate, occupied
/// first.
pub proof fn lemma_occ_balance_bounded(h: Seq<EventRecord>, ch: Seq<char>, i: int)
    requires
        occ_ok(h, ch),
        0 <= i <= h.len(),
    ensures
        occ_ok(h.take(i), ch),
        0 <= occ_balance(h.take(i), ch) <= 1,
    decreases h.len(),
{
    if h.len() == 0 {
        assert(h.take(i) =~= h);
    } else if i == h.len() {
        assert(h.take(i) =~= h);
        lemma_occ_balance_bounded(h.drop_last(), ch, h.len() - 1);
        assert(h.drop_last().take(h.len() - 1) =~= h.drop_last());
    } else {
        assert(h.take(i) =~= h.drop_last().take(i));
        lemma_occ_balance_bounded(h.drop_last(), ch, i);
    }
}

/// The membership counterpart: along every prefix, a user's added/removed
/// balance stays in `{0, 1}` — never two `member_added` without a
/// `member_removed` between them, and never a removal without an addition.
pub proof fn lemma_mem_balance_bounded(h: Seq<EventRecord>, ch: Seq<char>, user: Seq<char>, i: int)
    requires
        mem_ok(h, ch, user),
        0 <= i <= h.len(),
    ensures
        mem_ok(h.take(i), ch, user),
        0 <= mem_balance(h.take(i), ch, user) <= 1,
    decreases h.len(),
{
    if h.len() == 0 {
        assert(h.take(i) =~= h);
    } else if i == h.len() {
        assert(h.take(i) =~= h);
        lemma_mem_balance_bounded(h.drop_last(), ch, user, h.len() - 1);
        assert(h.drop_last().take(h.len() - 1) =~= h.drop_last());
    } else {
        assert(h.take(i) =~= h.drop_last().take(i));
        lemma_mem_balance_bounded(h.drop_last(), ch, user, i);
    }
}

/// Why a fresh connection was not admitted.
#[derive(Clone, Copy, Debug, PartialEq, Eq, Structural)]
pub enum AdmitError {
    /// The app already holds `max_connections` connections (close code
    /// 4004).
    OverCapacity,
    /// A connection with this socket id is already registered.
    DuplicateSocket,
}

/// Why a client event was refused.
#[derive(Clone, Copy, Debug, PartialEq, Eq, Structural)]
pub enum ClientEventError {
    /// The event name does not begin with `client-`.
    NotAClientEvent,
    /// The app has client messages switched off.
    ClientEventsDisabled,
    /// Client events may only go to private or presence channels.
    PublicChannel,
}

/// The rule for client events: allowed exactly when the name begins with
/// `client-`, the app permits client messages, and the channel is private,
/// private-encrypted or presence.
pub open spec fn spec_client_event_decision(
    app: App,
    channel: Seq<char>,
    event: Seq<char>,
) -> Result<(), ClientEventError> {
    if !crate::channel::spec_is_client_event(event) {
        Result::Err(ClientEventError::NotAClientEvent)
    } else if !app.enable_client_messages {
        Result::Err(ClientEventError::ClientEventsDisabled)
    } else if !spec_requires_auth(channel) {
        Result::Err(ClientEventError::PublicChannel)
    } else {
        Result::Ok(())
    }
}

/// Why a subscribe attempt was refused.
#[derive(Clone, Copy, Debug, PartialEq, Eq, Structural)]
pub enum SubscribeError {
    /// The channel needs a signed token and the signature did not match
    /// (protocol code 4009).
    AuthenticationFailed,
    /// No connection with this socket id is registered.
    UnknownSocket,
    /// The socket already holds `max_channels_per_connection` channels.
    ChannelLimitExceeded,
    /// A presence channel was asked for without presence data.
    MissingPresenceData,
    /// The presence payload exceeds `max_presence_member_size_kb`.
    PresenceDataTooLarge,
    /// The roster already holds `max_presence_members_per_channel` users.
    PresenceLimitExceeded,
}

/// What a successful subscribe did.
#[derive(Debug)]
pub struct SubscribeOutcome {
    pub new_count: usize,
    pub channel_occupied: bool,
    pub member_added: Option<String>,
}

/// What an unsubscribe did.
#[derive(Debug)]
pub struct UnsubscribeOutcome {
    pub new_count: usize,
    pub channel_vacated: bool,
    pub member_removed: Option<String>,
}

/// The presence payload a subscriber hands over on a presence channel.
#[derive(Debug)]
pub struct PresenceInput {
    pub user_id: String,
    pub user_info: String,
}

pub open spec fn pd_view(p: Option<&PresenceInput>) -> Option<(Seq<char>, Seq<char>)> {
    match p {
        Option::None => Option::None,
        Option::Some(d) => Option::Some((d.user_id@, d.user_info@)),
    }
}

/// The decision chain of a subscribe attempt, in the order the checks run:
/// token, socket, channel limit, then the presence payload and roster.
pub open spec fn spec_subscribe_decision(
    m: ChannelManager,
    sid: Seq<char>,
    ch: Seq<char>,
    app: App,
    auth_ok: bool,
    pd: Option<(Seq<char>, Seq<char>)>,
) -> Result<(), SubscribeError> {
    if spec_requires_auth(ch) && !auth_ok {
        Result::Err(SubscribeError::AuthenticationFailed)
    } else if !m.spec_has_socket(sid) {
        Result::Err(SubscribeError::UnknownSocket)
    } else if !m.spec_subscribed(sid, ch) && m.spec_socket_channel_count(sid)
        >= app.max_channels_per_connection {
        Result::Err(SubscribeError::ChannelLimitExceeded)
    } else if spec_channel_type(ch) == ChannelType::Presence {
        match pd {
            Option::None => Result::Err(SubscribeError::MissingPresenceData),
            Option::Some((u, info)) => {
                if u.len() + info.len() > app.max_presence_member_size_kb * 1024 {
                    Result::Err(SubscribeError::PresenceDataTooLarge)
                } else if !m.spec_has_presence_member(ch, u) && !m.spec_presence_socket(ch, sid)
                    && m.spec_presence_count(ch) >= app.max_presence_members_per_channel {
                    Result::Err(SubscribeError::PresenceLimitExceeded)
                } else {
                    Result::Ok(())
                }
            },
        }
    } else {
        Result::Ok(())
    }
}

/// Per-app subscription state machine over one node's namespace.
pub struct ChannelManager {
    namespace: Namespace,
    presence: PresenceRegistry,
    history: Ghost<Seq<EventRecord>>,
}

impl ChannelManager {
    pub closed spec fn spec_channel_count(self, c: Seq<char>) -> nat {
        self.namespace.spec_channel_count(c)
    }

    pub closed spec fn spec_is_member(self, c: Seq<char>, s: Seq<char>) -> bool {
        self.namespace.spec_is_member(c, s)
    }

    pub closed spec fn spec_subscribed(self, s: Seq<char>, c: Seq<char>) -> bool {
        self.namespace.spec_subscribed(s, c)
    }

    pub closed spec fn spec_has_socket(self, s: Seq<char>) -> bool {
        self.namespace.spec_has_socket(s)
    }

    pub closed spec fn spec_socket_count(self) -> nat {
        self.namespace.spec_socket_count()
    }

    pub closed spec fn spec_socket_channel_count(self, s: Seq<char>) -> nat {
        self.namespace.spec_socket(s).spec_channel_count()
    }

    /// The `i`-th channel on the stored connection of `s`.
    pub closed spec fn spec_socket_channel_name(self, s: Seq<char>, i: int) -> Seq<char> {
        self.namespace.spec_socket(s).subscribed_channels@[i]@
    }

    pub closed spec fn spec_presence_count(self, c: Seq<char>) -> nat {
        self.presence.spec_member_count(c)
    }

    pub closed spec fn spec_has_presence_member(self, c: Seq<char>, u: Seq<char>) -> bool {
        self.presence.spec_has_member(c, u)
    }

    pub closed spec fn spec_presence_socket(self, c: Seq<char>, s: Seq<char>) -> bool {
        self.presence.spec_socket_present(c, s)
    }

    /// The stored connection of `s` carries presence data for `c` with
    /// this user id.
    pub closed spec fn spec_presence_record(self, s: Seq<char>, c: Seq<char>, u: Seq<char>) -> bool {
        self.namespace.spec_presence_record(s, c, u)
    }

    pub closed spec fn spec_user_socket(self, u: Seq<char>, s: Seq<char>) -> bool {
        self.namespace.spec_user_socket(u, s)
    }

    pub closed spec fn spec_history(self) -> Seq<EventRecord> {
        self.history@
    }

    pub closed spec fn inv(self) -> bool {
        &&& self.namespace.wf()
        &&& self.presence.wf()
        &&& forall|c: Seq<char>| #[trigger] occ_ok(self.history@, c)
        &&& forall|c: Seq<char>|
            #[trigger] occ_balance(self.history@, c) == (if self.namespace.spec_channel_count(c)
                > 0 {
                1int
            } else {
                0int
            })
        &&& forall|c: Seq<char>, u: Seq<char>| #[trigger] mem_ok(self.history@, c, u)
        &&& forall|c: Seq<char>, u: Seq<char>|
            #[trigger] mem_balance(self.history@, c, u) == (
            if self.presence.spec_has_member(c, u) {
                1int
            } else {
                0int
            })
    }

    pub fn new() -> (r: ChannelManager)
        ensures
            r.inv(),
            r.spec_history() == Seq::<EventRecord>::empty(),
            r.spec_socket_count() == 0,
            forall|s: Seq<char>| !r.spec_has_socket(s),
            forall|c: Seq<char>| r.spec_channel_count(c) == 0,
            forall|c: Seq<char>, s: Seq<char>| !r.spec_is_member(c, s),
            forall|c: Seq<char>| r.spec_presence_count(c) == 0,
    {
        ChannelManager {
            namespace: Namespace::new(),
            presence: PresenceRegistry::new(),
            history: Ghost(Seq::empty()),
        }
    }

    /// Subscribe a socket to a channel, the token already checked. The
    /// outcome names the lifecycle events the caller owes the webhook
    /// pipeline; the ghost history records them.
    pub fn subscribe_authorized(
        &mut self,
        socket_id: &str,
        channel: &str,
        app: &App,
        auth_ok: bool,
        presence_data: Option<&PresenceInput>,
    ) -> (r: Result<SubscribeOutcome, SubscribeError>)
        requires
            old(self).inv(),
        ensures
            final(self).inv(),
            match r {
                Result::Err(e) => *final(self) == *old(self) && spec_subscribe_decision(
                    *old(self),
                    socket_id@,
                    channel@,
                    *app,
                    auth_ok,
                    pd_view(presence_data),
                ) == Result::<(), SubscribeError>::Err(e),
                Result::Ok(out) => {
                    &&& spec_subscribe_decision(
                        *old(self),
                        socket_id@,
                        channel@,
                        *app,
                        auth_ok,
                        pd_view(presence_data),
                    ) == Result::<(), SubscribeError>::Ok(())
                    &&& out.new_count == final(self).spec_channel_count(channel@)
                    &&& final(self).spec_channel_count(channel@) == old(self).spec_channel_count(
                        channel@,
                    ) + (if old(self).spec_is_member(channel@, socket_id@) {
                        0int
                    } else {
                        1int
                    })
                    &&& out.channel_occupied == (old(self).spec_channel_count(channel@) == 0)
                    &&& forall|c: Seq<char>, s: Seq<char>|
                        #[trigger] final(self).spec_is_member(c, s) == (old(self).spec_is_member(
                            c,
                            s,
                        ) || (c == channel@ && s == socket_id@))
                    &&& forall|s: Seq<char>, c: Seq<char>|
                        #[trigger] final(self).spec_subscribed(s, c) == (old(
                            self,
                        ).spec_subscribed(s, c) || (s == socket_id@ && c == channel@))
                    &&& forall|s: Seq<char>|
                        #[trigger] final(self).spec_has_socket(s) == old(self).spec_has_socket(s)
                    &&& final(self).spec_socket_count() == old(self).spec_socket_count()
                    &&& forall|c: Seq<char>|
                        c != channel@ ==> #[trigger] final(self).spec_channel_count(c) == old(
                            self,
                        ).spec_channel_count(c)
                    &&& (match out.member_added {
                        Option::Some(u) => {
                            &&& spec_channel_type(channel@) == ChannelType::Presence
                            &&& (match presence_data {
                                Option::Some(p) => u@ == p.user_id@,
                                Option::None => false,
                            })
                            &&& !old(self).spec_has_presence_member(channel@, u@)
                            &&& !old(self).spec_presence_socket(channel@, socket_id@)
                            &&& final(self).spec_presence_record(socket_id@, channel@, u@)
                            &&& forall|c: Seq<char>, us: Seq<char>|
                                #[trigger] final(self).spec_has_presence_member(c, us) == (old(
                                    self,
                                ).spec_has_presence_member(c, us) || (c == channel@ && us == u@))
                            &&& forall|c: Seq<char>, s2: Seq<char>|
                                #[trigger] final(self).spec_presence_socket(c, s2) == (old(
                                    self,
                                ).spec_presence_socket(c, s2) || (c == channel@ && s2
                                    == socket_id@))
                            &&& final(self).spec_presence_count(channel@) == old(
                                self,
                            ).spec_presence_count(channel@) + 1
                            &&& forall|c: Seq<char>|
                                c != channel@ ==> #[trigger] final(self).spec_presence_count(c)
                                    == old(self).spec_presence_count(c)
                            &&& final(self).spec_history() == old(self).spec_history() + (
                            if out.channel_occupied {
                                seq![EventRecord::Occupied { channel: channel@ }]
                            } else {
                                Seq::<EventRecord>::empty()
                            }) + seq![EventRecord::Added { channel: channel@, user: u@ }]
                        },
                        Option::None => {
                            &&& forall|c: Seq<char>, us: Seq<char>|
                                #[trigger] final(self).spec_has_presence_member(c, us) == old(
                                    self,
                                ).spec_has_presence_member(c, us)
                            &&& forall|c: Seq<char>, s2: Seq<char>|
                                #[trigger] final(self).spec_presence_socket(c, s2) == old(
                                    self,
                                ).spec_presence_socket(c, s2)
                            &&& forall|c: Seq<char>|
                                #[trigger] final(self).spec_presence_count(c) == old(
                                    self,
                                ).spec_presence_count(c)
                            &&& final(self).spec_history() == old(self).spec_history() + (
                            if out.channel_occupied {
                                seq![EventRecord::Occupied { channel: channel@ }]
                            } else {
                                Seq::<EventRecord>::empty()
                            })
                            &&& (spec_channel_type(channel@) == ChannelType::Presence ==> (
                            match presence_data {
                                Option::Some(p) => old(self).spec_has_presence_member(
                                    channel@,
                                    p.user_id@,
                                ) || old(self).spec_presence_socket(channel@, socket_id@),
                                Option::None => false,
                            }))
                        },
                    })
                },
            },
    {
        let ghost pre = *self;
        let needs_auth = requires_auth(channel);
        if needs_auth && !auth_ok {
            return Result::Err(SubscribeError::AuthenticationFailed);
        }
        if !self.namespace.has_socket(socket_id) {
            return Result::Err(SubscribeError::UnknownSocket);
        }
        let already_subscribed = self.namespace.is_subscribed(socket_id, channel);
        let own_count = match self.namespace.socket_channel_count(socket_id) {
            Option::Some(n) => n,
            Option::None => {
                proof {
                    assert(false);
                }
                0
            },
        };
        if !already_subscribed && own_count >= app.max_channels_per_connection as usize {
            return Result::Err(SubscribeError::ChannelLimitExceeded);
        }
        let is_presence = match channel_type(channel) {
            ChannelType::Presence => true,
            _ => false,
        };
        if is_presence {
            match presence_data {
                Option::None => {
                    return Result::Err(SubscribeError::MissingPresenceData);
                },
                Option::Some(p) => {
                    let lim = (app.max_presence_member_size_kb as u64) * 1024;
                    let a = p.user_id.unicode_len() as u64;
                    let b = p.user_info.unicode_len() as u64;
                    if a > lim || b > lim - a {
                        return Result::Err(SubscribeError::PresenceDataTooLarge);
                    }
                    let user_known = self.presence.has_member(channel, p.user_id.as_str());
                    let socket_known = self.presence.socket_present(channel, socket_id);
                    if !user_known && !socket_known && self.presence.member_count(channel)
                        >= app.max_presence_members_per_channel as usize {
                        return Result::Err(SubscribeError::PresenceLimitExceeded);
                    }
                },
            }
        }
        let old_count = self.namespace.channel_count(channel);
        let occupied = old_count == 0;
        let new_count = match self.namespace.add_to_channel(socket_id, channel) {
            Option::Some(n) => n,
            Option::None => {
                proof {
                    assert(false);
                }
                0
            },
        };
        let ghost h1 = if occupied {
            pre.history@.push(EventRecord::Occupied { channel: channel@ })
        } else {
            pre.history@
        };
        proof {
            if occupied {
                lemma_history_push(pre.history@, EventRecord::Occupied { channel: channel@ });
                assert(h1 =~= pre.history@ + seq![EventRecord::Occupied { channel: channel@ }]);
            } else {
                assert(h1 =~= pre.history@ + Seq::<EventRecord>::empty());
            }
        }
        let mut member_added: Option<String> = Option::None;
        let ghost mut h2 = h1;
        if is_presence {
            match presence_data {
                Option::Some(p) => {
                    let added = self.presence.add_member(
                        channel,
                        socket_id,
                        p.user_id.as_str(),
                        p.user_info.as_str(),
                    );
                    if added {
                        member_added = Option::Some(String::from_str(p.user_id.as_str()));
                        proof {
                            assert(self.namespace.spec_has_socket(socket_id@));
                        }
                        let recorded = self.namespace.set_presence(
                            socket_id,
                            channel,
                            p.user_id.as_str(),
                            p.user_info.as_str(),
                        );
                        proof {
                            assert(recorded);
                        }
                        proof {
                            h2 = h1.push(
                                EventRecord::Added { channel: channel@, user: p.user_id@ },
                            );
                            lemma_history_push(
                                h1,
                                EventRecord::Added { channel: channel@, user: p.user_id@ },
                            );
                            assert(h2 =~= h1 + seq![
                                EventRecord::Added { channel: channel@, user: p.user_id@ },
                            ]);
                        }
                    }
                },
                Option::None => {
                    proof {
                        assert(false);
                    }
                },
            }
        }
        self.history = Ghost(h2);
        proof {
            // occupied/vacated balances stay aligned with the counts
            assert forall|c: Seq<char>| #[trigger]
                occ_balance(self.history@, c) == (if self.namespace.spec_channel_count(c) > 0 {
                    1int
                } else {
                    0int
                }) by {
                if c == channel@ {
                    if pre.namespace.spec_is_member(channel@, socket_id@) {
                        pre.namespace.lemma_member_implies_nonempty(channel@, socket_id@);
                    }
                    assert(self.namespace.spec_channel_count(c) > 0);
                } else {
                    assert(self.namespace.spec_channel_count(c) == pre.namespace.spec_channel_count(
                        c,
                    ));
                }
            }
            assert forall|c: Seq<char>| #[trigger] occ_ok(self.history@, c) by {}
            assert forall|c: Seq<char>, u: Seq<char>| #[trigger]
                mem_balance(self.history@, c, u) == (if self.presence.spec_has_member(c, u) {
                    1int
                } else {
                    0int
                }) by {}
            assert forall|c: Seq<char>, u: Seq<char>| #[trigger] mem_ok(self.history@, c, u) by {}
        }
        Result::Ok(
            SubscribeOutcome { new_count, channel_occupied: occupied, member_added },
        )
    }

    /// Unsubscribe a socket from a channel, explicitly or during close
    /// cleanup. The outcome names the lifecycle events the caller owes the
    /// webhook pipeline; the ghost history records them.
    pub fn unsubscribe(&mut self, socket_id: &str, channel: &str) -> (r: UnsubscribeOutcome)
        requires
            old(self).inv(),
        ensures
            final(self).inv(),
            r.new_count == final(self).spec_channel_count(channel@),
            final(self).spec_channel_count(channel@) == old(self).spec_channel_count(channel@) - (
            if old(self).spec_is_member(channel@, socket_id@) {
                1int
            } else {
                0int
            }),
            r.channel_vacated == (old(self).spec_channel_count(channel@) > 0
                && final(self).spec_channel_count(channel@) == 0),
            forall|c: Seq<char>, s: Seq<char>|
                #[trigger] final(self).spec_is_member(c, s) == (old(self).spec_is_member(c, s)
                    && !(c == channel@ && s == socket_id@)),
            forall|s: Seq<char>, c: Seq<char>|
                #[trigger] final(self).spec_subscribed(s, c) == (old(self).spec_subscribed(s, c)
                    && !(s == socket_id@ && c == channel@)),
            forall|s: Seq<char>|
                #[trigger] final(self).spec_has_socket(s) == old(self).spec_has_socket(s),
            final(self).spec_socket_count() == old(self).spec_socket_count(),
            forall|c: Seq<char>|
                c != channel@ ==> #[trigger] final(self).spec_channel_count(c) == old(
                    self,
                ).spec_channel_count(c),
            forall|c: Seq<char>, s2: Seq<char>|
                #[trigger] final(self).spec_presence_socket(c, s2) == (old(
                    self,
                ).spec_presence_socket(c, s2) && !(c == channel@ && s2 == socket_id@)),
            forall|u: Seq<char>, s2: Seq<char>|
                #[trigger] final(self).spec_user_socket(u, s2) == old(self).spec_user_socket(
                    u,
                    s2,
                ),
            match r.member_removed {
                Option::Some(u) => {
                    &&& old(self).spec_presence_socket(channel@, socket_id@)
                    &&& old(self).spec_has_presence_member(channel@, u@)
                    &&& forall|u2: Seq<char>|
                        !final(self).spec_presence_record(socket_id@, channel@, u2)
                    &&& forall|c: Seq<char>, us: Seq<char>|
                        #[trigger] final(self).spec_has_presence_member(c, us) == (old(
                            self,
                        ).spec_has_presence_member(c, us) && !(c == channel@ && us == u@))
                    &&& final(self).spec_presence_count(channel@) == old(
                        self,
                    ).spec_presence_count(channel@) - 1
                    &&& forall|c: Seq<char>|
                        c != channel@ ==> #[trigger] final(self).spec_presence_count(c) == old(
                            self,
                        ).spec_presence_count(c)
                    &&& final(self).spec_history() == old(self).spec_history() + seq![
                        EventRecord::Removed { channel: channel@, user: u@ },
                    ] + (if r.channel_vacated {
                        seq![EventRecord::Vacated { channel: channel@ }]
                    } else {
                        Seq::<EventRecord>::empty()
                    })
                },
                Option::None => {
                    &&& !old(self).spec_presence_socket(channel@, socket_id@)
                    &&& forall|c: Seq<char>, us: Seq<char>|
                        #[trigger] final(self).spec_has_presence_member(c, us) == old(
                            self,
                        ).spec_has_presence_member(c, us)
                    &&& forall|c: Seq<char>|
                        #[trigger] final(self).spec_presence_count(c) == old(
                            self,
                        ).spec_presence_count(c)
                    &&& final(self).spec_history() == old(self).spec_history() + (
                    if r.channel_vacated {
                        seq![EventRecord::Vacated { channel: channel@ }]
                    } else {
                        Seq::<EventRecord>::empty()
                    })
                },
            },
    {
        let ghost pre = *self;
        let removed = self.presence.remove_socket(channel, socket_id);
        let member_removed: Option<String> = match removed {
            Option::Some(p) => Option::Some(p.0),
            Option::None => Option::None,
        };
        let ghost h1 = match &member_removed {
            Option::Some(u) => pre.history@.push(
                EventRecord::Removed { channel: channel@, user: u@ },
            ),
            Option::None => pre.history@,
        };
        proof {
            match &member_removed {
                Option::Some(u) => {
                    lemma_history_push(
                        pre.history@,
                        EventRecord::Removed { channel: channel@, user: u@ },
                    );
                    assert(h1 =~= pre.history@ + seq![
                        EventRecord::Removed { channel: channel@, user: u@ },
                    ]);
                },
                Option::None => {
                    assert(h1 =~= pre.history@ + Seq::<EventRecord>::empty());
                },
            }
        }
        let old_count = self.namespace.channel_count(channel);
        let new_count = self.namespace.remove_from_channel(socket_id, channel);
        match &member_removed {
            Option::Some(_) => {
                self.namespace.remove_presence(socket_id, channel);
            },
            Option::None => {},
        }
        let vacated = old_count > 0 && new_count == 0;
        let ghost h2 = if vacated {
            h1.push(EventRecord::Vacated { channel: channel@ })
        } else {
            h1
        };
        proof {
            if vacated {
                lemma_history_push(h1, EventRecord::Vacated { channel: channel@ });
                assert(h2 =~= h1 + seq![EventRecord::Vacated { channel: channel@ }]);
            } else {
                assert(h2 =~= h1 + Seq::<EventRecord>::empty());
            }
        }
        self.history = Ghost(h2);
        proof {
            assert forall|c: Seq<char>| #[trigger]
                occ_balance(self.history@, c) == (if self.namespace.spec_channel_count(c) > 0 {
                    1int
                } else {
                    0int
                }) by {}
            assert forall|c: Seq<char>| #[trigger] occ_ok(self.history@, c) by {}
            assert forall|c: Seq<char>, u: Seq<char>| #[trigger]
                mem_balance(self.history@, c, u) == (if self.presence.spec_has_member(c, u) {
                    1int
                } else {
                    0int
                }) by {}
            assert forall|c: Seq<char>, u: Seq<char>| #[trigger] mem_ok(self.history@, c, u) by {}
        }
        UnsubscribeOutcome { new_count, channel_vacated: vacated, member_removed }
    }


    /// Admit a fresh connection, refusing it past `max_connections`.
    pub fn admit_socket(&mut self, conn: ConnectionState, app: &App) -> (r: Result<
        (),
        AdmitError,
    >)
        requires
            old(self).inv(),
            conn.wf(),
            conn.spec_channel_count() == 0,
        ensures
            final(self).inv(),
            match r {
                Result::Ok(()) => {
                    &&& old(self).spec_socket_count() < app.max_connections
                    &&& !old(self).spec_has_socket(conn.socket_id@)
                    &&& final(self).spec_socket_count() == old(self).spec_socket_count() + 1
                    &&& forall|s: Seq<char>|
                        #[trigger] final(self).spec_has_socket(s) == (old(self).spec_has_socket(s)
                            || s == conn.socket_id@)
                },
                Result::Err(AdmitError::OverCapacity) => old(self).spec_socket_count()
                    >= app.max_connections && *final(self) == *old(self),
                Result::Err(AdmitError::DuplicateSocket) => old(self).spec_socket_count()
                    < app.max_connections && old(self).spec_has_socket(conn.socket_id@)
                    && *final(self) == *old(self),
            },
            final(self).spec_history() == old(self).spec_history(),
            forall|c: Seq<char>, s: Seq<char>|
                #[trigger] final(self).spec_is_member(c, s) == old(self).spec_is_member(c, s),
            forall|c: Seq<char>| #[trigger]
                final(self).spec_channel_count(c) == old(self).spec_channel_count(c),
    {
        if self.namespace.socket_count() >= app.max_connections as usize {
            return Result::Err(AdmitError::OverCapacity);
        }
        let added = self.namespace.add_socket(conn);
        if !added {
            return Result::Err(AdmitError::DuplicateSocket);
        }
        Result::Ok(())
    }

    /// Close cleanup: unsubscribe the socket from every channel it holds
    /// (emitting the same events an explicit unsubscribe would), drop its
    /// user binding, and take the connection out of the namespace.
    /// Idempotent: an unknown socket yields no work.
    pub fn cleanup_connection(&mut self, socket_id: &str) -> (r: Vec<(String, UnsubscribeOutcome)>)
        requires
            old(self).inv(),
        ensures
            final(self).inv(),
            !final(self).spec_has_socket(socket_id@),
            forall|c: Seq<char>| !final(self).spec_is_member(c, socket_id@),
            forall|c: Seq<char>| !final(self).spec_subscribed(socket_id@, c),
            forall|s: Seq<char>|
                s != socket_id@ ==> #[trigger] final(self).spec_has_socket(s) == old(
                    self,
                ).spec_has_socket(s),
            final(self).spec_socket_count() == old(self).spec_socket_count() - (
            if old(self).spec_has_socket(socket_id@) {
                1int
            } else {
                0int
            }),
            forall|u: Seq<char>, s2: Seq<char>|
                #[trigger] final(self).spec_user_socket(u, s2) ==> old(self).spec_user_socket(
                    u,
                    s2,
                ),
            !old(self).spec_has_socket(socket_id@) ==> r@.len() == 0,
            old(self).spec_has_socket(socket_id@) ==> r@.len() == old(
                self,
            ).spec_socket_channel_count(socket_id@) && forall|i: int|
                0 <= i < r@.len() ==> #[trigger] r@[i].0@ == old(self).spec_socket_channel_name(
                    socket_id@,
                    i,
                ),
            forall|i: int, j: int| 0 <= i < j < r@.len() ==> r@[i].0@ != r@[j].0@,
    {
        let ghost pre = *self;
        let mut results: Vec<(String, UnsubscribeOutcome)> = Vec::new();
        let chans = match self.namespace.get_socket_channels(socket_id) {
            Option::None => {
                proof {
                    assert forall|c: Seq<char>| !self.spec_is_member(c, socket_id@) by {
                        self.namespace.lemma_bidirectional_consistency(c, socket_id@);
                    }
                    assert forall|c: Seq<char>| !self.spec_subscribed(socket_id@, c) by {
                        if self.namespace.spec_subscribed(socket_id@, c) {
                            self.namespace.lemma_subscribed_implies_socket(socket_id@, c);
                        }
                    }
                }
                return results;
            },
            Option::Some(v) => v,
        };
        let ghost conn0 = pre.namespace.spec_socket(socket_id@);
        proof {
            pre.namespace.lemma_socket_wf(socket_id@);
            assert(conn0.wf());
            assert forall|k1: int, k2: int|
                0 <= k1 < k2 < chans@.len() implies chans@[k1]@ != chans@[k2]@ by {
                assert(chans@[k1]@ == conn0.subscribed_channels@[k1]@);
                assert(chans@[k2]@ == conn0.subscribed_channels@[k2]@);
            }
            assert forall|c: Seq<char>|
                #[trigger] pre.namespace.spec_subscribed(socket_id@, c) implies exists|k: int|
                0 <= k < chans@.len() && chans@[k]@ == c by {
                pre.namespace.lemma_subscribed_via_socket(socket_id@, c);
                let k = choose|k: int|
                    0 <= k < conn0.subscribed_channels@.len() && conn0.subscribed_channels@[k]@
                        == c;
                assert(chans@[k]@ == c);
            }
        }
        let n = chans.len();
        let mut i: usize = 0;
        while i < n
            invariant
                i <= n,
                n == chans@.len(),
                self.inv(),
                forall|k1: int, k2: int| 0 <= k1 < k2 < chans@.len() ==> chans@[k1]@ != chans@[k2]@,
                forall|c: Seq<char>|
                    #[trigger] self.spec_subscribed(socket_id@, c) ==> exists|k: int|
                        i <= k < chans@.len() && chans@[k]@ == c,
                forall|s: Seq<char>|
                    #[trigger] self.spec_has_socket(s) == pre.spec_has_socket(s),
                self.spec_socket_count() == pre.spec_socket_count(),
                forall|u: Seq<char>, s2: Seq<char>|
                    #[trigger] self.spec_user_socket(u, s2) == pre.spec_user_socket(u, s2),
                results@.len() == i,
                forall|k: int| 0 <= k < i ==> #[trigger] results@[k].0@ == chans@[k]@,
            decreases n - i,
        {
            let ghost mid = *self;
            let ghost results_pre = results@;
            let out = self.unsubscribe(socket_id, chans[i].as_str());
            results.push((String::from_str(chans[i].as_str()), out));
            proof {
                assert(results@.drop_last() =~= results_pre);
                assert forall|k: int|
                    0 <= k < i + 1 implies #[trigger] results@[k].0@ == chans@[k]@ by {
                    if k < i {
                        assert(results@[k] == results_pre[k]);
                    } else {
                        assert(results@[k].0@ == chans@[i as int]@);
                    }
                }
            }
            proof {
                assert forall|c: Seq<char>|
                    #[trigger] self.spec_subscribed(socket_id@, c) implies exists|k: int|
                    i + 1 <= k < chans@.len() && chans@[k]@ == c by {
                    assert(mid.spec_subscribed(socket_id@, c) && c != chans@[i as int]@);
                    let k = choose|k: int|
                        i <= k < chans@.len() && chans@[k]@ == c;
                    assert(k != i);
                }
            }
            i += 1;
        }
        proof {
            assert(self.spec_has_socket(socket_id@));
            assert(self.namespace.spec_has_socket(socket_id@));
            assert forall|c: Seq<char>| !self.namespace.spec_subscribed(socket_id@, c) by {
                if self.namespace.spec_subscribed(socket_id@, c) {
                    assert(self.spec_subscribed(socket_id@, c));
                    assert(exists|k: int| n <= k < chans@.len() && chans@[k]@ == c);
                    assert(false);
                }
            }
            self.namespace.lemma_empty_socket_count(socket_id@);
        }
        let ghost after_loop = *self;
        let conn = match self.namespace.remove_socket(socket_id) {
            Option::Some(conn) => conn,
            Option::None => {
                proof {
                    assert(false);
                }
                return results;
            },
        };
        let ghost after_rm = *self;
        match &conn.user_id {
            Option::Some(u) => {
                self.namespace.remove_user_socket(u.as_str(), socket_id);
            },
            Option::None => {},
        }
        proof {
            assert forall|s: Seq<char>|
                s != socket_id@ implies #[trigger] self.spec_has_socket(s) == pre.spec_has_socket(
                s,
            ) by {
                assert(after_loop.spec_has_socket(s) == pre.spec_has_socket(s));
                assert(after_rm.namespace.spec_has_socket(s) == (
                after_loop.namespace.spec_has_socket(s) && s != socket_id@));
                assert(self.namespace.spec_has_socket(s) == after_rm.namespace.spec_has_socket(s));
            }
            assert forall|u: Seq<char>, s2: Seq<char>|
                #[trigger] self.spec_user_socket(u, s2) implies pre.spec_user_socket(u, s2) by {
                assert(self.namespace.spec_user_socket(u, s2));
                assert(after_rm.namespace.spec_user_socket(u, s2));
                assert(after_loop.namespace.spec_user_socket(u, s2));
                assert(after_loop.spec_user_socket(u, s2) == pre.spec_user_socket(u, s2));
            }
            assert(results@.len() == pre.spec_socket_channel_count(socket_id@));
            assert forall|i2: int|
                0 <= i2 < results@.len() implies #[trigger] results@[i2].0@
                == pre.spec_socket_channel_name(socket_id@, i2) by {
                assert(results@[i2].0@ == chans@[i2]@);
                assert(chans@[i2]@ == conn0.subscribed_channels@[i2]@);
            }
            assert forall|i2: int, j2: int|
                0 <= i2 < j2 < results@.len() implies results@[i2].0@ != results@[j2].0@ by {
                assert(results@[i2].0@ == chans@[i2]@ && results@[j2].0@ == chans@[j2]@);
            }
            assert forall|c: Seq<char>| !self.spec_is_member(c, socket_id@) by {
                self.namespace.lemma_bidirectional_consistency(c, socket_id@);
            }
            assert forall|c: Seq<char>| !self.spec_subscribed(socket_id@, c) by {
                if self.namespace.spec_subscribed(socket_id@, c) {
                    self.namespace.lemma_subscribed_implies_socket(socket_id@, c);
                }
            }
        }
        results
    }

    /// Record a successful `pusher:signin`: the socket is bound to the
    /// user, so the user index can later terminate it. The token itself is
    /// checked by the caller against the sign-in signature.
    pub fn signin(&mut self, socket_id: &str, user_id: &str) -> (r: bool)
        requires
            old(self).inv(),
        ensures
            final(self).inv(),
            r == old(self).spec_has_socket(socket_id@),
            !r ==> *final(self) == *old(self),
            r ==> forall|u: Seq<char>, s: Seq<char>|
                #[trigger] final(self).spec_user_socket(u, s) == (old(self).spec_user_socket(u, s)
                    || (u == user_id@ && s == socket_id@)),
            forall|c: Seq<char>, s: Seq<char>|
                #[trigger] final(self).spec_is_member(c, s) == old(self).spec_is_member(c, s),
            forall|c: Seq<char>| #[trigger]
                final(self).spec_channel_count(c) == old(self).spec_channel_count(c),
            forall|s: Seq<char>|
                #[trigger] final(self).spec_has_socket(s) == old(self).spec_has_socket(s),
            final(self).spec_socket_count() == old(self).spec_socket_count(),
            final(self).spec_history() == old(self).spec_history(),
    {
        self.namespace.bind_user(socket_id, user_id)
    }

    /// Terminate every connection a signed-in user holds: the user index
    /// entry goes, and each of the user's sockets runs close cleanup. The
    /// returned socket ids are what the caller must actually close.
    pub fn terminate_user_connections(&mut self, user_id: &str) -> (r: Vec<SocketId>)
        requires
            old(self).inv(),
        ensures
            final(self).inv(),
            forall|i: int, j: int| 0 <= i < j < r@.len() ==> r@[i]@ != r@[j]@,
            forall|i: int|
                0 <= i < r@.len() ==> old(self).spec_user_socket(user_id@, #[trigger] r@[i]@),
            forall|s: Seq<char>|
                #[trigger] old(self).spec_user_socket(user_id@, s) ==> exists|i: int|
                    0 <= i < r@.len() && r@[i]@ == s,
            forall|i: int| 0 <= i < r@.len() ==> !final(self).spec_has_socket(#[trigger] r@[i]@),
            forall|s: Seq<char>| !final(self).spec_user_socket(user_id@, s),
    {
        let ghost pre = *self;
        let sids = self.namespace.terminate_user(user_id);
        let ghost mid = *self;
        proof {
            assert forall|s: Seq<char>| !self.spec_user_socket(user_id@, s) by {}
        }
        let n = sids.len();
        let mut i: usize = 0;
        while i < n
            invariant
                i <= n,
                n == sids@.len(),
                self.inv(),
                forall|a: int, b: int| 0 <= a < b < sids@.len() ==> sids@[a]@ != sids@[b]@,
                forall|s: Seq<char>| !self.spec_user_socket(user_id@, s),
                forall|k: int| 0 <= k < i ==> !self.spec_has_socket(#[trigger] sids@[k]@),
            decreases n - i,
        {
            let ghost step = *self;
            self.cleanup_connection(sids[i].as_str());
            proof {
                assert forall|k: int|
                    0 <= k < i + 1 implies !self.spec_has_socket(#[trigger] sids@[k]@) by {
                    if k < i {
                        assert(sids@[k]@ != sids@[i as int]@);
                        assert(self.spec_has_socket(sids@[k]@) == step.spec_has_socket(
                            sids@[k]@,
                        ));
                    }
                }
                assert forall|s: Seq<char>| !self.spec_user_socket(user_id@, s) by {
                    if self.spec_user_socket(user_id@, s) {
                        assert(step.spec_user_socket(user_id@, s));
                    }
                }
            }
            i += 1;
        }
        sids
    }

    /// Decide a client event, per the published rule.
    pub fn check_client_event(&self, app: &App, channel: &str, event: &str) -> (r: Result<
        (),
        ClientEventError,
    >)
        ensures
            r == spec_client_event_decision(*app, channel@, event@),
    {
        if !crate::channel::is_client_event(event) {
            return Result::Err(ClientEventError::NotAClientEvent);
        }
        if !app.enable_client_messages {
            return Result::Err(ClientEventError::ClientEventsDisabled);
        }
        if !requires_auth(channel) {
            return Result::Err(ClientEventError::PublicChannel);
        }
        Result::Ok(())
    }


    /// How many sockets a channel holds on this node.
    pub fn channel_count(&self, channel: &str) -> (r: usize)
        requires
            self.inv(),
        ensures
            r == self.spec_channel_count(channel@),
    {
        self.namespace.channel_count(channel)
    }

    /// How many connections this node holds for the app.
    pub fn socket_count(&self) -> (r: usize)
        requires
            self.inv(),
        ensures
            r == self.spec_socket_count(),
    {
        self.namespace.socket_count()
    }

    /// The presence data the stored connection carries for a channel.
    pub fn presence_record(&self, socket_id: &str, channel: &str) -> (r: Option<(String, String)>)
        requires
            self.inv(),
        ensures
            match r {
                Option::Some(p) => self.spec_presence_record(socket_id@, channel@, p.0@),
                Option::None => forall|u: Seq<char>|
                    !self.spec_presence_record(socket_id@, channel@, u),
            },
    {
        self.namespace.get_presence_record(socket_id, channel)
    }

    /// The presence roster of a channel: each member's user id and info.
    pub fn presence_members(&self, channel: &str) -> (r: Vec<(String, String)>)
        requires
            self.inv(),
        ensures
            r@.len() == self.spec_presence_count(channel@),
            forall|i: int|
                0 <= i < r@.len() ==> self.spec_has_presence_member(channel@, #[trigger] r@[i].0@),
            forall|i: int, j: int| 0 <= i < j < r@.len() ==> r@[i].0@ != r@[j].0@,
            forall|u: Seq<char>|
                #[trigger] self.spec_has_presence_member(channel@, u) ==> exists|i: int|
                    0 <= i < r@.len() && r@[i].0@ == u,
    {
        self.presence.get_members(channel)
    }

    /// Every channel on this node with its member count: each listed entry
    /// is live, and every occupied channel is listed.
    pub fn channels_with_counts(&self) -> (r: Vec<(String, usize)>)
        requires
            self.inv(),
        ensures
            forall|i: int|
                0 <= i < r@.len() ==> #[trigger] r@[i].1 == self.spec_channel_count(r@[i].0@)
                    && r@[i].1 > 0,
            forall|i: int, j: int| 0 <= i < j < r@.len() ==> r@[i].0@ != r@[j].0@,
            forall|c: Seq<char>|
                #[trigger] self.spec_channel_count(c) > 0 ==> exists|i: int|
                    0 <= i < r@.len() && r@[i].0@ == c,
    {
        let r = self.namespace.get_channels_with_counts();
        proof {
            assert forall|i: int|
                0 <= i < r@.len() implies #[trigger] r@[i].1 == self.spec_channel_count(r@[i].0@)
                && r@[i].1 > 0 by {
                assert(self.namespace.spec_has_channel(r@[i].0@));
                self.namespace.lemma_has_channel_nonempty(r@[i].0@);
            }
            assert forall|c: Seq<char>|
                #[trigger] self.spec_channel_count(c) > 0 implies exists|i: int|
                0 <= i < r@.len() && r@[i].0@ == c by {
                self.namespace.lemma_count_implies_channel(c);
                assert(self.namespace.spec_has_channel(c));
            }
        }
        r
    }

    /// The sockets one local broadcast writes to: every member of the
    /// channel but the excluded sender, each exactly once.
    pub fn broadcast_targets(&self, channel: &str, except: Option<&str>) -> (r: Vec<SocketId>)
        requires
            self.inv(),
        ensures
            forall|i: int, j: int| 0 <= i < j < r@.len() ==> r@[i]@ != r@[j]@,
            forall|i: int|
                0 <= i < r@.len() ==> self.spec_is_member(channel@, #[trigger] r@[i]@) && (
                match except {
                    Option::None => true,
                    Option::Some(e) => r@[i]@ != e@,
                }),
            forall|s: Seq<char>|
                #[trigger] self.spec_is_member(channel@, s) && (match except {
                    Option::None => true,
                    Option::Some(e) => s != e@,
                }) ==> exists|i: int| 0 <= i < r@.len() && r@[i]@ == s,
    {
        let r = crate::adapter::broadcast_targets(&self.namespace, channel, except);
        proof {
            assert forall|s: Seq<char>|
                #[trigger] self.spec_is_member(channel@, s) && (match except {
                    Option::None => true,
                    Option::Some(e) => s != e@,
                }) implies exists|i: int| 0 <= i < r@.len() && r@[i]@ == s by {
                assert(crate::adapter::spec_receives(
                    self.namespace,
                    channel@,
                    crate::adapter::opt_view(except),
                    s,
                ));
            }
        }
        r
    }

    /// Bidirectional consistency of the namespace, exposed at the manager:
    /// a socket is listed under a channel exactly when the channel is
    /// listed on the socket.
    pub proof fn lemma_bidirectional_consistency(self, ch: Seq<char>, sid: Seq<char>)
        requires
            self.inv(),
        ensures
            self.spec_is_member(ch, sid) <==> (self.spec_has_socket(sid) && self.spec_subscribed(
                sid,
                ch,
            )),
    {
        self.namespace.lemma_bidirectional_consistency(ch, sid);
    }

    /// Occupied/vacated discipline: in every reachable state the emitted
    /// `channel_occupied` and `channel_vacated` events alternate per
    /// channel, and their balance matches whether the channel holds
    /// sockets now.
    pub proof fn lemma_occupancy_events(self, ch: Seq<char>)
        requires
            self.inv(),
        ensures
            occ_ok(self.spec_history(), ch),
            occ_balance(self.spec_history(), ch) == (if self.spec_channel_count(ch) > 0 {
                1int
            } else {
                0int
            }),
            forall|i: int|
                0 <= i <= self.spec_history().len() ==> 0 <= #[trigger] occ_balance(
                    self.spec_history().take(i),
                    ch,
                ) <= 1,
    {
        assert forall|i: int|
            0 <= i <= self.spec_history().len() implies 0 <= #[trigger] occ_balance(
            self.spec_history().take(i),
            ch,
        ) <= 1 by {
            lemma_occ_balance_bounded(self.spec_history(), ch, i);
        }
    }

    /// Member event discipline: every `member_added` for a `(channel,
    /// user)` pair is followed by exactly one `member_removed` before the
    /// pair can be added again, and the balance matches roster membership.
    pub proof fn lemma_membership_events(self, ch: Seq<char>, user: Seq<char>)
        requires
            self.inv(),
        ensures
            mem_ok(self.spec_history(), ch, user),
            mem_balance(self.spec_history(), ch, user) == (if self.spec_has_presence_member(
                ch,
                user,
            ) {
                1int
            } else {
                0int
            }),
            forall|i: int|
                0 <= i <= self.spec_history().len() ==> 0 <= #[trigger] mem_balance(
                    self.spec_history().take(i),
                    ch,
                    user,
                ) <= 1,
    {
        assert forall|i: int|
            0 <= i <= self.spec_history().len() implies 0 <= #[trigger] mem_balance(
            self.spec_history().take(i),
            ch,
            user,
        ) <= 1 by {
            lemma_mem_balance_bounded(self.spec_history(), ch, user, i);
        }
    }
}


/// The close codes the protocol assigns to refusals.
pub open spec fn spec_admit_close_code(e: AdmitError) -> u16 {
    match e {
        AdmitError::OverCapacity => 4004,
        AdmitError::DuplicateSocket => 4004,
    }
}

pub fn admit_close_code(e: AdmitError) -> (r: u16)
    ensures
        r == spec_admit_close_code(e),
{
    match e {
        AdmitError::OverCapacity => 4004,
        AdmitError::DuplicateSocket => 4004,
    }
}

/// The error codes carried in `pusher:error` frames on a refused
/// subscribe; only the failed token mandates one by the protocol.
pub open spec fn spec_subscribe_error_code(e: SubscribeError) -> u16 {
    match e {
        SubscribeError::AuthenticationFailed => 4009,
        _ => 4301,
    }
}

pub fn subscribe_error_code(e: SubscribeError) -> (r: u16)
    ensures
        r == spec_subscribe_error_code(e),
{
    match e {
        SubscribeError::AuthenticationFailed => 4009,
        _ => 4301,
    }
}

/// Resolve the app a handshake names: close 4001 when no app holds the
/// key, 4003 when the app is disabled.
pub fn resolve_app<'a>(registry: &'a AppRegistry, app_key: &str) -> (r: Result<&'a App, u16>)
    ensures
        match r {
            Result::Ok(a) => registry.spec_has_key(app_key@) && a.key@ == app_key@ && a.enabled,
            Result::Err(code) => (code == 4001 && !registry.spec_has_key(app_key@)) || (code
                == 4003 && registry.spec_has_key(app_key@)),
        },
{
    match registry.find_by_key(app_key) {
        Option::None => Result::Err(4001),
        Option::Some(app) => {
            if app.enabled {
                Result::Ok(app)
            } else {
                Result::Err(4003)
            }
        },
    }
}

} // verus!
