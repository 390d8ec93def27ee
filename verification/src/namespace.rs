//! Per-app, per-node authoritative state: the connections, the index from
//! channel name to member sockets, and the index from user id to sockets.
//!
//! Well-formedness carries the bidirectional consistency invariant: a socket
//! stands in a channel's member list exactly when that channel stands in the
//! socket's own subscription list.

use vstd::prelude::*;
use crate::connection::{ConnectionState, PresenceData, SocketId};
use crate::text::str_eq;

verus! {

/// One channel's member list; entries exist only while non-empty.
#[derive(Debug)]
pub struct ChannelEntry {
    pub name: String,
    pub members: Vec<SocketId>,
}

/// The sockets a signed-in user holds.
#[derive(Debug)]
pub struct UserEntry {
    pub user_id: String,
    pub sockets: Vec<SocketId>,
}

pub open spec fn distinct_sids(s: Seq<SocketId>) -> bool {
    forall|i: int, j: int| 0 <= i < j < s.len() ==> s[i]@ != s[j]@
}

pub open spec fn entry_has_sid(e: ChannelEntry, sid: Seq<char>) -> bool {
    exists|mi: int| 0 <= mi < e.members@.len() && e.members@[mi]@ == sid
}

pub open spec fn user_entry_has_sid(e: UserEntry, sid: Seq<char>) -> bool {
    exists|mi: int| 0 <= mi < e.sockets@.len() && e.sockets@[mi]@ == sid
}

/// A presence entry for this channel and user stands in the sequence.
pub open spec fn pres_has(s: Seq<PresenceData>, ch: Seq<char>, user: Seq<char>) -> bool {
    exists|k: int| 0 <= k < s.len() && s[k].channel@ == ch && s[k].user_id@ == user
}

fn find_sid(v: &Vec<SocketId>, sid: &str) -> (r: Option<usize>)
    ensures
        match r {
            Option::Some(i) => i < v@.len() && v@[i as int]@ == sid@,
            Option::None => forall|i: int| 0 <= i < v@.len() ==> v@[i]@ != sid@,
        },
{
    let n = v.len();
    let mut i: usize = 0;
    while i < n
        invariant
            i <= n,
            n == v@.len(),
            forall|j: int| 0 <= j < i ==> v@[j]@ != sid@,
        decreases n - i,
    {
        if str_eq(v[i].as_str(), sid) {
            return Option::Some(i);
        }
        i += 1;
    }
    Option::None
}


/// Drain the presence list, keeping only the entries of other channels.
fn presence_without_channel(entries: &mut Vec<PresenceData>, channel: &str) -> (r: Vec<
    PresenceData,
>)
    ensures
        final(entries)@.len() == 0,
        forall|c: Seq<char>, u: Seq<char>|
            #[trigger] pres_has(r@, c, u) == (pres_has(old(entries)@, c, u) && c != channel@),
{
    let ghost orig = entries@;
    let mut kept: Vec<PresenceData> = Vec::new();
    proof {
        assert(orig.skip(orig.len() as int) =~= Seq::<PresenceData>::empty());
        assert(entries@ =~= orig.subrange(0, entries@.len() as int));
        assert forall|c: Seq<char>, u: Seq<char>| #[trigger]
            pres_has(kept@, c, u) == (pres_has(orig.skip(entries@.len() as int), c, u) && c
                != channel@) by {}
    }
    while entries.len() > 0
        invariant
            entries@.len() <= orig.len(),
            entries@ == orig.subrange(0, entries@.len() as int),
            forall|c: Seq<char>, u: Seq<char>|
                #[trigger] pres_has(kept@, c, u) == (pres_has(
                    orig.skip(entries@.len() as int),
                    c,
                    u,
                ) && c != channel@),
        decreases entries@.len(),
    {
        let ghost rem = entries@.len() as int;
        let e = match entries.pop() {
            Option::Some(e) => e,
            Option::None => {
                proof {
                    assert(false);
                }
                return kept;
            },
        };
        proof {
            assert(entries@ =~= orig.subrange(0, rem - 1));
            assert(e == orig[rem - 1]);
            assert(orig.skip(rem - 1) =~= seq![orig[rem - 1]] + orig.skip(rem));
        }
        let ghost kept_pre = kept@;
        let keep = !str_eq(e.channel.as_str(), channel);
        let ghost ev = e;
        if keep {
            kept.push(e);
        }
        proof {
            let tail = orig.skip(rem);
            let shifted = orig.skip(rem - 1);
            assert forall|c: Seq<char>, u: Seq<char>| #[trigger]
                pres_has(kept@, c, u) == (pres_has(shifted, c, u) && c != channel@) by {
                // one direction: a kept entry is the drained one or was there
                if pres_has(kept@, c, u) {
                    let k = choose|k: int|
                        0 <= k < kept@.len() && kept@[k].channel@ == c && kept@[k].user_id@ == u;
                    if keep && k == kept@.len() - 1 {
                        assert(kept@[k] == ev);
                        assert(shifted[0] == ev);
                        assert(pres_has(shifted, c, u));
                        assert(c != channel@);
                    } else {
                        assert(kept@[k] == kept_pre[k]);
                        assert(pres_has(kept_pre, c, u));
                        let k2 = choose|k2: int|
                            0 <= k2 < tail.len() && tail[k2].channel@ == c && tail[k2].user_id@
                                == u;
                        assert(shifted[k2 + 1] == tail[k2]);
                        assert(pres_has(shifted, c, u));
                    }
                }
                // the other: every surviving record is kept
                if pres_has(shifted, c, u) && c != channel@ {
                    let k = choose|k: int|
                        0 <= k < shifted.len() && shifted[k].channel@ == c && shifted[k].user_id@
                            == u;
                    if k == 0 {
                        assert(shifted[0] == ev);
                        assert(keep);
                        assert(kept@[kept@.len() - 1] == ev);
                        assert(pres_has(kept@, c, u));
                    } else {
                        assert(tail[k - 1] == shifted[k]);
                        assert(pres_has(tail, c, u));
                        assert(pres_has(kept_pre, c, u));
                        let k3 = choose|k3: int|
                            0 <= k3 < kept_pre.len() && kept_pre[k3].channel@ == c
                                && kept_pre[k3].user_id@ == u;
                        assert(kept@[k3] == kept_pre[k3]);
                        assert(pres_has(kept@, c, u));
                    }
                }
            }
        }
    }
    proof {
        assert(orig.skip(0) =~= orig);
    }
    kept
}

/// In-memory authoritative state for one app on one node.
pub struct Namespace {
    sockets: Vec<ConnectionState>,
    channels: Vec<ChannelEntry>,
    users: Vec<UserEntry>,
}

impl Namespace {
    pub closed spec fn spec_has_socket(self, sid: Seq<char>) -> bool {
        exists|si: int| 0 <= si < self.sockets@.len() && self.sockets@[si].socket_id@ == sid
    }

    pub closed spec fn spec_socket_index(self, sid: Seq<char>) -> int {
        choose|si: int| 0 <= si < self.sockets@.len() && self.sockets@[si].socket_id@ == sid
    }

    /// The stored connection of a socket (meaningful under `spec_has_socket`).
    pub closed spec fn spec_socket(self, sid: Seq<char>) -> ConnectionState {
        self.sockets@[self.spec_socket_index(sid)]
    }

    pub closed spec fn spec_socket_count(self) -> nat {
        self.sockets@.len()
    }

    pub closed spec fn spec_has_channel(self, ch: Seq<char>) -> bool {
        exists|ci: int| 0 <= ci < self.channels@.len() && self.channels@[ci].name@ == ch
    }

    pub closed spec fn spec_channel_index(self, ch: Seq<char>) -> int {
        choose|ci: int| 0 <= ci < self.channels@.len() && self.channels@[ci].name@ == ch
    }

    /// How many sockets a channel holds; zero when it has no entry.
    pub closed spec fn spec_channel_count(self, ch: Seq<char>) -> nat {
        if self.spec_has_channel(ch) {
            self.channels@[self.spec_channel_index(ch)].members@.len()
        } else {
            0
        }
    }

    /// The socket stands in the channel's member list.
    pub closed spec fn spec_is_member(self, ch: Seq<char>, sid: Seq<char>) -> bool {
        exists|ci: int|
            0 <= ci < self.channels@.len() && self.channels@[ci].name@ == ch && entry_has_sid(
                self.channels@[ci],
                sid,
            )
    }

    /// The channel stands in the socket's own subscription list.
    pub closed spec fn spec_subscribed(self, sid: Seq<char>, ch: Seq<char>) -> bool {
        exists|si: int|
            0 <= si < self.sockets@.len() && self.sockets@[si].socket_id@ == sid
                && self.sockets@[si].spec_subscribed(ch)
    }

    /// The stored connection of `sid` carries presence data for `ch` with
    /// this user id.
    pub closed spec fn spec_presence_record(
        self,
        sid: Seq<char>,
        ch: Seq<char>,
        user: Seq<char>,
    ) -> bool {
        exists|si: int|
            0 <= si < self.sockets@.len() && self.sockets@[si].socket_id@ == sid && pres_has(
                self.sockets@[si].presence@,
                ch,
                user,
            )
    }

    pub closed spec fn spec_user_socket(self, user: Seq<char>, sid: Seq<char>) -> bool {
        exists|ui: int|
            0 <= ui < self.users@.len() && self.users@[ui].user_id@ == user && user_entry_has_sid(
                self.users@[ui],
                sid,
            )
    }

    spec fn member_backed(self, ci: int, mi: int) -> bool {
        exists|si: int|
            0 <= si < self.sockets@.len() && self.sockets@[si].socket_id@
                == self.channels@[ci].members@[mi]@ && self.sockets@[si].spec_subscribed(
                self.channels@[ci].name@,
            )
    }

    spec fn sub_backed(self, si: int, k: int) -> bool {
        self.spec_is_member(
            self.sockets@[si].subscribed_channels@[k]@,
            self.sockets@[si].socket_id@,
        )
    }

    pub closed spec fn wf(self) -> bool {
        &&& forall|i: int, j: int|
            0 <= i < j < self.sockets@.len() ==> self.sockets@[i].socket_id@
                != self.sockets@[j].socket_id@
        &&& forall|i: int| 0 <= i < self.sockets@.len() ==> (#[trigger] self.sockets@[i]).wf()
        &&& forall|i: int, j: int|
            0 <= i < j < self.channels@.len() ==> self.channels@[i].name@
                != self.channels@[j].name@
        &&& forall|i: int|
            0 <= i < self.channels@.len() ==> (#[trigger] self.channels@[i]).members@.len() > 0
                && distinct_sids(self.channels@[i].members@)
        &&& forall|ci: int, mi: int|
            0 <= ci < self.channels@.len() && 0 <= mi < self.channels@[ci].members@.len()
                ==> #[trigger] self.member_backed(ci, mi)
        &&& forall|si: int, k: int|
            0 <= si < self.sockets@.len() && 0 <= k
                < self.sockets@[si].subscribed_channels@.len() ==> #[trigger] self.sub_backed(
                si,
                k,
            )
        &&& forall|i: int, j: int|
            0 <= i < j < self.users@.len() ==> self.users@[i].user_id@ != self.users@[j].user_id@
        &&& forall|i: int|
            0 <= i < self.users@.len() ==> distinct_sids(
                (#[trigger] self.users@[i]).sockets@,
            ) && self.users@[i].sockets@.len() > 0
    }

    pub fn new() -> (r: Namespace)
        ensures
            r.wf(),
            r.spec_socket_count() == 0,
            forall|sid: Seq<char>| !r.spec_has_socket(sid),
            forall|ch: Seq<char>, sid: Seq<char>| !r.spec_is_member(ch, sid),
            forall|ch: Seq<char>| r.spec_channel_count(ch) == 0,
            forall|u: Seq<char>, sid: Seq<char>| !r.spec_user_socket(u, sid),
    {
        Namespace { sockets: Vec::new(), channels: Vec::new(), users: Vec::new() }
    }

    /// Bidirectional consistency: a socket is listed under a channel exactly
    /// when that channel is listed on the socket.
    pub proof fn lemma_bidirectional_consistency(self, ch: Seq<char>, sid: Seq<char>)
        requires
            self.wf(),
        ensures
            self.spec_is_member(ch, sid) <==> (self.spec_has_socket(sid) && self.spec_subscribed(
                sid,
                ch,
            )),
    {
        if self.spec_is_member(ch, sid) {
            let ci = choose|ci: int|
                0 <= ci < self.channels@.len() && self.channels@[ci].name@ == ch && entry_has_sid(
                    self.channels@[ci],
                    sid,
                );
            let mi = choose|mi: int|
                0 <= mi < self.channels@[ci].members@.len() && self.channels@[ci].members@[mi]@
                    == sid;
            assert(self.member_backed(ci, mi));
        }
        if self.spec_has_socket(sid) && self.spec_subscribed(sid, ch) {
            let si = choose|si: int|
                0 <= si < self.sockets@.len() && self.sockets@[si].socket_id@ == sid
                    && self.sockets@[si].spec_subscribed(ch);
            let k = choose|k: int|
                0 <= k < self.sockets@[si].subscribed_channels@.len()
                    && self.sockets@[si].subscribed_channels@[k]@ == ch;
            assert(self.sub_backed(si, k));
        }
    }

    fn find_socket_index(&self, sid: &str) -> (r: Option<usize>)
        ensures
            match r {
                Option::Some(i) => i < self.sockets@.len() && self.sockets@[i as int].socket_id@
                    == sid@,
                Option::None => !self.spec_has_socket(sid@),
            },
    {
        let n = self.sockets.len();
        let mut i: usize = 0;
        while i < n
            invariant
                i <= n,
                n == self.sockets@.len(),
                forall|j: int| 0 <= j < i ==> self.sockets@[j].socket_id@ != sid@,
            decreases n - i,
        {
            if str_eq(self.sockets[i].socket_id.as_str(), sid) {
                return Option::Some(i);
            }
            i += 1;
        }
        Option::None
    }

    fn find_channel_index(&self, ch: &str) -> (r: Option<usize>)
        ensures
            match r {
                Option::Some(i) => i < self.channels@.len() && self.channels@[i as int].name@
                    == ch@,
                Option::None => !self.spec_has_channel(ch@),
            },
    {
        let n = self.channels.len();
        let mut i: usize = 0;
        while i < n
            invariant
                i <= n,
                n == self.channels@.len(),
                forall|j: int| 0 <= j < i ==> self.channels@[j].name@ != ch@,
            decreases n - i,
        {
            if str_eq(self.channels[i].name.as_str(), ch) {
                return Option::Some(i);
            }
            i += 1;
        }
        Option::None
    }

    pub fn socket_count(&self) -> (r: usize)
        ensures
            r == self.spec_socket_count(),
    {
        self.sockets.len()
    }

    pub fn has_socket(&self, sid: &str) -> (r: bool)
        ensures
            r == self.spec_has_socket(sid@),
    {
        match self.find_socket_index(sid) {
            Option::Some(_) => true,
            Option::None => false,
        }
    }

    pub fn channel_count(&self, ch: &str) -> (r: usize)
        requires
            self.wf(),
        ensures
            r == self.spec_channel_count(ch@),
    {
        match self.find_channel_index(ch) {
            Option::Some(i) => {
                proof {
                    self.lemma_channel_index_unique(ch@, i as int);
                }
                self.channels[i].members.len()
            },
            Option::None => 0,
        }
    }

    /// Under distinct names, any index whose entry matches `ch` is the one
    /// `spec_channel_index` picks.
    proof fn lemma_channel_index_unique(self, ch: Seq<char>, ci: int)
        requires
            self.wf(),
            0 <= ci < self.channels@.len(),
            self.channels@[ci].name@ == ch,
        ensures
            self.spec_has_channel(ch),
            self.spec_channel_index(ch) == ci,
    {
        let cj = self.spec_channel_index(ch);
        if cj != ci {
            if cj < ci {
                assert(self.channels@[cj].name@ != self.channels@[ci].name@);
            } else {
                assert(self.channels@[ci].name@ != self.channels@[cj].name@);
            }
        }
    }

    proof fn lemma_socket_index_unique(self, sid: Seq<char>, si: int)
        requires
            self.wf(),
            0 <= si < self.sockets@.len(),
            self.sockets@[si].socket_id@ == sid,
        ensures
            self.spec_has_socket(sid),
            self.spec_socket_index(sid) == si,
    {
        let sj = self.spec_socket_index(sid);
        if sj != si {
            if sj < si {
                assert(self.sockets@[sj].socket_id@ != self.sockets@[si].socket_id@);
            } else {
                assert(self.sockets@[si].socket_id@ != self.sockets@[sj].socket_id@);
            }
        }
    }

    /// Admit a fresh connection; refused when its socket id is taken.
    pub fn add_socket(&mut self, conn: ConnectionState) -> (r: bool)
        requires
            old(self).wf(),
            conn.wf(),
            conn.spec_channel_count() == 0,
        ensures
            final(self).wf(),
            r == !old(self).spec_has_socket(conn.socket_id@),
            !r ==> *final(self) == *old(self),
            forall|sid: Seq<char>|
                #[trigger] final(self).spec_has_socket(sid) == (old(self).spec_has_socket(sid) || (
                r && sid == conn.socket_id@)),
            final(self).spec_socket_count() == old(self).spec_socket_count() + (
            if r {
                1int
            } else {
                0int
            }),
            forall|c: Seq<char>, s: Seq<char>|
                #[trigger] final(self).spec_is_member(c, s) == old(self).spec_is_member(c, s),
            forall|c: Seq<char>| #[trigger]
                final(self).spec_channel_count(c) == old(self).spec_channel_count(c),
            forall|u: Seq<char>, s: Seq<char>|
                #[trigger] final(self).spec_user_socket(u, s) == old(self).spec_user_socket(u, s),
    {
        match self.find_socket_index(conn.socket_id.as_str()) {
            Option::Some(i) => {
                proof {
                    assert(self.sockets@[i as int].socket_id@ == conn.socket_id@);
                }
                false
            },
            Option::None => {
                let ghost pre = *self;
                self.sockets.push(conn);
                proof {
                    let posts = self.sockets@;
                    assert(posts.drop_last() =~= pre.sockets@);
                    assert forall|sid: Seq<char>| #[trigger]
                        self.spec_has_socket(sid) == (pre.spec_has_socket(sid) || sid
                            == conn.socket_id@)
                    by {
                        if sid == conn.socket_id@ {
                            assert(posts[posts.len() - 1].socket_id@ == sid);
                        }
                        if self.spec_has_socket(sid) {
                            let si = choose|si: int|
                                0 <= si < posts.len() && posts[si].socket_id@ == sid;
                            if si < pre.sockets@.len() {
                                assert(pre.sockets@[si].socket_id@ == sid);
                            }
                        } else {
                            if pre.spec_has_socket(sid) {
                                let si = choose|si: int|
                                    0 <= si < pre.sockets@.len() && pre.sockets@[si].socket_id@
                                        == sid;
                                assert(posts[si].socket_id@ == sid);
                            }
                        }
                    }
                    assert forall|c: Seq<char>, s: Seq<char>| #[trigger]
                        self.spec_is_member(c, s) == pre.spec_is_member(c, s)
                    by {
                        assert(self.channels@ =~= pre.channels@);
                    }
                    assert forall|c: Seq<char>| #[trigger]
                        self.spec_channel_count(c) == pre.spec_channel_count(c)
                    by {
                        assert(self.channels@ =~= pre.channels@);
                    }
                    assert forall|u: Seq<char>, s: Seq<char>| #[trigger]
                        self.spec_user_socket(u, s) == pre.spec_user_socket(u, s)
                    by {
                        assert(self.users@ =~= pre.users@);
                    }
                    assert forall|ci: int, mi: int|
                        0 <= ci < self.channels@.len() && 0 <= mi
                            < self.channels@[ci].members@.len() implies #[trigger] self.member_backed(
                        ci,
                        mi,
                    ) by {
                        assert(pre.member_backed(ci, mi));
                        let si = choose|si: int|
                            0 <= si < pre.sockets@.len() && pre.sockets@[si].socket_id@
                                == pre.channels@[ci].members@[mi]@ && pre.sockets@[si].spec_subscribed(
                                pre.channels@[ci].name@,
                            );
                        assert(posts[si].socket_id@ == self.channels@[ci].members@[mi]@);
                        assert(posts[si].spec_subscribed(self.channels@[ci].name@));
                    }
                    assert forall|si: int, k: int|
                        0 <= si < self.sockets@.len() && 0 <= k
                            < self.sockets@[si].subscribed_channels@.len() implies #[trigger] self.sub_backed(
                        si,
                        k,
                    ) by {
                        if si < pre.sockets@.len() {
                            assert(pre.sub_backed(si, k));
                            let ch = pre.sockets@[si].subscribed_channels@[k]@;
                            let sid = pre.sockets@[si].socket_id@;
                            let ci = choose|ci: int|
                                0 <= ci < pre.channels@.len() && pre.channels@[ci].name@ == ch
                                    && entry_has_sid(pre.channels@[ci], sid);
                            assert(self.channels@[ci].name@ == ch && entry_has_sid(
                                self.channels@[ci],
                                sid,
                            ));
                        } else {
                            assert(self.sockets@[si] == conn);
                            assert(conn.subscribed_channels@.len() == 0);
                        }
                    }
                }
                true
            },
        }
    }

    /// Subscribe a known socket to a channel; the first member creates the
    /// channel entry. Returns the member count after the call, or `None`
    /// when the socket is unknown.
    pub fn add_to_channel(&mut self, socket_id: &str, channel: &str) -> (r: Option<usize>)
        requires
            old(self).wf(),
        ensures
            final(self).wf(),
            match r {
                Option::Some(n) => {
                    &&& old(self).spec_has_socket(socket_id@)
                    &&& n == final(self).spec_channel_count(channel@)
                    &&& final(self).spec_channel_count(channel@) == old(self).spec_channel_count(
                        channel@,
                    ) + (if old(self).spec_is_member(channel@, socket_id@) {
                        0int
                    } else {
                        1int
                    })
                },
                Option::None => !old(self).spec_has_socket(socket_id@) && *final(self) == *old(
                    self,
                ),
            },
            r is Some ==> forall|c: Seq<char>, s: Seq<char>|
                #[trigger] final(self).spec_is_member(c, s) == (old(self).spec_is_member(c, s)
                    || (c == channel@ && s == socket_id@)),
            r is Some ==> forall|s: Seq<char>, c: Seq<char>|
                #[trigger] final(self).spec_subscribed(s, c) == (old(self).spec_subscribed(s, c)
                    || (s == socket_id@ && c == channel@)),
            forall|c: Seq<char>|
                c != channel@ ==> #[trigger] final(self).spec_channel_count(c) == old(
                    self,
                ).spec_channel_count(c),
            forall|s: Seq<char>|
                #[trigger] final(self).spec_has_socket(s) == old(self).spec_has_socket(s),
            final(self).spec_socket_count() == old(self).spec_socket_count(),
            forall|u: Seq<char>, s: Seq<char>|
                #[trigger] final(self).spec_user_socket(u, s) == old(self).spec_user_socket(u, s),
    {
        let si = match self.find_socket_index(socket_id) {
            Option::None => {
                return Option::None;
            },
            Option::Some(si) => si,
        };
        let ghost pre = *self;
        proof {
            pre.lemma_socket_index_unique(socket_id@, si as int);
        }
        let mut conn = self.sockets.remove(si);
        conn.add_subscription(String::from_str(channel));
        let ghost conn2 = conn;
        self.sockets.insert(si, conn);
        proof {
            assert(self.sockets@ =~= pre.sockets@.update(si as int, conn2));
            assert(conn2.socket_id@ == socket_id@);
        }
        let count: usize;
        match self.find_channel_index(channel) {
            Option::Some(ci) => {
                proof {
                    pre.lemma_channel_index_unique(channel@, ci as int);
                }
                let mut e = self.channels.remove(ci);
                let already: bool;
                match find_sid(&e.members, socket_id) {
                    Option::Some(mi) => {
                        proof {
                            assert(e.members@[mi as int]@ == socket_id@);
                        }
                        already = true;
                    },
                    Option::None => {
                        already = false;
                    },
                }
                proof {
                    assert(already == entry_has_sid(pre.channels@[ci as int], socket_id@));
                    if already {
                        assert(pre.spec_is_member(channel@, socket_id@));
                    } else {
                        if pre.spec_is_member(channel@, socket_id@) {
                            let cj = choose|cj: int|
                                0 <= cj < pre.channels@.len() && pre.channels@[cj].name@
                                    == channel@ && entry_has_sid(pre.channels@[cj], socket_id@);
                            pre.lemma_channel_index_unique(channel@, cj);
                        }
                    }
                }
                if !already {
                    e.members.push(SocketId(String::from_str(socket_id)));
                }
                count = e.members.len();
                let ghost e2 = e;
                self.channels.insert(ci, e);
                proof {
                    assert(self.channels@ =~= pre.channels@.update(ci as int, e2));
                    assert(e2.name@ == channel@);
                    if !already {
                        assert(e2.members@.drop_last() =~= pre.channels@[ci as int].members@);
                        assert(e2.members@.last()@ == socket_id@);
                    }
                    self.lemma_after_subscribe(
                        pre,
                        conn2,
                        si as int,
                        ci as int,
                        false,
                        channel@,
                        socket_id@,
                    );
                }
            },
            Option::None => {
                proof {
                    if pre.spec_is_member(channel@, socket_id@) {
                        let cj = choose|cj: int|
                            0 <= cj < pre.channels@.len() && pre.channels@[cj].name@ == channel@
                                && entry_has_sid(pre.channels@[cj], socket_id@);
                        assert(pre.spec_has_channel(channel@));
                    }
                }
                let mut members: Vec<SocketId> = Vec::new();
                members.push(SocketId(String::from_str(socket_id)));
                let e = ChannelEntry { name: String::from_str(channel), members };
                count = 1;
                self.channels.push(e);
                proof {
                    assert(self.channels@.drop_last() =~= pre.channels@);
                    assert(self.channels@.last().name@ == channel@);
                    assert(self.channels@.last().members@.len() == 1);
                    assert(self.channels@.last().members@[0]@ == socket_id@);
                    self.lemma_after_subscribe(
                        pre,
                        conn2,
                        si as int,
                        pre.channels@.len() as int,
                        true,
                        channel@,
                        socket_id@,
                    );
                }
            },
        }
        Option::Some(count)
    }

    /// After `add_to_channel` has updated the socket at `si` and the channel
    /// list, the invariant holds again and membership changed only at
    /// `(ch, sid)`.
    proof fn lemma_after_subscribe(
        self,
        pre: Namespace,
        conn2: ConnectionState,
        si: int,
        ci0: int,
        fresh: bool,
        ch: Seq<char>,
        sid: Seq<char>,
    )
        requires
            pre.wf(),
            0 <= si < pre.sockets@.len(),
            pre.sockets@[si].socket_id@ == sid,
            conn2.wf(),
            conn2.socket_id@ == sid,
            forall|c: Seq<char>|
                #[trigger] conn2.spec_subscribed(c) == (pre.sockets@[si].spec_subscribed(c) || c
                    == ch),
            self.sockets@ == pre.sockets@.update(si, conn2),
            self.users@ == pre.users@,
            // the channel list changed in one of the two admissible ways:
            // a fresh entry was appended, or entry ci0 was updated in place
            fresh ==> self.channels@.len() == pre.channels@.len() + 1
                && self.channels@.drop_last() == pre.channels@ && self.channels@.last().name@
                == ch && self.channels@.last().members@.len() == 1
                && self.channels@.last().members@[0]@ == sid && !pre.spec_has_channel(ch) && ci0
                == pre.channels@.len(),
            !fresh ==> 0 <= ci0 < pre.channels@.len() && pre.channels@[ci0].name@ == ch
                && self.channels@ == pre.channels@.update(ci0, self.channels@[ci0])
                && self.channels@[ci0].name@ == ch && ((self.channels@[ci0]
                == pre.channels@[ci0] && entry_has_sid(pre.channels@[ci0], sid)) || (
            self.channels@[ci0].members@.len() == pre.channels@[ci0].members@.len() + 1
                && self.channels@[ci0].members@.drop_last() == pre.channels@[ci0].members@
                && self.channels@[ci0].members@.last()@ == sid && !entry_has_sid(
                pre.channels@[ci0],
                sid,
            ))),
        ensures
            self.wf(),
            forall|s: Seq<char>| #[trigger] self.spec_has_socket(s) == pre.spec_has_socket(s),
            self.spec_socket_count() == pre.spec_socket_count(),
            forall|s: Seq<char>, c: Seq<char>|
                #[trigger] self.spec_subscribed(s, c) == (pre.spec_subscribed(s, c) || (s == sid
                    && c == ch)),
            forall|c: Seq<char>, s: Seq<char>|
                #[trigger] self.spec_is_member(c, s) == (pre.spec_is_member(c, s) || (c == ch && s
                    == sid)),
            self.spec_channel_count(ch) == pre.spec_channel_count(ch) + (
            if pre.spec_is_member(ch, sid) {
                0int
            } else {
                1int
            }),
            forall|c: Seq<char>|
                c != ch ==> #[trigger] self.spec_channel_count(c) == pre.spec_channel_count(c),
            forall|u: Seq<char>, s: Seq<char>|
                #[trigger] self.spec_user_socket(u, s) == pre.spec_user_socket(u, s),
    {
        assert forall|s: Seq<char>| #[trigger]
            self.spec_has_socket(s) == pre.spec_has_socket(s) by {
            if self.spec_has_socket(s) {
                let i = choose|i: int|
                    0 <= i < self.sockets@.len() && self.sockets@[i].socket_id@ == s;
                assert(pre.sockets@[i].socket_id@ == s);
            }
            if pre.spec_has_socket(s) {
                let i = choose|i: int|
                    0 <= i < pre.sockets@.len() && pre.sockets@[i].socket_id@ == s;
                assert(self.sockets@[i].socket_id@ == s);
            }
        }
        assert forall|s: Seq<char>, c: Seq<char>| #[trigger]
            self.spec_subscribed(s, c) == (pre.spec_subscribed(s, c) || (s == sid && c == ch)) by {
            if self.spec_subscribed(s, c) {
                let i = choose|i: int|
                    0 <= i < self.sockets@.len() && self.sockets@[i].socket_id@ == s
                        && self.sockets@[i].spec_subscribed(c);
                if i != si {
                    assert(pre.sockets@[i].spec_subscribed(c));
                } else {
                    assert(s == sid);
                    if c != ch {
                        assert(pre.sockets@[si].spec_subscribed(c));
                    }
                }
            }
            if pre.spec_subscribed(s, c) {
                let i = choose|i: int|
                    0 <= i < pre.sockets@.len() && pre.sockets@[i].socket_id@ == s
                        && pre.sockets@[i].spec_subscribed(c);
                if i != si {
                    assert(self.sockets@[i].spec_subscribed(c));
                } else {
                    assert(conn2.spec_subscribed(c));
                    assert(self.sockets@[i].spec_subscribed(c));
                }
            }
            if s == sid && c == ch {
                assert(conn2.spec_subscribed(c));
                assert(self.sockets@[si].socket_id@ == s && self.sockets@[si].spec_subscribed(c));
            }
        }
        // the two shapes of the channel list are handled together below
        if fresh {
            assert forall|i: int| 0 <= i < pre.channels@.len() implies self.channels@[i]
                == pre.channels@[i] by {
                assert(self.channels@.drop_last()[i] == pre.channels@[i]);
            }
        }
        assert(0 <= ci0 < self.channels@.len());
        assert(self.channels@[ci0].name@ == ch);
        assert forall|i: int|
            0 <= i < self.channels@.len() && i != ci0 implies self.channels@[i]
            == pre.channels@[i] by {}
        // names stay distinct
        assert forall|i: int, j: int|
            0 <= i < j < self.channels@.len() implies self.channels@[i].name@
            != self.channels@[j].name@ by {
            if fresh && j == ci0 {
                assert(self.channels@[i].name@ != ch) by {
                    if self.channels@[i].name@ == ch {
                        assert(pre.spec_has_channel(ch));
                    }
                }
            }
        }
        // membership changed exactly at (ch, sid)
        assert(entry_has_sid(self.channels@[ci0], sid)) by {
            if fresh {
                assert(self.channels@[ci0] =~= self.channels@.last());
                assert(self.channels@[ci0].members@[0]@ == sid);
                assert(0 < self.channels@[ci0].members@.len());
            } else {
                if self.channels@[ci0] == pre.channels@[ci0] {
                    assert(entry_has_sid(pre.channels@[ci0], sid));
                } else {
                    let last = self.channels@[ci0].members@.len() - 1;
                    assert(self.channels@[ci0].members@.len() == pre.channels@[
                        ci0].members@.len() + 1);
                    assert(self.channels@[ci0].members@.last() == self.channels@[
                        ci0].members@[last]);
                    assert(self.channels@[ci0].members@[last]@ == sid);
                }
            }
        }
        assert forall|c: Seq<char>, s: Seq<char>| #[trigger]
            self.spec_is_member(c, s) == (pre.spec_is_member(c, s) || (c == ch && s == sid)) by {
            if self.spec_is_member(c, s) {
                let ci = choose|ci: int|
                    0 <= ci < self.channels@.len() && self.channels@[ci].name@ == c
                        && entry_has_sid(self.channels@[ci], s);
                let mi = choose|mi: int|
                    0 <= mi < self.channels@[ci].members@.len()
                        && self.channels@[ci].members@[mi]@ == s;
                if ci != ci0 {
                    assert(entry_has_sid(pre.channels@[ci], s));
                    assert(pre.spec_is_member(c, s));
                } else {
                    assert(c == ch);
                    if !fresh {
                        if self.channels@[ci0] == pre.channels@[ci0] {
                            assert(pre.spec_is_member(c, s));
                        } else {
                            if mi < pre.channels@[ci0].members@.len() {
                                assert(pre.channels@[ci0].members@[mi]@ == s);
                                assert(pre.spec_is_member(c, s));
                            } else {
                                assert(s == sid);
                            }
                        }
                    } else {
                        assert(s == sid);
                    }
                }
            }
            if pre.spec_is_member(c, s) {
                let ci = choose|ci: int|
                    0 <= ci < pre.channels@.len() && pre.channels@[ci].name@ == c && entry_has_sid(
                        pre.channels@[ci],
                        s,
                    );
                if ci == ci0 && !fresh {
                    let mi = choose|mi: int|
                        0 <= mi < pre.channels@[ci].members@.len()
                            && pre.channels@[ci].members@[mi]@ == s;
                    if self.channels@[ci0] == pre.channels@[ci0] {
                        assert(entry_has_sid(self.channels@[ci0], s));
                    } else {
                        assert(self.channels@[ci0].members@[mi]@ == s);
                        assert(entry_has_sid(self.channels@[ci0], s));
                    }
                    assert(self.spec_is_member(c, s));
                } else {
                    assert(self.channels@[ci] == pre.channels@[ci]);
                    assert(self.spec_is_member(c, s));
                }
            }
            if c == ch && s == sid {
                assert(self.spec_is_member(c, s));
            }
        }
        // counts
        self.lemma_channel_index_unique_pre(ci0, ch);
        assert(self.spec_channel_count(ch) == self.channels@[ci0].members@.len());
        if fresh {
            assert(!pre.spec_is_member(ch, sid)) by {
                if pre.spec_is_member(ch, sid) {
                    let ci = choose|ci: int|
                        0 <= ci < pre.channels@.len() && pre.channels@[ci].name@ == ch
                            && entry_has_sid(pre.channels@[ci], sid);
                    assert(pre.spec_has_channel(ch));
                }
            }
            assert(pre.spec_channel_count(ch) == 0);
        } else {
            pre.lemma_channel_index_unique_pre(ci0, ch);
            if self.channels@[ci0] == pre.channels@[ci0] {
                assert(pre.spec_is_member(ch, sid));
            } else {
                assert(!pre.spec_is_member(ch, sid)) by {
                    if pre.spec_is_member(ch, sid) {
                        let ci = choose|ci: int|
                            0 <= ci < pre.channels@.len() && pre.channels@[ci].name@ == ch
                                && entry_has_sid(pre.channels@[ci], sid);
                        pre.lemma_channel_index_unique_pre(ci, ch);
                        pre.lemma_channel_index_unique_pre(ci0, ch);
                    }
                }
            }
        }
        assert forall|c: Seq<char>|
            c != ch implies #[trigger] self.spec_channel_count(c) == pre.spec_channel_count(
            c,
        ) by {
            if self.spec_has_channel(c) {
                let ci = choose|ci: int|
                    0 <= ci < self.channels@.len() && self.channels@[ci].name@ == c;
                assert(ci != ci0);
                assert(pre.channels@[ci].name@ == c);
                self.lemma_channel_index_unique_pre(ci, c);
                pre.lemma_channel_index_unique_pre(ci, c);
            } else {
                if pre.spec_has_channel(c) {
                    let ci = choose|ci: int|
                        0 <= ci < pre.channels@.len() && pre.channels@[ci].name@ == c;
                    assert(ci != ci0);
                    assert(self.channels@[ci].name@ == c);
                }
            }
        }
        // entry member lists stay non-empty and duplicate-free
        assert forall|i: int|
            0 <= i < self.channels@.len() implies (#[trigger] self.channels@[i]).members@.len() > 0
            && distinct_sids(self.channels@[i].members@) by {
            if i != ci0 {
                assert(self.channels@[i] == pre.channels@[i]);
            } else {
                if fresh {
                } else {
                    if self.channels@[ci0] == pre.channels@[ci0] {
                    } else {
                        let pm = pre.channels@[ci0].members@;
                        let nm = self.channels@[ci0].members@;
                        assert forall|a: int, b: int|
                            0 <= a < b < nm.len() implies nm[a]@ != nm[b]@ by {
                            if b == nm.len() - 1 {
                                assert(nm[a] == pm[a]);
                                if nm[a]@ == sid {
                                    assert(entry_has_sid(pre.channels@[ci0], sid));
                                }
                            } else {
                                assert(nm[a] == pm[a] && nm[b] == pm[b]);
                            }
                        }
                    }
                }
            }
        }
        // every member is backed by its socket's own subscription list
        assert forall|ci: int, mi: int|
            0 <= ci < self.channels@.len() && 0 <= mi
                < self.channels@[ci].members@.len() implies #[trigger] self.member_backed(
            ci,
            mi,
        ) by {
            let s = self.channels@[ci].members@[mi]@;
            let c = self.channels@[ci].name@;
            let new_member = ci == ci0 && (fresh || (self.channels@[ci0]
                != pre.channels@[ci0] && mi == self.channels@[ci0].members@.len() - 1));
            if new_member {
                assert(s == sid && c == ch);
                assert(conn2.spec_subscribed(ch));
                assert(self.sockets@[si].socket_id@ == sid && self.sockets@[si].spec_subscribed(
                    ch,
                ));
            } else {
                assert(pre.channels@[ci].members@[mi]@ == s);
                assert(pre.channels@[ci].name@ == c);
                assert(pre.member_backed(ci, mi));
                let sj = choose|sj: int|
                    0 <= sj < pre.sockets@.len() && pre.sockets@[sj].socket_id@
                        == pre.channels@[ci].members@[mi]@ && pre.sockets@[sj].spec_subscribed(
                        pre.channels@[ci].name@,
                    );
                if sj == si {
                    assert(conn2.spec_subscribed(c));
                    assert(self.sockets@[sj].spec_subscribed(c));
                } else {
                    assert(self.sockets@[sj] == pre.sockets@[sj]);
                }
                assert(self.sockets@[sj].socket_id@ == s && self.sockets@[sj].spec_subscribed(c));
            }
        }
        // every subscription is backed by channel membership
        assert forall|sj: int, k: int|
            0 <= sj < self.sockets@.len() && 0 <= k
                < self.sockets@[sj].subscribed_channels@.len() implies #[trigger] self.sub_backed(
            sj,
            k,
        ) by {
            let c = self.sockets@[sj].subscribed_channels@[k]@;
            let s = self.sockets@[sj].socket_id@;
            if sj != si {
                assert(self.sockets@[sj] == pre.sockets@[sj]);
                assert(pre.sub_backed(sj, k));
                assert(pre.spec_is_member(c, s));
                assert(self.spec_is_member(c, s));
            } else {
                assert(self.sockets@[sj] == conn2);
                assert(conn2.spec_subscribed(c)) by {
                    assert(conn2.subscribed_channels@[k]@ == c);
                }
                if c == ch {
                    assert(self.spec_is_member(c, s));
                } else {
                    assert(pre.sockets@[si].spec_subscribed(c));
                    let k0 = choose|k0: int|
                        0 <= k0 < pre.sockets@[si].subscribed_channels@.len()
                            && pre.sockets@[si].subscribed_channels@[k0]@ == c;
                    assert(pre.sub_backed(si, k0));
                    assert(pre.spec_is_member(c, s));
                    assert(self.spec_is_member(c, s));
                }
            }
        }
        // sockets: ids unchanged, each well-formed
        assert forall|i: int, j: int|
            0 <= i < j < self.sockets@.len() implies self.sockets@[i].socket_id@
            != self.sockets@[j].socket_id@ by {
            assert(self.sockets@[i].socket_id@ == pre.sockets@[i].socket_id@);
            assert(self.sockets@[j].socket_id@ == pre.sockets@[j].socket_id@);
        }
        assert forall|i: int| 0 <= i < self.sockets@.len() implies (#[trigger] self.sockets@[i]).wf()
            by {
            if i != si {
                assert(self.sockets@[i] == pre.sockets@[i]);
            }
        }
        // user index untouched
        assert forall|u: Seq<char>, s: Seq<char>| #[trigger]
            self.spec_user_socket(u, s) == pre.spec_user_socket(u, s) by {
            assert(self.users@ =~= pre.users@);
        }
    }

    /// Unsubscribe a socket from a channel; the last member's departure
    /// removes the channel entry. Returns the member count after the call.
    pub fn remove_from_channel(&mut self, socket_id: &str, channel: &str) -> (r: usize)
        requires
            old(self).wf(),
        ensures
            final(self).wf(),
            r == final(self).spec_channel_count(channel@),
            final(self).spec_channel_count(channel@) == old(self).spec_channel_count(channel@) - (
            if old(self).spec_is_member(channel@, socket_id@) {
                1int
            } else {
                0int
            }),
            forall|c: Seq<char>, s: Seq<char>|
                #[trigger] final(self).spec_is_member(c, s) == (old(self).spec_is_member(c, s)
                    && !(c == channel@ && s == socket_id@)),
            forall|s: Seq<char>, c: Seq<char>|
                #[trigger] final(self).spec_subscribed(s, c) == (old(self).spec_subscribed(s, c)
                    && !(s == socket_id@ && c == channel@)),
            forall|c: Seq<char>|
                c != channel@ ==> #[trigger] final(self).spec_channel_count(c) == old(
                    self,
                ).spec_channel_count(c),
            forall|s: Seq<char>|
                #[trigger] final(self).spec_has_socket(s) == old(self).spec_has_socket(s),
            final(self).spec_socket_count() == old(self).spec_socket_count(),
            forall|u: Seq<char>, s: Seq<char>|
                #[trigger] final(self).spec_user_socket(u, s) == old(self).spec_user_socket(u, s),
    {
        let ghost pre = *self;
        let si = match self.find_socket_index(socket_id) {
            Option::None => {
                proof {
                    if pre.spec_is_member(channel@, socket_id@) {
                        pre.lemma_bidirectional_consistency(channel@, socket_id@);
                    }
                    if pre.spec_subscribed(socket_id@, channel@) {
                        let i = choose|i: int|
                            0 <= i < pre.sockets@.len() && pre.sockets@[i].socket_id@ == socket_id@
                                && pre.sockets@[i].spec_subscribed(channel@);
                        assert(pre.spec_has_socket(socket_id@));
                    }
                }
                let r = self.channel_count(channel);
                return r;
            },
            Option::Some(si) => si,
        };
        proof {
            pre.lemma_socket_index_unique(socket_id@, si as int);
        }
        let mut conn = self.sockets.remove(si);
        conn.remove_subscription(channel);
        let ghost conn2 = conn;
        self.sockets.insert(si, conn);
        proof {
            assert(self.sockets@ =~= pre.sockets@.update(si as int, conn2));
            assert(conn2.socket_id@ == socket_id@);
        }
        let count: usize;
        match self.find_channel_index(channel) {
            Option::None => {
                count = 0;
                proof {
                    if pre.spec_is_member(channel@, socket_id@) {
                        let cj = choose|cj: int|
                            0 <= cj < pre.channels@.len() && pre.channels@[cj].name@ == channel@
                                && entry_has_sid(pre.channels@[cj], socket_id@);
                        assert(pre.spec_has_channel(channel@));
                    }
                    self.lemma_after_unsubscribe(
                        pre,
                        conn2,
                        si as int,
                        0,
                        0,
                        0,
                        channel@,
                        socket_id@,
                    );
                    assert(!self.spec_has_channel(channel@)) by {
                        if self.spec_has_channel(channel@) {
                            let cj = choose|cj: int|
                                0 <= cj < self.channels@.len() && self.channels@[cj].name@
                                    == channel@;
                            assert(pre.channels@[cj].name@ == channel@);
                        }
                    }
                }
            },
            Option::Some(ci) => {
                proof {
                    pre.lemma_channel_index_unique(channel@, ci as int);
                }
                let mut e = self.channels.remove(ci);
                match find_sid(&e.members, socket_id) {
                    Option::None => {
                        count = e.members.len();
                        let ghost e2 = e;
                        self.channels.insert(ci, e);
                        proof {
                            assert(self.channels@ =~= pre.channels@.update(ci as int, e2));
                            assert(self.channels@ =~= pre.channels@);
                            if pre.spec_is_member(channel@, socket_id@) {
                                let cj = choose|cj: int|
                                    0 <= cj < pre.channels@.len() && pre.channels@[cj].name@
                                        == channel@ && entry_has_sid(
                                        pre.channels@[cj],
                                        socket_id@,
                                    );
                                pre.lemma_channel_index_unique(channel@, cj);
                                let mj = choose|mj: int|
                                    0 <= mj < pre.channels@[ci as int].members@.len()
                                        && pre.channels@[ci as int].members@[mj]@ == socket_id@;
                                assert(e2.members@[mj]@ == socket_id@);
                            }
                            self.lemma_after_unsubscribe(
                                pre,
                                conn2,
                                si as int,
                                0,
                                0,
                                0,
                                channel@,
                                socket_id@,
                            );
                            self.lemma_channel_index_unique_pre(ci as int, channel@);
                        }
                    },
                    Option::Some(mi) => {
                        proof {
                            assert(entry_has_sid(pre.channels@[ci as int], socket_id@));
                            assert(pre.spec_is_member(channel@, socket_id@));
                        }
                        if e.members.len() > 1 {
                            e.members.remove(mi);
                            count = e.members.len();
                            let ghost e2 = e;
                            self.channels.insert(ci, e);
                            proof {
                                assert(self.channels@ =~= pre.channels@.update(ci as int, e2));
                                assert(e2.members@ == pre.channels@[ci as int].members@.remove(
                                    mi as int,
                                ));
                                self.lemma_after_unsubscribe(
                                    pre,
                                    conn2,
                                    si as int,
                                    ci as int,
                                    mi as int,
                                    1,
                                    channel@,
                                    socket_id@,
                                );
                                self.lemma_channel_index_unique_pre(ci as int, channel@);
                            }
                        } else {
                            count = 0;
                            proof {
                                assert(self.channels@ =~= pre.channels@.remove(ci as int));
                                assert(mi as int == 0);
                                self.lemma_after_unsubscribe(
                                    pre,
                                    conn2,
                                    si as int,
                                    ci as int,
                                    0,
                                    2,
                                    channel@,
                                    socket_id@,
                                );
                                assert(!self.spec_has_channel(channel@)) by {
                                    if self.spec_has_channel(channel@) {
                                        let cj = choose|cj: int|
                                            0 <= cj < self.channels@.len()
                                                && self.channels@[cj].name@ == channel@;
                                        let orig = if cj < ci as int {
                                            cj
                                        } else {
                                            cj + 1
                                        };
                                        assert(pre.channels@[orig].name@ == channel@);
                                        if orig != ci as int {
                                            if orig < ci as int {
                                                assert(pre.channels@[orig].name@
                                                    != pre.channels@[ci as int].name@);
                                            } else {
                                                assert(pre.channels@[ci as int].name@
                                                    != pre.channels@[orig].name@);
                                            }
                                        }
                                    }
                                }
                            }
                        }
                    },
                }
            },
        }
        count
    }

    /// After `remove_from_channel` has updated the socket at `si` and the
    /// channel list, the invariant holds again and membership shrank by
    /// exactly `(ch, sid)`.
    ///
    /// `shape` says how the channel list changed: untouched (`0`, and the
    /// socket was no member), entry `ci0` lost member `mi0` (`1`), or entry
    /// `ci0` held only this socket and was dropped (`2`).
    proof fn lemma_after_unsubscribe(
        self,
        pre: Namespace,
        conn2: ConnectionState,
        si: int,
        ci0: int,
        mi0: int,
        shape: int,
        ch: Seq<char>,
        sid: Seq<char>,
    )
        requires
            pre.wf(),
            0 <= si < pre.sockets@.len(),
            pre.sockets@[si].socket_id@ == sid,
            conn2.wf(),
            conn2.socket_id@ == sid,
            forall|c: Seq<char>|
                #[trigger] conn2.spec_subscribed(c) == (pre.sockets@[si].spec_subscribed(c) && c
                    != ch),
            self.sockets@ == pre.sockets@.update(si, conn2),
            self.users@ == pre.users@,
            shape == 0 || shape == 1 || shape == 2,
            shape == 0 ==> self.channels@ == pre.channels@ && !pre.spec_is_member(ch, sid),
            shape == 1 ==> 0 <= ci0 < pre.channels@.len() && pre.channels@[ci0].name@ == ch
                && self.channels@ == pre.channels@.update(ci0, self.channels@[ci0])
                && self.channels@[ci0].name@ == ch && pre.channels@[ci0].members@.len() >= 2 && 0
                <= mi0 < pre.channels@[ci0].members@.len() && pre.channels@[ci0].members@[mi0]@
                == sid && self.channels@[ci0].members@ == pre.channels@[ci0].members@.remove(mi0),
            shape == 2 ==> 0 <= ci0 < pre.channels@.len() && pre.channels@[ci0].name@ == ch
                && pre.channels@[ci0].members@.len() == 1 && pre.channels@[ci0].members@[0]@ == sid
                && self.channels@ == pre.channels@.remove(ci0),
        ensures
            self.wf(),
            forall|s: Seq<char>| #[trigger] self.spec_has_socket(s) == pre.spec_has_socket(s),
            self.spec_socket_count() == pre.spec_socket_count(),
            forall|s: Seq<char>, c: Seq<char>|
                #[trigger] self.spec_subscribed(s, c) == (pre.spec_subscribed(s, c) && !(s == sid
                    && c == ch)),
            forall|c: Seq<char>, s: Seq<char>|
                #[trigger] self.spec_is_member(c, s) == (pre.spec_is_member(c, s) && !(c == ch && s
                    == sid)),
            self.spec_channel_count(ch) == pre.spec_channel_count(ch) - (
            if pre.spec_is_member(ch, sid) {
                1int
            } else {
                0int
            }),
            forall|c: Seq<char>|
                c != ch ==> #[trigger] self.spec_channel_count(c) == pre.spec_channel_count(c),
            forall|u: Seq<char>, s: Seq<char>|
                #[trigger] self.spec_user_socket(u, s) == pre.spec_user_socket(u, s),
    {
        assert forall|s: Seq<char>| #[trigger]
            self.spec_has_socket(s) == pre.spec_has_socket(s) by {
            if self.spec_has_socket(s) {
                let i = choose|i: int|
                    0 <= i < self.sockets@.len() && self.sockets@[i].socket_id@ == s;
                assert(pre.sockets@[i].socket_id@ == s);
            }
            if pre.spec_has_socket(s) {
                let i = choose|i: int|
                    0 <= i < pre.sockets@.len() && pre.sockets@[i].socket_id@ == s;
                assert(self.sockets@[i].socket_id@ == s);
            }
        }
        assert forall|s: Seq<char>, c: Seq<char>| #[trigger]
            self.spec_subscribed(s, c) == (pre.spec_subscribed(s, c) && !(s == sid && c == ch)) by {
            if self.spec_subscribed(s, c) {
                let i = choose|i: int|
                    0 <= i < self.sockets@.len() && self.sockets@[i].socket_id@ == s
                        && self.sockets@[i].spec_subscribed(c);
                if i != si {
                    assert(pre.sockets@[i].spec_subscribed(c));
                    assert(s != sid || c != ch) by {
                        if s == sid {
                            assert(pre.sockets@[i].socket_id@ == pre.sockets@[si].socket_id@);
                            if i < si {
                                assert(pre.sockets@[i].socket_id@ != pre.sockets@[si].socket_id@);
                            } else {
                                assert(pre.sockets@[si].socket_id@ != pre.sockets@[i].socket_id@);
                            }
                        }
                    }
                } else {
                    assert(conn2.spec_subscribed(c));
                    assert(pre.sockets@[si].spec_subscribed(c) && c != ch);
                }
            }
            if pre.spec_subscribed(s, c) && !(s == sid && c == ch) {
                let i = choose|i: int|
                    0 <= i < pre.sockets@.len() && pre.sockets@[i].socket_id@ == s
                        && pre.sockets@[i].spec_subscribed(c);
                if i != si {
                    assert(self.sockets@[i].spec_subscribed(c));
                } else {
                    assert(s == sid);
                    assert(conn2.spec_subscribed(c));
                    assert(self.sockets@[i].spec_subscribed(c));
                }
            }
        }
        // membership shrank by exactly (ch, sid)
        assert forall|c: Seq<char>, s: Seq<char>| #[trigger]
            self.spec_is_member(c, s) == (pre.spec_is_member(c, s) && !(c == ch && s == sid)) by {
            if shape == 0 {
                assert(self.channels@ =~= pre.channels@);
                assert(self.spec_is_member(c, s) == pre.spec_is_member(c, s));
                if c == ch && s == sid {
                    assert(!pre.spec_is_member(c, s));
                }
            } else if shape == 1 {
                let pm = pre.channels@[ci0].members@;
                let nm = self.channels@[ci0].members@;
                if self.spec_is_member(c, s) {
                    let ci = choose|ci: int|
                        0 <= ci < self.channels@.len() && self.channels@[ci].name@ == c
                            && entry_has_sid(self.channels@[ci], s);
                    let mi = choose|mi: int|
                        0 <= mi < self.channels@[ci].members@.len()
                            && self.channels@[ci].members@[mi]@ == s;
                    if ci != ci0 {
                        assert(self.channels@[ci] == pre.channels@[ci]);
                        assert(pre.spec_is_member(c, s));
                        if c == ch && s == sid {
                            assert(pre.channels@[ci].name@ == pre.channels@[ci0].name@);
                            if ci < ci0 {
                                assert(pre.channels@[ci].name@ != pre.channels@[ci0].name@);
                            } else {
                                assert(pre.channels@[ci0].name@ != pre.channels@[ci].name@);
                            }
                        }
                    } else {
                        let orig = if mi < mi0 {
                            mi
                        } else {
                            mi + 1
                        };
                        assert(pm[orig]@ == s);
                        assert(entry_has_sid(pre.channels@[ci0], s));
                        assert(pre.spec_is_member(c, s));
                        if s == sid {
                            assert(orig != mi0 && pm[orig]@ == pm[mi0]@);
                            if orig < mi0 {
                                assert(pm[orig]@ != pm[mi0]@);
                            } else {
                                assert(pm[mi0]@ != pm[orig]@);
                            }
                        }
                    }
                }
                if pre.spec_is_member(c, s) && !(c == ch && s == sid) {
                    let ci = choose|ci: int|
                        0 <= ci < pre.channels@.len() && pre.channels@[ci].name@ == c
                            && entry_has_sid(pre.channels@[ci], s);
                    let mi = choose|mi: int|
                        0 <= mi < pre.channels@[ci].members@.len()
                            && pre.channels@[ci].members@[mi]@ == s;
                    if ci != ci0 {
                        assert(self.channels@[ci] == pre.channels@[ci]);
                        assert(self.spec_is_member(c, s));
                    } else {
                        assert(c == ch);
                        assert(s != sid);
                        assert(mi != mi0);
                        let post = if mi < mi0 {
                            mi
                        } else {
                            mi - 1
                        };
                        assert(nm[post]@ == s);
                        assert(entry_has_sid(self.channels@[ci0], s));
                        assert(self.spec_is_member(c, s));
                    }
                }
            } else {
                // shape == 2: the whole entry went away
                if self.spec_is_member(c, s) {
                    let ci = choose|ci: int|
                        0 <= ci < self.channels@.len() && self.channels@[ci].name@ == c
                            && entry_has_sid(self.channels@[ci], s);
                    let orig = if ci < ci0 {
                        ci
                    } else {
                        ci + 1
                    };
                    assert(self.channels@[ci] == pre.channels@[orig]);
                    assert(pre.spec_is_member(c, s));
                    if c == ch && s == sid {
                        assert(orig != ci0);
                        if orig < ci0 {
                            assert(pre.channels@[orig].name@ != pre.channels@[ci0].name@);
                        } else {
                            assert(pre.channels@[ci0].name@ != pre.channels@[orig].name@);
                        }
                    }
                }
                if pre.spec_is_member(c, s) && !(c == ch && s == sid) {
                    let ci = choose|ci: int|
                        0 <= ci < pre.channels@.len() && pre.channels@[ci].name@ == c
                            && entry_has_sid(pre.channels@[ci], s);
                    if ci == ci0 {
                        assert(c == ch);
                        let mi = choose|mi: int|
                            0 <= mi < pre.channels@[ci0].members@.len()
                                && pre.channels@[ci0].members@[mi]@ == s;
                        assert(mi == 0);
                        assert(s == sid);
                    } else {
                        let post = if ci < ci0 {
                            ci
                        } else {
                            ci - 1
                        };
                        assert(self.channels@[post] == pre.channels@[ci]);
                        assert(entry_has_sid(self.channels@[post], s));
                        assert(self.spec_is_member(c, s));
                    }
                }
            }
        }
        // counts
        if shape == 0 {
            assert(self.channels@ =~= pre.channels@);
            assert forall|c: Seq<char>| #[trigger]
                self.spec_channel_count(c) == pre.spec_channel_count(c) by {}
        } else if shape == 1 {
            pre.lemma_channel_index_unique_pre(ci0, ch);
            self.lemma_channel_index_unique_pre(ci0, ch);
            assert forall|c: Seq<char>|
                c != ch implies #[trigger] self.spec_channel_count(c) == pre.spec_channel_count(
                c,
            ) by {
                if self.spec_has_channel(c) {
                    let ci = choose|ci: int|
                        0 <= ci < self.channels@.len() && self.channels@[ci].name@ == c;
                    assert(ci != ci0);
                    assert(pre.channels@[ci].name@ == c);
                    self.lemma_channel_index_unique_pre(ci, c);
                    pre.lemma_channel_index_unique_pre(ci, c);
                } else {
                    if pre.spec_has_channel(c) {
                        let ci = choose|ci: int|
                            0 <= ci < pre.channels@.len() && pre.channels@[ci].name@ == c;
                        assert(ci != ci0);
                        assert(self.channels@[ci].name@ == c);
                    }
                }
            }
        } else {
            pre.lemma_channel_index_unique_pre(ci0, ch);
            assert(!self.spec_has_channel(ch)) by {
                if self.spec_has_channel(ch) {
                    let ci = choose|ci: int|
                        0 <= ci < self.channels@.len() && self.channels@[ci].name@ == ch;
                    let orig = if ci < ci0 {
                        ci
                    } else {
                        ci + 1
                    };
                    assert(pre.channels@[orig].name@ == ch);
                    if orig < ci0 {
                        assert(pre.channels@[orig].name@ != pre.channels@[ci0].name@);
                    } else {
                        assert(pre.channels@[ci0].name@ != pre.channels@[orig].name@);
                    }
                }
            }
            assert forall|c: Seq<char>|
                c != ch implies #[trigger] self.spec_channel_count(c) == pre.spec_channel_count(
                c,
            ) by {
                if self.spec_has_channel(c) {
                    let ci = choose|ci: int|
                        0 <= ci < self.channels@.len() && self.channels@[ci].name@ == c;
                    let orig = if ci < ci0 {
                        ci
                    } else {
                        ci + 1
                    };
                    assert(pre.channels@[orig].name@ == c);
                    self.lemma_channel_index_unique_pre(ci, c);
                    pre.lemma_channel_index_unique_pre(orig, c);
                    assert(self.channels@[ci] == pre.channels@[orig]);
                } else {
                    if pre.spec_has_channel(c) {
                        let ci = choose|ci: int|
                            0 <= ci < pre.channels@.len() && pre.channels@[ci].name@ == c;
                        assert(ci != ci0);
                        let post = if ci < ci0 {
                            ci
                        } else {
                            ci - 1
                        };
                        assert(self.channels@[post] == pre.channels@[ci]);
                        assert(self.channels@[post].name@ == c);
                    }
                }
            }
        }
        // names distinct, entries sound
        assert forall|i: int, j: int|
            0 <= i < j < self.channels@.len() implies self.channels@[i].name@
            != self.channels@[j].name@ by {
            if shape == 2 {
                let oi = if i < ci0 {
                    i
                } else {
                    i + 1
                };
                let oj = if j < ci0 {
                    j
                } else {
                    j + 1
                };
                assert(self.channels@[i] == pre.channels@[oi]);
                assert(self.channels@[j] == pre.channels@[oj]);
            }
        }
        assert forall|i: int|
            0 <= i < self.channels@.len() implies (#[trigger] self.channels@[i]).members@.len() > 0
            && distinct_sids(self.channels@[i].members@) by {
            if shape == 1 && i == ci0 {
                let pm = pre.channels@[ci0].members@;
                let nm = self.channels@[ci0].members@;
                assert forall|a: int, b: int| 0 <= a < b < nm.len() implies nm[a]@ != nm[b]@ by {
                    let oa = if a < mi0 {
                        a
                    } else {
                        a + 1
                    };
                    let ob = if b < mi0 {
                        b
                    } else {
                        b + 1
                    };
                    assert(nm[a] == pm[oa] && nm[b] == pm[ob]);
                }
            } else if shape == 2 {
                let oi = if i < ci0 {
                    i
                } else {
                    i + 1
                };
                assert(self.channels@[i] == pre.channels@[oi]);
            }
        }
        // every member is backed by its socket's own subscription list
        assert forall|ci: int, mi: int|
            0 <= ci < self.channels@.len() && 0 <= mi
                < self.channels@[ci].members@.len() implies #[trigger] self.member_backed(
            ci,
            mi,
        ) by {
            let s = self.channels@[ci].members@[mi]@;
            let c = self.channels@[ci].name@;
            // locate the same member in the old state
            let oci = if shape == 2 && ci >= ci0 {
                ci + 1
            } else {
                ci
            };
            let omi = if shape == 1 && ci == ci0 && mi >= mi0 {
                mi + 1
            } else {
                mi
            };
            assert(pre.channels@[oci].name@ == c);
            assert(pre.channels@[oci].members@[omi]@ == s);
            assert(pre.member_backed(oci, omi));
            let sj = choose|sj: int|
                0 <= sj < pre.sockets@.len() && pre.sockets@[sj].socket_id@
                    == pre.channels@[oci].members@[omi]@ && pre.sockets@[sj].spec_subscribed(
                    pre.channels@[oci].name@,
                );
            if sj == si {
                assert(s == sid);
                assert(c != ch) by {
                    if c == ch {
                        if shape == 0 {
                            assert(entry_has_sid(self.channels@[ci], s));
                            assert(pre.spec_is_member(ch, sid));
                        } else if shape == 1 {
                            pre.lemma_channel_index_unique_pre(ci0, ch);
                            pre.lemma_channel_index_unique_pre(oci, ch);
                            let pm = pre.channels@[ci0].members@;
                            assert(pm[omi]@ == pm[mi0]@ && omi != mi0);
                            if omi < mi0 {
                                assert(pm[omi]@ != pm[mi0]@);
                            } else {
                                assert(pm[mi0]@ != pm[omi]@);
                            }
                        } else {
                            pre.lemma_channel_index_unique_pre(ci0, ch);
                            pre.lemma_channel_index_unique_pre(oci, ch);
                            assert(oci == ci0);
                            assert(ci < ci0 ==> oci == ci);
                            assert(false);
                        }
                    }
                }
                assert(conn2.spec_subscribed(c));
                assert(self.sockets@[si].socket_id@ == s && self.sockets@[si].spec_subscribed(c));
            } else {
                assert(self.sockets@[sj] == pre.sockets@[sj]);
                assert(self.sockets@[sj].socket_id@ == s && self.sockets@[sj].spec_subscribed(c));
            }
        }
        // every subscription is backed by channel membership
        assert forall|sj: int, k: int|
            0 <= sj < self.sockets@.len() && 0 <= k
                < self.sockets@[sj].subscribed_channels@.len() implies #[trigger] self.sub_backed(
            sj,
            k,
        ) by {
            let c = self.sockets@[sj].subscribed_channels@[k]@;
            let s = self.sockets@[sj].socket_id@;
            if sj != si {
                assert(self.sockets@[sj] == pre.sockets@[sj]);
                assert(pre.sub_backed(sj, k));
                assert(pre.spec_is_member(c, s));
                assert(!(c == ch && s == sid)) by {
                    if s == sid {
                        if sj < si {
                            assert(pre.sockets@[sj].socket_id@ != pre.sockets@[si].socket_id@);
                        } else {
                            assert(pre.sockets@[si].socket_id@ != pre.sockets@[sj].socket_id@);
                        }
                    }
                }
                assert(self.spec_is_member(c, s));
            } else {
                assert(self.sockets@[sj] == conn2);
                assert(conn2.spec_subscribed(c)) by {
                    assert(conn2.subscribed_channels@[k]@ == c);
                }
                assert(c != ch);
                assert(pre.sockets@[si].spec_subscribed(c));
                let k0 = choose|k0: int|
                    0 <= k0 < pre.sockets@[si].subscribed_channels@.len()
                        && pre.sockets@[si].subscribed_channels@[k0]@ == c;
                assert(pre.sub_backed(si, k0));
                assert(pre.spec_is_member(c, s));
                assert(self.spec_is_member(c, s));
            }
        }
        // sockets: ids unchanged, each well-formed
        assert forall|i: int, j: int|
            0 <= i < j < self.sockets@.len() implies self.sockets@[i].socket_id@
            != self.sockets@[j].socket_id@ by {
            assert(self.sockets@[i].socket_id@ == pre.sockets@[i].socket_id@);
            assert(self.sockets@[j].socket_id@ == pre.sockets@[j].socket_id@);
        }
        assert forall|i: int| 0 <= i < self.sockets@.len() implies (#[trigger] self.sockets@[i]).wf()
            by {
            if i != si {
                assert(self.sockets@[i] == pre.sockets@[i]);
            }
        }
        assert forall|u: Seq<char>, s: Seq<char>| #[trigger]
            self.spec_user_socket(u, s) == pre.spec_user_socket(u, s) by {
            assert(self.users@ =~= pre.users@);
        }
    }


    /// Take a connection out of the namespace. The caller must first have
    /// unsubscribed it from every channel, as close cleanup does.
    pub fn remove_socket(&mut self, socket_id: &str) -> (r: Option<ConnectionState>)
        requires
            old(self).wf(),
            old(self).spec_has_socket(socket_id@) ==> old(self).spec_socket(
                socket_id@,
            ).spec_channel_count() == 0,
        ensures
            final(self).wf(),
            match r {
                Option::Some(conn) => old(self).spec_has_socket(socket_id@) && conn == old(
                    self,
                ).spec_socket(socket_id@) && !final(self).spec_has_socket(socket_id@),
                Option::None => !old(self).spec_has_socket(socket_id@) && *final(self) == *old(
                    self,
                ),
            },
            forall|s: Seq<char>|
                #[trigger] final(self).spec_has_socket(s) == (old(self).spec_has_socket(s) && s
                    != socket_id@),
            final(self).spec_socket_count() == old(self).spec_socket_count() - (
            if old(self).spec_has_socket(socket_id@) {
                1int
            } else {
                0int
            }),
            forall|c: Seq<char>, s: Seq<char>|
                #[trigger] final(self).spec_is_member(c, s) == old(self).spec_is_member(c, s),
            forall|c: Seq<char>| #[trigger]
                final(self).spec_channel_count(c) == old(self).spec_channel_count(c),
            forall|s: Seq<char>, c: Seq<char>|
                #[trigger] final(self).spec_subscribed(s, c) == old(self).spec_subscribed(s, c),
            forall|u: Seq<char>, s: Seq<char>|
                #[trigger] final(self).spec_user_socket(u, s) == old(self).spec_user_socket(u, s),
    {
        let si = match self.find_socket_index(socket_id) {
            Option::None => {
                return Option::None;
            },
            Option::Some(si) => si,
        };
        let ghost pre = *self;
        proof {
            pre.lemma_socket_index_unique(socket_id@, si as int);
        }
        let conn = self.sockets.remove(si);
        proof {
            let posts = self.sockets@;
            let pres = pre.sockets@;
            assert(conn.subscribed_channels@.len() == 0);
            assert forall|s: Seq<char>| #[trigger]
                self.spec_has_socket(s) == (pre.spec_has_socket(s) && s != socket_id@) by {
                if self.spec_has_socket(s) {
                    let i = choose|i: int| 0 <= i < posts.len() && posts[i].socket_id@ == s;
                    let oi = if i < si as int { i } else { i + 1 };
                    assert(pres[oi].socket_id@ == s);
                    if s == socket_id@ {
                        assert(oi != si as int);
                        if oi < si as int {
                            assert(pres[oi].socket_id@ != pres[si as int].socket_id@);
                        } else {
                            assert(pres[si as int].socket_id@ != pres[oi].socket_id@);
                        }
                    }
                }
                if pre.spec_has_socket(s) && s != socket_id@ {
                    let i = choose|i: int| 0 <= i < pres.len() && pres[i].socket_id@ == s;
                    assert(i != si as int);
                    let pi = if i < si as int { i } else { i - 1 };
                    assert(posts[pi].socket_id@ == s);
                }
            }
            assert forall|s: Seq<char>, c: Seq<char>| #[trigger]
                self.spec_subscribed(s, c) == pre.spec_subscribed(s, c) by {
                if self.spec_subscribed(s, c) {
                    let i = choose|i: int|
                        0 <= i < posts.len() && posts[i].socket_id@ == s && posts[i].spec_subscribed(c);
                    let oi = if i < si as int { i } else { i + 1 };
                    assert(pres[oi].socket_id@ == s && pres[oi].spec_subscribed(c));
                }
                if pre.spec_subscribed(s, c) {
                    let i = choose|i: int|
                        0 <= i < pres.len() && pres[i].socket_id@ == s && pres[i].spec_subscribed(c);
                    if i == si as int {
                        assert(pres[i].subscribed_channels@.len() == 0);
                        let k = choose|k: int|
                            0 <= k < pres[i].subscribed_channels@.len()
                                && pres[i].subscribed_channels@[k]@ == c;
                        assert(false);
                    } else {
                        let pi = if i < si as int { i } else { i - 1 };
                        assert(posts[pi].socket_id@ == s && posts[pi].spec_subscribed(c));
                    }
                }
            }
            assert forall|c: Seq<char>, s: Seq<char>| #[trigger]
                self.spec_is_member(c, s) == pre.spec_is_member(c, s) by {
                assert(self.channels@ =~= pre.channels@);
            }
            assert forall|c: Seq<char>| #[trigger]
                self.spec_channel_count(c) == pre.spec_channel_count(c) by {
                assert(self.channels@ =~= pre.channels@);
            }
            assert forall|u: Seq<char>, s: Seq<char>| #[trigger]
                self.spec_user_socket(u, s) == pre.spec_user_socket(u, s) by {
                assert(self.users@ =~= pre.users@);
            }
            // invariant: members stay backed, subscriptions stay backed
            assert forall|ci: int, mi: int|
                0 <= ci < self.channels@.len() && 0 <= mi
                    < self.channels@[ci].members@.len() implies #[trigger] self.member_backed(ci, mi)
                by {
                assert(pre.member_backed(ci, mi));
                let sj = choose|sj: int|
                    0 <= sj < pres.len() && pres[sj].socket_id@ == pre.channels@[ci].members@[mi]@
                        && pres[sj].spec_subscribed(pre.channels@[ci].name@);
                if sj == si as int {
                    assert(pres[sj].subscribed_channels@.len() == 0);
                    let k = choose|k: int|
                        0 <= k < pres[sj].subscribed_channels@.len()
                            && pres[sj].subscribed_channels@[k]@ == pre.channels@[ci].name@;
                    assert(false);
                } else {
                    let pj = if sj < si as int { sj } else { sj - 1 };
                    assert(posts[pj] == pres[sj]);
                    assert(posts[pj].socket_id@ == self.channels@[ci].members@[mi]@
                        && posts[pj].spec_subscribed(self.channels@[ci].name@));
                }
            }
            assert forall|sj: int, k: int|
                0 <= sj < self.sockets@.len() && 0 <= k
                    < self.sockets@[sj].subscribed_channels@.len() implies #[trigger] self.sub_backed(
                sj,
                k,
            ) by {
                let oj = if sj < si as int { sj } else { sj + 1 };
                assert(posts[sj] == pres[oj]);
                assert(pre.sub_backed(oj, k));
                assert(pre.spec_is_member(
                    pres[oj].subscribed_channels@[k]@,
                    pres[oj].socket_id@,
                ));
                assert(self.spec_is_member(
                    posts[sj].subscribed_channels@[k]@,
                    posts[sj].socket_id@,
                ));
            }
            assert forall|i: int, j: int|
                0 <= i < j < self.sockets@.len() implies self.sockets@[i].socket_id@
                != self.sockets@[j].socket_id@ by {
                let oi = if i < si as int { i } else { i + 1 };
                let oj = if j < si as int { j } else { j + 1 };
                assert(posts[i] == pres[oi] && posts[j] == pres[oj]);
            }
            assert forall|i: int|
                0 <= i < self.sockets@.len() implies (#[trigger] self.sockets@[i]).wf() by {
                let oi = if i < si as int { i } else { i + 1 };
                assert(posts[i] == pres[oi]);
            }
        }
        Option::Some(conn)
    }

    /// A snapshot of the sockets subscribed to a channel.
    pub fn get_channel_sockets(&self, channel: &str) -> (r: Vec<SocketId>)
        requires
            self.wf(),
        ensures
            r@.len() == self.spec_channel_count(channel@),
            forall|i: int| 0 <= i < r@.len() ==> self.spec_is_member(channel@, #[trigger] r@[i]@),
            forall|i: int, j: int| 0 <= i < j < r@.len() ==> r@[i]@ != r@[j]@,
            forall|s: Seq<char>|
                #[trigger] self.spec_is_member(channel@, s) ==> exists|i: int|
                    0 <= i < r@.len() && r@[i]@ == s,
    {
        let mut r: Vec<SocketId> = Vec::new();
        let ci = match self.find_channel_index(channel) {
            Option::None => {
                proof {
                    assert forall|s: Seq<char>|
                        #[trigger] self.spec_is_member(channel@, s) implies exists|i: int|
                        0 <= i < r@.len() && r@[i]@ == s by {
                        let cj = choose|cj: int|
                            0 <= cj < self.channels@.len() && self.channels@[cj].name@ == channel@
                                && entry_has_sid(self.channels@[cj], s);
                        assert(self.spec_has_channel(channel@));
                    }
                }
                return r;
            },
            Option::Some(ci) => ci,
        };
        proof {
            self.lemma_channel_index_unique_pre(ci as int, channel@);
        }
        let n = self.channels[ci].members.len();
        let mut i: usize = 0;
        while i < n
            invariant
                i <= n,
                ci < self.channels@.len(),
                self.channels@[ci as int].name@ == channel@,
                n == self.channels@[ci as int].members@.len(),
                r@.len() == i,
                forall|k: int|
                    0 <= k < i ==> #[trigger] r@[k]@ == self.channels@[ci as int].members@[k]@,
            decreases n - i,
        {
            let m = SocketId(String::from_str(self.channels[ci].members[i].as_str()));
            r.push(m);
            i += 1;
        }
        proof {
            assert(self.wf());
            assert forall|a: int, b: int| 0 <= a < b < r@.len() implies r@[a]@ != r@[b]@ by {
                assert(distinct_sids(self.channels@[ci as int].members@));
                assert(r@[a]@ == self.channels@[ci as int].members@[a]@);
                assert(r@[b]@ == self.channels@[ci as int].members@[b]@);
            }
            assert forall|k: int|
                0 <= k < r@.len() implies self.spec_is_member(channel@, #[trigger] r@[k]@) by {
                assert(self.channels@[ci as int].members@[k]@ == r@[k]@);
                assert(entry_has_sid(self.channels@[ci as int], r@[k]@));
            }
            assert forall|s: Seq<char>|
                #[trigger] self.spec_is_member(channel@, s) implies exists|i2: int|
                0 <= i2 < r@.len() && r@[i2]@ == s by {
                let cj = choose|cj: int|
                    0 <= cj < self.channels@.len() && self.channels@[cj].name@ == channel@
                        && entry_has_sid(self.channels@[cj], s);
                self.lemma_channel_index_unique_pre(cj, channel@);
                let mj = choose|mj: int|
                    0 <= mj < self.channels@[ci as int].members@.len() && self.channels@[ci as int
                    ].members@[mj]@ == s;
                assert(r@[mj]@ == s);
            }
        }
        r
    }

    /// The channel names a socket is subscribed to, as stored on it.
    pub fn get_socket_channels(&self, socket_id: &str) -> (r: Option<Vec<String>>)
        requires
            self.wf(),
        ensures
            match r {
                Option::Some(v) => self.spec_has_socket(socket_id@) && v@.len() == self.spec_socket(
                    socket_id@,
                ).subscribed_channels@.len() && forall|i: int|
                    0 <= i < v@.len() ==> #[trigger] v@[i]@ == self.spec_socket(
                        socket_id@,
                    ).subscribed_channels@[i]@,
                Option::None => !self.spec_has_socket(socket_id@),
            },
    {
        let si = match self.find_socket_index(socket_id) {
            Option::None => {
                return Option::None;
            },
            Option::Some(si) => si,
        };
        proof {
            self.lemma_socket_index_unique(socket_id@, si as int);
        }
        let mut v: Vec<String> = Vec::new();
        let n = self.sockets[si].subscribed_channels.len();
        let mut i: usize = 0;
        while i < n
            invariant
                i <= n,
                si < self.sockets@.len(),
                n == self.sockets@[si as int].subscribed_channels@.len(),
                v@.len() == i,
                forall|k: int|
                    0 <= k < i ==> #[trigger] v@[k]@ == self.sockets@[si as int
                    ].subscribed_channels@[k]@,
            decreases n - i,
        {
            v.push(String::from_str(self.sockets[si].subscribed_channels[i].as_str()));
            i += 1;
        }
        Option::Some(v)
    }


    /// Bind a socket to a signed-in user.
    pub fn add_user_socket(&mut self, user_id: &str, socket_id: &str)
        requires
            old(self).wf(),
        ensures
            final(self).wf(),
            forall|u: Seq<char>, s: Seq<char>|
                #[trigger] final(self).spec_user_socket(u, s) == (old(self).spec_user_socket(u, s)
                    || (u == user_id@ && s == socket_id@)),
            forall|c: Seq<char>, s: Seq<char>|
                #[trigger] final(self).spec_is_member(c, s) == old(self).spec_is_member(c, s),
            forall|c: Seq<char>| #[trigger]
                final(self).spec_channel_count(c) == old(self).spec_channel_count(c),
            forall|s: Seq<char>, c: Seq<char>|
                #[trigger] final(self).spec_subscribed(s, c) == old(self).spec_subscribed(s, c),
            forall|s: Seq<char>|
                #[trigger] final(self).spec_has_socket(s) == old(self).spec_has_socket(s),
            final(self).spec_socket_count() == old(self).spec_socket_count(),
    {
        let ghost pre = *self;
        let ui_opt = self.find_user_index(user_id);
        match ui_opt {
            Option::Some(ui) => {
                let mut e = self.users.remove(ui);
                let already = match find_sid(&e.sockets, socket_id) {
                    Option::Some(mi) => {
                        proof {
                            assert(e.sockets@[mi as int]@ == socket_id@);
                        }
                        true
                    },
                    Option::None => false,
                };
                if !already {
                    e.sockets.push(SocketId(String::from_str(socket_id)));
                }
                let ghost e2 = e;
                self.users.insert(ui, e);
                proof {
                    assert(self.users@ =~= pre.users@.update(ui as int, e2));
                    assert(self.users@[ui as int] == e2);
                    assert(e2.user_id@ == user_id@);
                    if !already {
                        assert(e2.sockets@.drop_last() =~= pre.users@[ui as int].sockets@);
                        assert(e2.sockets@.last()@ == socket_id@);
                        assert(e2.sockets@.len() == pre.users@[ui as int].sockets@.len() + 1);
                    } else {
                        assert(e2 == pre.users@[ui as int]);
                    }
                    self.lemma_users_after_add(pre, ui as int, false, user_id@, socket_id@);
                }
            },
            Option::None => {
                let mut sockets: Vec<SocketId> = Vec::new();
                sockets.push(SocketId(String::from_str(socket_id)));
                let e = UserEntry { user_id: String::from_str(user_id), sockets };
                self.users.push(e);
                proof {
                    assert(self.users@.drop_last() =~= pre.users@);
                    self.lemma_users_after_add(
                        pre,
                        pre.users@.len() as int,
                        true,
                        user_id@,
                        socket_id@,
                    );
                }
            },
        }
    }

    proof fn lemma_users_after_add(
        self,
        pre: Namespace,
        ui0: int,
        fresh: bool,
        user: Seq<char>,
        sid: Seq<char>,
    )
        requires
            pre.wf(),
            self.sockets@ == pre.sockets@,
            self.channels@ == pre.channels@,
            fresh ==> self.users@.len() == pre.users@.len() + 1 && self.users@.drop_last()
                == pre.users@ && self.users@.last().user_id@ == user
                && self.users@.last().sockets@.len() == 1 && self.users@.last().sockets@[0]@ == sid
                && !(exists|ui: int| 0 <= ui < pre.users@.len() && pre.users@[ui].user_id@ == user)
                && ui0 == pre.users@.len(),
            !fresh ==> 0 <= ui0 < pre.users@.len() && pre.users@[ui0].user_id@ == user
                && self.users@ == pre.users@.update(ui0, self.users@[ui0])
                && self.users@[ui0].user_id@ == user && ((self.users@[ui0] == pre.users@[ui0]
                && user_entry_has_sid(pre.users@[ui0], sid)) || (self.users@[ui0].sockets@.len()
                == pre.users@[ui0].sockets@.len() + 1 && self.users@[ui0].sockets@.drop_last()
                == pre.users@[ui0].sockets@ && self.users@[ui0].sockets@.last()@ == sid
                && !user_entry_has_sid(pre.users@[ui0], sid))),
        ensures
            self.wf(),
            forall|u: Seq<char>, s: Seq<char>|
                #[trigger] self.spec_user_socket(u, s) == (pre.spec_user_socket(u, s) || (u == user
                    && s == sid)),
            forall|c: Seq<char>, s: Seq<char>|
                #[trigger] self.spec_is_member(c, s) == pre.spec_is_member(c, s),
            forall|c: Seq<char>| #[trigger]
                self.spec_channel_count(c) == pre.spec_channel_count(c),
            forall|s: Seq<char>, c: Seq<char>|
                #[trigger] self.spec_subscribed(s, c) == pre.spec_subscribed(s, c),
            forall|s: Seq<char>| #[trigger] self.spec_has_socket(s) == pre.spec_has_socket(s),
            self.spec_socket_count() == pre.spec_socket_count(),
    {
        if fresh {
            assert forall|i: int| 0 <= i < pre.users@.len() implies self.users@[i]
                == pre.users@[i] by {
                assert(self.users@.drop_last()[i] == pre.users@[i]);
            }
        }
        assert(0 <= ui0 < self.users@.len());
        assert(self.users@[ui0].user_id@ == user);
        assert(user_entry_has_sid(self.users@[ui0], sid)) by {
            if fresh {
                assert(self.users@[ui0] =~= self.users@.last());
                assert(self.users@[ui0].sockets@[0]@ == sid);
            } else {
                if self.users@[ui0] == pre.users@[ui0] {
                    assert(user_entry_has_sid(pre.users@[ui0], sid));
                } else {
                    let last = self.users@[ui0].sockets@.len() - 1;
                    assert(self.users@[ui0].sockets@.last() == self.users@[ui0].sockets@[last]);
                    assert(self.users@[ui0].sockets@[last]@ == sid);
                }
            }
        }
        assert forall|u: Seq<char>, s: Seq<char>| #[trigger]
            self.spec_user_socket(u, s) == (pre.spec_user_socket(u, s) || (u == user && s == sid))
            by {
            if self.spec_user_socket(u, s) {
                let ui = choose|ui: int|
                    0 <= ui < self.users@.len() && self.users@[ui].user_id@ == u
                        && user_entry_has_sid(self.users@[ui], s);
                let mi = choose|mi: int|
                    0 <= mi < self.users@[ui].sockets@.len() && self.users@[ui].sockets@[mi]@ == s;
                if ui != ui0 {
                    assert(self.users@[ui] == pre.users@[ui]);
                    assert(pre.spec_user_socket(u, s));
                } else {
                    assert(u == user);
                    if !fresh {
                        if self.users@[ui0] == pre.users@[ui0] {
                            assert(pre.spec_user_socket(u, s));
                        } else {
                            if mi < pre.users@[ui0].sockets@.len() {
                                assert(pre.users@[ui0].sockets@[mi]@ == s);
                                assert(user_entry_has_sid(pre.users@[ui0], s));
                                assert(pre.spec_user_socket(u, s));
                            } else {
                                assert(s == sid);
                            }
                        }
                    } else {
                        assert(s == sid);
                    }
                }
            }
            if pre.spec_user_socket(u, s) {
                let ui = choose|ui: int|
                    0 <= ui < pre.users@.len() && pre.users@[ui].user_id@ == u
                        && user_entry_has_sid(pre.users@[ui], s);
                if ui == ui0 && !fresh {
                    let mi = choose|mi: int|
                        0 <= mi < pre.users@[ui].sockets@.len() && pre.users@[ui].sockets@[mi]@
                            == s;
                    if self.users@[ui0] == pre.users@[ui0] {
                        assert(user_entry_has_sid(self.users@[ui0], s));
                    } else {
                        assert(self.users@[ui0].sockets@[mi]@ == s);
                        assert(user_entry_has_sid(self.users@[ui0], s));
                    }
                    assert(self.spec_user_socket(u, s));
                } else {
                    assert(self.users@[ui] == pre.users@[ui]);
                    assert(self.spec_user_socket(u, s));
                }
            }
            if u == user && s == sid {
                assert(self.spec_user_socket(u, s));
            }
        }
        assert forall|i: int, j: int|
            0 <= i < j < self.users@.len() implies self.users@[i].user_id@
            != self.users@[j].user_id@ by {
            if fresh && j == ui0 {
                assert(self.users@[i].user_id@ != user) by {
                    if self.users@[i].user_id@ == user {
                        assert(pre.users@[i].user_id@ == user);
                    }
                }
            }
        }
        assert forall|i: int|
            0 <= i < self.users@.len() implies distinct_sids((#[trigger] self.users@[i]).sockets@)
            && self.users@[i].sockets@.len() > 0 by {
            if i != ui0 {
                assert(self.users@[i] == pre.users@[i]);
            } else {
                if !fresh && self.users@[ui0] != pre.users@[ui0] {
                    let pm = pre.users@[ui0].sockets@;
                    let nm = self.users@[ui0].sockets@;
                    assert forall|a: int, b: int| 0 <= a < b < nm.len() implies nm[a]@ != nm[b]@ by {
                        if b == nm.len() - 1 {
                            assert(nm[a] == pm[a]);
                            if nm[a]@ == sid {
                                assert(user_entry_has_sid(pre.users@[ui0], sid));
                            }
                        } else {
                            assert(nm[a] == pm[a] && nm[b] == pm[b]);
                        }
                    }
                }
            }
        }
        assert forall|ci: int, mi: int|
            0 <= ci < self.channels@.len() && 0 <= mi
                < self.channels@[ci].members@.len() implies #[trigger] self.member_backed(ci, mi) by {
            assert(pre.member_backed(ci, mi));
            let sj = choose|sj: int|
                0 <= sj < pre.sockets@.len() && pre.sockets@[sj].socket_id@
                    == pre.channels@[ci].members@[mi]@ && pre.sockets@[sj].spec_subscribed(
                    pre.channels@[ci].name@,
                );
            assert(self.sockets@[sj].socket_id@ == self.channels@[ci].members@[mi]@
                && self.sockets@[sj].spec_subscribed(self.channels@[ci].name@));
        }
        assert forall|sj: int, k: int|
            0 <= sj < self.sockets@.len() && 0 <= k
                < self.sockets@[sj].subscribed_channels@.len() implies #[trigger] self.sub_backed(
            sj,
            k,
        ) by {
            assert(pre.sub_backed(sj, k));
            let c = pre.sockets@[sj].subscribed_channels@[k]@;
            let s = pre.sockets@[sj].socket_id@;
            let ci = choose|ci: int|
                0 <= ci < pre.channels@.len() && pre.channels@[ci].name@ == c && entry_has_sid(
                    pre.channels@[ci],
                    s,
                );
            assert(self.channels@[ci].name@ == c && entry_has_sid(self.channels@[ci], s));
        }
        assert forall|c: Seq<char>, s: Seq<char>| #[trigger]
            self.spec_is_member(c, s) == pre.spec_is_member(c, s) by {
            assert(self.channels@ =~= pre.channels@);
        }
        assert forall|c: Seq<char>| #[trigger]
            self.spec_channel_count(c) == pre.spec_channel_count(c) by {
            assert(self.channels@ =~= pre.channels@);
        }
        assert forall|s: Seq<char>, c: Seq<char>| #[trigger]
            self.spec_subscribed(s, c) == pre.spec_subscribed(s, c) by {
            assert(self.sockets@ =~= pre.sockets@);
        }
        assert forall|s: Seq<char>| #[trigger]
            self.spec_has_socket(s) == pre.spec_has_socket(s) by {
            assert(self.sockets@ =~= pre.sockets@);
        }
    }

    fn find_user_index(&self, user_id: &str) -> (r: Option<usize>)
        ensures
            match r {
                Option::Some(i) => i < self.users@.len() && self.users@[i as int].user_id@
                    == user_id@,
                Option::None => forall|i: int|
                    0 <= i < self.users@.len() ==> self.users@[i].user_id@ != user_id@,
            },
    {
        let n = self.users.len();
        let mut i: usize = 0;
        while i < n
            invariant
                i <= n,
                n == self.users@.len(),
                forall|j: int| 0 <= j < i ==> self.users@[j].user_id@ != user_id@,
            decreases n - i,
        {
            if str_eq(self.users[i].user_id.as_str(), user_id) {
                return Option::Some(i);
            }
            i += 1;
        }
        Option::None
    }

    /// Unbind one socket from a user; the user entry goes when it empties.
    pub fn remove_user_socket(&mut self, user_id: &str, socket_id: &str)
        requires
            old(self).wf(),
        ensures
            final(self).wf(),
            forall|u: Seq<char>, s: Seq<char>|
                #[trigger] final(self).spec_user_socket(u, s) == (old(self).spec_user_socket(u, s)
                    && !(u == user_id@ && s == socket_id@)),
            forall|c: Seq<char>, s: Seq<char>|
                #[trigger] final(self).spec_is_member(c, s) == old(self).spec_is_member(c, s),
            forall|c: Seq<char>| #[trigger]
                final(self).spec_channel_count(c) == old(self).spec_channel_count(c),
            forall|s: Seq<char>, c: Seq<char>|
                #[trigger] final(self).spec_subscribed(s, c) == old(self).spec_subscribed(s, c),
            forall|s: Seq<char>|
                #[trigger] final(self).spec_has_socket(s) == old(self).spec_has_socket(s),
            final(self).spec_socket_count() == old(self).spec_socket_count(),
    {
        let ghost pre = *self;
        let ui = match self.find_user_index(user_id) {
            Option::None => {
                proof {
                    assert forall|u: Seq<char>, s: Seq<char>| #[trigger]
                        self.spec_user_socket(u, s) == (pre.spec_user_socket(u, s) && !(u
                            == user_id@ && s == socket_id@)) by {
                        if pre.spec_user_socket(u, s) && u == user_id@ {
                            let uj = choose|uj: int|
                                0 <= uj < pre.users@.len() && pre.users@[uj].user_id@ == u
                                    && user_entry_has_sid(pre.users@[uj], s);
                            assert(false);
                        }
                    }
                }
                return;
            },
            Option::Some(ui) => ui,
        };
        let mut e = self.users.remove(ui);
        let mi = match find_sid(&e.sockets, socket_id) {
            Option::None => {
                let ghost e2 = e;
                self.users.insert(ui, e);
                proof {
                    assert(self.users@ =~= pre.users@.update(ui as int, e2));
                    assert(self.users@ =~= pre.users@);
                    self.lemma_sockets_channels_unchanged(pre);
                    assert forall|u: Seq<char>, s: Seq<char>| #[trigger]
                        self.spec_user_socket(u, s) == (pre.spec_user_socket(u, s) && !(u
                            == user_id@ && s == socket_id@)) by {
                        if pre.spec_user_socket(u, s) && u == user_id@ && s == socket_id@ {
                            let uj = choose|uj: int|
                                0 <= uj < pre.users@.len() && pre.users@[uj].user_id@ == u
                                    && user_entry_has_sid(pre.users@[uj], s);
                            if uj != ui as int {
                                if uj < ui as int {
                                    assert(pre.users@[uj].user_id@ != pre.users@[ui as int
                                    ].user_id@);
                                } else {
                                    assert(pre.users@[ui as int].user_id@
                                        != pre.users@[uj].user_id@);
                                }
                            }
                            let mj = choose|mj: int|
                                0 <= mj < pre.users@[ui as int].sockets@.len()
                                    && pre.users@[ui as int].sockets@[mj]@ == s;
                            assert(e2.sockets@[mj]@ == socket_id@);
                            assert(false);
                        }
                    }
                }
                return;
            },
            Option::Some(mi) => mi,
        };
        if e.sockets.len() > 1 {
            e.sockets.remove(mi);
            let ghost e2 = e;
            self.users.insert(ui, e);
            proof {
                assert(self.users@ =~= pre.users@.update(ui as int, e2));
                self.lemma_users_after_remove(pre, ui as int, mi as int, 1, user_id@, socket_id@);
            }
        } else {
            proof {
                assert(self.users@ =~= pre.users@.remove(ui as int));
                assert(mi as int == 0);
                self.lemma_users_after_remove(pre, ui as int, 0, 2, user_id@, socket_id@);
            }
        }
    }

    /// After one socket left a user entry (`shape` 1) or the entry went
    /// (`shape` 2), the invariant holds and the user index shrank by
    /// exactly `(user, sid)`.
    proof fn lemma_users_after_remove(
        self,
        pre: Namespace,
        ui0: int,
        mi0: int,
        shape: int,
        user: Seq<char>,
        sid: Seq<char>,
    )
        requires
            pre.wf(),
            self.sockets@ == pre.sockets@,
            self.channels@ == pre.channels@,
            shape == 1 || shape == 2,
            shape == 1 ==> 0 <= ui0 < pre.users@.len() && pre.users@[ui0].user_id@ == user
                && self.users@ == pre.users@.update(ui0, self.users@[ui0])
                && self.users@[ui0].user_id@ == user && pre.users@[ui0].sockets@.len() >= 2 && 0
                <= mi0 < pre.users@[ui0].sockets@.len() && pre.users@[ui0].sockets@[mi0]@ == sid
                && self.users@[ui0].sockets@ == pre.users@[ui0].sockets@.remove(mi0),
            shape == 2 ==> 0 <= ui0 < pre.users@.len() && pre.users@[ui0].user_id@ == user
                && pre.users@[ui0].sockets@.len() == 1 && pre.users@[ui0].sockets@[0]@ == sid
                && self.users@ == pre.users@.remove(ui0),
        ensures
            self.wf(),
            forall|u: Seq<char>, s: Seq<char>|
                #[trigger] self.spec_user_socket(u, s) == (pre.spec_user_socket(u, s) && !(u
                    == user && s == sid)),
            forall|c: Seq<char>, s: Seq<char>|
                #[trigger] self.spec_is_member(c, s) == pre.spec_is_member(c, s),
            forall|c: Seq<char>| #[trigger]
                self.spec_channel_count(c) == pre.spec_channel_count(c),
            forall|s: Seq<char>, c: Seq<char>|
                #[trigger] self.spec_subscribed(s, c) == pre.spec_subscribed(s, c),
            forall|s: Seq<char>| #[trigger] self.spec_has_socket(s) == pre.spec_has_socket(s),
            self.spec_socket_count() == pre.spec_socket_count(),
    {
        assert forall|u: Seq<char>, s: Seq<char>| #[trigger]
            self.spec_user_socket(u, s) == (pre.spec_user_socket(u, s) && !(u == user && s == sid))
            by {
            if shape == 1 {
                let pm = pre.users@[ui0].sockets@;
                let nm = self.users@[ui0].sockets@;
                if self.spec_user_socket(u, s) {
                    let ui = choose|ui: int|
                        0 <= ui < self.users@.len() && self.users@[ui].user_id@ == u
                            && user_entry_has_sid(self.users@[ui], s);
                    let mi = choose|mi: int|
                        0 <= mi < self.users@[ui].sockets@.len() && self.users@[ui].sockets@[mi]@
                            == s;
                    if ui != ui0 {
                        assert(self.users@[ui] == pre.users@[ui]);
                        assert(pre.spec_user_socket(u, s));
                        if u == user {
                            if ui < ui0 {
                                assert(pre.users@[ui].user_id@ != pre.users@[ui0].user_id@);
                            } else {
                                assert(pre.users@[ui0].user_id@ != pre.users@[ui].user_id@);
                            }
                        }
                    } else {
                        let orig = if mi < mi0 { mi } else { mi + 1 };
                        assert(pm[orig]@ == s);
                        assert(user_entry_has_sid(pre.users@[ui0], s));
                        assert(pre.spec_user_socket(u, s));
                        if s == sid {
                            assert(orig != mi0 && pm[orig]@ == pm[mi0]@);
                            if orig < mi0 {
                                assert(pm[orig]@ != pm[mi0]@);
                            } else {
                                assert(pm[mi0]@ != pm[orig]@);
                            }
                        }
                    }
                }
                if pre.spec_user_socket(u, s) && !(u == user && s == sid) {
                    let ui = choose|ui: int|
                        0 <= ui < pre.users@.len() && pre.users@[ui].user_id@ == u
                            && user_entry_has_sid(pre.users@[ui], s);
                    let mi = choose|mi: int|
                        0 <= mi < pre.users@[ui].sockets@.len() && pre.users@[ui].sockets@[mi]@
                            == s;
                    if ui != ui0 {
                        assert(self.users@[ui] == pre.users@[ui]);
                        assert(self.spec_user_socket(u, s));
                    } else {
                        assert(u == user);
                        assert(s != sid);
                        assert(mi != mi0);
                        let post = if mi < mi0 { mi } else { mi - 1 };
                        assert(nm[post]@ == s);
                        assert(user_entry_has_sid(self.users@[ui0], s));
                        assert(self.spec_user_socket(u, s));
                    }
                }
            } else {
                if self.spec_user_socket(u, s) {
                    let ui = choose|ui: int|
                        0 <= ui < self.users@.len() && self.users@[ui].user_id@ == u
                            && user_entry_has_sid(self.users@[ui], s);
                    let orig = if ui < ui0 { ui } else { ui + 1 };
                    assert(self.users@[ui] == pre.users@[orig]);
                    assert(pre.spec_user_socket(u, s));
                    if u == user {
                        assert(orig != ui0);
                        if orig < ui0 {
                            assert(pre.users@[orig].user_id@ != pre.users@[ui0].user_id@);
                        } else {
                            assert(pre.users@[ui0].user_id@ != pre.users@[orig].user_id@);
                        }
                    }
                }
                if pre.spec_user_socket(u, s) && !(u == user && s == sid) {
                    let ui = choose|ui: int|
                        0 <= ui < pre.users@.len() && pre.users@[ui].user_id@ == u
                            && user_entry_has_sid(pre.users@[ui], s);
                    if ui == ui0 {
                        assert(u == user);
                        let mi = choose|mi: int|
                            0 <= mi < pre.users@[ui0].sockets@.len()
                                && pre.users@[ui0].sockets@[mi]@ == s;
                        assert(mi == 0);
                        assert(s == sid);
                    } else {
                        let post = if ui < ui0 { ui } else { ui - 1 };
                        assert(self.users@[post] == pre.users@[ui]);
                        assert(user_entry_has_sid(self.users@[post], s));
                        assert(self.spec_user_socket(u, s));
                    }
                }
            }
        }
        assert forall|i: int, j: int|
            0 <= i < j < self.users@.len() implies self.users@[i].user_id@
            != self.users@[j].user_id@ by {
            if shape == 2 {
                let oi = if i < ui0 { i } else { i + 1 };
                let oj = if j < ui0 { j } else { j + 1 };
                assert(self.users@[i] == pre.users@[oi]);
                assert(self.users@[j] == pre.users@[oj]);
            }
        }
        assert forall|i: int|
            0 <= i < self.users@.len() implies distinct_sids((#[trigger] self.users@[i]).sockets@)
            && self.users@[i].sockets@.len() > 0 by {
            if shape == 1 {
                if i == ui0 {
                    let pm = pre.users@[ui0].sockets@;
                    let nm = self.users@[ui0].sockets@;
                    assert forall|a: int, b: int| 0 <= a < b < nm.len() implies nm[a]@ != nm[b]@ by {
                        let oa = if a < mi0 { a } else { a + 1 };
                        let ob = if b < mi0 { b } else { b + 1 };
                        assert(nm[a] == pm[oa] && nm[b] == pm[ob]);
                    }
                } else {
                    assert(self.users@[i] == pre.users@[i]);
                }
            } else {
                let oi = if i < ui0 { i } else { i + 1 };
                assert(self.users@[i] == pre.users@[oi]);
            }
        }
        self.lemma_sockets_channels_unchanged(pre);
    }

    /// With the socket and channel lists unchanged, everything stated over
    /// them carries over, including the backing invariants.
    proof fn lemma_sockets_channels_unchanged(self, pre: Namespace)
        requires
            pre.wf(),
            self.sockets@ == pre.sockets@,
            self.channels@ == pre.channels@,
        ensures
            forall|c: Seq<char>, s: Seq<char>|
                #[trigger] self.spec_is_member(c, s) == pre.spec_is_member(c, s),
            forall|c: Seq<char>| #[trigger]
                self.spec_channel_count(c) == pre.spec_channel_count(c),
            forall|s: Seq<char>, c: Seq<char>|
                #[trigger] self.spec_subscribed(s, c) == pre.spec_subscribed(s, c),
            forall|s: Seq<char>| #[trigger] self.spec_has_socket(s) == pre.spec_has_socket(s),
            self.spec_socket_count() == pre.spec_socket_count(),
            forall|i: int, j: int|
                0 <= i < j < self.sockets@.len() ==> self.sockets@[i].socket_id@
                    != self.sockets@[j].socket_id@,
            forall|i: int| 0 <= i < self.sockets@.len() ==> (#[trigger] self.sockets@[i]).wf(),
            forall|i: int, j: int|
                0 <= i < j < self.channels@.len() ==> self.channels@[i].name@
                    != self.channels@[j].name@,
            forall|i: int|
                0 <= i < self.channels@.len() ==> (#[trigger] self.channels@[i]).members@.len() > 0
                    && distinct_sids(self.channels@[i].members@),
            forall|ci: int, mi: int|
                0 <= ci < self.channels@.len() && 0 <= mi < self.channels@[ci].members@.len()
                    ==> #[trigger] self.member_backed(ci, mi),
            forall|si: int, k: int|
                0 <= si < self.sockets@.len() && 0 <= k
                    < self.sockets@[si].subscribed_channels@.len() ==> #[trigger] self.sub_backed(
                    si,
                    k,
                ),
    {
        assert forall|ci: int, mi: int|
            0 <= ci < self.channels@.len() && 0 <= mi
                < self.channels@[ci].members@.len() implies #[trigger] self.member_backed(ci, mi) by {
            assert(pre.member_backed(ci, mi));
            let sj = choose|sj: int|
                0 <= sj < pre.sockets@.len() && pre.sockets@[sj].socket_id@
                    == pre.channels@[ci].members@[mi]@ && pre.sockets@[sj].spec_subscribed(
                    pre.channels@[ci].name@,
                );
            assert(self.sockets@[sj].socket_id@ == self.channels@[ci].members@[mi]@
                && self.sockets@[sj].spec_subscribed(self.channels@[ci].name@));
        }
        assert forall|sj: int, k: int|
            0 <= sj < self.sockets@.len() && 0 <= k
                < self.sockets@[sj].subscribed_channels@.len() implies #[trigger] self.sub_backed(
            sj,
            k,
        ) by {
            assert(pre.sub_backed(sj, k));
            let c = pre.sockets@[sj].subscribed_channels@[k]@;
            let s = pre.sockets@[sj].socket_id@;
            let ci = choose|ci: int|
                0 <= ci < pre.channels@.len() && pre.channels@[ci].name@ == c && entry_has_sid(
                    pre.channels@[ci],
                    s,
                );
            assert(self.channels@[ci].name@ == c && entry_has_sid(self.channels@[ci], s));
        }
        assert forall|c: Seq<char>, s: Seq<char>| #[trigger]
            self.spec_is_member(c, s) == pre.spec_is_member(c, s) by {
            assert(self.channels@ =~= pre.channels@);
        }
        assert forall|c: Seq<char>| #[trigger]
            self.spec_channel_count(c) == pre.spec_channel_count(c) by {
            assert(self.channels@ =~= pre.channels@);
        }
        assert forall|s: Seq<char>, c: Seq<char>| #[trigger]
            self.spec_subscribed(s, c) == pre.spec_subscribed(s, c) by {
            assert(self.sockets@ =~= pre.sockets@);
        }
        assert forall|s: Seq<char>| #[trigger]
            self.spec_has_socket(s) == pre.spec_has_socket(s) by {
            assert(self.sockets@ =~= pre.sockets@);
        }
    }

    /// Detach a user entirely, handing back the sockets that must be closed.
    pub fn terminate_user(&mut self, user_id: &str) -> (r: Vec<SocketId>)
        requires
            old(self).wf(),
        ensures
            final(self).wf(),
            forall|i: int, j: int| 0 <= i < j < r@.len() ==> r@[i]@ != r@[j]@,
            forall|i: int|
                0 <= i < r@.len() ==> old(self).spec_user_socket(user_id@, #[trigger] r@[i]@),
            forall|s: Seq<char>|
                #[trigger] old(self).spec_user_socket(user_id@, s) ==> exists|i: int|
                    0 <= i < r@.len() && r@[i]@ == s,
            forall|u: Seq<char>, s: Seq<char>|
                #[trigger] final(self).spec_user_socket(u, s) == (old(self).spec_user_socket(u, s)
                    && u != user_id@),
            forall|c: Seq<char>, s: Seq<char>|
                #[trigger] final(self).spec_is_member(c, s) == old(self).spec_is_member(c, s),
            forall|c: Seq<char>| #[trigger]
                final(self).spec_channel_count(c) == old(self).spec_channel_count(c),
            forall|s: Seq<char>, c: Seq<char>|
                #[trigger] final(self).spec_subscribed(s, c) == old(self).spec_subscribed(s, c),
            forall|s: Seq<char>|
                #[trigger] final(self).spec_has_socket(s) == old(self).spec_has_socket(s),
            final(self).spec_socket_count() == old(self).spec_socket_count(),
    {
        let ghost pre = *self;
        let ui = match self.find_user_index(user_id) {
            Option::None => {
                let r: Vec<SocketId> = Vec::new();
                proof {
                    assert forall|u: Seq<char>, s: Seq<char>| #[trigger]
                        self.spec_user_socket(u, s) == (pre.spec_user_socket(u, s) && u
                            != user_id@) by {
                        if pre.spec_user_socket(u, s) && u == user_id@ {
                            let uj = choose|uj: int|
                                0 <= uj < pre.users@.len() && pre.users@[uj].user_id@ == u
                                    && user_entry_has_sid(pre.users@[uj], s);
                            assert(false);
                        }
                    }
                    assert forall|s: Seq<char>|
                        #[trigger] pre.spec_user_socket(user_id@, s) implies exists|i: int|
                        0 <= i < r@.len() && r@[i]@ == s by {
                        let uj = choose|uj: int|
                            0 <= uj < pre.users@.len() && pre.users@[uj].user_id@ == user_id@
                                && user_entry_has_sid(pre.users@[uj], s);
                        assert(false);
                    }
                }
                return r;
            },
            Option::Some(ui) => ui,
        };
        let mut r: Vec<SocketId> = Vec::new();
        let n = self.users[ui].sockets.len();
        let mut i: usize = 0;
        while i < n
            invariant
                i <= n,
                ui < self.users@.len(),
                n == self.users@[ui as int].sockets@.len(),
                r@.len() == i,
                forall|k: int|
                    0 <= k < i ==> #[trigger] r@[k]@ == self.users@[ui as int].sockets@[k]@,
            decreases n - i,
        {
            r.push(SocketId(String::from_str(self.users[ui].sockets[i].as_str())));
            i += 1;
        }
        self.users.remove(ui);
        proof {
            assert(self.users@ =~= pre.users@.remove(ui as int));
            assert forall|a: int, b: int| 0 <= a < b < r@.len() implies r@[a]@ != r@[b]@ by {
                assert(distinct_sids(pre.users@[ui as int].sockets@));
                assert(r@[a]@ == pre.users@[ui as int].sockets@[a]@);
                assert(r@[b]@ == pre.users@[ui as int].sockets@[b]@);
            }
            assert forall|k: int|
                0 <= k < r@.len() implies pre.spec_user_socket(user_id@, #[trigger] r@[k]@) by {
                assert(pre.users@[ui as int].sockets@[k]@ == r@[k]@);
                assert(user_entry_has_sid(pre.users@[ui as int], r@[k]@));
            }
            assert forall|s: Seq<char>|
                #[trigger] pre.spec_user_socket(user_id@, s) implies exists|i2: int|
                0 <= i2 < r@.len() && r@[i2]@ == s by {
                let uj = choose|uj: int|
                    0 <= uj < pre.users@.len() && pre.users@[uj].user_id@ == user_id@
                        && user_entry_has_sid(pre.users@[uj], s);
                if uj != ui as int {
                    if uj < ui as int {
                        assert(pre.users@[uj].user_id@ != pre.users@[ui as int].user_id@);
                    } else {
                        assert(pre.users@[ui as int].user_id@ != pre.users@[uj].user_id@);
                    }
                }
                let mj = choose|mj: int|
                    0 <= mj < pre.users@[ui as int].sockets@.len() && pre.users@[ui as int
                    ].sockets@[mj]@ == s;
                assert(r@[mj]@ == s);
            }
            assert forall|u: Seq<char>, s: Seq<char>| #[trigger]
                self.spec_user_socket(u, s) == (pre.spec_user_socket(u, s) && u != user_id@) by {
                if self.spec_user_socket(u, s) {
                    let uj = choose|uj: int|
                        0 <= uj < self.users@.len() && self.users@[uj].user_id@ == u
                            && user_entry_has_sid(self.users@[uj], s);
                    let orig = if uj < ui as int { uj } else { uj + 1 };
                    assert(self.users@[uj] == pre.users@[orig]);
                    assert(pre.spec_user_socket(u, s));
                    if u == user_id@ {
                        assert(orig != ui as int);
                        if orig < ui as int {
                            assert(pre.users@[orig].user_id@ != pre.users@[ui as int].user_id@);
                        } else {
                            assert(pre.users@[ui as int].user_id@ != pre.users@[orig].user_id@);
                        }
                    }
                }
                if pre.spec_user_socket(u, s) && u != user_id@ {
                    let uj = choose|uj: int|
                        0 <= uj < pre.users@.len() && pre.users@[uj].user_id@ == u
                            && user_entry_has_sid(pre.users@[uj], s);
                    assert(uj != ui as int);
                    let post = if uj < ui as int { uj } else { uj - 1 };
                    assert(self.users@[post] == pre.users@[uj]);
                    assert(user_entry_has_sid(self.users@[post], s));
                    assert(self.spec_user_socket(u, s));
                }
            }
            assert forall|i2: int, j2: int|
                0 <= i2 < j2 < self.users@.len() implies self.users@[i2].user_id@
                != self.users@[j2].user_id@ by {
                let oi = if i2 < ui as int { i2 } else { i2 + 1 };
                let oj = if j2 < ui as int { j2 } else { j2 + 1 };
                assert(self.users@[i2] == pre.users@[oi]);
                assert(self.users@[j2] == pre.users@[oj]);
            }
            assert forall|i2: int|
                0 <= i2 < self.users@.len() implies distinct_sids(
                (#[trigger] self.users@[i2]).sockets@,
            ) && self.users@[i2].sockets@.len() > 0 by {
                let oi = if i2 < ui as int { i2 } else { i2 + 1 };
                assert(self.users@[i2] == pre.users@[oi]);
            }
            self.lemma_sockets_channels_unchanged(pre);
        }
        r
    }

    /// A snapshot of every channel with its member count.
    pub fn get_channels_with_counts(&self) -> (r: Vec<(String, usize)>)
        requires
            self.wf(),
        ensures
            forall|i: int|
                0 <= i < r@.len() ==> self.spec_has_channel(#[trigger] r@[i].0@) && r@[i].1
                    == self.spec_channel_count(r@[i].0@),
            forall|i: int, j: int| 0 <= i < j < r@.len() ==> r@[i].0@ != r@[j].0@,
            forall|c: Seq<char>|
                #[trigger] self.spec_has_channel(c) ==> exists|i: int|
                    0 <= i < r@.len() && r@[i].0@ == c,
    {
        let mut r: Vec<(String, usize)> = Vec::new();
        let n = self.channels.len();
        let mut i: usize = 0;
        while i < n
            invariant
                self.wf(),
                i <= n,
                n == self.channels@.len(),
                r@.len() == i,
                forall|k: int|
                    0 <= k < i ==> #[trigger] r@[k].0@ == self.channels@[k].name@ && r@[k].1
                        == self.channels@[k].members@.len(),
            decreases n - i,
        {
            let name = String::from_str(self.channels[i].name.as_str());
            let cnt = self.channels[i].members.len();
            r.push((name, cnt));
            i += 1;
        }
        proof {
            assert forall|k: int|
                0 <= k < r@.len() implies self.spec_has_channel(#[trigger] r@[k].0@) && r@[k].1
                == self.spec_channel_count(r@[k].0@) by {
                self.lemma_channel_index_unique_pre(k, r@[k].0@);
            }
            assert forall|a: int, b: int| 0 <= a < b < r@.len() implies r@[a].0@ != r@[b].0@ by {
                assert(r@[a].0@ == self.channels@[a].name@);
                assert(r@[b].0@ == self.channels@[b].name@);
            }
            assert forall|c: Seq<char>|
                #[trigger] self.spec_has_channel(c) implies exists|i2: int|
                0 <= i2 < r@.len() && r@[i2].0@ == c by {
                let ci = choose|ci: int|
                    0 <= ci < self.channels@.len() && self.channels@[ci].name@ == c;
                assert(r@[ci].0@ == c);
            }
        }
        r
    }


    /// For a known socket, the namespace-level subscription predicate and
    /// the stored connection's own list agree.
    pub proof fn lemma_subscribed_via_socket(self, sid: Seq<char>, c: Seq<char>)
        requires
            self.wf(),
            self.spec_has_socket(sid),
        ensures
            self.spec_subscribed(sid, c) == self.spec_socket(sid).spec_subscribed(c),
    {
        let si = self.spec_socket_index(sid);
        assert(0 <= si < self.sockets@.len() && self.sockets@[si].socket_id@ == sid);
        if self.spec_subscribed(sid, c) {
            let sj = choose|sj: int|
                0 <= sj < self.sockets@.len() && self.sockets@[sj].socket_id@ == sid
                    && self.sockets@[sj].spec_subscribed(c);
            if sj != si {
                if sj < si {
                    assert(self.sockets@[sj].socket_id@ != self.sockets@[si].socket_id@);
                } else {
                    assert(self.sockets@[si].socket_id@ != self.sockets@[sj].socket_id@);
                }
            }
        }
    }

    /// A socket subscribed to nothing stores an empty channel list.
    pub proof fn lemma_empty_socket_count(self, sid: Seq<char>)
        requires
            self.wf(),
            self.spec_has_socket(sid),
            forall|c: Seq<char>| !self.spec_subscribed(sid, c),
        ensures
            self.spec_socket(sid).spec_channel_count() == 0,
    {
        let si = self.spec_socket_index(sid);
        assert(0 <= si < self.sockets@.len() && self.sockets@[si].socket_id@ == sid);
        if self.sockets@[si].subscribed_channels@.len() > 0 {
            let c = self.sockets@[si].subscribed_channels@[0]@;
            assert(self.sockets@[si].spec_subscribed(c));
            assert(self.spec_subscribed(sid, c));
        }
    }


    /// Whether the stored connection of `socket_id` lists `channel`.
    pub fn is_subscribed(&self, socket_id: &str, channel: &str) -> (r: bool)
        requires
            self.wf(),
        ensures
            r == self.spec_subscribed(socket_id@, channel@),
    {
        match self.find_socket_index(socket_id) {
            Option::None => {
                proof {
                    if self.spec_subscribed(socket_id@, channel@) {
                        let i = choose|i: int|
                            0 <= i < self.sockets@.len() && self.sockets@[i].socket_id@
                                == socket_id@ && self.sockets@[i].spec_subscribed(channel@);
                        assert(self.spec_has_socket(socket_id@));
                    }
                }
                false
            },
            Option::Some(si) => {
                proof {
                    self.lemma_socket_index_unique(socket_id@, si as int);
                    self.lemma_subscribed_via_socket(socket_id@, channel@);
                }
                self.sockets[si].is_subscribed(channel)
            },
        }
    }

    /// How many channels the stored connection of `socket_id` lists.
    pub fn socket_channel_count(&self, socket_id: &str) -> (r: Option<usize>)
        requires
            self.wf(),
        ensures
            match r {
                Option::Some(n) => self.spec_has_socket(socket_id@) && n == self.spec_socket(
                    socket_id@,
                ).spec_channel_count(),
                Option::None => !self.spec_has_socket(socket_id@),
            },
    {
        match self.find_socket_index(socket_id) {
            Option::None => Option::None,
            Option::Some(si) => {
                proof {
                    self.lemma_socket_index_unique(socket_id@, si as int);
                }
                Option::Some(self.sockets[si].subscribed_channels.len())
            },
        }
    }


    /// A positive count comes only from an existing channel entry.
    pub proof fn lemma_count_implies_channel(self, ch: Seq<char>)
        requires
            self.spec_channel_count(ch) > 0,
        ensures
            self.spec_has_channel(ch),
    {
    }

    /// A channel entry exists only while it holds members.
    pub proof fn lemma_has_channel_nonempty(self, ch: Seq<char>)
        requires
            self.wf(),
            self.spec_has_channel(ch),
        ensures
            self.spec_channel_count(ch) >= 1,
    {
        let ci = self.spec_channel_index(ch);
        assert(0 <= ci < self.channels@.len() && self.channels@[ci].name@ == ch);
        assert(self.channels@[ci].members@.len() > 0);
    }

    /// A channel that lists some socket holds at least one member.
    pub proof fn lemma_member_implies_nonempty(self, ch: Seq<char>, sid: Seq<char>)
        requires
            self.wf(),
            self.spec_is_member(ch, sid),
        ensures
            self.spec_channel_count(ch) >= 1,
    {
        let ci = choose|ci: int|
            0 <= ci < self.channels@.len() && self.channels@[ci].name@ == ch && entry_has_sid(
                self.channels@[ci],
                sid,
            );
        self.lemma_channel_index_unique_pre(ci, ch);
    }


    /// Subscribing a socket to a channel it was not on, then unsubscribing
    /// it, leaves the namespace indistinguishable from the initial state:
    /// every membership, subscription, count and user binding reads as
    /// before.
    pub proof fn lemma_subscribe_unsubscribe_round_trip(
        ns0: Namespace,
        ns1: Namespace,
        ns2: Namespace,
        sid: Seq<char>,
        ch: Seq<char>,
    )
        requires
            ns0.wf(),
            !ns0.spec_is_member(ch, sid),
            forall|c: Seq<char>, s: Seq<char>|
                #[trigger] ns1.spec_is_member(c, s) == (ns0.spec_is_member(c, s) || (c == ch && s
                    == sid)),
            forall|s: Seq<char>, c: Seq<char>|
                #[trigger] ns1.spec_subscribed(s, c) == (ns0.spec_subscribed(s, c) || (s == sid
                    && c == ch)),
            forall|s: Seq<char>| #[trigger] ns1.spec_has_socket(s) == ns0.spec_has_socket(s),
            ns1.spec_socket_count() == ns0.spec_socket_count(),
            ns1.spec_channel_count(ch) == ns0.spec_channel_count(ch) + 1,
            forall|c: Seq<char>|
                c != ch ==> #[trigger] ns1.spec_channel_count(c) == ns0.spec_channel_count(c),
            forall|u: Seq<char>, s: Seq<char>|
                #[trigger] ns1.spec_user_socket(u, s) == ns0.spec_user_socket(u, s),
            forall|c: Seq<char>, s: Seq<char>|
                #[trigger] ns2.spec_is_member(c, s) == (ns1.spec_is_member(c, s) && !(c == ch && s
                    == sid)),
            forall|s: Seq<char>, c: Seq<char>|
                #[trigger] ns2.spec_subscribed(s, c) == (ns1.spec_subscribed(s, c) && !(s == sid
                    && c == ch)),
            forall|s: Seq<char>| #[trigger] ns2.spec_has_socket(s) == ns1.spec_has_socket(s),
            ns2.spec_socket_count() == ns1.spec_socket_count(),
            ns2.spec_channel_count(ch) == ns1.spec_channel_count(ch) - 1,
            forall|c: Seq<char>|
                c != ch ==> #[trigger] ns2.spec_channel_count(c) == ns1.spec_channel_count(c),
            forall|u: Seq<char>, s: Seq<char>|
                #[trigger] ns2.spec_user_socket(u, s) == ns1.spec_user_socket(u, s),
        ensures
            forall|c: Seq<char>, s: Seq<char>|
                #[trigger] ns2.spec_is_member(c, s) == ns0.spec_is_member(c, s),
            forall|s: Seq<char>, c: Seq<char>|
                #[trigger] ns2.spec_subscribed(s, c) == ns0.spec_subscribed(s, c),
            forall|s: Seq<char>| #[trigger] ns2.spec_has_socket(s) == ns0.spec_has_socket(s),
            ns2.spec_socket_count() == ns0.spec_socket_count(),
            forall|c: Seq<char>|
                #[trigger] ns2.spec_channel_count(c) == ns0.spec_channel_count(c),
            forall|u: Seq<char>, s: Seq<char>|
                #[trigger] ns2.spec_user_socket(u, s) == ns0.spec_user_socket(u, s),
    {
        ns0.lemma_bidirectional_consistency(ch, sid);
        assert forall|s: Seq<char>, c: Seq<char>| #[trigger]
            ns2.spec_subscribed(s, c) == ns0.spec_subscribed(s, c) by {
            if s == sid && c == ch {
                assert(!ns0.spec_subscribed(sid, ch) || ns0.spec_is_member(ch, sid));
            }
        }
    }


    /// Only a registered socket can be subscribed to anything.
    pub proof fn lemma_subscribed_implies_socket(self, sid: Seq<char>, c: Seq<char>)
        requires
            self.spec_subscribed(sid, c),
        ensures
            self.spec_has_socket(sid),
    {
        let si = choose|si: int|
            0 <= si < self.sockets@.len() && self.sockets@[si].socket_id@ == sid
                && self.sockets@[si].spec_subscribed(c);
        assert(self.sockets@[si].socket_id@ == sid);
    }

    /// Every stored connection is itself well-formed.
    pub proof fn lemma_socket_wf(self, sid: Seq<char>)
        requires
            self.wf(),
            self.spec_has_socket(sid),
        ensures
            self.spec_socket(sid).wf(),
    {
        let si = self.spec_socket_index(sid);
        assert(0 <= si < self.sockets@.len() && self.sockets@[si].socket_id@ == sid);
        assert(self.sockets@[si].wf());
    }


    /// Bind a signed-in user to a known socket: the stored connection
    /// learns its user id, and the user index gains the socket.
    pub fn bind_user(&mut self, socket_id: &str, user_id: &str) -> (r: bool)
        requires
            old(self).wf(),
        ensures
            final(self).wf(),
            r == old(self).spec_has_socket(socket_id@),
            !r ==> *final(self) == *old(self),
            r ==> forall|u: Seq<char>, s: Seq<char>|
                #[trigger] final(self).spec_user_socket(u, s) == (old(self).spec_user_socket(u, s)
                    || (u == user_id@ && s == socket_id@)),
            r ==> (match final(self).spec_socket(socket_id@).user_id {
                Option::Some(u) => u@ == user_id@,
                Option::None => false,
            }),
            forall|s: Seq<char>|
                #[trigger] final(self).spec_has_socket(s) == old(self).spec_has_socket(s),
            final(self).spec_socket_count() == old(self).spec_socket_count(),
            forall|c: Seq<char>, s: Seq<char>|
                #[trigger] final(self).spec_is_member(c, s) == old(self).spec_is_member(c, s),
            forall|c: Seq<char>| #[trigger]
                final(self).spec_channel_count(c) == old(self).spec_channel_count(c),
            forall|s: Seq<char>, c: Seq<char>|
                #[trigger] final(self).spec_subscribed(s, c) == old(self).spec_subscribed(s, c),
    {
        match self.find_socket_index(socket_id) {
            Option::None => {
                return false;
            },
            Option::Some(_) => {},
        };
        let ghost pre0 = *self;
        self.add_user_socket(user_id, socket_id);
        let si = match self.find_socket_index(socket_id) {
            Option::None => {
                proof {
                    assert(false);
                }
                return false;
            },
            Option::Some(si) => si,
        };
        let ghost pre = *self;
        proof {
            pre.lemma_socket_index_unique(socket_id@, si as int);
        }
        let mut conn = self.sockets.remove(si);
        conn.user_id = Option::Some(String::from_str(user_id));
        let ghost conn2 = conn;
        self.sockets.insert(si, conn);
        proof {
            assert(self.sockets@ =~= pre.sockets@.update(si as int, conn2));
            assert(conn2.socket_id@ == socket_id@);
            assert(conn2.subscribed_channels == pre.sockets@[si as int].subscribed_channels);
            assert forall|s: Seq<char>| #[trigger]
                self.spec_has_socket(s) == pre.spec_has_socket(s) by {
                if self.spec_has_socket(s) {
                    let i = choose|i: int|
                        0 <= i < self.sockets@.len() && self.sockets@[i].socket_id@ == s;
                    assert(pre.sockets@[i].socket_id@ == s);
                }
                if pre.spec_has_socket(s) {
                    let i = choose|i: int|
                        0 <= i < pre.sockets@.len() && pre.sockets@[i].socket_id@ == s;
                    assert(self.sockets@[i].socket_id@ == s);
                }
            }
            assert forall|s: Seq<char>, c: Seq<char>| #[trigger]
                self.spec_subscribed(s, c) == pre.spec_subscribed(s, c) by {
                if self.spec_subscribed(s, c) {
                    let i = choose|i: int|
                        0 <= i < self.sockets@.len() && self.sockets@[i].socket_id@ == s
                            && self.sockets@[i].spec_subscribed(c);
                    if i == si as int {
                        assert(pre.sockets@[i].spec_subscribed(c));
                    }
                    assert(pre.sockets@[i].socket_id@ == s && pre.sockets@[i].spec_subscribed(c));
                }
                if pre.spec_subscribed(s, c) {
                    let i = choose|i: int|
                        0 <= i < pre.sockets@.len() && pre.sockets@[i].socket_id@ == s
                            && pre.sockets@[i].spec_subscribed(c);
                    if i == si as int {
                        assert(conn2.spec_subscribed(c));
                    }
                    assert(self.sockets@[i].socket_id@ == s && self.sockets@[i].spec_subscribed(
                        c,
                    ));
                }
            }
            assert forall|c: Seq<char>, s: Seq<char>| #[trigger]
                self.spec_is_member(c, s) == pre.spec_is_member(c, s) by {
                assert(self.channels@ =~= pre.channels@);
            }
            assert forall|c: Seq<char>| #[trigger]
                self.spec_channel_count(c) == pre.spec_channel_count(c) by {
                assert(self.channels@ =~= pre.channels@);
            }
            assert forall|u: Seq<char>, s: Seq<char>| #[trigger]
                self.spec_user_socket(u, s) == pre.spec_user_socket(u, s) by {
                assert(self.users@ =~= pre.users@);
            }
            // invariant: members stay backed, subscriptions stay backed
            assert forall|ci: int, mi: int|
                0 <= ci < self.channels@.len() && 0 <= mi
                    < self.channels@[ci].members@.len() implies #[trigger] self.member_backed(
                ci,
                mi,
            ) by {
                assert(pre.member_backed(ci, mi));
                let sj = choose|sj: int|
                    0 <= sj < pre.sockets@.len() && pre.sockets@[sj].socket_id@
                        == pre.channels@[ci].members@[mi]@ && pre.sockets@[sj].spec_subscribed(
                        pre.channels@[ci].name@,
                    );
                if sj == si as int {
                    assert(conn2.spec_subscribed(pre.channels@[ci].name@));
                }
                assert(self.sockets@[sj].socket_id@ == self.channels@[ci].members@[mi]@
                    && self.sockets@[sj].spec_subscribed(self.channels@[ci].name@));
            }
            assert forall|sj: int, k: int|
                0 <= sj < self.sockets@.len() && 0 <= k
                    < self.sockets@[sj].subscribed_channels@.len() implies #[trigger] self.sub_backed(
                sj,
                k,
            ) by {
                if sj == si as int {
                    assert(pre.sub_backed(sj, k));
                    assert(pre.spec_is_member(
                        pre.sockets@[sj].subscribed_channels@[k]@,
                        pre.sockets@[sj].socket_id@,
                    ));
                    assert(self.sockets@[sj].subscribed_channels@[k]@
                        == pre.sockets@[sj].subscribed_channels@[k]@);
                } else {
                    assert(self.sockets@[sj] == pre.sockets@[sj]);
                    assert(pre.sub_backed(sj, k));
                }
                assert(self.spec_is_member(
                    self.sockets@[sj].subscribed_channels@[k]@,
                    self.sockets@[sj].socket_id@,
                ));
            }
            assert forall|i: int, j: int|
                0 <= i < j < self.sockets@.len() implies self.sockets@[i].socket_id@
                != self.sockets@[j].socket_id@ by {
                assert(self.sockets@[i].socket_id@ == pre.sockets@[i].socket_id@);
                assert(self.sockets@[j].socket_id@ == pre.sockets@[j].socket_id@);
            }
            assert forall|i: int|
                0 <= i < self.sockets@.len() implies (#[trigger] self.sockets@[i]).wf() by {
                if i != si as int {
                    assert(self.sockets@[i] == pre.sockets@[i]);
                }
            }
        }
        proof {
            self.lemma_socket_index_unique(socket_id@, si as int);
            assert(self.spec_socket(socket_id@) == conn2);
            assert forall|u: Seq<char>, s: Seq<char>| #[trigger]
                self.spec_user_socket(u, s) == (pre0.spec_user_socket(u, s) || (u == user_id@ && s
                    == socket_id@)) by {
                assert(self.spec_user_socket(u, s) == pre.spec_user_socket(u, s));
            }
        }
        true
    }


    /// Replacing the stored connection at `si` with one that keeps its id
    /// and subscription list preserves the invariant and everything the
    /// other contracts speak of.
    proof fn lemma_socket_payload_update(self, pre: Namespace, si: int, conn2: ConnectionState)
        requires
            pre.wf(),
            0 <= si < pre.sockets@.len(),
            conn2.socket_id@ == pre.sockets@[si].socket_id@,
            conn2.subscribed_channels == pre.sockets@[si].subscribed_channels,
            self.sockets@ == pre.sockets@.update(si, conn2),
            self.channels@ == pre.channels@,
            self.users@ == pre.users@,
        ensures
            self.wf(),
            forall|s: Seq<char>| #[trigger] self.spec_has_socket(s) == pre.spec_has_socket(s),
            self.spec_socket_count() == pre.spec_socket_count(),
            forall|s: Seq<char>, c: Seq<char>|
                #[trigger] self.spec_subscribed(s, c) == pre.spec_subscribed(s, c),
            forall|c: Seq<char>, s: Seq<char>|
                #[trigger] self.spec_is_member(c, s) == pre.spec_is_member(c, s),
            forall|c: Seq<char>| #[trigger]
                self.spec_channel_count(c) == pre.spec_channel_count(c),
            forall|u: Seq<char>, s: Seq<char>|
                #[trigger] self.spec_user_socket(u, s) == pre.spec_user_socket(u, s),
            forall|s: Seq<char>, c: Seq<char>, u: Seq<char>|
                s != conn2.socket_id@ ==> #[trigger] self.spec_presence_record(s, c, u)
                    == pre.spec_presence_record(s, c, u),
    {
        assert(conn2.wf()) by {
            assert(pre.sockets@[si].wf());
        }
        assert forall|s: Seq<char>| #[trigger]
            self.spec_has_socket(s) == pre.spec_has_socket(s) by {
            if self.spec_has_socket(s) {
                let i = choose|i: int|
                    0 <= i < self.sockets@.len() && self.sockets@[i].socket_id@ == s;
                assert(pre.sockets@[i].socket_id@ == s);
            }
            if pre.spec_has_socket(s) {
                let i = choose|i: int|
                    0 <= i < pre.sockets@.len() && pre.sockets@[i].socket_id@ == s;
                assert(self.sockets@[i].socket_id@ == s);
            }
        }
        assert forall|s: Seq<char>, c: Seq<char>| #[trigger]
            self.spec_subscribed(s, c) == pre.spec_subscribed(s, c) by {
            if self.spec_subscribed(s, c) {
                let i = choose|i: int|
                    0 <= i < self.sockets@.len() && self.sockets@[i].socket_id@ == s
                        && self.sockets@[i].spec_subscribed(c);
                if i == si {
                    assert(pre.sockets@[i].spec_subscribed(c));
                }
                assert(pre.sockets@[i].socket_id@ == s && pre.sockets@[i].spec_subscribed(c));
            }
            if pre.spec_subscribed(s, c) {
                let i = choose|i: int|
                    0 <= i < pre.sockets@.len() && pre.sockets@[i].socket_id@ == s
                        && pre.sockets@[i].spec_subscribed(c);
                if i == si {
                    assert(conn2.spec_subscribed(c));
                }
                assert(self.sockets@[i].socket_id@ == s && self.sockets@[i].spec_subscribed(c));
            }
        }
        assert forall|c: Seq<char>, s: Seq<char>| #[trigger]
            self.spec_is_member(c, s) == pre.spec_is_member(c, s) by {
            assert(self.channels@ =~= pre.channels@);
        }
        assert forall|c: Seq<char>| #[trigger]
            self.spec_channel_count(c) == pre.spec_channel_count(c) by {
            assert(self.channels@ =~= pre.channels@);
        }
        assert forall|u: Seq<char>, s: Seq<char>| #[trigger]
            self.spec_user_socket(u, s) == pre.spec_user_socket(u, s) by {
            assert(self.users@ =~= pre.users@);
        }
        assert forall|s: Seq<char>, c: Seq<char>, u: Seq<char>|
            s != conn2.socket_id@ implies #[trigger] self.spec_presence_record(s, c, u)
            == pre.spec_presence_record(s, c, u) by {
            if self.spec_presence_record(s, c, u) {
                let i = choose|i: int|
                    0 <= i < self.sockets@.len() && self.sockets@[i].socket_id@ == s && pres_has(
                        self.sockets@[i].presence@,
                        c,
                        u,
                    );
                assert(i != si);
                assert(pre.sockets@[i].socket_id@ == s && pres_has(
                    pre.sockets@[i].presence@,
                    c,
                    u,
                ));
            }
            if pre.spec_presence_record(s, c, u) {
                let i = choose|i: int|
                    0 <= i < pre.sockets@.len() && pre.sockets@[i].socket_id@ == s && pres_has(
                        pre.sockets@[i].presence@,
                        c,
                        u,
                    );
                if i == si {
                    if si < pre.sockets@.len() {
                        assert(pre.sockets@[si].socket_id@ == conn2.socket_id@);
                    }
                }
                assert(i != si);
                assert(self.sockets@[i].socket_id@ == s && pres_has(
                    self.sockets@[i].presence@,
                    c,
                    u,
                ));
            }
        }
        assert forall|ci: int, mi: int|
            0 <= ci < self.channels@.len() && 0 <= mi
                < self.channels@[ci].members@.len() implies #[trigger] self.member_backed(ci, mi) by {
            assert(pre.member_backed(ci, mi));
            let sj = choose|sj: int|
                0 <= sj < pre.sockets@.len() && pre.sockets@[sj].socket_id@
                    == pre.channels@[ci].members@[mi]@ && pre.sockets@[sj].spec_subscribed(
                    pre.channels@[ci].name@,
                );
            if sj == si {
                assert(conn2.spec_subscribed(pre.channels@[ci].name@));
            }
            assert(self.sockets@[sj].socket_id@ == self.channels@[ci].members@[mi]@
                && self.sockets@[sj].spec_subscribed(self.channels@[ci].name@));
        }
        assert forall|sj: int, k: int|
            0 <= sj < self.sockets@.len() && 0 <= k
                < self.sockets@[sj].subscribed_channels@.len() implies #[trigger] self.sub_backed(
            sj,
            k,
        ) by {
            if sj == si {
                assert(pre.sub_backed(sj, k));
                assert(pre.spec_is_member(
                    pre.sockets@[sj].subscribed_channels@[k]@,
                    pre.sockets@[sj].socket_id@,
                ));
                assert(self.sockets@[sj].subscribed_channels@[k]@
                    == pre.sockets@[sj].subscribed_channels@[k]@);
            } else {
                assert(self.sockets@[sj] == pre.sockets@[sj]);
                assert(pre.sub_backed(sj, k));
            }
            assert(self.spec_is_member(
                self.sockets@[sj].subscribed_channels@[k]@,
                self.sockets@[sj].socket_id@,
            ));
        }
        assert forall|i: int, j: int|
            0 <= i < j < self.sockets@.len() implies self.sockets@[i].socket_id@
            != self.sockets@[j].socket_id@ by {
            assert(self.sockets@[i].socket_id@ == pre.sockets@[i].socket_id@);
            assert(self.sockets@[j].socket_id@ == pre.sockets@[j].socket_id@);
        }
        assert forall|i: int|
            0 <= i < self.sockets@.len() implies (#[trigger] self.sockets@[i]).wf() by {
            if i != si {
                assert(self.sockets@[i] == pre.sockets@[i]);
            }
        }
    }

    /// Record on the stored connection which user it carries on a presence
    /// channel; any stale record for that channel gives way.
    pub fn set_presence(&mut self, socket_id: &str, channel: &str, user_id: &str, user_info:
        &str) -> (r: bool)
        requires
            old(self).wf(),
        ensures
            final(self).wf(),
            r == old(self).spec_has_socket(socket_id@),
            !r ==> *final(self) == *old(self),
            r ==> final(self).spec_presence_record(socket_id@, channel@, user_id@),
            r ==> forall|u: Seq<char>|
                u != user_id@ ==> !final(self).spec_presence_record(socket_id@, channel@, u),
            r ==> forall|c: Seq<char>, u: Seq<char>|
                c != channel@
                    ==> #[trigger] final(self).spec_presence_record(socket_id@, c, u) == old(
                    self,
                ).spec_presence_record(socket_id@, c, u),
            forall|s: Seq<char>, c: Seq<char>, u: Seq<char>|
                s != socket_id@
                    ==> #[trigger] final(self).spec_presence_record(s, c, u) == old(
                    self,
                ).spec_presence_record(s, c, u),
            forall|s: Seq<char>|
                #[trigger] final(self).spec_has_socket(s) == old(self).spec_has_socket(s),
            final(self).spec_socket_count() == old(self).spec_socket_count(),
            forall|s: Seq<char>, c: Seq<char>|
                #[trigger] final(self).spec_subscribed(s, c) == old(self).spec_subscribed(s, c),
            forall|c: Seq<char>, s: Seq<char>|
                #[trigger] final(self).spec_is_member(c, s) == old(self).spec_is_member(c, s),
            forall|c: Seq<char>| #[trigger]
                final(self).spec_channel_count(c) == old(self).spec_channel_count(c),
            forall|u: Seq<char>, s: Seq<char>|
                #[trigger] final(self).spec_user_socket(u, s) == old(self).spec_user_socket(u, s),
    {
        let si = match self.find_socket_index(socket_id) {
            Option::None => {
                return false;
            },
            Option::Some(si) => si,
        };
        let ghost pre = *self;
        proof {
            pre.lemma_socket_index_unique(socket_id@, si as int);
        }
        let mut conn = self.sockets.remove(si);
        let ghost pm = conn.presence@;
        let kept = presence_without_channel(&mut conn.presence, channel);
        let ghost kept0 = kept@;
        conn.presence = kept;
        conn.presence.push(
            PresenceData {
                channel: String::from_str(channel),
                user_id: String::from_str(user_id),
                user_info: String::from_str(user_info),
            },
        );
        let ghost conn2 = conn;
        self.sockets.insert(si, conn);
        proof {
            assert(self.sockets@ =~= pre.sockets@.update(si as int, conn2));
            self.lemma_socket_payload_update(pre, si as int, conn2);
            self.lemma_socket_index_unique(socket_id@, si as int);
            assert(self.spec_socket(socket_id@) == conn2);
            let newp = conn2.presence@;
            let last = newp.len() - 1;
            assert(newp.drop_last() =~= kept0);
            assert(newp[last].channel@ == channel@ && newp[last].user_id@ == user_id@);
            assert(pres_has(newp, channel@, user_id@));
            assert(self.spec_presence_record(socket_id@, channel@, user_id@)) by {
                assert(self.sockets@[si as int].socket_id@ == socket_id@);
            }
            assert forall|u: Seq<char>|
                u != user_id@ implies !self.spec_presence_record(socket_id@, channel@, u) by {
                if self.spec_presence_record(socket_id@, channel@, u) {
                    let i = choose|i: int|
                        0 <= i < self.sockets@.len() && self.sockets@[i].socket_id@ == socket_id@
                            && pres_has(self.sockets@[i].presence@, channel@, u);
                    if i != si as int {
                        if i < si as int {
                            assert(pre.sockets@[i].socket_id@ != pre.sockets@[si as int
                            ].socket_id@);
                        } else {
                            assert(pre.sockets@[si as int].socket_id@
                                != pre.sockets@[i].socket_id@);
                        }
                    }
                    let k = choose|k: int|
                        0 <= k < newp.len() && newp[k].channel@ == channel@ && newp[k].user_id@
                            == u;
                    if k < last {
                        assert(newp[k] == kept0[k]);
                        assert(pres_has(kept0, channel@, u));
                        assert(false);
                    }
                }
            }
            assert forall|c: Seq<char>, u: Seq<char>|
                c != channel@ implies #[trigger] self.spec_presence_record(socket_id@, c, u)
                == pre.spec_presence_record(socket_id@, c, u) by {
                if self.spec_presence_record(socket_id@, c, u) {
                    let i = choose|i: int|
                        0 <= i < self.sockets@.len() && self.sockets@[i].socket_id@ == socket_id@
                            && pres_has(self.sockets@[i].presence@, c, u);
                    if i != si as int {
                        if i < si as int {
                            assert(pre.sockets@[i].socket_id@ != pre.sockets@[si as int
                            ].socket_id@);
                        } else {
                            assert(pre.sockets@[si as int].socket_id@
                                != pre.sockets@[i].socket_id@);
                        }
                    }
                    let k = choose|k: int|
                        0 <= k < newp.len() && newp[k].channel@ == c && newp[k].user_id@ == u;
                    assert(k < last);
                    assert(newp[k] == kept0[k]);
                    assert(pres_has(kept0, c, u));
                    assert(pres_has(pm, c, u));
                    assert(pre.spec_presence_record(socket_id@, c, u)) by {
                        assert(pre.sockets@[si as int].socket_id@ == socket_id@);
                    }
                } else {
                    if pre.spec_presence_record(socket_id@, c, u) {
                        let i = choose|i: int|
                            0 <= i < pre.sockets@.len() && pre.sockets@[i].socket_id@
                                == socket_id@ && pres_has(pre.sockets@[i].presence@, c, u);
                        if i != si as int {
                            if i < si as int {
                                assert(pre.sockets@[i].socket_id@ != pre.sockets@[si as int
                                ].socket_id@);
                            } else {
                                assert(pre.sockets@[si as int].socket_id@
                                    != pre.sockets@[i].socket_id@);
                            }
                        }
                        assert(pres_has(pm, c, u));
                        assert(pres_has(kept0, c, u));
                        let k = choose|k: int|
                            0 <= k < kept0.len() && kept0[k].channel@ == c && kept0[k].user_id@
                                == u;
                        assert(newp[k] == kept0[k]);
                        assert(pres_has(newp, c, u));
                        assert(self.spec_presence_record(socket_id@, c, u)) by {
                            assert(self.sockets@[si as int].socket_id@ == socket_id@);
                        }
                    }
                }
            }
        }
        true
    }

    /// Clear the presence record a socket carries for a channel.
    pub fn remove_presence(&mut self, socket_id: &str, channel: &str)
        requires
            old(self).wf(),
        ensures
            final(self).wf(),
            forall|u: Seq<char>| !final(self).spec_presence_record(socket_id@, channel@, u),
            forall|s: Seq<char>, c: Seq<char>, u: Seq<char>|
                !(s == socket_id@ && c == channel@)
                    ==> #[trigger] final(self).spec_presence_record(s, c, u) == old(
                    self,
                ).spec_presence_record(s, c, u),
            forall|s: Seq<char>|
                #[trigger] final(self).spec_has_socket(s) == old(self).spec_has_socket(s),
            final(self).spec_socket_count() == old(self).spec_socket_count(),
            forall|s: Seq<char>, c: Seq<char>|
                #[trigger] final(self).spec_subscribed(s, c) == old(self).spec_subscribed(s, c),
            forall|c: Seq<char>, s: Seq<char>|
                #[trigger] final(self).spec_is_member(c, s) == old(self).spec_is_member(c, s),
            forall|c: Seq<char>| #[trigger]
                final(self).spec_channel_count(c) == old(self).spec_channel_count(c),
            forall|u: Seq<char>, s: Seq<char>|
                #[trigger] final(self).spec_user_socket(u, s) == old(self).spec_user_socket(u, s),
    {
        let si = match self.find_socket_index(socket_id) {
            Option::None => {
                proof {
                    assert forall|u: Seq<char>|
                        !self.spec_presence_record(socket_id@, channel@, u) by {
                        if self.spec_presence_record(socket_id@, channel@, u) {
                            let i = choose|i: int|
                                0 <= i < self.sockets@.len() && self.sockets@[i].socket_id@
                                    == socket_id@ && pres_has(
                                    self.sockets@[i].presence@,
                                    channel@,
                                    u,
                                );
                            assert(self.spec_has_socket(socket_id@));
                        }
                    }
                }
                return;
            },
            Option::Some(si) => si,
        };
        let ghost pre = *self;
        proof {
            pre.lemma_socket_index_unique(socket_id@, si as int);
        }
        let mut conn = self.sockets.remove(si);
        let ghost pm = conn.presence@;
        let kept = presence_without_channel(&mut conn.presence, channel);
        let ghost kept0 = kept@;
        conn.presence = kept;
        let ghost conn2 = conn;
        self.sockets.insert(si, conn);
        proof {
            assert(self.sockets@ =~= pre.sockets@.update(si as int, conn2));
            self.lemma_socket_payload_update(pre, si as int, conn2);
            let newp = conn2.presence@;
            assert(newp == kept0);
            assert forall|u: Seq<char>|
                !self.spec_presence_record(socket_id@, channel@, u) by {
                if self.spec_presence_record(socket_id@, channel@, u) {
                    let i = choose|i: int|
                        0 <= i < self.sockets@.len() && self.sockets@[i].socket_id@ == socket_id@
                            && pres_has(self.sockets@[i].presence@, channel@, u);
                    if i != si as int {
                        if i < si as int {
                            assert(pre.sockets@[i].socket_id@ != pre.sockets@[si as int
                            ].socket_id@);
                        } else {
                            assert(pre.sockets@[si as int].socket_id@
                                != pre.sockets@[i].socket_id@);
                        }
                    }
                    assert(pres_has(kept0, channel@, u));
                    assert(false);
                }
            }
            assert forall|c: Seq<char>, u: Seq<char>|
                c != channel@ implies #[trigger] self.spec_presence_record(socket_id@, c, u)
                == pre.spec_presence_record(socket_id@, c, u) by {
                if self.spec_presence_record(socket_id@, c, u) {
                    let i = choose|i: int|
                        0 <= i < self.sockets@.len() && self.sockets@[i].socket_id@ == socket_id@
                            && pres_has(self.sockets@[i].presence@, c, u);
                    if i != si as int {
                        if i < si as int {
                            assert(pre.sockets@[i].socket_id@ != pre.sockets@[si as int
                            ].socket_id@);
                        } else {
                            assert(pre.sockets@[si as int].socket_id@
                                != pre.sockets@[i].socket_id@);
                        }
                    }
                    assert(pres_has(pm, c, u));
                    assert(pre.spec_presence_record(socket_id@, c, u)) by {
                        assert(pre.sockets@[si as int].socket_id@ == socket_id@);
                    }
                } else {
                    if pre.spec_presence_record(socket_id@, c, u) {
                        let i = choose|i: int|
                            0 <= i < pre.sockets@.len() && pre.sockets@[i].socket_id@
                                == socket_id@ && pres_has(pre.sockets@[i].presence@, c, u);
                        if i != si as int {
                            if i < si as int {
                                assert(pre.sockets@[i].socket_id@ != pre.sockets@[si as int
                                ].socket_id@);
                            } else {
                                assert(pre.sockets@[si as int].socket_id@
                                    != pre.sockets@[i].socket_id@);
                            }
                        }
                        assert(pres_has(newp, c, u));
                        assert(self.spec_presence_record(socket_id@, c, u)) by {
                            assert(self.sockets@[si as int].socket_id@ == socket_id@);
                        }
                    }
                }
            }
        }
    }

    /// Read the presence record a socket carries for a channel.
    pub fn get_presence_record(&self, socket_id: &str, channel: &str) -> (r: Option<
        (String, String),
    >)
        requires
            self.wf(),
        ensures
            match r {
                Option::Some(p) => self.spec_presence_record(socket_id@, channel@, p.0@),
                Option::None => forall|u: Seq<char>|
                    !self.spec_presence_record(socket_id@, channel@, u),
            },
    {
        let si = match self.find_socket_index(socket_id) {
            Option::None => {
                proof {
                    assert forall|u: Seq<char>|
                        !self.spec_presence_record(socket_id@, channel@, u) by {
                        if self.spec_presence_record(socket_id@, channel@, u) {
                            let i = choose|i: int|
                                0 <= i < self.sockets@.len() && self.sockets@[i].socket_id@
                                    == socket_id@ && pres_has(
                                    self.sockets@[i].presence@,
                                    channel@,
                                    u,
                                );
                            assert(self.spec_has_socket(socket_id@));
                        }
                    }
                }
                return Option::None;
            },
            Option::Some(si) => si,
        };
        proof {
            self.lemma_socket_index_unique(socket_id@, si as int);
        }
        let n = self.sockets[si].presence.len();
        let mut k: usize = 0;
        while k < n
            invariant
                k <= n,
                si < self.sockets@.len(),
                self.sockets@[si as int].socket_id@ == socket_id@,
                n == self.sockets@[si as int].presence@.len(),
                forall|j: int|
                    0 <= j < k ==> (#[trigger] self.sockets@[si as int].presence@[j]).channel@
                        != channel@,
            decreases n - k,
        {
            if str_eq(self.sockets[si].presence[k].channel.as_str(), channel) {
                let user = String::from_str(self.sockets[si].presence[k].user_id.as_str());
                let info = String::from_str(self.sockets[si].presence[k].user_info.as_str());
                proof {
                    assert(pres_has(self.sockets@[si as int].presence@, channel@, user@));
                }
                return Option::Some((user, info));
            }
            k += 1;
        }
        proof {
            assert forall|u: Seq<char>|
                !self.spec_presence_record(socket_id@, channel@, u) by {
                if self.spec_presence_record(socket_id@, channel@, u) {
                    let i = choose|i: int|
                        0 <= i < self.sockets@.len() && self.sockets@[i].socket_id@ == socket_id@
                            && pres_has(self.sockets@[i].presence@, channel@, u);
                    if i != si as int {
                        if i < si as int {
                            assert(self.sockets@[i].socket_id@ != self.sockets@[si as int
                            ].socket_id@);
                        } else {
                            assert(self.sockets@[si as int].socket_id@
                                != self.sockets@[i].socket_id@);
                        }
                    }
                    let j = choose|j: int|
                        0 <= j < self.sockets@[si as int].presence@.len() && self.sockets@[si as int
                        ].presence@[j].channel@ == channel@ && self.sockets@[si as int
                        ].presence@[j].user_id@ == u;
                }
            }
        }
        Option::None
    }

    /// Same as `lemma_channel_index_unique`, phrased for proof contexts
    /// where only name distinctness is known.
    proof fn lemma_channel_index_unique_pre(self, ci: int, ch: Seq<char>)
        requires
            forall|i: int, j: int|
                0 <= i < j < self.channels@.len() ==> self.channels@[i].name@
                    != self.channels@[j].name@,
            0 <= ci < self.channels@.len(),
            self.channels@[ci].name@ == ch,
        ensures
            self.spec_has_channel(ch),
            self.spec_channel_index(ch) == ci,
            self.spec_channel_count(ch) == self.channels@[ci].members@.len(),
    {
        let cj = self.spec_channel_index(ch);
        if cj != ci {
            if cj < ci {
                assert(self.channels@[cj].name@ != self.channels@[ci].name@);
            } else {
                assert(self.channels@[ci].name@ != self.channels@[cj].name@);
            }
        }
    }
}

} // verus!
