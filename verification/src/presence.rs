//! Presence rosters: for each presence channel, which user sits on which
//! socket, with one socket per user per channel.

use vstd::prelude::*;
use crate::connection::SocketId;
use crate::frame::{escape_str, ser_string};
use crate::text::{dec_of, str_eq, u64_to_string};

verus! {

/// One user on one presence channel.
#[derive(Debug)]
pub struct PresenceMember {
    pub socket_id: SocketId,
    pub user_id: String,
    pub user_info: String,
}

/// The roster of one presence channel; entries exist only while non-empty.
#[derive(Debug)]
pub struct PresenceChannel {
    pub channel: String,
    pub members: Vec<PresenceMember>,
}

pub open spec fn roster_has_user(e: PresenceChannel, user: Seq<char>) -> bool {
    exists|mi: int| 0 <= mi < e.members@.len() && e.members@[mi].user_id@ == user
}

pub open spec fn roster_has_socket(e: PresenceChannel, sid: Seq<char>) -> bool {
    exists|mi: int| 0 <= mi < e.members@.len() && e.members@[mi].socket_id@ == sid
}

/// All presence rosters of one app on one node.
pub struct PresenceRegistry {
    channels: Vec<PresenceChannel>,
}

impl PresenceRegistry {
    pub closed spec fn wf(self) -> bool {
        &&& forall|i: int, j: int|
            0 <= i < j < self.channels@.len() ==> self.channels@[i].channel@
                != self.channels@[j].channel@
        &&& forall|i: int|
            0 <= i < self.channels@.len() ==> (#[trigger] self.channels@[i]).members@.len() > 0
        &&& forall|i: int, a: int, b: int|
            #![trigger self.channels@[i].members@[a], self.channels@[i].members@[b]]
            0 <= i < self.channels@.len() && 0 <= a < b < self.channels@[i].members@.len()
                ==> self.channels@[i].members@[a].user_id@ != self.channels@[i].members@[b].user_id@
                    && self.channels@[i].members@[a].socket_id@
                    != self.channels@[i].members@[b].socket_id@
    }

    pub closed spec fn spec_has_channel(self, ch: Seq<char>) -> bool {
        exists|ci: int| 0 <= ci < self.channels@.len() && self.channels@[ci].channel@ == ch
    }

    pub closed spec fn spec_channel_index(self, ch: Seq<char>) -> int {
        choose|ci: int| 0 <= ci < self.channels@.len() && self.channels@[ci].channel@ == ch
    }

    /// How many users the channel's roster holds.
    pub closed spec fn spec_member_count(self, ch: Seq<char>) -> nat {
        if self.spec_has_channel(ch) {
            self.channels@[self.spec_channel_index(ch)].members@.len()
        } else {
            0
        }
    }

    pub closed spec fn spec_has_member(self, ch: Seq<char>, user: Seq<char>) -> bool {
        exists|ci: int|
            0 <= ci < self.channels@.len() && self.channels@[ci].channel@ == ch && roster_has_user(
                self.channels@[ci],
                user,
            )
    }

    pub closed spec fn spec_socket_present(self, ch: Seq<char>, sid: Seq<char>) -> bool {
        exists|ci: int|
            0 <= ci < self.channels@.len() && self.channels@[ci].channel@ == ch
                && roster_has_socket(self.channels@[ci], sid)
    }

    pub fn new() -> (r: PresenceRegistry)
        ensures
            r.wf(),
            forall|c: Seq<char>| r.spec_member_count(c) == 0,
            forall|c: Seq<char>, u: Seq<char>| !r.spec_has_member(c, u),
            forall|c: Seq<char>, s: Seq<char>| !r.spec_socket_present(c, s),
    {
        PresenceRegistry { channels: Vec::new() }
    }

    proof fn lemma_channel_index_unique(self, ci: int, ch: Seq<char>)
        requires
            forall|i: int, j: int|
                0 <= i < j < self.channels@.len() ==> self.channels@[i].channel@
                    != self.channels@[j].channel@,
            0 <= ci < self.channels@.len(),
            self.channels@[ci].channel@ == ch,
        ensures
            self.spec_has_channel(ch),
            self.spec_channel_index(ch) == ci,
            self.spec_member_count(ch) == self.channels@[ci].members@.len(),
    {
        let cj = self.spec_channel_index(ch);
        if cj != ci {
            if cj < ci {
                assert(self.channels@[cj].channel@ != self.channels@[ci].channel@);
            } else {
                assert(self.channels@[ci].channel@ != self.channels@[cj].channel@);
            }
        }
    }

    fn find_channel_index(&self, ch: &str) -> (r: Option<usize>)
        ensures
            match r {
                Option::Some(i) => i < self.channels@.len() && self.channels@[i as int].channel@
                    == ch@,
                Option::None => !self.spec_has_channel(ch@),
            },
    {
        let n = self.channels.len();
        let mut i: usize = 0;
        while i < n
            invariant
                i <= n,
                n == self.channels@.len(),
                forall|j: int| 0 <= j < i ==> self.channels@[j].channel@ != ch@,
            decreases n - i,
        {
            if str_eq(self.channels[i].channel.as_str(), ch) {
                return Option::Some(i);
            }
            i += 1;
        }
        Option::None
    }

    fn find_user(e: &PresenceChannel, user: &str) -> (r: Option<usize>)
        ensures
            match r {
                Option::Some(i) => i < e.members@.len() && e.members@[i as int].user_id@ == user@,
                Option::None => !roster_has_user(*e, user@),
            },
    {
        let n = e.members.len();
        let mut i: usize = 0;
        while i < n
            invariant
                i <= n,
                n == e.members@.len(),
                forall|j: int| 0 <= j < i ==> e.members@[j].user_id@ != user@,
            decreases n - i,
        {
            if str_eq(e.members[i].user_id.as_str(), user) {
                return Option::Some(i);
            }
            i += 1;
        }
        Option::None
    }

    fn find_socket(e: &PresenceChannel, sid: &str) -> (r: Option<usize>)
        ensures
            match r {
                Option::Some(i) => i < e.members@.len() && e.members@[i as int].socket_id@ == sid@,
                Option::None => !roster_has_socket(*e, sid@),
            },
    {
        let n = e.members.len();
        let mut i: usize = 0;
        while i < n
            invariant
                i <= n,
                n == e.members@.len(),
                forall|j: int| 0 <= j < i ==> e.members@[j].socket_id@ != sid@,
            decreases n - i,
        {
            if str_eq(e.members[i].socket_id.as_str(), sid) {
                return Option::Some(i);
            }
            i += 1;
        }
        Option::None
    }

    pub fn member_count(&self, ch: &str) -> (r: usize)
        requires
            self.wf(),
        ensures
            r == self.spec_member_count(ch@),
    {
        match self.find_channel_index(ch) {
            Option::Some(ci) => {
                proof {
                    self.lemma_channel_index_unique(ci as int, ch@);
                }
                self.channels[ci].members.len()
            },
            Option::None => 0,
        }
    }

    pub fn has_member(&self, ch: &str, user: &str) -> (r: bool)
        requires
            self.wf(),
        ensures
            r == self.spec_has_member(ch@, user@),
    {
        match self.find_channel_index(ch) {
            Option::Some(ci) => {
                match Self::find_user(&self.channels[ci], user) {
                    Option::Some(mi) => {
                        proof {
                            assert(self.channels@[ci as int].members@[mi as int].user_id@
                                == user@);
                        }
                        true
                    },
                    Option::None => {
                        proof {
                            if self.spec_has_member(ch@, user@) {
                                let cj = choose|cj: int|
                                    0 <= cj < self.channels@.len() && self.channels@[cj].channel@
                                        == ch@ && roster_has_user(self.channels@[cj], user@);
                                self.lemma_channel_index_unique(cj, ch@);
                                self.lemma_channel_index_unique(ci as int, ch@);
                            }
                        }
                        false
                    },
                }
            },
            Option::None => {
                proof {
                    if self.spec_has_member(ch@, user@) {
                        let cj = choose|cj: int|
                            0 <= cj < self.channels@.len() && self.channels@[cj].channel@ == ch@
                                && roster_has_user(self.channels@[cj], user@);
                        assert(self.spec_has_channel(ch@));
                    }
                }
                false
            },
        }
    }

    /// Add a user to a roster. Nothing changes when the user, or the
    /// socket, is already on the channel; `r` says whether the member is
    /// new.
    pub fn add_member(&mut self, ch: &str, socket_id: &str, user_id: &str, user_info: &str) -> (r:
        bool)
        requires
            old(self).wf(),
        ensures
            final(self).wf(),
            r == (!old(self).spec_has_member(ch@, user_id@) && !old(self).spec_socket_present(
                ch@,
                socket_id@,
            )),
            !r ==> *final(self) == *old(self),
            forall|c: Seq<char>, u: Seq<char>|
                #[trigger] final(self).spec_has_member(c, u) == (old(self).spec_has_member(c, u)
                    || (r && c == ch@ && u == user_id@)),
            forall|c: Seq<char>, s: Seq<char>|
                #[trigger] final(self).spec_socket_present(c, s) == (old(
                    self,
                ).spec_socket_present(c, s) || (r && c == ch@ && s == socket_id@)),
            final(self).spec_member_count(ch@) == old(self).spec_member_count(ch@) + (
            if r {
                1int
            } else {
                0int
            }),
            forall|c: Seq<char>|
                c != ch@ ==> #[trigger] final(self).spec_member_count(c) == old(
                    self,
                ).spec_member_count(c),
    {
        let ghost pre = *self;
        match self.find_channel_index(ch) {
            Option::Some(ci) => {
                proof {
                    pre.lemma_channel_index_unique(ci as int, ch@);
                }
                match Self::find_user(&self.channels[ci], user_id) {
                    Option::Some(mi) => {
                        proof {
                            assert(self.channels@[ci as int].members@[mi as int].user_id@
                                == user_id@);
                            assert(roster_has_user(self.channels@[ci as int], user_id@));
                            assert(pre.spec_has_member(ch@, user_id@));
                        }
                        false
                    },
                    Option::None => {
                        proof {
                            if pre.spec_has_member(ch@, user_id@) {
                                let cj = choose|cj: int|
                                    0 <= cj < pre.channels@.len() && pre.channels@[cj].channel@
                                        == ch@ && roster_has_user(pre.channels@[cj], user_id@);
                                pre.lemma_channel_index_unique(cj, ch@);
                            }
                        }
                        match Self::find_socket(&self.channels[ci], socket_id) {
                            Option::Some(mi) => {
                                proof {
                                    assert(self.channels@[ci as int].members@[mi as int
                                    ].socket_id@ == socket_id@);
                                    assert(roster_has_socket(
                                        self.channels@[ci as int],
                                        socket_id@,
                                    ));
                                    assert(pre.spec_socket_present(ch@, socket_id@));
                                }
                                return false;
                            },
                            Option::None => {
                                proof {
                                    if pre.spec_socket_present(ch@, socket_id@) {
                                        let cj = choose|cj: int|
                                            0 <= cj < pre.channels@.len()
                                                && pre.channels@[cj].channel@ == ch@
                                                && roster_has_socket(
                                                pre.channels@[cj],
                                                socket_id@,
                                            );
                                        pre.lemma_channel_index_unique(cj, ch@);
                                    }
                                }
                            },
                        }
                        let mut e = self.channels.remove(ci);
                        e.members.push(
                            PresenceMember {
                                socket_id: SocketId(String::from_str(socket_id)),
                                user_id: String::from_str(user_id),
                                user_info: String::from_str(user_info),
                            },
                        );
                        let ghost e2 = e;
                        self.channels.insert(ci, e);
                        proof {
                            assert(self.channels@ =~= pre.channels@.update(ci as int, e2));
                            assert(e2.members@.drop_last() =~= pre.channels@[ci as int].members@);
                            assert(!roster_has_socket(pre.channels@[ci as int], socket_id@));
                            self.lemma_roster_after_add(
                                pre,
                                ci as int,
                                false,
                                ch@,
                                socket_id@,
                                user_id@,
                            );
                        }
                        true
                    },
                }
            },
            Option::None => {
                proof {
                    if pre.spec_has_member(ch@, user_id@) {
                        let cj = choose|cj: int|
                            0 <= cj < pre.channels@.len() && pre.channels@[cj].channel@ == ch@
                                && roster_has_user(pre.channels@[cj], user_id@);
                        assert(pre.spec_has_channel(ch@));
                    }
                    if pre.spec_socket_present(ch@, socket_id@) {
                        let cj = choose|cj: int|
                            0 <= cj < pre.channels@.len() && pre.channels@[cj].channel@ == ch@
                                && roster_has_socket(pre.channels@[cj], socket_id@);
                        assert(pre.spec_has_channel(ch@));
                    }
                }
                let mut members: Vec<PresenceMember> = Vec::new();
                members.push(
                    PresenceMember {
                        socket_id: SocketId(String::from_str(socket_id)),
                        user_id: String::from_str(user_id),
                        user_info: String::from_str(user_info),
                    },
                );
                let e = PresenceChannel { channel: String::from_str(ch), members };
                self.channels.push(e);
                proof {
                    assert(self.channels@.drop_last() =~= pre.channels@);
                    self.lemma_roster_after_add(
                        pre,
                        pre.channels@.len() as int,
                        true,
                        ch@,
                        socket_id@,
                        user_id@,
                    );
                }
                true
            },
        }
    }

    proof fn lemma_roster_after_add(
        self,
        pre: PresenceRegistry,
        ci0: int,
        fresh: bool,
        ch: Seq<char>,
        sid: Seq<char>,
        user: Seq<char>,
    )
        requires
            pre.wf(),
            !pre.spec_has_member(ch, user),
            fresh ==> self.channels@.len() == pre.channels@.len() + 1 && self.channels@.drop_last()
                == pre.channels@ && self.channels@.last().channel@ == ch
                && self.channels@.last().members@.len() == 1
                && self.channels@.last().members@[0].socket_id@ == sid
                && self.channels@.last().members@[0].user_id@ == user && !pre.spec_has_channel(ch)
                && ci0 == pre.channels@.len(),
            !fresh ==> 0 <= ci0 < pre.channels@.len() && pre.channels@[ci0].channel@ == ch
                && self.channels@ == pre.channels@.update(ci0, self.channels@[ci0])
                && self.channels@[ci0].channel@ == ch && self.channels@[ci0].members@.len()
                == pre.channels@[ci0].members@.len() + 1 && self.channels@[ci0].members@.drop_last()
                == pre.channels@[ci0].members@ && self.channels@[ci0].members@.last().socket_id@
                == sid && self.channels@[ci0].members@.last().user_id@ == user && !roster_has_user(
                pre.channels@[ci0],
                user,
            ) && !roster_has_socket(pre.channels@[ci0], sid),
        ensures
            self.wf(),
            forall|c: Seq<char>, u: Seq<char>|
                #[trigger] self.spec_has_member(c, u) == (pre.spec_has_member(c, u) || (c == ch
                    && u == user)),
            forall|c: Seq<char>, s: Seq<char>|
                #[trigger] self.spec_socket_present(c, s) == (pre.spec_socket_present(c, s) || (c
                    == ch && s == sid)),
            self.spec_member_count(ch) == pre.spec_member_count(ch) + 1,
            forall|c: Seq<char>|
                c != ch ==> #[trigger] self.spec_member_count(c) == pre.spec_member_count(c),
    {
        if fresh {
            assert forall|i: int| 0 <= i < pre.channels@.len() implies self.channels@[i]
                == pre.channels@[i] by {
                assert(self.channels@.drop_last()[i] == pre.channels@[i]);
            }
        }
        assert(0 <= ci0 < self.channels@.len());
        assert(self.channels@[ci0].channel@ == ch);
        let nm = self.channels@[ci0].members@;
        assert(nm[nm.len() - 1].user_id@ == user && nm[nm.len() - 1].socket_id@ == sid) by {
            if fresh {
                assert(self.channels@[ci0] =~= self.channels@.last());
            } else {
                assert(nm.last() == nm[nm.len() - 1]);
            }
        }
        assert forall|i: int, j: int|
            0 <= i < j < self.channels@.len() implies self.channels@[i].channel@
            != self.channels@[j].channel@ by {
            if fresh && j == ci0 {
                if self.channels@[i].channel@ == ch {
                    assert(pre.channels@[i].channel@ == ch);
                    assert(pre.spec_has_channel(ch));
                }
            }
        }
        assert forall|c: Seq<char>, u: Seq<char>| #[trigger]
            self.spec_has_member(c, u) == (pre.spec_has_member(c, u) || (c == ch && u == user)) by {
            if self.spec_has_member(c, u) {
                let ci = choose|ci: int|
                    0 <= ci < self.channels@.len() && self.channels@[ci].channel@ == c
                        && roster_has_user(self.channels@[ci], u);
                let mi = choose|mi: int|
                    0 <= mi < self.channels@[ci].members@.len()
                        && self.channels@[ci].members@[mi].user_id@ == u;
                if ci != ci0 {
                    assert(self.channels@[ci] == pre.channels@[ci]);
                    assert(pre.spec_has_member(c, u));
                } else {
                    assert(c == ch);
                    if !fresh && mi < pre.channels@[ci0].members@.len() {
                        assert(pre.channels@[ci0].members@[mi].user_id@ == u);
                        assert(pre.spec_has_member(c, u));
                    } else {
                        assert(u == user);
                    }
                }
            }
            if pre.spec_has_member(c, u) {
                let ci = choose|ci: int|
                    0 <= ci < pre.channels@.len() && pre.channels@[ci].channel@ == c
                        && roster_has_user(pre.channels@[ci], u);
                if ci == ci0 && !fresh {
                    let mi = choose|mi: int|
                        0 <= mi < pre.channels@[ci].members@.len()
                            && pre.channels@[ci].members@[mi].user_id@ == u;
                    assert(self.channels@[ci0].members@[mi].user_id@ == u);
                    assert(roster_has_user(self.channels@[ci0], u));
                    assert(self.spec_has_member(c, u));
                } else {
                    assert(self.channels@[ci] == pre.channels@[ci]);
                    assert(self.spec_has_member(c, u));
                }
            }
            if c == ch && u == user {
                assert(roster_has_user(self.channels@[ci0], u));
                assert(self.spec_has_member(c, u));
            }
        }
        assert forall|c: Seq<char>, s: Seq<char>| #[trigger]
            self.spec_socket_present(c, s) == (pre.spec_socket_present(c, s) || (c == ch && s
                == sid)) by {
            if self.spec_socket_present(c, s) {
                let ci = choose|ci: int|
                    0 <= ci < self.channels@.len() && self.channels@[ci].channel@ == c
                        && roster_has_socket(self.channels@[ci], s);
                let mi = choose|mi: int|
                    0 <= mi < self.channels@[ci].members@.len()
                        && self.channels@[ci].members@[mi].socket_id@ == s;
                if ci != ci0 {
                    assert(self.channels@[ci] == pre.channels@[ci]);
                    assert(pre.spec_socket_present(c, s));
                } else {
                    assert(c == ch);
                    if !fresh && mi < pre.channels@[ci0].members@.len() {
                        assert(pre.channels@[ci0].members@[mi].socket_id@ == s);
                        assert(pre.spec_socket_present(c, s));
                    } else {
                        assert(s == sid);
                    }
                }
            }
            if pre.spec_socket_present(c, s) {
                let ci = choose|ci: int|
                    0 <= ci < pre.channels@.len() && pre.channels@[ci].channel@ == c
                        && roster_has_socket(pre.channels@[ci], s);
                if ci == ci0 && !fresh {
                    let mi = choose|mi: int|
                        0 <= mi < pre.channels@[ci].members@.len()
                            && pre.channels@[ci].members@[mi].socket_id@ == s;
                    assert(self.channels@[ci0].members@[mi].socket_id@ == s);
                    assert(roster_has_socket(self.channels@[ci0], s));
                    assert(self.spec_socket_present(c, s));
                } else {
                    assert(self.channels@[ci] == pre.channels@[ci]);
                    assert(self.spec_socket_present(c, s));
                }
            }
            if c == ch && s == sid {
                assert(roster_has_socket(self.channels@[ci0], s));
                assert(self.spec_socket_present(c, s));
            }
        }
        self.lemma_channel_index_unique(ci0, ch);
        if !fresh {
            pre.lemma_channel_index_unique(ci0, ch);
        }
        assert forall|c: Seq<char>|
            c != ch implies #[trigger] self.spec_member_count(c) == pre.spec_member_count(c) by {
            if self.spec_has_channel(c) {
                let ci = choose|ci: int|
                    0 <= ci < self.channels@.len() && self.channels@[ci].channel@ == c;
                assert(ci != ci0);
                assert(pre.channels@[ci].channel@ == c);
                self.lemma_channel_index_unique(ci, c);
                pre.lemma_channel_index_unique(ci, c);
            } else {
                if pre.spec_has_channel(c) {
                    let ci = choose|ci: int|
                        0 <= ci < pre.channels@.len() && pre.channels@[ci].channel@ == c;
                    assert(ci != ci0);
                    assert(self.channels@[ci].channel@ == c);
                }
            }
        }
        assert forall|i: int, a: int, b: int|
            #![trigger self.channels@[i].members@[a], self.channels@[i].members@[b]]
            0 <= i < self.channels@.len() && 0 <= a < b
                < self.channels@[i].members@.len() implies self.channels@[i].members@[a].user_id@
            != self.channels@[i].members@[b].user_id@ && self.channels@[i].members@[a].socket_id@
            != self.channels@[i].members@[b].socket_id@ by {
            if i == ci0 && !fresh {
                let pm = pre.channels@[ci0].members@;
                if b == nm.len() - 1 {
                    assert(nm[a] == pm[a]);
                    if nm[a].user_id@ == user {
                        assert(roster_has_user(pre.channels@[ci0], user));
                    }
                    if nm[a].socket_id@ == sid {
                        assert(roster_has_socket(pre.channels@[ci0], sid));
                    }
                } else {
                    assert(nm[a] == pm[a] && nm[b] == pm[b]);
                }
            } else if i != ci0 {
                assert(self.channels@[i] == pre.channels@[i]);
            }
        }
        assert forall|i: int|
            0 <= i < self.channels@.len() implies (#[trigger] self.channels@[i]).members@.len()
            > 0 by {
            if i != ci0 {
                assert(self.channels@[i] == pre.channels@[i]);
            }
        }
    }

    /// Remove whatever member sits on `socket_id`; hands back the user id
    /// and info of the member that left, if any.
    pub fn remove_socket(&mut self, ch: &str, socket_id: &str) -> (r: Option<(String, String)>)
        requires
            old(self).wf(),
        ensures
            final(self).wf(),
            match r {
                Option::Some(p) => old(self).spec_socket_present(ch@, socket_id@) && old(
                    self,
                ).spec_has_member(ch@, p.0@),
                Option::None => !old(self).spec_socket_present(ch@, socket_id@) && *final(self)
                    == *old(self),
            },
            forall|c: Seq<char>, u: Seq<char>|
                #[trigger] final(self).spec_has_member(c, u) == (old(self).spec_has_member(c, u)
                    && !(c == ch@ && r is Some && u == r.unwrap().0@)),
            forall|c: Seq<char>, s: Seq<char>|
                #[trigger] final(self).spec_socket_present(c, s) == (old(
                    self,
                ).spec_socket_present(c, s) && !(c == ch@ && s == socket_id@)),
            final(self).spec_member_count(ch@) == old(self).spec_member_count(ch@) - (
            if old(self).spec_socket_present(ch@, socket_id@) {
                1int
            } else {
                0int
            }),
            forall|c: Seq<char>|
                c != ch@ ==> #[trigger] final(self).spec_member_count(c) == old(
                    self,
                ).spec_member_count(c),
    {
        let ghost pre = *self;
        let ci = match self.find_channel_index(ch) {
            Option::None => {
                proof {
                    if pre.spec_socket_present(ch@, socket_id@) {
                        let cj = choose|cj: int|
                            0 <= cj < pre.channels@.len() && pre.channels@[cj].channel@ == ch@
                                && roster_has_socket(pre.channels@[cj], socket_id@);
                        assert(pre.spec_has_channel(ch@));
                    }
                }
                return Option::None;
            },
            Option::Some(ci) => ci,
        };
        proof {
            pre.lemma_channel_index_unique(ci as int, ch@);
        }
        let mi = match Self::find_socket(&self.channels[ci], socket_id) {
            Option::None => {
                proof {
                    if pre.spec_socket_present(ch@, socket_id@) {
                        let cj = choose|cj: int|
                            0 <= cj < pre.channels@.len() && pre.channels@[cj].channel@ == ch@
                                && roster_has_socket(pre.channels@[cj], socket_id@);
                        pre.lemma_channel_index_unique(cj, ch@);
                    }
                }
                return Option::None;
            },
            Option::Some(mi) => mi,
        };
        let mut e = self.channels.remove(ci);
        let user_id = String::from_str(e.members[mi].user_id.as_str());
        let user_info = String::from_str(e.members[mi].user_info.as_str());
        proof {
            assert(roster_has_socket(pre.channels@[ci as int], socket_id@));
            assert(pre.spec_socket_present(ch@, socket_id@));
            assert(roster_has_user(pre.channels@[ci as int], user_id@));
            assert(pre.spec_has_member(ch@, user_id@));
        }
        if e.members.len() > 1 {
            e.members.remove(mi);
            let ghost e2 = e;
            self.channels.insert(ci, e);
            proof {
                assert(self.channels@ =~= pre.channels@.update(ci as int, e2));
                self.lemma_roster_after_remove(
                    pre,
                    ci as int,
                    mi as int,
                    1,
                    ch@,
                    socket_id@,
                    user_id@,
                );
            }
        } else {
            proof {
                assert(self.channels@ =~= pre.channels@.remove(ci as int));
                assert(mi as int == 0);
                self.lemma_roster_after_remove(pre, ci as int, 0, 2, ch@, socket_id@, user_id@);
            }
        }
        Option::Some((user_id, user_info))
    }

    proof fn lemma_roster_after_remove(
        self,
        pre: PresenceRegistry,
        ci0: int,
        mi0: int,
        shape: int,
        ch: Seq<char>,
        sid: Seq<char>,
        user: Seq<char>,
    )
        requires
            pre.wf(),
            shape == 1 || shape == 2,
            shape == 1 ==> 0 <= ci0 < pre.channels@.len() && pre.channels@[ci0].channel@ == ch
                && self.channels@ == pre.channels@.update(ci0, self.channels@[ci0])
                && self.channels@[ci0].channel@ == ch && pre.channels@[ci0].members@.len() >= 2
                && 0 <= mi0 < pre.channels@[ci0].members@.len()
                && pre.channels@[ci0].members@[mi0].socket_id@ == sid
                && pre.channels@[ci0].members@[mi0].user_id@ == user
                && self.channels@[ci0].members@ == pre.channels@[ci0].members@.remove(mi0),
            shape == 2 ==> 0 <= ci0 < pre.channels@.len() && pre.channels@[ci0].channel@ == ch
                && pre.channels@[ci0].members@.len() == 1
                && pre.channels@[ci0].members@[0].socket_id@ == sid
                && pre.channels@[ci0].members@[0].user_id@ == user && self.channels@
                == pre.channels@.remove(ci0),
        ensures
            self.wf(),
            forall|c: Seq<char>, u: Seq<char>|
                #[trigger] self.spec_has_member(c, u) == (pre.spec_has_member(c, u) && !(c == ch
                    && u == user)),
            forall|c: Seq<char>, s: Seq<char>|
                #[trigger] self.spec_socket_present(c, s) == (pre.spec_socket_present(c, s) && !(c
                    == ch && s == sid)),
            self.spec_member_count(ch) == pre.spec_member_count(ch) - 1,
            forall|c: Seq<char>|
                c != ch ==> #[trigger] self.spec_member_count(c) == pre.spec_member_count(c),
    {
        assert forall|c: Seq<char>, u: Seq<char>| #[trigger]
            self.spec_has_member(c, u) == (pre.spec_has_member(c, u) && !(c == ch && u == user))
            by {
            if shape == 1 {
                let pm = pre.channels@[ci0].members@;
                let nm = self.channels@[ci0].members@;
                if self.spec_has_member(c, u) {
                    let ci = choose|ci: int|
                        0 <= ci < self.channels@.len() && self.channels@[ci].channel@ == c
                            && roster_has_user(self.channels@[ci], u);
                    let mi = choose|mi: int|
                        0 <= mi < self.channels@[ci].members@.len()
                            && self.channels@[ci].members@[mi].user_id@ == u;
                    if ci != ci0 {
                        assert(self.channels@[ci] == pre.channels@[ci]);
                        assert(pre.spec_has_member(c, u));
                        if c == ch {
                            if ci < ci0 {
                                assert(pre.channels@[ci].channel@ != pre.channels@[ci0].channel@);
                            } else {
                                assert(pre.channels@[ci0].channel@ != pre.channels@[ci].channel@);
                            }
                        }
                    } else {
                        let orig = if mi < mi0 {
                            mi
                        } else {
                            mi + 1
                        };
                        assert(pm[orig].user_id@ == u);
                        assert(roster_has_user(pre.channels@[ci0], u));
                        assert(pre.spec_has_member(c, u));
                        if u == user {
                            assert(orig != mi0 && pm[orig].user_id@ == pm[mi0].user_id@);
                            if orig < mi0 {
                                assert(pm[orig].user_id@ != pm[mi0].user_id@);
                            } else {
                                assert(pm[mi0].user_id@ != pm[orig].user_id@);
                            }
                        }
                    }
                }
                if pre.spec_has_member(c, u) && !(c == ch && u == user) {
                    let ci = choose|ci: int|
                        0 <= ci < pre.channels@.len() && pre.channels@[ci].channel@ == c
                            && roster_has_user(pre.channels@[ci], u);
                    let mi = choose|mi: int|
                        0 <= mi < pre.channels@[ci].members@.len()
                            && pre.channels@[ci].members@[mi].user_id@ == u;
                    if ci != ci0 {
                        assert(self.channels@[ci] == pre.channels@[ci]);
                        assert(self.spec_has_member(c, u));
                    } else {
                        assert(c == ch && u != user);
                        assert(mi != mi0);
                        let post = if mi < mi0 {
                            mi
                        } else {
                            mi - 1
                        };
                        assert(nm[post].user_id@ == u);
                        assert(roster_has_user(self.channels@[ci0], u));
                        assert(self.spec_has_member(c, u));
                    }
                }
            } else {
                if self.spec_has_member(c, u) {
                    let ci = choose|ci: int|
                        0 <= ci < self.channels@.len() && self.channels@[ci].channel@ == c
                            && roster_has_user(self.channels@[ci], u);
                    let orig = if ci < ci0 {
                        ci
                    } else {
                        ci + 1
                    };
                    assert(self.channels@[ci] == pre.channels@[orig]);
                    assert(pre.spec_has_member(c, u));
                    if c == ch {
                        assert(orig != ci0);
                        if orig < ci0 {
                            assert(pre.channels@[orig].channel@ != pre.channels@[ci0].channel@);
                        } else {
                            assert(pre.channels@[ci0].channel@ != pre.channels@[orig].channel@);
                        }
                    }
                }
                if pre.spec_has_member(c, u) && !(c == ch && u == user) {
                    let ci = choose|ci: int|
                        0 <= ci < pre.channels@.len() && pre.channels@[ci].channel@ == c
                            && roster_has_user(pre.channels@[ci], u);
                    if ci == ci0 {
                        assert(c == ch);
                        let mi = choose|mi: int|
                            0 <= mi < pre.channels@[ci0].members@.len()
                                && pre.channels@[ci0].members@[mi].user_id@ == u;
                        assert(mi == 0);
                        assert(u == user);
                    } else {
                        let post = if ci < ci0 {
                            ci
                        } else {
                            ci - 1
                        };
                        assert(self.channels@[post] == pre.channels@[ci]);
                        assert(roster_has_user(self.channels@[post], u));
                        assert(self.spec_has_member(c, u));
                    }
                }
            }
        }
        assert forall|c: Seq<char>, s: Seq<char>| #[trigger]
            self.spec_socket_present(c, s) == (pre.spec_socket_present(c, s) && !(c == ch && s
                == sid)) by {
            if shape == 1 {
                let pm = pre.channels@[ci0].members@;
                let nm = self.channels@[ci0].members@;
                if self.spec_socket_present(c, s) {
                    let ci = choose|ci: int|
                        0 <= ci < self.channels@.len() && self.channels@[ci].channel@ == c
                            && roster_has_socket(self.channels@[ci], s);
                    let mi = choose|mi: int|
                        0 <= mi < self.channels@[ci].members@.len()
                            && self.channels@[ci].members@[mi].socket_id@ == s;
                    if ci != ci0 {
                        assert(self.channels@[ci] == pre.channels@[ci]);
                        assert(pre.spec_socket_present(c, s));
                        if c == ch {
                            if ci < ci0 {
                                assert(pre.channels@[ci].channel@ != pre.channels@[ci0].channel@);
                            } else {
                                assert(pre.channels@[ci0].channel@ != pre.channels@[ci].channel@);
                            }
                        }
                    } else {
                        let orig = if mi < mi0 {
                            mi
                        } else {
                            mi + 1
                        };
                        assert(pm[orig].socket_id@ == s);
                        assert(roster_has_socket(pre.channels@[ci0], s));
                        assert(pre.spec_socket_present(c, s));
                        if s == sid {
                            assert(orig != mi0 && pm[orig].socket_id@ == pm[mi0].socket_id@);
                            if orig < mi0 {
                                assert(pm[orig].socket_id@ != pm[mi0].socket_id@);
                            } else {
                                assert(pm[mi0].socket_id@ != pm[orig].socket_id@);
                            }
                        }
                    }
                }
                if pre.spec_socket_present(c, s) && !(c == ch && s == sid) {
                    let ci = choose|ci: int|
                        0 <= ci < pre.channels@.len() && pre.channels@[ci].channel@ == c
                            && roster_has_socket(pre.channels@[ci], s);
                    let mi = choose|mi: int|
                        0 <= mi < pre.channels@[ci].members@.len()
                            && pre.channels@[ci].members@[mi].socket_id@ == s;
                    if ci != ci0 {
                        assert(self.channels@[ci] == pre.channels@[ci]);
                        assert(self.spec_socket_present(c, s));
                    } else {
                        assert(c == ch && s != sid);
                        assert(mi != mi0);
                        let post = if mi < mi0 {
                            mi
                        } else {
                            mi - 1
                        };
                        assert(nm[post].socket_id@ == s);
                        assert(roster_has_socket(self.channels@[ci0], s));
                        assert(self.spec_socket_present(c, s));
                    }
                }
            } else {
                if self.spec_socket_present(c, s) {
                    let ci = choose|ci: int|
                        0 <= ci < self.channels@.len() && self.channels@[ci].channel@ == c
                            && roster_has_socket(self.channels@[ci], s);
                    let orig = if ci < ci0 {
                        ci
                    } else {
                        ci + 1
                    };
                    assert(self.channels@[ci] == pre.channels@[orig]);
                    assert(pre.spec_socket_present(c, s));
                    if c == ch {
                        assert(orig != ci0);
                        if orig < ci0 {
                            assert(pre.channels@[orig].channel@ != pre.channels@[ci0].channel@);
                        } else {
                            assert(pre.channels@[ci0].channel@ != pre.channels@[orig].channel@);
                        }
                    }
                }
                if pre.spec_socket_present(c, s) && !(c == ch && s == sid) {
                    let ci = choose|ci: int|
                        0 <= ci < pre.channels@.len() && pre.channels@[ci].channel@ == c
                            && roster_has_socket(pre.channels@[ci], s);
                    if ci == ci0 {
                        assert(c == ch);
                        let mi = choose|mi: int|
                            0 <= mi < pre.channels@[ci0].members@.len()
                                && pre.channels@[ci0].members@[mi].socket_id@ == s;
                        assert(mi == 0);
                        assert(s == sid);
                    } else {
                        let post = if ci < ci0 {
                            ci
                        } else {
                            ci - 1
                        };
                        assert(self.channels@[post] == pre.channels@[ci]);
                        assert(roster_has_socket(self.channels@[post], s));
                        assert(self.spec_socket_present(c, s));
                    }
                }
            }
        }
        // counts
        if shape == 1 {
            pre.lemma_channel_index_unique(ci0, ch);
            self.lemma_channel_index_unique(ci0, ch);
        } else {
            pre.lemma_channel_index_unique(ci0, ch);
            assert(!self.spec_has_channel(ch)) by {
                if self.spec_has_channel(ch) {
                    let ci = choose|ci: int|
                        0 <= ci < self.channels@.len() && self.channels@[ci].channel@ == ch;
                    let orig = if ci < ci0 {
                        ci
                    } else {
                        ci + 1
                    };
                    assert(pre.channels@[orig].channel@ == ch);
                    if orig < ci0 {
                        assert(pre.channels@[orig].channel@ != pre.channels@[ci0].channel@);
                    } else {
                        assert(pre.channels@[ci0].channel@ != pre.channels@[orig].channel@);
                    }
                }
            }
        }
        assert forall|c: Seq<char>|
            c != ch implies #[trigger] self.spec_member_count(c) == pre.spec_member_count(c) by {
            if self.spec_has_channel(c) {
                let ci = choose|ci: int|
                    0 <= ci < self.channels@.len() && self.channels@[ci].channel@ == c;
                if shape == 1 {
                    assert(ci != ci0);
                    assert(pre.channels@[ci].channel@ == c);
                    self.lemma_channel_index_unique(ci, c);
                    pre.lemma_channel_index_unique(ci, c);
                } else {
                    let orig = if ci < ci0 {
                        ci
                    } else {
                        ci + 1
                    };
                    assert(pre.channels@[orig].channel@ == c);
                    self.lemma_channel_index_unique(ci, c);
                    pre.lemma_channel_index_unique(orig, c);
                    assert(self.channels@[ci] == pre.channels@[orig]);
                }
            } else {
                if pre.spec_has_channel(c) {
                    let ci = choose|ci: int|
                        0 <= ci < pre.channels@.len() && pre.channels@[ci].channel@ == c;
                    if shape == 1 {
                        assert(ci != ci0);
                        assert(self.channels@[ci].channel@ == c);
                    } else {
                        assert(ci != ci0);
                        let post = if ci < ci0 {
                            ci
                        } else {
                            ci - 1
                        };
                        assert(self.channels@[post] == pre.channels@[ci]);
                        assert(self.channels@[post].channel@ == c);
                    }
                }
            }
        }
        // structural clauses of wf
        assert forall|i: int, j: int|
            0 <= i < j < self.channels@.len() implies self.channels@[i].channel@
            != self.channels@[j].channel@ by {
            if shape == 2 {
                let oi = if i < ci0 {
                    i
                } else {
                    i + 1
                };
                let oj = if j < ci0 {
                    j
                } else {
                    j + 1
                };
                assert(self.channels@[i] == pre.channels@[oi]);
                assert(self.channels@[j] == pre.channels@[oj]);
            }
        }
        assert forall|i: int|
            0 <= i < self.channels@.len() implies (#[trigger] self.channels@[i]).members@.len()
            > 0 by {
            if shape == 2 {
                let oi = if i < ci0 {
                    i
                } else {
                    i + 1
                };
                assert(self.channels@[i] == pre.channels@[oi]);
            }
        }
        assert forall|i: int, a: int, b: int|
            #![trigger self.channels@[i].members@[a], self.channels@[i].members@[b]]
            0 <= i < self.channels@.len() && 0 <= a < b
                < self.channels@[i].members@.len() implies self.channels@[i
        ].members@[a].user_id@ != self.channels@[i].members@[b].user_id@ && self.channels@[i
        ].members@[a].socket_id@ != self.channels@[i].members@[b].socket_id@ by {
            if shape == 1 && i == ci0 {
                let pm = pre.channels@[ci0].members@;
                let nm = self.channels@[ci0].members@;
                let oa = if a < mi0 {
                    a
                } else {
                    a + 1
                };
                let ob = if b < mi0 {
                    b
                } else {
                    b + 1
                };
                assert(nm[a] == pm[oa] && nm[b] == pm[ob]);
            } else if shape == 2 {
                let oi = if i < ci0 {
                    i
                } else {
                    i + 1
                };
                assert(self.channels@[i] == pre.channels@[oi]);
            }
        }
    }


    pub fn socket_present(&self, ch: &str, socket_id: &str) -> (r: bool)
        requires
            self.wf(),
        ensures
            r == self.spec_socket_present(ch@, socket_id@),
    {
        match self.find_channel_index(ch) {
            Option::Some(ci) => {
                match Self::find_socket(&self.channels[ci], socket_id) {
                    Option::Some(mi) => {
                        proof {
                            assert(self.channels@[ci as int].members@[mi as int].socket_id@
                                == socket_id@);
                        }
                        true
                    },
                    Option::None => {
                        proof {
                            if self.spec_socket_present(ch@, socket_id@) {
                                let cj = choose|cj: int|
                                    0 <= cj < self.channels@.len() && self.channels@[cj].channel@
                                        == ch@ && roster_has_socket(
                                        self.channels@[cj],
                                        socket_id@,
                                    );
                                self.lemma_channel_index_unique(cj, ch@);
                                self.lemma_channel_index_unique(ci as int, ch@);
                            }
                        }
                        false
                    },
                }
            },
            Option::None => {
                proof {
                    if self.spec_socket_present(ch@, socket_id@) {
                        let cj = choose|cj: int|
                            0 <= cj < self.channels@.len() && self.channels@[cj].channel@ == ch@
                                && roster_has_socket(self.channels@[cj], socket_id@);
                        assert(self.spec_has_channel(ch@));
                    }
                }
                false
            },
        }
    }

    /// Roster snapshot: the `(user_id, user_info)` pairs on a channel.
    pub fn get_members(&self, ch: &str) -> (r: Vec<(String, String)>)
        requires
            self.wf(),
        ensures
            r@.len() == self.spec_member_count(ch@),
            forall|i: int|
                0 <= i < r@.len() ==> self.spec_has_member(ch@, #[trigger] r@[i].0@),
            forall|i: int, j: int| 0 <= i < j < r@.len() ==> r@[i].0@ != r@[j].0@,
            forall|u: Seq<char>|
                #[trigger] self.spec_has_member(ch@, u) ==> exists|i: int|
                    0 <= i < r@.len() && r@[i].0@ == u,
    {
        let mut r: Vec<(String, String)> = Vec::new();
        let ci = match self.find_channel_index(ch) {
            Option::None => {
                proof {
                    assert forall|u: Seq<char>|
                        #[trigger] self.spec_has_member(ch@, u) implies exists|i: int|
                        0 <= i < r@.len() && r@[i].0@ == u by {
                        let cj = choose|cj: int|
                            0 <= cj < self.channels@.len() && self.channels@[cj].channel@ == ch@
                                && roster_has_user(self.channels@[cj], u);
                        assert(self.spec_has_channel(ch@));
                    }
                }
                return r;
            },
            Option::Some(ci) => ci,
        };
        proof {
            self.lemma_channel_index_unique(ci as int, ch@);
        }
        let n = self.channels[ci].members.len();
        let mut i: usize = 0;
        while i < n
            invariant
                i <= n,
                ci < self.channels@.len(),
                self.channels@[ci as int].channel@ == ch@,
                n == self.channels@[ci as int].members@.len(),
                r@.len() == i,
                forall|k: int|
                    0 <= k < i ==> #[trigger] r@[k].0@ == self.channels@[ci as int
                    ].members@[k].user_id@ && r@[k].1@ == self.channels@[ci as int
                    ].members@[k].user_info@,
            decreases n - i,
        {
            let u = String::from_str(self.channels[ci].members[i].user_id.as_str());
            let info = String::from_str(self.channels[ci].members[i].user_info.as_str());
            let ghost r_pre = r@;
            r.push((u, info));
            proof {
                assert(r@.drop_last() =~= r_pre);
                assert forall|k: int|
                    0 <= k < i + 1 implies #[trigger] r@[k].0@ == self.channels@[ci as int
                ].members@[k].user_id@ && r@[k].1@ == self.channels@[ci as int
                ].members@[k].user_info@ by {
                    if k < i {
                        assert(r@[k] == r_pre[k]);
                    } else {
                        assert(r@[k].0@ == self.channels@[ci as int].members@[k].user_id@);
                        assert(r@[k].1@ == self.channels@[ci as int].members@[k].user_info@);
                    }
                }
            }
            i += 1;
        }
        proof {
            assert forall|a: int, b: int| 0 <= a < b < r@.len() implies r@[a].0@ != r@[b].0@ by {
                assert(r@[a].0@ == self.channels@[ci as int].members@[a].user_id@);
                assert(r@[b].0@ == self.channels@[ci as int].members@[b].user_id@);
            }
            assert forall|k: int|
                0 <= k < r@.len() implies self.spec_has_member(ch@, #[trigger] r@[k].0@) by {
                assert(self.channels@[ci as int].members@[k].user_id@ == r@[k].0@);
                assert(roster_has_user(self.channels@[ci as int], r@[k].0@));
            }
            assert forall|u: Seq<char>|
                #[trigger] self.spec_has_member(ch@, u) implies exists|i2: int|
                0 <= i2 < r@.len() && r@[i2].0@ == u by {
                let cj = choose|cj: int|
                    0 <= cj < self.channels@.len() && self.channels@[cj].channel@ == ch@
                        && roster_has_user(self.channels@[cj], u);
                self.lemma_channel_index_unique(cj, ch@);
                let mj = choose|mj: int|
                    0 <= mj < self.channels@[ci as int].members@.len() && self.channels@[ci as int
                    ].members@[mj].user_id@ == u;
                assert(r@[mj].0@ == u);
            }
        }
        r
    }
}


/// The `ids` array of a presence payload: each user id as a JSON string.
pub open spec fn spec_ids_json(roster: Seq<(Seq<char>, Seq<char>)>) -> Seq<char>
    decreases roster.len(),
{
    if roster.len() == 0 {
        Seq::<char>::empty()
    } else if roster.len() == 1 {
        seq!['"'] + ser_string(roster[0].0)
    } else {
        spec_ids_json(roster.drop_last()) + ","@ + seq!['"'] + ser_string(roster.last().0)
    }
}

/// The `hash` object of a presence payload: user id to raw user info.
pub open spec fn spec_hash_json(roster: Seq<(Seq<char>, Seq<char>)>) -> Seq<char>
    decreases roster.len(),
{
    if roster.len() == 0 {
        Seq::<char>::empty()
    } else if roster.len() == 1 {
        seq!['"'] + ser_string(roster[0].0) + ":"@ + roster[0].1
    } else {
        spec_hash_json(roster.drop_last()) + ","@ + seq!['"'] + ser_string(roster.last().0)
            + ":"@ + roster.last().1
    }
}

pub open spec fn roster_views(roster: Seq<(String, String)>) -> Seq<(Seq<char>, Seq<char>)> {
    roster.map_values(|p: (String, String)| (p.0@, p.1@))
}

/// The `data` of `pusher_internal:subscription_succeeded` on a presence
/// channel: the member count, the ids, and the id-to-info hash. Each
/// `user_info` is raw JSON and embedded as given.
pub open spec fn spec_presence_payload(roster: Seq<(Seq<char>, Seq<char>)>) -> Seq<char> {
    "{\"presence\":{\"count\":"@ + dec_of(roster.len()) + ",\"ids\":["@ + spec_ids_json(roster)
        + "],\"hash\":{"@ + spec_hash_json(roster) + "}}}"@
}

/// Render the roster as the subscription-succeeded presence payload.
pub fn presence_payload(roster: &Vec<(String, String)>) -> (r: String)
    requires
        roster@.len() <= u64::MAX,
    ensures
        r@ == spec_presence_payload(roster_views(roster@)),
{
    let n = roster.len();
    let mut ids = String::new();
    let mut hash = String::new();
    let mut i: usize = 0;
    while i < n
        invariant
            i <= n,
            n == roster@.len(),
            ids@ == spec_ids_json(roster_views(roster@).subrange(0, i as int)),
            hash@ == spec_hash_json(roster_views(roster@).subrange(0, i as int)),
        decreases n - i,
    {
        if i > 0 {
            ids.append(",");
            hash.append(",");
        }
        let quoted = {
            let mut q = String::from_str("\"");
            q.append(escape_str(roster[i].0.as_str()).as_str());
            q.append("\"");
            q
        };
        ids.append(quoted.as_str());
        hash.append(quoted.as_str());
        hash.append(":");
        hash.append(roster[i].1.as_str());
        proof {
            let vs = roster_views(roster@);
            let pre = vs.subrange(0, i as int);
            let cur = vs.subrange(0, i + 1);
            assert(cur.drop_last() =~= pre);
            assert(cur.last() == vs[i as int]);
            reveal_strlit("\"");
            assert("\""@ =~= seq!['"']);
            assert(quoted@ =~= seq!['"'] + ser_string(vs[i as int].0));
            if i == 0 {
                assert(ids@ =~= spec_ids_json(cur));
                assert(hash@ =~= spec_hash_json(cur));
            } else {
                assert(ids@ =~= spec_ids_json(cur));
                assert(hash@ =~= spec_hash_json(cur));
            }
        }
        i += 1;
    }
    proof {
        assert(roster_views(roster@).subrange(0, n as int) =~= roster_views(roster@));
    }
    let mut r = String::from_str("{\"presence\":{\"count\":");
    r.append(u64_to_string(n as u64).as_str());
    r.append(",\"ids\":[");
    r.append(ids.as_str());
    r.append("],\"hash\":{");
    r.append(hash.as_str());
    r.append("}}}");
    r
}

} // verus!
