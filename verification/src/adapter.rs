//! Fan-out: which sockets a broadcast reaches on this node, and the mesh
//! envelope discipline that gives each subscriber the event exactly once
//! across nodes. The transport that carries envelopes between nodes stays
//! outside; this module decides what is sent and to whom.

use vstd::prelude::*;
use crate::connection::SocketId;
use crate::namespace::Namespace;
use crate::text::str_eq;

verus! {

/// What one node publishes on the broadcast topic.
#[derive(Debug)]
pub struct BroadcastEnvelope {
    pub node_id: String,
    pub app_id: String,
    pub channel: String,
    pub message: String,
    pub except: Option<String>,
}

/// Self-loop suppression: a node processes every envelope but its own.
pub fn accepts_envelope(own_node_id: &str, env: &BroadcastEnvelope) -> (r: bool)
    ensures
        r == (env.node_id@ != own_node_id@),
{
    !str_eq(env.node_id.as_str(), own_node_id)
}

pub open spec fn opt_view(s: Option<&str>) -> Option<Seq<char>> {
    match s {
        Option::None => Option::None,
        Option::Some(v) => Option::Some(v@),
    }
}

/// A socket receives a broadcast when it sits in the channel and is not
/// the excluded sender.
pub open spec fn spec_receives(
    ns: Namespace,
    ch: Seq<char>,
    except: Option<Seq<char>>,
    sid: Seq<char>,
) -> bool {
    ns.spec_is_member(ch, sid) && (match except {
        Option::None => true,
        Option::Some(e) => sid != e,
    })
}

/// The sockets one local broadcast writes to: every member of the channel
/// except the excluded sender, each exactly once.
pub fn broadcast_targets(ns: &Namespace, channel: &str, except: Option<&str>) -> (r: Vec<SocketId>)
    requires
        ns.wf(),
    ensures
        forall|i: int, j: int| 0 <= i < j < r@.len() ==> r@[i]@ != r@[j]@,
        forall|i: int|
            0 <= i < r@.len() ==> spec_receives(*ns, channel@, opt_view(except), #[trigger] r@[i]@),
        forall|s: Seq<char>|
            #[trigger] spec_receives(*ns, channel@, opt_view(except), s) ==> exists|i: int|
                0 <= i < r@.len() && r@[i]@ == s,
{
    let members = ns.get_channel_sockets(channel);
    let mut r: Vec<SocketId> = Vec::new();
    let n = members.len();
    let mut i: usize = 0;
    while i < n
        invariant
            i <= n,
            n == members@.len(),
            forall|a: int, b: int| 0 <= a < b < members@.len() ==> members@[a]@ != members@[b]@,
            forall|a: int|
                0 <= a < members@.len() ==> ns.spec_is_member(channel@, #[trigger] members@[a]@),
            forall|a: int, b: int| 0 <= a < b < r@.len() ==> r@[a]@ != r@[b]@,
            forall|a: int|
                0 <= a < r@.len() ==> spec_receives(
                    *ns,
                    channel@,
                    opt_view(except),
                    #[trigger] r@[a]@,
                ),
            forall|a: int|
                0 <= a < i ==> (spec_receives(*ns, channel@, opt_view(except), #[trigger] members@[
                    a]@) ==> exists|k: int| 0 <= k < r@.len() && r@[k]@ == members@[a]@),
            forall|k: int|
                0 <= k < r@.len() ==> exists|a: int| 0 <= a < i && members@[a]@ == #[trigger] r@[k]@,
        decreases n - i,
    {
        let ghost r_pre = r@;
        let keep = match except {
            Option::None => true,
            Option::Some(e) => !str_eq(members[i].as_str(), e),
        };
        if keep {
            r.push(SocketId(String::from_str(members[i].as_str())));
            proof {
                assert(r@.drop_last() =~= r_pre);
                assert(r@.last()@ == members@[i as int]@);
            }
        } else {
            proof {
                assert(!spec_receives(*ns, channel@, opt_view(except), members@[i as int]@));
            }
        }
        proof {
            assert forall|a: int|
                0 <= a < i + 1 && spec_receives(
                    *ns,
                    channel@,
                    opt_view(except),
                    #[trigger] members@[a]@,
                ) implies exists|k: int| 0 <= k < r@.len() && r@[k]@ == members@[a]@ by {
                if a < i {
                    let k = choose|k: int| 0 <= k < r_pre.len() && r_pre[k]@ == members@[a]@;
                    assert(r@[k]@ == members@[a]@);
                } else {
                    assert(r@[r@.len() - 1]@ == members@[a]@);
                }
            }
        }
        i += 1;
    }
    proof {
        assert forall|s: Seq<char>|
            #[trigger] spec_receives(*ns, channel@, opt_view(except), s) implies exists|k: int|
            0 <= k < r@.len() && r@[k]@ == s by {
            assert(ns.spec_is_member(channel@, s));
            let a = choose|a: int| 0 <= a < members@.len() && members@[a]@ == s;
            assert(spec_receives(*ns, channel@, opt_view(except), members@[a]@));
        }
    }
    r
}

/// Cross-node fan-out reaches every subscriber exactly once: the
/// originating node delivers to its local targets, a peer accepts the
/// envelope and delivers to its own, and with node-disjoint sockets the
/// two target lists never overlap and together cover every subscriber.
pub proof fn lemma_cross_node_exactly_once(
    a: Namespace,
    b: Namespace,
    ta: Seq<SocketId>,
    tb: Seq<SocketId>,
    ch: Seq<char>,
    except: Option<Seq<char>>,
)
    requires
        a.wf(),
        b.wf(),
        forall|s: Seq<char>| !(a.spec_has_socket(s) && b.spec_has_socket(s)),
        forall|i: int, j: int| 0 <= i < j < ta.len() ==> ta[i]@ != ta[j]@,
        forall|i: int| 0 <= i < ta.len() ==> spec_receives(a, ch, except, #[trigger] ta[i]@),
        forall|s: Seq<char>|
            #[trigger] spec_receives(a, ch, except, s) ==> exists|i: int|
                0 <= i < ta.len() && ta[i]@ == s,
        forall|i: int, j: int| 0 <= i < j < tb.len() ==> tb[i]@ != tb[j]@,
        forall|i: int| 0 <= i < tb.len() ==> spec_receives(b, ch, except, #[trigger] tb[i]@),
        forall|s: Seq<char>|
            #[trigger] spec_receives(b, ch, except, s) ==> exists|i: int|
                0 <= i < tb.len() && tb[i]@ == s,
    ensures
        forall|i: int, j: int| 0 <= i < j < (ta + tb).len() ==> (ta + tb)[i]@ != (ta + tb)[j]@,
        forall|s: Seq<char>|
            #[trigger] spec_receives(a, ch, except, s) ==> exists|i: int|
                0 <= i < (ta + tb).len() && (ta + tb)[i]@ == s,
        forall|s: Seq<char>|
            #[trigger] spec_receives(b, ch, except, s) ==> exists|i: int|
                0 <= i < (ta + tb).len() && (ta + tb)[i]@ == s,
        forall|i: int|
            0 <= i < (ta + tb).len() ==> spec_receives(a, ch, except, #[trigger] (ta + tb)[i]@)
                || spec_receives(b, ch, except, (ta + tb)[i]@),
{
    let t = ta + tb;
    assert forall|i: int, j: int| 0 <= i < j < t.len() implies t[i]@ != t[j]@ by {
        if i < ta.len() && j >= ta.len() {
            assert(t[i] == ta[i]);
            assert(t[j] == tb[j - ta.len()]);
            assert(spec_receives(a, ch, except, ta[i]@));
            assert(spec_receives(b, ch, except, tb[j - ta.len()]@));
            a.lemma_bidirectional_consistency(ch, ta[i]@);
            b.lemma_bidirectional_consistency(ch, tb[j - ta.len()]@);
            if t[i]@ == t[j]@ {
                assert(a.spec_has_socket(t[i]@) && b.spec_has_socket(t[i]@));
            }
        } else if j < ta.len() {
            assert(t[i] == ta[i] && t[j] == ta[j]);
        } else {
            assert(t[i] == tb[i - ta.len()] && t[j] == tb[j - ta.len()]);
        }
    }
    assert forall|s: Seq<char>|
        #[trigger] spec_receives(a, ch, except, s) implies exists|i: int|
        0 <= i < (ta + tb).len() && (ta + tb)[i]@ == s by {
        let i = choose|i: int| 0 <= i < ta.len() && ta[i]@ == s;
        assert((ta + tb)[i]@ == s);
    }
    assert forall|s: Seq<char>|
        #[trigger] spec_receives(b, ch, except, s) implies exists|i: int|
        0 <= i < (ta + tb).len() && (ta + tb)[i]@ == s by {
        let i = choose|i: int| 0 <= i < tb.len() && tb[i]@ == s;
        assert((ta + tb)[ta.len() + i]@ == s);
    }
    assert forall|i: int|
        0 <= i < t.len() implies spec_receives(a, ch, except, #[trigger] t[i]@)
        || spec_receives(b, ch, except, t[i]@) by {
        if i < ta.len() {
            assert(t[i] == ta[i]);
        } else {
            assert(t[i] == tb[i - ta.len()]);
        }
    }
}

/// The sum a node reports when peers answer a socket-count request.
pub open spec fn spec_sum(counts: Seq<usize>) -> int
    decreases counts.len(),
{
    if counts.len() == 0 {
        0int
    } else {
        spec_sum(counts.drop_last()) + counts.last()
    }
}

/// Merge peer replies to a count request by summing them.
pub fn merge_socket_counts(counts: &Vec<usize>) -> (r: Option<u64>)
    ensures
        match r {
            Option::Some(total) => total == spec_sum(counts@),
            Option::None => spec_sum(counts@) > u64::MAX,
        },
{
    let mut total: u64 = 0;
    let n = counts.len();
    let mut i: usize = 0;
    while i < n
        invariant
            i <= n,
            n == counts@.len(),
            total == spec_sum(counts@.subrange(0, i as int)),
        decreases n - i,
    {
        proof {
            assert(counts@.subrange(0, i + 1 as int).drop_last() =~= counts@.subrange(0, i as int));
            assert(counts@.subrange(0, i + 1 as int).last() == counts@[i as int]);
        }
        let c = counts[i] as u64;
        if total > u64::MAX - c {
            proof {
                lemma_sum_prefix_le(counts@, i + 1 as int);
            }
            return Option::None;
        }
        total = total + c;
        i += 1;
    }
    proof {
        assert(counts@.subrange(0, n as int) =~= counts@);
    }
    Option::Some(total)
}

/// The total of all replies is at least the total of any prefix of them.
pub proof fn lemma_sum_prefix_le(counts: Seq<usize>, i: int)
    requires
        0 <= i <= counts.len(),
    ensures
        spec_sum(counts.subrange(0, i)) <= spec_sum(counts),
    decreases counts.len() - i,
{
    if i < counts.len() {
        lemma_sum_prefix_le(counts, i + 1);
        assert(counts.subrange(0, i + 1).drop_last() =~= counts.subrange(0, i));
        assert(counts.subrange(0, i + 1).last() == counts[i]);
    } else {
        assert(counts.subrange(0, i) =~= counts);
    }
}


/// The peers a node has observed on the backplane, by their last
/// heartbeat. A peer whose heartbeat has lapsed for the configured
/// timeout no longer counts as live.
pub struct PeerRegistry {
    peers: Vec<(String, u64)>,
}

impl PeerRegistry {
    pub closed spec fn wf(self) -> bool {
        forall|i: int, j: int|
            0 <= i < j < self.peers@.len() ==> self.peers@[i].0@ != self.peers@[j].0@
    }

    spec fn spec_peer_index(self, node: Seq<char>) -> int {
        choose|i: int| 0 <= i < self.peers@.len() && self.peers@[i].0@ == node
    }

    spec fn spec_has_peer(self, node: Seq<char>) -> bool {
        exists|i: int| 0 <= i < self.peers@.len() && self.peers@[i].0@ == node
    }

    /// When the peer was last heard, if ever.
    pub closed spec fn spec_last_seen(self, node: Seq<char>) -> Option<u64> {
        if self.spec_has_peer(node) {
            Option::Some(self.peers@[self.spec_peer_index(node)].1)
        } else {
            Option::None
        }
    }

    /// A peer is live while its last heartbeat is within the timeout.
    pub open spec fn spec_is_live(self, node: Seq<char>, now_ms: u64, timeout_ms: u64) -> bool {
        match self.spec_last_seen(node) {
            Option::None => false,
            Option::Some(last) => now_ms >= last && now_ms - last < timeout_ms,
        }
    }

    pub fn new() -> (r: PeerRegistry)
        ensures
            r.wf(),
            forall|n: Seq<char>| r.spec_last_seen(n) is None,
    {
        PeerRegistry { peers: Vec::new() }
    }

    fn find_peer(&self, node: &str) -> (r: Option<usize>)
        ensures
            match r {
                Option::Some(i) => i < self.peers@.len() && self.peers@[i as int].0@ == node@,
                Option::None => !self.spec_has_peer(node@),
            },
    {
        let n = self.peers.len();
        let mut i: usize = 0;
        while i < n
            invariant
                i <= n,
                n == self.peers@.len(),
                forall|j: int| 0 <= j < i ==> self.peers@[j].0@ != node@,
            decreases n - i,
        {
            if str_eq(self.peers[i].0.as_str(), node) {
                return Option::Some(i);
            }
            i += 1;
        }
        Option::None
    }

    proof fn lemma_peer_index_unique(self, node: Seq<char>, i: int)
        requires
            self.wf(),
            0 <= i < self.peers@.len(),
            self.peers@[i].0@ == node,
        ensures
            self.spec_has_peer(node),
            self.spec_peer_index(node) == i,
    {
        let j = self.spec_peer_index(node);
        if j != i {
            if j < i {
                assert(self.peers@[j].0@ != self.peers@[i].0@);
            } else {
                assert(self.peers@[i].0@ != self.peers@[j].0@);
            }
        }
    }

    /// Record a heartbeat from a peer.
    pub fn observe_heartbeat(&mut self, node: &str, now_ms: u64)
        requires
            old(self).wf(),
        ensures
            final(self).wf(),
            final(self).spec_last_seen(node@) == Option::Some(now_ms),
            forall|n: Seq<char>|
                n != node@ ==> #[trigger] final(self).spec_last_seen(n) == old(
                    self,
                ).spec_last_seen(n),
    {
        let ghost pre = *self;
        match self.find_peer(node) {
            Option::Some(i) => {
                proof {
                    pre.lemma_peer_index_unique(node@, i as int);
                }
                let mut e = self.peers.remove(i);
                e.1 = now_ms;
                let ghost e2 = e;
                self.peers.insert(i, e);
                proof {
                    assert(self.peers@ =~= pre.peers@.update(i as int, e2));
                    assert forall|a: int, b: int|
                        0 <= a < b < self.peers@.len() implies self.peers@[a].0@
                        != self.peers@[b].0@ by {
                        assert(self.peers@[a].0@ == pre.peers@[a].0@);
                        assert(self.peers@[b].0@ == pre.peers@[b].0@);
                    }
                    self.lemma_peer_index_unique(node@, i as int);
                    assert forall|n: Seq<char>|
                        n != node@ implies #[trigger] self.spec_last_seen(n) == pre.spec_last_seen(
                        n,
                    ) by {
                        if self.spec_has_peer(n) {
                            let j = choose|j: int|
                                0 <= j < self.peers@.len() && self.peers@[j].0@ == n;
                            assert(j != i);
                            assert(pre.peers@[j].0@ == n);
                            self.lemma_peer_index_unique(n, j);
                            pre.lemma_peer_index_unique(n, j);
                        } else {
                            if pre.spec_has_peer(n) {
                                let j = choose|j: int|
                                    0 <= j < pre.peers@.len() && pre.peers@[j].0@ == n;
                                assert(self.peers@[j].0@ == n);
                            }
                        }
                    }
                }
            },
            Option::None => {
                self.peers.push((String::from_str(node), now_ms));
                proof {
                    assert(self.peers@.drop_last() =~= pre.peers@);
                    assert forall|a: int, b: int|
                        0 <= a < b < self.peers@.len() implies self.peers@[a].0@
                        != self.peers@[b].0@ by {
                        if b == self.peers@.len() - 1 {
                            assert(pre.peers@[a].0@ == self.peers@[a].0@);
                            if self.peers@[a].0@ == node@ {
                                assert(pre.spec_has_peer(node@));
                            }
                        } else {
                            assert(self.peers@[a].0@ == pre.peers@[a].0@);
                            assert(self.peers@[b].0@ == pre.peers@[b].0@);
                        }
                    }
                    self.lemma_peer_index_unique(node@, self.peers@.len() - 1);
                    assert forall|n: Seq<char>|
                        n != node@ implies #[trigger] self.spec_last_seen(n) == pre.spec_last_seen(
                        n,
                    ) by {
                        if self.spec_has_peer(n) {
                            let j = choose|j: int|
                                0 <= j < self.peers@.len() && self.peers@[j].0@ == n;
                            assert(j < pre.peers@.len());
                            assert(pre.peers@[j].0@ == n);
                            self.lemma_peer_index_unique(n, j);
                            pre.lemma_peer_index_unique(n, j);
                        } else {
                            if pre.spec_has_peer(n) {
                                let j = choose|j: int|
                                    0 <= j < pre.peers@.len() && pre.peers@[j].0@ == n;
                                assert(self.peers@[j].0@ == n);
                            }
                        }
                    }
                }
            },
        }
    }

    pub fn is_live(&self, node: &str, now_ms: u64, timeout_ms: u64) -> (r: bool)
        requires
            self.wf(),
        ensures
            r == self.spec_is_live(node@, now_ms, timeout_ms),
    {
        match self.find_peer(node) {
            Option::None => false,
            Option::Some(i) => {
                proof {
                    self.lemma_peer_index_unique(node@, i as int);
                }
                let last = self.peers[i].1;
                now_ms >= last && now_ms - last < timeout_ms
            },
        }
    }

    /// The peers whose heartbeat is still within the timeout: the set a
    /// request waits on before its deadline.
    pub fn live_peers(&self, now_ms: u64, timeout_ms: u64) -> (r: Vec<String>)
        requires
            self.wf(),
        ensures
            forall|i: int|
                0 <= i < r@.len() ==> self.spec_is_live(#[trigger] r@[i]@, now_ms, timeout_ms),
            forall|i: int, j: int| 0 <= i < j < r@.len() ==> r@[i]@ != r@[j]@,
            forall|n: Seq<char>|
                #[trigger] self.spec_is_live(n, now_ms, timeout_ms) ==> exists|i: int|
                    0 <= i < r@.len() && r@[i]@ == n,
    {
        let mut r: Vec<String> = Vec::new();
        let n = self.peers.len();
        let mut i: usize = 0;
        while i < n
            invariant
                self.wf(),
                i <= n,
                n == self.peers@.len(),
                forall|a: int|
                    0 <= a < r@.len() ==> self.spec_is_live(#[trigger] r@[a]@, now_ms, timeout_ms),
                forall|a: int, b: int| 0 <= a < b < r@.len() ==> r@[a]@ != r@[b]@,
                forall|a: int|
                    0 <= a < i ==> (self.spec_is_live(#[trigger] self.peers@[a].0@, now_ms,
                    timeout_ms) ==> exists|k: int| 0 <= k < r@.len() && r@[k]@
                        == self.peers@[a].0@),
                forall|k: int|
                    0 <= k < r@.len() ==> exists|a: int|
                        0 <= a < i && self.peers@[a].0@ == #[trigger] r@[k]@,
            decreases n - i,
        {
            let last = self.peers[i].1;
            let ghost r_pre = r@;
            proof {
                self.lemma_peer_index_unique(self.peers@[i as int].0@, i as int);
            }
            if now_ms >= last && now_ms - last < timeout_ms {
                r.push(String::from_str(self.peers[i].0.as_str()));
                proof {
                    assert(r@.drop_last() =~= r_pre);
                    assert(r@.last()@ == self.peers@[i as int].0@);
                }
            }
            proof {
                assert forall|a: int|
                    0 <= a < i + 1 && self.spec_is_live(
                        #[trigger] self.peers@[a].0@,
                        now_ms,
                        timeout_ms,
                    ) implies exists|k: int| 0 <= k < r@.len() && r@[k]@ == self.peers@[a].0@ by {
                    if a < i {
                        let k = choose|k: int| 0 <= k < r_pre.len() && r_pre[k]@
                            == self.peers@[a].0@;
                        assert(r@[k]@ == self.peers@[a].0@);
                    } else {
                        assert(r@[r@.len() - 1]@ == self.peers@[a].0@);
                    }
                }
            }
            i += 1;
        }
        proof {
            assert forall|m: Seq<char>|
                #[trigger] self.spec_is_live(m, now_ms, timeout_ms) implies exists|k: int|
                0 <= k < r@.len() && r@[k]@ == m by {
                let a = choose|a: int| 0 <= a < self.peers@.len() && self.peers@[a].0@ == m;
                assert(self.spec_is_live(self.peers@[a].0@, now_ms, timeout_ms));
            }
        }
        r
    }
}

/// Whether every expected peer has answered: when true, a pending request
/// can return before its deadline.
pub fn have_all_replies(expected: &Vec<String>, replied: &Vec<String>) -> (r: bool)
    ensures
        r == forall|i: int|
            0 <= i < expected@.len() ==> crate::text::seq_has_str(
                replied@,
                #[trigger] expected@[i]@,
            ),
{
    let n = expected.len();
    let mut i: usize = 0;
    while i < n
        invariant
            i <= n,
            n == expected@.len(),
            forall|j: int|
                0 <= j < i ==> crate::text::seq_has_str(replied@, #[trigger] expected@[j]@),
        decreases n - i,
    {
        if !crate::text::vec_contains_str(replied, expected[i].as_str()) {
            return false;
        }
        i += 1;
    }
    true
}

} // verus!
