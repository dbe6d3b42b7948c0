//! One round of dialing the peers a node knows, within a budget of time.
//!
//! Admission comes before the subscription, because the mesh is gated in both
//! directions. A peer that is merely unreachable is skipped: a node must still
//! come up on a stale ticket. A refusal is that peer's verdict, and counts only
//! when nothing admitted this node.

use vstd::prelude::*;

use crate::ids::NodeId;
use crate::peers::{peer_views, PeerView, TopicPeer};
use crate::watch::Redial;

verus! {

/// How a peer answered.
#[derive(Clone, Copy, Debug, PartialEq, Eq, Structural)]
pub enum Answer {
    /// It completed the mutual admission handshake, or had done so before.
    Admitted,
    /// It refused this node.
    Denied,
    /// It could not be reached, or has no address that can be dialed.
    Failed,
}

/// What a round has found so far, as values.
#[verifier::ext_equal]
pub ghost struct Tally {
    /// Peers dialed.
    pub tried: nat,
    /// Peers that admitted this node, in the order they were dialed.
    pub admitted: Seq<NodeId>,
    /// How many peers refused it.
    pub denials: nat,
    /// The first peer that refused it.
    pub denial: Option<NodeId>,
}

/// A round that has dialed nobody.
pub open spec fn untried() -> Tally {
    Tally { tried: 0, admitted: Seq::empty(), denials: 0, denial: None }
}

/// A tally with one more answer.
pub open spec fn tallied(t: Tally, node: NodeId, answer: Answer) -> Tally {
    match answer {
        Answer::Admitted => Tally {
            tried: t.tried + 1,
            admitted: t.admitted.push(node),
            ..t
        },
        Answer::Denied => Tally {
            tried: t.tried + 1,
            denials: t.denials + 1,
            denial: if t.denial is None {
                Some(node)
            } else {
                t.denial
            },
            ..t
        },
        Answer::Failed => Tally { tried: t.tried + 1, ..t },
    }
}

/// The tally of a whole round.
pub open spec fn tally(answers: Seq<(NodeId, Answer)>) -> Tally
    decreases answers.len(),
{
    if answers.len() == 0 {
        untried()
    } else {
        tallied(tally(answers.drop_last()), answers.last().0, answers.last().1)
    }
}

/// The next peer to dial from `at` on: the first that is not this node itself.
pub open spec fn next_peer(peers: Seq<PeerView>, me: NodeId, at: int) -> int
    decreases peers.len() - at,
{
    if 0 <= at < peers.len() && peers[at].node == me {
        next_peer(peers, me, at + 1)
    } else {
        at
    }
}

/// A round of dialing.
#[derive(Debug)]
pub struct DialRound {
    me: NodeId,
    peers: Vec<TopicPeer>,
    at: usize,
    until: u64,
    tried: usize,
    admitted: Vec<NodeId>,
    denials: usize,
    denial: Option<NodeId>,
}

impl DialRound {
    /// The peers of the round.
    pub closed spec fn list(&self) -> Seq<PeerView> {
        peer_views(self.peers@)
    }

    /// How many of them are behind it.
    pub closed spec fn place(&self) -> int {
        self.at as int
    }

    /// The node that dials.
    pub closed spec fn dialer(&self) -> NodeId {
        self.me
    }

    /// When the budget is spent.
    pub closed spec fn spent_at(&self) -> u64 {
        self.until
    }

    /// What the round has found so far.
    pub closed spec fn found(&self) -> Tally {
        Tally {
            tried: self.tried as nat,
            admitted: self.admitted@,
            denials: self.denials as nat,
            denial: self.denial,
        }
    }

    /// No more peers were dialed than are behind the round.
    pub open spec fn wf(&self) -> bool {
        &&& 0 <= self.place() <= self.list().len() <= usize::MAX
        &&& self.found().tried <= self.place()
        &&& self.found().admitted.len() + self.found().denials <= self.found().tried
        &&& (self.found().denial is Some) == (self.found().denials > 0)
    }

    /// A round over `peers`, spent `budget` after `now`.
    pub fn new(me: NodeId, peers: Vec<TopicPeer>, now: u64, budget: u64) -> (round: DialRound)
        requires
            now + budget <= u64::MAX,
        ensures
            round.wf(),
            round.list() == peer_views(peers@),
            round.place() == 0,
            round.dialer() == me,
            round.spent_at() == now + budget,
            round.found() == untried(),
    {
        let n: usize = peers.len();
        let round = DialRound {
            me,
            peers,
            at: 0,
            until: now + budget,
            tried: 0,
            admitted: Vec::new(),
            denials: 0,
            denial: None,
        };
        assert(round.found() =~= untried());
        assert(round.list().len() == n);
        round
    }

    /// The next peer to dial: this node itself is passed over, and once the
    /// budget is spent the rest is left to another round.
    pub fn next(&mut self, now: u64) -> (peer: Option<TopicPeer>)
        requires
            old(self).wf(),
        ensures
            final(self).wf(),
            final(self).list() == old(self).list(),
            final(self).dialer() == old(self).dialer(),
            final(self).spent_at() == old(self).spent_at(),
            final(self).found() == old(self).found(),
            ({
                let k = next_peer(old(self).list(), old(self).dialer(), old(self).place());
                if k < old(self).list().len() && now < old(self).spent_at() {
                    &&& peer matches Some(p) && p@ == old(self).list()[k]
                    &&& final(self).place() == k + 1
                    &&& final(self).found().tried < final(self).place()
                } else {
                    &&& peer is None
                    &&& final(self).place() == old(self).list().len()
                }
            }),
    {
        let ghost start = *self;
        let n: usize = self.peers.len();
        while self.at < n && self.peers[self.at].node.same(&self.me)
            invariant
                start.wf(),
                self.peers == start.peers,
                self.me == start.me,
                self.until == start.until,
                self.found() == start.found(),
                n == self.peers@.len(),
                start.at <= self.at <= n,
                next_peer(start.list(), start.me, start.at as int) == next_peer(
                    start.list(),
                    start.me,
                    self.at as int,
                ),
            decreases n - self.at,
        {
            assert(start.list()[self.at as int].node == self.peers@[self.at as int].node);
            self.at = self.at + 1;
        }
        if self.at < n {
            assert(start.list()[self.at as int] == self.peers@[self.at as int]@);
        }
        if self.at == n || now >= self.until {
            self.at = n;
            return None;
        }
        let peer = self.peers[self.at].copy();
        self.at = self.at + 1;
        Some(peer)
    }

    /// Take in how the peer that was dialed answered.
    pub fn answered(&mut self, node: NodeId, answer: Answer)
        requires
            old(self).wf(),
            old(self).found().tried < old(self).place(),
        ensures
            final(self).wf(),
            final(self).list() == old(self).list(),
            final(self).dialer() == old(self).dialer(),
            final(self).spent_at() == old(self).spent_at(),
            final(self).place() == old(self).place(),
            final(self).found() == tallied(old(self).found(), node, answer),
    {
        self.tried = self.tried + 1;
        match answer {
            Answer::Admitted => {
                self.admitted.push(node);
            },
            Answer::Denied => {
                self.denials = self.denials + 1;
                if self.denial.is_none() {
                    self.denial = Some(node);
                }
            },
            Answer::Failed => {},
        }
        assert(self.found() =~= tallied(old(self).found(), node, answer));
    }

    /// The peers to hand to the mesh, or the peer whose refusal ends the join:
    /// the first that refused, and only when nothing admitted this node.
    pub fn joined(self) -> (peers: Result<Vec<NodeId>, NodeId>)
        ensures
            match peers {
                Ok(ids) => ids@ == self.found().admitted && (ids@.len() > 0 || self.found().denial
                    is None),
                Err(node) => self.found().admitted.len() == 0 && self.found().denial == Some(node),
            },
    {
        if self.admitted.len() == 0 {
            match self.denial {
                Some(node) => {
                    return Err(node);
                },
                None => {},
            }
        }
        Ok(self.admitted)
    }

    /// The counts of a redial.
    pub fn redialed(&self) -> (round: Redial)
        requires
            self.wf(),
        ensures
            round.tried == self.found().tried,
            round.admitted == self.found().admitted.len(),
            round.denials == self.found().denials,
    {
        Redial { tried: self.tried, admitted: self.admitted.len(), denials: self.denials }
    }
}

/// One peer's refusal does not stop a join that another peer admits: the join
/// fails exactly when some peer refused and none admitted, and a peer that
/// admitted is handed to the mesh.
pub proof fn one_refusal_does_not_stop_a_join(answers: Seq<(NodeId, Answer)>, i: int)
    requires
        0 <= i < answers.len(),
    ensures
        answers[i].1 == Answer::Admitted ==> tally(answers).admitted.contains(answers[i].0),
        answers[i].1 == Answer::Denied ==> tally(answers).denial is Some,
        tally(answers).tried == answers.len(),
    decreases answers.len(),
{
    let rest = answers.drop_last();
    let before = tally(rest);
    tally_counts(rest);
    if i < rest.len() {
        assert(rest[i] == answers[i]);
        one_refusal_does_not_stop_a_join(rest, i);
        if answers[i].1 == Answer::Admitted {
            let k = choose|k: int|
                0 <= k < before.admitted.len() && before.admitted[k] == answers[i].0;
            assert(tally(answers).admitted[k] == answers[i].0);
        }
    } else if answers[i].1 == Answer::Admitted {
        assert(tally(answers).admitted[before.admitted.len() as int] == answers[i].0);
    }
}

/// A round tries one peer for each answer.
proof fn tally_counts(answers: Seq<(NodeId, Answer)>)
    ensures
        tally(answers).tried == answers.len(),
    decreases answers.len(),
{
    if answers.len() > 0 {
        tally_counts(answers.drop_last());
    }
}

/// A refusal that ends a join is some peer's, and no peer admitted.
pub proof fn a_join_ends_refused_only_without_admission(answers: Seq<(NodeId, Answer)>)
    ensures
        tally(answers).denial matches Some(node) ==> exists|i: int|
            0 <= i < answers.len() && #[trigger] answers[i] == (node, Answer::Denied),
        tally(answers).admitted.len() == 0 ==> forall|i: int|
            0 <= i < answers.len() ==> (#[trigger] answers[i]).1 != Answer::Admitted,
    decreases answers.len(),
{
    if answers.len() > 0 {
        let rest = answers.drop_last();
        a_join_ends_refused_only_without_admission(rest);
        let last = (answers.len() - 1) as int;
        match tally(answers).denial {
            Some(node) => {
                if tally(rest).denial is Some {
                    let i = choose|i: int|
                        0 <= i < rest.len() && #[trigger] rest[i] == (node, Answer::Denied);
                    assert(answers[i] == (node, Answer::Denied));
                } else {
                    assert(answers[last] == (node, Answer::Denied));
                }
            },
            None => {},
        }
        if tally(answers).admitted.len() == 0 {
            assert forall|i: int| 0 <= i < answers.len() implies (#[trigger] answers[i]).1
                != Answer::Admitted by {
                if i < last {
                    assert(rest[i] == answers[i]);
                }
            }
        }
    }
}

/// Rounds add up: what two rounds of answers come to is what each does, one behind
/// the other, and the first refusal is the first round's where it had one.
pub proof fn rounds_add_up(a: Seq<(NodeId, Answer)>, b: Seq<(NodeId, Answer)>)
    ensures
        tally(a + b).tried == tally(a).tried + tally(b).tried,
        tally(a + b).admitted == tally(a).admitted + tally(b).admitted,
        tally(a + b).denials == tally(a).denials + tally(b).denials,
        tally(a + b).denial == if tally(a).denial is Some {
            tally(a).denial
        } else {
            tally(b).denial
        },
    decreases b.len(),
{
    if b.len() == 0 {
        assert(a + b =~= a);
        assert(tally(a).admitted + tally(b).admitted =~= tally(a).admitted);
    } else {
        rounds_add_up(a, b.drop_last());
        assert((a + b).drop_last() =~= a + b.drop_last());
        assert((a + b).last() == b.last());
        assert(tally(a + b).admitted =~= tally(a).admitted + tally(b).admitted);
    }
}

/// One answer counts as one try: an admission adds the node, a refusal counts as one
/// and is the node's, and a failure is neither.
pub proof fn one_answer_counts_once(node: NodeId, answer: Answer)
    ensures
        ({
            let t = tally(seq![(node, answer)]);
            &&& t.tried == 1
            &&& t.admitted == if answer == Answer::Admitted {
                seq![node]
            } else {
                Seq::empty()
            }
            &&& t.denials == if answer == Answer::Denied {
                1nat
            } else {
                0
            }
            &&& t.denial == if answer == Answer::Denied {
                Some(node)
            } else {
                None
            }
        }),
{
    let answers = seq![(node, answer)];
    assert(answers.drop_last() =~= Seq::<(NodeId, Answer)>::empty());
    assert(tally(answers.drop_last()) == untried());
    assert(Seq::<NodeId>::empty().push(node) =~= seq![node]);
}

/// The next peer to dial is the first from a place on that is not this node.
pub proof fn only_this_node_is_skipped(peers: Seq<PeerView>, me: NodeId, at: int, i: int)
    requires
        0 <= at <= peers.len(),
    ensures
        ({
            let k = next_peer(peers, me, at);
            &&& at <= k <= peers.len()
            &&& at <= i < k ==> peers[i].node == me
            &&& k < peers.len() ==> peers[k].node != me
        }),
    decreases peers.len() - at,
{
    if at < peers.len() && peers[at].node == me {
        only_this_node_is_skipped(peers, me, at + 1, i);
    }
}

} // verus!
