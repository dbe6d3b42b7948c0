//! The peers a node knows on a topic.
//!
//! There is no discovery service: a node restarted with no ticket must still
//! find its way back to the mesh, so every peer learned from a ticket or from a
//! live neighbor is kept. Hints only: admission still decides who is in.

use vstd::prelude::*;

use crate::ids::{lex_lt_irreflexive, lex_lt_total, lex_lt_transitive, NodeId, TopicId};
use crate::nodes::rising_nodes_determined;
use crate::text::{copy_maybe, hex, maybe_text, same_maybe};

verus! {

/// A socket address.
#[allow(inconsistent_fields)]
#[derive(Clone, Copy, Debug, PartialEq, Eq, Structural)]
pub enum Addr {
    V4 { ip: u32, port: u16 },
    V6 { ip: u128, port: u16, flow: u32, scope: u32 },
}

/// A peer and where it may be dialed.
#[derive(Debug, PartialEq, Eq)]
pub struct TopicPeer {
    pub node: NodeId,
    pub addrs: Vec<Addr>,
    pub relay_url: Option<String>,
}

/// A peer, as values.
#[verifier::ext_equal]
pub ghost struct PeerView {
    pub node: NodeId,
    pub addrs: Seq<Addr>,
    pub relay_url: Option<Seq<char>>,
}

impl View for TopicPeer {
    type V = PeerView;

    open spec fn view(&self) -> PeerView {
        PeerView { node: self.node, addrs: self.addrs@, relay_url: maybe_text(self.relay_url) }
    }
}

/// The peers of a list, as values.
pub open spec fn peer_views(list: Seq<TopicPeer>) -> Seq<PeerView> {
    list.map_values(|p: TopicPeer| p@)
}

/// A hint that names a node and nothing else.
pub open spec fn bare(node: NodeId) -> PeerView {
    PeerView { node, addrs: Seq::empty(), relay_url: None }
}

impl TopicPeer {
    /// A hint that names a node and nothing else.
    pub fn new(node: NodeId) -> (peer: TopicPeer)
        ensures
            peer@ == bare(node),
    {
        let peer = TopicPeer { node, addrs: Vec::new(), relay_url: None };
        assert(peer@ =~= bare(node));
        peer
    }

    /// A copy of this peer.
    pub fn copy(&self) -> (copy: TopicPeer)
        ensures
            copy@ == self@,
    {
        let mut addrs: Vec<Addr> = Vec::new();
        let mut i: usize = 0;
        while i < self.addrs.len()
            invariant
                i <= self.addrs@.len(),
                addrs@ == self.addrs@.take(i as int),
            decreases self.addrs@.len() - i,
        {
            addrs.push(self.addrs[i]);
            assert(self.addrs@.take(i as int).push(self.addrs@[i as int]) =~= self.addrs@.take(
                i + 1,
            ));
            i += 1;
        }
        assert(self.addrs@.take(self.addrs@.len() as int) =~= self.addrs@);
        TopicPeer { node: self.node, addrs, relay_url: copy_maybe(&self.relay_url) }
    }

    /// Whether `other` is the same hint.
    pub fn same(&self, other: &TopicPeer) -> (same: bool)
        ensures
            same == (self@ == other@),
    {
        if !self.node.same(&other.node) || self.addrs.len() != other.addrs.len() {
            return false;
        }
        let mut i: usize = 0;
        while i < self.addrs.len()
            invariant
                i <= self.addrs@.len(),
                self.addrs@.len() == other.addrs@.len(),
                forall|j: int| 0 <= j < i ==> self.addrs@[j] == other.addrs@[j],
            decreases self.addrs@.len() - i,
        {
            if self.addrs[i] != other.addrs[i] {
                assert(self@.addrs[i as int] != other@.addrs[i as int]);
                return false;
            }
            i += 1;
        }
        assert(self@.addrs =~= other@.addrs);
        same_maybe(&self.relay_url, &other.relay_url)
    }
}

/// Peers in the strict order of their node ids.
pub open spec fn peers_sorted(peers: Seq<PeerView>) -> bool {
    forall|i: int, j: int|
        0 <= i < j < peers.len() ==> (#[trigger] peers[i]).node.precedes(
            (#[trigger] peers[j]).node,
        )
}

/// The peers in `peers`, by node id.
pub open spec fn by_node(peers: Seq<PeerView>) -> Map<NodeId, PeerView> {
    Map::new(
        |n: NodeId| exists|i: int| 0 <= i < peers.len() && (#[trigger] peers[i]).node == n,
        |n: NodeId| peers[choose|i: int| 0 <= i < peers.len() && (#[trigger] peers[i]).node == n],
    )
}

/// In sorted peers a node stands at one place only.
proof fn by_node_at(peers: Seq<PeerView>, i: int)
    requires
        peers_sorted(peers),
        0 <= i < peers.len(),
    ensures
        by_node(peers).dom().contains(peers[i].node),
        by_node(peers)[peers[i].node] == peers[i],
{
    let n = peers[i].node;
    let j = choose|j: int| 0 <= j < peers.len() && (#[trigger] peers[j]).node == n;
    lex_lt_irreflexive(n.bytes@);
    if j < i {
        assert(peers[j].node.precedes(peers[i].node));
    } else if i < j {
        assert(peers[i].node.precedes(peers[j].node));
    }
}

/// The peers a node knows on a topic, by node id.
#[derive(Debug)]
pub struct PeerBook {
    peers: Vec<TopicPeer>,
}

/// Whether a hint tells nothing that the held one does not: it is the same, or
/// it names no way to dial while the held one has addresses.
pub open spec fn adds_nothing(held: Option<PeerView>, peer: PeerView) -> bool {
    match held {
        Some(held) => held == peer || (peer.addrs.len() == 0 && peer.relay_url is None
            && held.addrs.len() > 0),
        None => false,
    }
}

/// What a map holds for a node, if anything.
pub open spec fn known(peers: Map<NodeId, PeerView>, node: NodeId) -> Option<PeerView> {
    if peers.dom().contains(node) {
        Some(peers[node])
    } else {
        None
    }
}

/// A book after a hint was recorded in it.
pub open spec fn recorded(peers: Map<NodeId, PeerView>, peer: PeerView) -> Map<NodeId, PeerView> {
    if adds_nothing(known(peers, peer.node), peer) {
        peers
    } else {
        peers.insert(peer.node, peer)
    }
}

/// A book after each hint of a list was recorded in it, in turn.
pub open spec fn all_recorded(peers: Map<NodeId, PeerView>, list: Seq<PeerView>) -> Map<
    NodeId,
    PeerView,
>
    decreases list.len(),
{
    if list.len() == 0 {
        peers
    } else {
        recorded(all_recorded(peers, list.drop_last()), list.last())
    }
}

/// Whether any hint of a list, recorded in turn, adds something.
pub open spec fn any_adds(peers: Map<NodeId, PeerView>, list: Seq<PeerView>) -> bool
    decreases list.len(),
{
    list.len() > 0 && (any_adds(peers, list.drop_last()) || !adds_nothing(
        known(all_recorded(peers, list.drop_last()), list.last().node),
        list.last(),
    ))
}

/// The hint to dial a node with.
pub open spec fn hint_for(peers: Map<NodeId, PeerView>, node: NodeId) -> PeerView {
    match known(peers, node) {
        Some(peer) => peer,
        None => bare(node),
    }
}

/// The peers that a list of hints makes up: the last hint of each node.
pub open spec fn collected(list: Seq<PeerView>) -> Map<NodeId, PeerView>
    decreases list.len(),
{
    if list.len() == 0 {
        Map::empty()
    } else {
        collected(list.drop_last()).insert(list.last().node, list.last())
    }
}

/// The book that a file makes up, given the list in it, if there is one.
pub open spec fn opened(stored: Option<Seq<PeerView>>) -> Map<NodeId, PeerView> {
    match stored {
        Some(list) => collected(list),
        None => Map::empty(),
    }
}

impl View for PeerBook {
    type V = Map<NodeId, PeerView>;

    closed spec fn view(&self) -> Map<NodeId, PeerView> {
        by_node(peer_views(self.peers@))
    }
}

/// Replacing or putting in one peer at its place.
proof fn put_peer(peers: Seq<PeerView>, at: int, found: bool, peer: PeerView)
    requires
        peers_sorted(peers),
        0 <= at <= peers.len(),
        forall|i: int| 0 <= i < at ==> (#[trigger] peers[i]).node.precedes(peer.node),
        found ==> at < peers.len() && peers[at].node == peer.node,
        !found ==> forall|i: int|
            at <= i < peers.len() ==> peer.node.precedes((#[trigger] peers[i]).node),
    ensures
        found ==> peers_sorted(peers.update(at, peer)) && by_node(peers.update(at, peer))
            == by_node(peers).insert(peer.node, peer),
        !found ==> peers_sorted(peers.insert(at, peer)) && by_node(peers.insert(at, peer))
            == by_node(peers).insert(peer.node, peer),
{
    let now = if found {
        peers.update(at, peer)
    } else {
        peers.insert(at, peer)
    };
    assert forall|i: int, j: int| 0 <= i < j < now.len() implies (#[trigger] now[i]).node.precedes(
        (#[trigger] now[j]).node,
    ) by {
        if found {
            assert(now[i].node == peers[i].node && now[j].node == peers[j].node);
        } else {
            let x = if i < at { i } else { i - 1 };
            let y = if j < at { j } else { j - 1 };
            if i != at && j != at {
                assert(now[i] == peers[x] && now[j] == peers[y]);
            } else if i == at {
                assert(now[j] == peers[y]);
            } else {
                assert(now[i] == peers[x]);
            }
        }
    }
    let want = by_node(peers).insert(peer.node, peer);
    assert forall|n: NodeId| #[trigger]
        by_node(now).dom().contains(n) == want.dom().contains(n) by {
        if n == peer.node {
            assert(now[at].node == n);
        } else {
            if by_node(peers).dom().contains(n) {
                let i = choose|i: int| 0 <= i < peers.len() && (#[trigger] peers[i]).node == n;
                let k = if found || i < at { i } else { i + 1 };
                assert(now[k] == peers[i]);
            }
            if by_node(now).dom().contains(n) {
                let k = choose|k: int| 0 <= k < now.len() && (#[trigger] now[k]).node == n;
                let i = if found || k < at { k } else { k - 1 };
                assert(now[k] == peers[i]);
            }
        }
    }
    assert forall|n: NodeId| by_node(now).dom().contains(n) implies #[trigger] by_node(now)[n]
        == want[n] by {
        let k = choose|k: int| 0 <= k < now.len() && (#[trigger] now[k]).node == n;
        by_node_at(now, k);
        if n != peer.node {
            let i = if found || k < at { k } else { k - 1 };
            assert(now[k] == peers[i]);
            by_node_at(peers, i);
        } else {
            assert(now[at].node == n);
            by_node_at(now, at);
        }
    }
    assert(by_node(now) =~= want);
}

impl PeerBook {
    /// Each node once, in the order of their ids.
    pub closed spec fn wf(&self) -> bool {
        peers_sorted(peer_views(self.peers@))
    }

    /// An empty book.
    pub fn new() -> (book: PeerBook)
        ensures
            book.wf(),
            book@ == Map::<NodeId, PeerView>::empty(),
    {
        let book = PeerBook { peers: Vec::new() };
        assert(book@ =~= Map::<NodeId, PeerView>::empty());
        book
    }

    /// The book that a stored list makes up: where a node is listed twice, the
    /// later hint stands.
    pub fn from_list(list: Vec<TopicPeer>) -> (book: PeerBook)
        ensures
            book.wf(),
            book@ == collected(peer_views(list@)),
    {
        let mut book = PeerBook::new();
        let mut i: usize = 0;
        while i < list.len()
            invariant
                book.wf(),
                i <= list@.len(),
                book@ == collected(peer_views(list@).take(i as int)),
            decreases list@.len() - i,
        {
            let ghost next = peer_views(list@).take(i + 1);
            assert(next.drop_last() =~= peer_views(list@).take(i as int));
            assert(next.last() == list@[i as int]@);
            let peer = list[i].copy();
            book.put(peer);
            i += 1;
        }
        assert(peer_views(list@).take(list@.len() as int) =~= peer_views(list@));
        book
    }

    /// The book on disk: what its file holds, or nothing where the file is absent
    /// or holds no list of peers. A lost list of hints must not stop anything.
    pub fn open(stored: Option<Vec<TopicPeer>>) -> (book: PeerBook)
        ensures
            book.wf(),
            book@ == opened(
                match stored {
                    Some(list) => Some(peer_views(list@)),
                    None => None,
                },
            ),
    {
        match stored {
            Some(list) => PeerBook::from_list(list),
            None => PeerBook::new(),
        }
    }

    /// How many peers come before a node, and whether the next one is it.
    fn find(&self, node: &NodeId) -> (place: (usize, bool))
        requires
            self.wf(),
        ensures
            place.0 <= self.peers@.len(),
            forall|i: int|
                0 <= i < place.0 ==> (#[trigger] peer_views(self.peers@)[i]).node.precedes(*node),
            place.1 ==> place.0 < self.peers@.len() && self.peers@[place.0 as int].node == *node,
            !place.1 ==> forall|i: int|
                place.0 <= i < self.peers@.len() ==> node.precedes(
                    (#[trigger] peer_views(self.peers@)[i]).node,
                ),
            place.1 == self@.dom().contains(*node),
            place.1 ==> self@[*node] == self.peers@[place.0 as int]@,
    {
        let ghost views = peer_views(self.peers@);
        let mut i: usize = 0;
        while i < self.peers.len() && self.peers[i].node.less(node)
            invariant
                i <= self.peers@.len(),
                views == peer_views(self.peers@),
                forall|j: int| 0 <= j < i ==> (#[trigger] views[j]).node.precedes(*node),
            decreases self.peers@.len() - i,
        {
            i += 1;
        }
        let found = i < self.peers.len() && self.peers[i].node.same(node);
        proof {
            if found {
                assert(views[i as int] == self.peers@[i as int]@);
                by_node_at(views, i as int);
            } else {
                assert forall|j: int| i <= j < views.len() implies node.precedes(
                    (#[trigger] views[j]).node,
                ) by {
                    let first = views[i as int].node;
                    assert(views[i as int] == self.peers@[i as int]@);
                    lex_lt_total(first.bytes@, node.bytes@);
                    crate::ids::array_from_view(first.bytes, node.bytes);
                    if i < j {
                        assert(views[i as int].node.precedes(views[j].node));
                        lex_lt_transitive(node.bytes@, first.bytes@, views[j].node.bytes@);
                    }
                }
                if self@.dom().contains(*node) {
                    let j = choose|j: int| 0 <= j < views.len() && (#[trigger] views[j]).node
                        == *node;
                    lex_lt_irreflexive(node.bytes@);
                    if j < i {
                        assert(views[j].node.precedes(*node));
                    } else {
                        assert(node.precedes(views[j].node));
                    }
                }
            }
        }
        (i, found)
    }

    /// Put `peer` in, whatever was held for its node.
    fn put(&mut self, peer: TopicPeer)
        requires
            old(self).wf(),
        ensures
            final(self).wf(),
            final(self)@ == old(self)@.insert(peer.node, peer@),
    {
        let (at, found) = self.find(&peer.node);
        let ghost before = peer_views(self.peers@);
        proof {
            put_peer(before, at as int, found, peer@);
        }
        let ghost value = peer@;
        if found {
            self.peers[at] = peer;
            assert(peer_views(self.peers@) =~= before.update(at as int, value));
        } else {
            self.peers.insert(at, peer);
            assert(peer_views(self.peers@) =~= before.insert(at as int, value));
        }
    }

    /// Record `peer`, returning whether anything changed.
    ///
    /// A hint that carries addresses wins over one that does not: a ticket
    /// knows where the peer was, and a live neighbor only who it is.
    pub fn record(&mut self, peer: TopicPeer) -> (changed: bool)
        requires
            old(self).wf(),
        ensures
            final(self).wf(),
            final(self)@ == recorded(old(self)@, peer@),
            changed == !adds_nothing(known(old(self)@, peer.node), peer@),
    {
        let (at, found) = self.find(&peer.node);
        if found {
            if self.peers[at].same(&peer) {
                return false;
            }
            if peer.addrs.len() == 0 && peer.relay_url.is_none() && self.peers[at].addrs.len() > 0 {
                return false;
            }
        }
        self.put(peer);
        true
    }

    /// Record every peer of a list, returning whether anything changed.
    pub fn record_all(&mut self, list: &Vec<TopicPeer>) -> (changed: bool)
        requires
            old(self).wf(),
        ensures
            final(self).wf(),
            final(self)@ == all_recorded(old(self)@, peer_views(list@)),
            changed == any_adds(old(self)@, peer_views(list@)),
    {
        let ghost start = self@;
        let mut changed = false;
        let mut i: usize = 0;
        while i < list.len()
            invariant
                self.wf(),
                i <= list@.len(),
                self@ == all_recorded(start, peer_views(list@).take(i as int)),
                changed == any_adds(start, peer_views(list@).take(i as int)),
            decreases list@.len() - i,
        {
            let ghost next = peer_views(list@).take(i + 1);
            assert(next.drop_last() =~= peer_views(list@).take(i as int));
            assert(next.last() == list@[i as int]@);
            let peer = list[i].copy();
            if self.record(peer) {
                changed = true;
            }
            i += 1;
        }
        assert(peer_views(list@).take(list@.len() as int) =~= peer_views(list@));
        changed
    }

    /// The hint to dial `node` with: the book's if there is one (it may carry
    /// addresses), else the bare id.
    pub fn hint(&self, node: NodeId) -> (peer: TopicPeer)
        requires
            self.wf(),
        ensures
            peer@ == hint_for(self@, node),
    {
        let (at, found) = self.find(&node);
        if found {
            self.peers[at].copy()
        } else {
            TopicPeer::new(node)
        }
    }

    /// The known peers, in the order of their ids.
    pub fn list(&self) -> (list: Vec<TopicPeer>)
        requires
            self.wf(),
        ensures
            peers_sorted(peer_views(list@)),
            by_node(peer_views(list@)) == self@,
    {
        let ghost all = peer_views(self.peers@);
        let mut out: Vec<TopicPeer> = Vec::new();
        let mut i: usize = 0;
        assert(peer_views(out@) =~= all.take(0));
        while i < self.peers.len()
            invariant
                i <= self.peers@.len(),
                all == peer_views(self.peers@),
                peer_views(out@) == all.take(i as int),
            decreases self.peers@.len() - i,
        {
            let ghost before = out@;
            let next = self.peers[i].copy();
            out.push(next);
            assert(peer_views(out@) =~= peer_views(before).push(next@));
            assert(all.take(i + 1) =~= all.take(i as int).push(all[i as int]));
            i += 1;
        }
        assert(all.take(all.len() as int) =~= all);
        out
    }

    /// Whether the book knows a peer other than `me`.
    pub fn knows_another(&self, me: &NodeId) -> (another: bool)
        requires
            self.wf(),
        ensures
            another == exists|n: NodeId| n != *me && #[trigger] self@.dom().contains(n),
    {
        let mut i: usize = 0;
        let ghost views = peer_views(self.peers@);
        while i < self.peers.len()
            invariant
                i <= self.peers@.len(),
                views == peer_views(self.peers@),
                self@ == by_node(views),
                forall|j: int| 0 <= j < i ==> (#[trigger] views[j]).node == *me,
            decreases self.peers@.len() - i,
        {
            if !self.peers[i].node.same(me) {
                proof {
                    assert(views[i as int].node == self.peers@[i as int].node);
                    assert(self@.dom().contains(self.peers@[i as int].node));
                }
                return true;
            }
            i += 1;
        }
        proof {
            if exists|n: NodeId| n != *me && #[trigger] self@.dom().contains(n) {
                let n = choose|n: NodeId| n != *me && #[trigger] self@.dom().contains(n);
                let j = choose|j: int| 0 <= j < views.len() && (#[trigger] views[j]).node == n;
                assert(views[j].node == *me);
            }
        }
        false
    }
}

/// Recording a hint twice changes nothing the second time.
pub proof fn recording_twice_is_recording_once(peers: Map<NodeId, PeerView>, peer: PeerView)
    ensures
        recorded(recorded(peers, peer), peer) == recorded(peers, peer),
        adds_nothing(known(recorded(peers, peer), peer.node), peer),
{
}

/// A bare hint never erases addresses that are known.
pub proof fn a_bare_hint_keeps_addresses(peers: Map<NodeId, PeerView>, node: NodeId)
    requires
        peers.dom().contains(node),
        peers[node].addrs.len() > 0,
    ensures
        recorded(peers, bare(node)) == peers,
{
}

/// Peers in the order of their nodes are determined by their table.
pub proof fn sorted_peers_determined(a: Seq<PeerView>, b: Seq<PeerView>)
    requires
        peers_sorted(a),
        peers_sorted(b),
        by_node(a) == by_node(b),
    ensures
        a == b,
{
    let x = a.map_values(|p: PeerView| p.node);
    let y = b.map_values(|p: PeerView| p.node);
    assert forall|n: NodeId| #[trigger] x.contains(n) == y.contains(n) by {
        if x.contains(n) {
            let i = choose|i: int| 0 <= i < x.len() && x[i] == n;
            assert(a[i].node == n);
            assert(by_node(a).dom().contains(n));
            let j = choose|j: int| 0 <= j < b.len() && (#[trigger] b[j]).node == n;
            assert(y[j] == n);
        }
        if y.contains(n) {
            let i = choose|i: int| 0 <= i < y.len() && y[i] == n;
            assert(b[i].node == n);
            assert(by_node(b).dom().contains(n));
            let j = choose|j: int| 0 <= j < a.len() && (#[trigger] a[j]).node == n;
            assert(x[j] == n);
        }
    }
    rising_nodes_determined(x, y);
    assert(x.len() == y.len());
    assert forall|i: int| 0 <= i < a.len() implies a[i] == b[i] by {
        assert(x[i] == y[i]);
        by_node_at(a, i);
        by_node_at(b, i);
    }
    assert(a =~= b);
}

/// A book that is saved and opened again lists the same peers, in the order of
/// their ids and each once; and one whose file is absent, or holds no list of
/// peers, lists none.
pub proof fn a_reopened_book_lists_the_same(
    saved: Seq<PeerView>,
    listed: Seq<PeerView>,
    unreadable: Seq<PeerView>,
)
    requires
        peers_sorted(saved),
        peers_sorted(listed),
        by_node(listed) == opened(Some(saved)),
        by_node(unreadable) == opened(None),
    ensures
        listed == saved,
        unreadable.len() == 0,
{
    a_saved_book_is_read_back(saved);
    sorted_peers_determined(listed, saved);
    if unreadable.len() > 0 {
        assert(by_node(unreadable).dom().contains(unreadable[0].node));
    }
}

/// A book that is written out and read back is the same book.
pub proof fn a_saved_book_is_read_back(list: Seq<PeerView>)
    requires
        peers_sorted(list),
    ensures
        collected(list) == by_node(list),
    decreases list.len(),
{
    if list.len() == 0 {
        assert(collected(list) =~= by_node(list));
    } else {
        let rest = list.drop_last();
        let last = list.last();
        assert forall|i: int, j: int| 0 <= i < j < rest.len() implies (
        #[trigger] rest[i]).node.precedes((#[trigger] rest[j]).node) by {
            assert(rest[i] == list[i] && rest[j] == list[j]);
        }
        a_saved_book_is_read_back(rest);
        assert forall|i: int| 0 <= i < rest.len() implies (#[trigger] rest[i]).node.precedes(
            last.node,
        ) by {
            assert(rest[i] == list[i]);
            assert(list[i].node.precedes(list[list.len() - 1].node));
        }
        put_peer(rest, rest.len() as int, false, last);
        assert(rest.insert(rest.len() as int, last) =~= list);
    }
}

/// The name of the file a topic's peer hints are kept in.
pub fn peers_file(topic: &TopicId) -> (name: String)
    ensures
        name@ == hex(topic.bytes@) + ".peers.json"@,
{
    let mut name = topic.hex();
    name.append(".peers.json");
    name
}

/// A hint that says where to dial stands: after one that carries an address or a
/// relay was recorded, the book holds that very hint for its node, whatever it held
/// before. What it holds for every other node is as it was.
pub proof fn a_hint_that_can_be_dialed_stands(
    peers: Map<NodeId, PeerView>,
    hint: PeerView,
    other: NodeId,
)
    ensures
        ({
            let after = recorded(peers, hint);
            &&& hint.addrs.len() > 0 || hint.relay_url is Some ==> after.dom().contains(hint.node)
                && after[hint.node] == hint
            &&& other != hint.node ==> {
                &&& after.dom().contains(other) == peers.dom().contains(other)
                &&& peers.dom().contains(other) ==> after[other] == peers[other]
            }
        }),
{
}

/// A hint that only names a node is kept where there was none, leaves a hint with
/// addresses alone, and takes the place of one without.
pub proof fn a_bare_hint_only_fills_in(
    peers: Map<NodeId, PeerView>,
    hint: PeerView,
)
    requires
        hint.addrs.len() == 0,
        hint.relay_url is None,
    ensures
        ({
            let after = recorded(peers, hint);
            &&& after.dom().contains(hint.node)
            &&& after[hint.node] == if peers.dom().contains(hint.node)
                && peers[hint.node].addrs.len() > 0 {
                peers[hint.node]
            } else {
                hint
            }
        }),
{
}

/// Recording reports a change exactly when the book changed.
pub proof fn a_reported_change_is_a_change(peers: Map<NodeId, PeerView>, hint: PeerView)
    ensures
        !adds_nothing(known(peers, hint.node), hint) <==> recorded(peers, hint) != peers,
{
    if !adds_nothing(known(peers, hint.node), hint) {
        assert(recorded(peers, hint).dom().contains(hint.node));
        assert(recorded(peers, hint)[hint.node] == hint);
    }
}

/// Of a list of hints, the last one that has addresses stands for its node, unless a
/// later one says where to dial; nodes that the list does not name are as they were;
/// and a list that changed the book is reported to have.
pub proof fn the_last_hint_with_addresses_stands(
    peers: Map<NodeId, PeerView>,
    list: Seq<PeerView>,
    i: int,
    other: NodeId,
)
    ensures
        0 <= i < list.len() && list[i].addrs.len() > 0 && (forall|j: int|
            i < j < list.len() && (#[trigger] list[j]).node == list[i].node ==> list[j].addrs.len()
                == 0 && list[j].relay_url is None) ==> all_recorded(peers, list).dom().contains(
            list[i].node,
        ) && all_recorded(peers, list)[list[i].node] == list[i],
        (forall|j: int| 0 <= j < list.len() ==> (#[trigger] list[j]).node != other) ==> {
            &&& all_recorded(peers, list).dom().contains(other) == peers.dom().contains(other)
            &&& peers.dom().contains(other) ==> all_recorded(peers, list)[other] == peers[other]
        },
        all_recorded(peers, list) != peers ==> any_adds(peers, list),
        0 <= i < list.len() ==> all_recorded(peers, list).dom().contains(list[i].node),
        peers.dom().contains(other) ==> all_recorded(peers, list).dom().contains(other),
    decreases list.len(),
{
    if list.len() > 0 {
        let rest = list.drop_last();
        let last = list[list.len() - 1];
        assert(last == list.last());
        assert(forall|j: int| 0 <= j < rest.len() ==> rest[j] == list[j]);
        the_last_hint_with_addresses_stands(peers, rest, i, other);
        if forall|j: int| 0 <= j < list.len() ==> (#[trigger] list[j]).node != other {
            assert(last.node != other);
            assert forall|j: int| 0 <= j < rest.len() implies (#[trigger] rest[j]).node
                != other by {
                assert(list[j].node != other);
            }
        }
        if 0 <= i < rest.len() && list[i].addrs.len() > 0 && (forall|j: int|
            i < j < list.len() && (#[trigger] list[j]).node == list[i].node ==> list[j].addrs.len()
                == 0 && list[j].relay_url is None) {
            assert forall|j: int|
                i < j < rest.len() && (#[trigger] rest[j]).node == rest[i].node implies rest[j].addrs.len()
                == 0 && rest[j].relay_url is None by {
                assert(list[j].node == list[i].node);
            }
            assert(all_recorded(peers, rest)[list[i].node] == list[i]);
        }
    }
}

/// A node is dialed with what the book holds for it, or by its id alone.
pub proof fn a_known_peer_is_dialed_where_it_was(peers: Map<NodeId, PeerView>, node: NodeId)
    ensures
        peers.dom().contains(node) ==> hint_for(peers, node) == peers[node],
        !peers.dom().contains(node) ==> hint_for(peers, node).node == node && hint_for(
            peers,
            node,
        ).addrs.len() == 0 && hint_for(peers, node).relay_url is None,
{
}

/// A stored list makes up a book with exactly its nodes, each with its last hint.
pub proof fn the_last_stored_hint_stands(list: Seq<PeerView>, i: int, node: NodeId)
    ensures
        collected(list).dom().contains(node) == exists|j: int|
            0 <= j < list.len() && (#[trigger] list[j]).node == node,
        0 <= i < list.len() && (forall|j: int|
            i < j < list.len() ==> (#[trigger] list[j]).node != list[i].node) ==> collected(
            list,
        )[list[i].node] == list[i],
    decreases list.len(),
{
    if list.len() > 0 {
        let rest = list.drop_last();
        let last = list[list.len() - 1];
        assert(last == list.last());
        the_last_stored_hint_stands(rest, i, node);
        if exists|j: int| 0 <= j < rest.len() && (#[trigger] rest[j]).node == node {
            let j = choose|j: int| 0 <= j < rest.len() && (#[trigger] rest[j]).node == node;
            assert(list[j].node == node);
        }
        if exists|j: int| 0 <= j < list.len() && (#[trigger] list[j]).node == node {
            let j = choose|j: int| 0 <= j < list.len() && (#[trigger] list[j]).node == node;
            if j < rest.len() {
                assert(rest[j].node == node);
            }
        }
        if last.node == node {
            assert(list[list.len() - 1].node == node);
        }
        if 0 <= i < rest.len() && (forall|j: int|
            i < j < list.len() ==> (#[trigger] list[j]).node != list[i].node) {
            assert(list[list.len() - 1].node != list[i].node);
            assert forall|j: int| i < j < rest.len() implies (#[trigger] rest[j]).node
                != rest[i].node by {
                assert(list[j].node != list[i].node);
            }
        }
    }
}

/// Recording a list is recording its hints one after the other, and a change is
/// reported exactly where one of them changed what was held.
pub proof fn a_list_is_recorded_in_turn(
    peers: Map<NodeId, PeerView>,
    a: Seq<PeerView>,
    b: Seq<PeerView>,
    hint: PeerView,
)
    ensures
        all_recorded(peers, a + b) == all_recorded(all_recorded(peers, a), b),
        any_adds(peers, a + b) == (any_adds(peers, a) || any_adds(all_recorded(peers, a), b)),
        all_recorded(peers, seq![hint]) == recorded(peers, hint),
        any_adds(peers, seq![hint]) <==> recorded(peers, hint) != peers,
        all_recorded(peers, Seq::empty()) == peers,
        !any_adds(peers, Seq::empty()),
    decreases b.len(),
{
    let one = seq![hint];
    assert(one.drop_last() =~= Seq::<PeerView>::empty());
    assert(all_recorded(peers, one.drop_last()) == peers);
    assert(!any_adds(peers, one.drop_last()));
    a_reported_change_is_a_change(peers, hint);
    if b.len() == 0 {
        assert(a + b =~= a);
    } else {
        a_list_is_recorded_in_turn(peers, a, b.drop_last(), hint);
        assert((a + b).drop_last() =~= a + b.drop_last());
        assert((a + b).last() == b.last());
    }
}

} // verus!
