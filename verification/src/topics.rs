//! What a topic node decides: which protocols may ride its router, what it
//! joins and broadcasts, what its ticket says, and what its event bridge hands
//! on.

use vstd::prelude::*;

use crate::dial::{untried, DialRound};
use crate::envelope::TopicEnvelope;
use crate::ids::{bytes_same, NodeId, TopicId};
use crate::peers::{peer_views, Addr, PeerView, TopicPeer};
use crate::text::{copy_maybe, debug_quoted, debug_text, hex, maybe_text};

verus! {

/// How many events a subscription may hold before it waits.
pub const EVENT_CHANNEL_CAP: usize = 256;

/// How long a node may spend admitting its bootstrap peers, in milliseconds.
pub const BOOTSTRAP_BUDGET: u64 = 30_000;

/// How a topic node is set up.
#[derive(Debug)]
pub struct TopicNodeConfig {
    pub topic: TopicId,
    pub fabric_root: NodeId,
    /// The relay this node uses and advertises, if not the default one.
    pub relay_url: Option<String>,
    /// How often admissions are checked again, in milliseconds.
    pub admit_recheck: u64,
    /// How many messages one replay answer may hold.
    pub replay_limit: u32,
    /// How many events a subscription may hold.
    pub channel_cap: usize,
    /// The names of further protocols to carry on the same router.
    pub protocols: Vec<Vec<u8>>,
}

impl TopicNodeConfig {
    /// The usual setup of a node for `topic`.
    pub fn new(
        topic: TopicId,
        fabric_root: NodeId,
        admit_recheck: u64,
        replay_limit: u32,
    ) -> (cfg: TopicNodeConfig)
        ensures
            cfg.topic == topic,
            cfg.fabric_root == fabric_root,
            cfg.relay_url is None,
            cfg.admit_recheck == admit_recheck,
            cfg.replay_limit == replay_limit,
            cfg.channel_cap == EVENT_CHANNEL_CAP,
            cfg.protocols@.len() == 0,
    {
        TopicNodeConfig {
            topic,
            fabric_root,
            relay_url: None,
            admit_recheck,
            replay_limit,
            channel_cap: EVENT_CHANNEL_CAP,
            protocols: Vec::new(),
        }
    }
}

/// Whether a list holds a byte string.
pub open spec fn lists(names: Seq<Vec<u8>>, name: Seq<u8>) -> bool {
    exists|i: int| 0 <= i < names.len() && (#[trigger] names[i])@ == name
}

/// Whether `names` holds `name`.
fn list_has(names: &Vec<Vec<u8>>, name: &Vec<u8>) -> (has: bool)
    ensures
        has == lists(names@, name@),
{
    let mut i: usize = 0;
    while i < names.len()
        invariant
            i <= names@.len(),
            forall|j: int| 0 <= j < i ==> (#[trigger] names@[j])@ != name@,
        decreases names@.len() - i,
    {
        if bytes_same(names[i].as_slice(), name.as_slice()) {
            assert(names@[i as int]@ == name@);
            return true;
        }
        i += 1;
    }
    false
}

/// A topic that is not the one a node or a sender serves.
#[derive(Clone, Copy, Debug, PartialEq, Eq)]
pub struct ForeignTopic {
    pub serves: TopicId,
    pub asked: TopicId,
}

/// The first of the further protocols that would replace one of the node's own.
pub open spec fn first_taken(extra: Seq<Vec<u8>>, own: Seq<Vec<u8>>) -> int
    decreases extra.len(),
{
    if extra.len() == 0 {
        0
    } else if first_taken(extra.drop_last(), own) < extra.len() - 1 {
        first_taken(extra.drop_last(), own)
    } else if lists(own, extra.last()@) {
        extra.len() - 1
    } else {
        extra.len() as int
    }
}

/// A ticket: what another member needs to find this node on a topic.
#[derive(Debug)]
pub struct TopicTicket {
    pub fabric: NodeId,
    pub name: String,
    pub peers: Vec<TopicPeer>,
}

/// The loopback form of an address that names no host.
pub open spec fn dialable(addr: Addr) -> Addr {
    match addr {
        Addr::V4 { ip: 0, port } => Addr::V4 { ip: 0x7f00_0001, port },
        Addr::V6 { ip: 0, port, .. } => Addr::V6 { ip: 1, port, flow: 0, scope: 0 },
        other => other,
    }
}

/// Addresses with the dialable form of each bound one behind them, each new one
/// once.
pub open spec fn advertised(known: Seq<Addr>, bound: Seq<Addr>) -> Seq<Addr>
    decreases bound.len(),
{
    if bound.len() == 0 {
        known
    } else {
        let before = advertised(known, bound.drop_last());
        let addr = dialable(bound.last());
        if before.contains(addr) {
            before
        } else {
            before.push(addr)
        }
    }
}

/// The dialable form of a bound address.
fn to_dialable(addr: Addr) -> (out: Addr)
    ensures
        out == dialable(addr),
{
    match addr {
        Addr::V4 { ip, port } => if ip == 0 {
            Addr::V4 { ip: 0x7f00_0001, port }
        } else {
            addr
        },
        Addr::V6 { ip, port, .. } => if ip == 0 {
            Addr::V6 { ip: 1, port, flow: 0, scope: 0 }
        } else {
            addr
        },
    }
}

/// The addresses to advertise: where the endpoint knows it can be reached, then
/// the loopback form of what it bound. A wildcard bind is no address a peer can
/// dial.
pub fn ticket_addrs(known: Vec<Addr>, bound: &Vec<Addr>) -> (addrs: Vec<Addr>)
    ensures
        addrs@ == advertised(known@, bound@),
{
    let mut addrs: Vec<Addr> = known;
    let ghost first = addrs@;
    let mut i: usize = 0;
    while i < bound.len()
        invariant
            i <= bound@.len(),
            addrs@ == advertised(first, bound@.take(i as int)),
        decreases bound@.len() - i,
    {
        assert(bound@.take(i + 1).drop_last() =~= bound@.take(i as int));
        assert(bound@.take(i + 1).last() == bound@[i as int]);
        let addr = to_dialable(bound[i]);
        let mut held = false;
        let mut j: usize = 0;
        while j < addrs.len() && !held
            invariant
                j <= addrs@.len(),
                held ==> addrs@.contains(addr),
                !held ==> forall|k: int| 0 <= k < j ==> addrs@[k] != addr,
            decreases addrs@.len() - j + if held { 0int } else { 1int },
        {
            if addrs[j] == addr {
                held = true;
            } else {
                j += 1;
            }
        }
        if !held {
            addrs.push(addr);
        }
        i += 1;
    }
    assert(bound@.take(bound@.len() as int) =~= bound@);
    addrs
}

/// No advertised address is a wildcard one, unless it was known as such.
pub proof fn no_wildcard_is_advertised(known: Seq<Addr>, bound: Seq<Addr>, addr: Addr)
    requires
        advertised(known, bound).contains(addr),
        !known.contains(addr),
    ensures
        addr matches Addr::V4 { ip, .. } ==> ip != 0,
        addr matches Addr::V6 { ip, .. } ==> ip != 0,
    decreases bound.len(),
{
    if bound.len() > 0 {
        let before = advertised(known, bound.drop_last());
        if before.contains(addr) {
            no_wildcard_is_advertised(known, bound.drop_last(), addr);
        }
    }
}

/// A node on one topic.
#[derive(Debug)]
pub struct TopicNode {
    pub me: NodeId,
    pub topic: TopicId,
    pub fabric_root: NodeId,
    pub relay_url: Option<String>,
    pub channel_cap: usize,
}

impl TopicNode {
    /// Stand a node up under the id of its endpoint. `own` names the protocols
    /// the node itself serves; a further protocol with one of those names would
    /// replace it on the one router, and the first such is the error.
    pub fn spawn_on(me: NodeId, own: &Vec<Vec<u8>>, cfg: TopicNodeConfig) -> (node: Result<
        TopicNode,
        Vec<u8>,
    >)
        ensures
            ({
                let taken = first_taken(cfg.protocols@, own@);
                match node {
                    Ok(node) => {
                        &&& taken == cfg.protocols@.len()
                        &&& node.me == me
                        &&& node.topic == cfg.topic
                        &&& node.fabric_root == cfg.fabric_root
                        &&& node.relay_url == cfg.relay_url
                        &&& node.channel_cap == cfg.channel_cap
                    },
                    Err(name) => 0 <= taken < cfg.protocols@.len() && name@
                        == cfg.protocols@[taken]@,
                }
            }),
    {
        let mut i: usize = 0;
        while i < cfg.protocols.len()
            invariant
                i <= cfg.protocols@.len(),
                first_taken(cfg.protocols@.take(i as int), own@) == i,
            decreases cfg.protocols@.len() - i,
        {
            let ghost now = cfg.protocols@.take(i + 1);
            assert(now.drop_last() =~= cfg.protocols@.take(i as int));
            assert(now.last() == cfg.protocols@[i as int]);
            if list_has(own, &cfg.protocols[i]) {
                proof {
                    assert(first_taken(now, own@) == i);
                    taken_stays(cfg.protocols@, own@, i + 1, i as int);
                }
                return Err(crate::envelope::copy_bytes(&cfg.protocols[i]));
            }
            i += 1;
        }
        assert(cfg.protocols@.take(cfg.protocols@.len() as int) =~= cfg.protocols@);
        Ok(
            TopicNode {
                me,
                topic: cfg.topic,
                fabric_root: cfg.fabric_root,
                relay_url: cfg.relay_url,
                channel_cap: cfg.channel_cap,
            },
        )
    }

    /// The topic this node serves.
    pub fn topic(&self) -> (topic: TopicId)
        ensures
            topic == self.topic,
    {
        self.topic
    }

    /// This node's own id.
    pub fn node_id(&self) -> (me: NodeId)
        ensures
            me == self.me,
    {
        self.me
    }

    /// Join `topic`: the round that dials the bootstrap peers, for
    /// [`BOOTSTRAP_BUDGET`] from `now`; what it ends in says whom to subscribe
    /// with. Only the topic the node was stood up for can be joined, because its
    /// gate, its replay server and its log are bound to that one.
    pub fn join(&self, topic: TopicId, bootstrap: Vec<TopicPeer>, now: u64) -> (round: Result<
        DialRound,
        ForeignTopic,
    >)
        requires
            now + BOOTSTRAP_BUDGET <= u64::MAX,
        ensures
            match round {
                Ok(round) => {
                    &&& topic == self.topic
                    &&& round.wf()
                    &&& round.list() == peer_views(bootstrap@)
                    &&& round.place() == 0
                    &&& round.dialer() == self.me
                    &&& round.spent_at() == now + BOOTSTRAP_BUDGET
                    &&& round.found() == untried()
                },
                Err(e) => topic != self.topic && e == (ForeignTopic {
                    serves: self.topic,
                    asked: topic,
                }),
            },
    {
        if self.topic.same(&topic) {
            Ok(DialRound::new(self.me, bootstrap, now, BOOTSTRAP_BUDGET))
        } else {
            Err(ForeignTopic { serves: self.topic, asked: topic })
        }
    }

    /// This node's ticket for `name`, which derives to the topic `derived` under
    /// its fabric: the fabric, the name, and this node as a peer with the
    /// addresses and the relay it advertises. A name that derives to another
    /// topic has no ticket here.
    pub fn ticket(&self, name: &str, derived: TopicId, known: Vec<Addr>, bound: &Vec<Addr>) -> (
        ticket: Result<TopicTicket, ForeignTopic>)
        ensures
            match ticket {
                Ok(t) => {
                    &&& derived == self.topic
                    &&& t.fabric == self.fabric_root
                    &&& t.name@ == name@
                    &&& t.peers@.len() == 1
                    &&& t.peers@[0]@ == (PeerView {
                        node: self.me,
                        addrs: advertised(known@, bound@),
                        relay_url: maybe_text(self.relay_url),
                    })
                },
                Err(e) => derived != self.topic && e == (ForeignTopic {
                    serves: self.topic,
                    asked: derived,
                }),
            },
    {
        if !self.topic.same(&derived) {
            return Err(ForeignTopic { serves: self.topic, asked: derived });
        }
        let peer = TopicPeer {
            node: self.me,
            addrs: ticket_addrs(known, bound),
            relay_url: copy_maybe(&self.relay_url),
        };
        let mut peers: Vec<TopicPeer> = Vec::new();
        peers.push(peer);
        Ok(TopicTicket { fabric: self.fabric_root, name: name.to_owned(), peers })
    }
}

/// Once a taken name is found, what follows does not matter.
proof fn taken_stays(extra: Seq<Vec<u8>>, own: Seq<Vec<u8>>, n: int, i: int)
    requires
        0 <= i < n <= extra.len(),
        first_taken(extra.take(n), own) == i,
    ensures
        first_taken(extra, own) == i,
    decreases extra.len() - n,
{
    if n < extra.len() {
        assert(extra.take(n + 1).drop_last() =~= extra.take(n));
        taken_stays(extra, own, n + 1, i);
    } else {
        assert(extra.take(n) =~= extra);
    }
}

/// Where a topic's messages are broadcast.
#[derive(Clone, Copy, Debug)]
pub struct TopicSender {
    pub topic: TopicId,
}

impl TopicSender {
    /// The topic this sender broadcasts on.
    pub fn topic(&self) -> (topic: TopicId)
        ensures
            topic == self.topic,
    {
        self.topic
    }

    /// The bytes to broadcast for `envelope`; one for another topic is refused.
    pub fn broadcast(&self, envelope: &TopicEnvelope) -> (wire: Result<Vec<u8>, ForeignTopic>)
        ensures
            match wire {
                Ok(wire) => envelope.topic == self.topic && wire@ == envelope.wire@,
                Err(e) => envelope.topic != self.topic && e == (ForeignTopic {
                    serves: self.topic,
                    asked: envelope.topic,
                }),
            },
    {
        if envelope.topic.same(&self.topic) {
            Ok(crate::envelope::copy_bytes(&envelope.wire))
        } else {
            Err(ForeignTopic { serves: self.topic, asked: envelope.topic })
        }
    }
}

impl ForeignTopic {
    /// What a node says about a topic it does not serve.
    pub fn join_text(&self) -> (text: String)
        ensures
            text@ == "this node serves topic "@ + hex(self.serves.bytes@) + " and cannot join "@
                + hex(self.asked.bytes@),
    {
        let mut text = "this node serves topic ".to_owned();
        text.append(self.serves.hex().as_str());
        text.append(" and cannot join ");
        text.append(self.asked.hex().as_str());
        text
    }

    /// What a sender says about an envelope of another topic.
    pub fn broadcast_text(&self) -> (text: String)
        ensures
            text@ == "envelope is addressed to topic "@ + hex(self.asked.bytes@)
                + " but this sender broadcasts on "@ + hex(self.serves.bytes@),
    {
        let mut text = "envelope is addressed to topic ".to_owned();
        text.append(self.asked.hex().as_str());
        text.append(" but this sender broadcasts on ");
        text.append(self.serves.hex().as_str());
        text
    }

    /// What a node says about a ticket for a name that derives to another topic.
    pub fn ticket_text(&self, name: &str) -> (text: String)
        ensures
            text@ == "topic name "@ + debug_text(name@) + " derives to "@ + hex(self.asked.bytes@)
                + " under this fabric, not the topic this node serves ("@ + hex(
                self.serves.bytes@,
            ) + ")"@,
    {
        let mut text = "topic name ".to_owned();
        text.append(debug_quoted(name).as_str());
        text.append(" derives to ");
        text.append(self.asked.hex().as_str());
        text.append(" under this fabric, not the topic this node serves (");
        text.append(self.serves.hex().as_str());
        text.append(")");
        text
    }
}

/// What a gossip subscription gives.
#[derive(Debug)]
pub enum GossipEvent {
    /// A payload: the envelope it decodes to, or `None` when it does not.
    Received(Option<TopicEnvelope>),
    NeighborUp(NodeId),
    NeighborDown(NodeId),
    /// Messages were dropped, and the subscription is over.
    Lagged,
    /// The subscription failed.
    Failed,
    /// The subscription ended.
    Ended,
}

/// What a subscriber of a topic sees.
#[derive(Debug)]
pub enum TopicEvent {
    Message(TopicEnvelope),
    NeighborUp(NodeId),
    NeighborDown(NodeId),
    Lagged,
}

/// What the event bridge does with one gossip event.
#[derive(Debug)]
pub struct BridgeStep {
    /// The event to hand on, waiting for room rather than dropping it.
    pub forward: Option<TopicEvent>,
    /// Whether the bridge ends after it.
    pub end: bool,
}

/// What the event bridge does with one gossip event: one malformed payload is
/// dropped and the bridge goes on, and a lag is handed on before it ends.
pub fn bridge(event: GossipEvent) -> (step: BridgeStep)
    ensures
        match event {
            GossipEvent::Received(Some(envelope)) => step.forward == Some(
                TopicEvent::Message(envelope),
            ) && !step.end,
            GossipEvent::Received(None) => step.forward is None && !step.end,
            GossipEvent::NeighborUp(n) => step.forward == Some(TopicEvent::NeighborUp(n))
                && !step.end,
            GossipEvent::NeighborDown(n) => step.forward == Some(TopicEvent::NeighborDown(n))
                && !step.end,
            GossipEvent::Lagged => step.forward == Some(TopicEvent::Lagged) && step.end,
            GossipEvent::Failed => step.forward is None && step.end,
            GossipEvent::Ended => step.forward is None && step.end,
        },
{
    match event {
        GossipEvent::Received(Some(envelope)) => BridgeStep {
            forward: Some(TopicEvent::Message(envelope)),
            end: false,
        },
        GossipEvent::Received(None) => BridgeStep { forward: None, end: false },
        GossipEvent::NeighborUp(n) => BridgeStep {
            forward: Some(TopicEvent::NeighborUp(n)),
            end: false,
        },
        GossipEvent::NeighborDown(n) => BridgeStep {
            forward: Some(TopicEvent::NeighborDown(n)),
            end: false,
        },
        GossipEvent::Lagged => BridgeStep { forward: Some(TopicEvent::Lagged), end: true },
        GossipEvent::Failed => BridgeStep { forward: None, end: true },
        GossipEvent::Ended => BridgeStep { forward: None, end: true },
    }
}

/// The first protocol that is taken is the first of the new ones that the node has
/// already, and none where it has none of them.
pub proof fn the_first_taken_protocol_is_found(extra: Seq<Vec<u8>>, own: Seq<Vec<u8>>, i: int)
    ensures
        ({
            let k = first_taken(extra, own);
            &&& 0 <= k <= extra.len()
            &&& k < extra.len() ==> exists|j: int|
                0 <= j < own.len() && (#[trigger] own[j])@ == extra[k]@
            &&& 0 <= i < k ==> forall|j: int|
                0 <= j < own.len() ==> (#[trigger] own[j])@ != extra[i]@
        }),
    decreases extra.len(),
{
    if extra.len() > 0 {
        the_first_taken_protocol_is_found(extra.drop_last(), own, i);
        let k = first_taken(extra, own);
        if k < extra.len() - 1 {
            assert(extra.drop_last()[k] == extra[k]);
        }
        if 0 <= i < extra.len() - 1 {
            assert(extra.drop_last()[i] == extra[i]);
        }
    }
}

/// An address that is bound to every interface is dialed at the loopback address,
/// with its port; any other is dialed as it is.
pub proof fn only_wildcards_are_replaced(addr: Addr)
    ensures
        match addr {
            Addr::V4 { ip, port } => dialable(addr) == (Addr::V4 {
                ip: if ip == 0 {
                    0x7f00_0001
                } else {
                    ip
                },
                port,
            }),
            Addr::V6 { ip, port, flow, scope } => if ip == 0 {
                dialable(addr) matches Addr::V6 { ip: to, port: p, .. } && to == 1 && p == port
            } else {
                dialable(addr) == addr
            },
        },
{
}

/// A ticket names every address that is known, in its order, and behind them every
/// bound one in the form that can be dialed, each once and nothing else.
pub proof fn a_ticket_names_every_address(known: Seq<Addr>, bound: Seq<Addr>, i: int, addr: Addr)
    ensures
        ({
            let all = advertised(known, bound);
            &&& all.len() >= known.len()
            &&& all.take(known.len() as int) == known
            &&& 0 <= i < bound.len() ==> all.contains(dialable(bound[i]))
            &&& all.contains(addr) ==> known.contains(addr) || exists|k: int|
                0 <= k < bound.len() && dialable(#[trigger] bound[k]) == addr
            &&& known.no_duplicates() ==> all.no_duplicates()
        }),
    decreases bound.len(),
{
    if bound.len() == 0 {
        assert(known.take(known.len() as int) =~= known);
    } else {
        a_ticket_names_every_address(known, bound.drop_last(), i, addr);
        let before = advertised(known, bound.drop_last());
        let last = dialable(bound.last());
        let all = advertised(known, bound);
        assert(all.take(known.len() as int) =~= before.take(known.len() as int));
        if all != before {
            assert(all[before.len() as int] == last);
        }
        assert(all.contains(last));
        if 0 <= i < bound.len() - 1 {
            assert(bound.drop_last()[i] == bound[i]);
            let k = before.index_of(dialable(bound[i]));
            assert(all[k] == before[k]);
        }
        if all.contains(addr) && !known.contains(addr) {
            if before.contains(addr) {
                let k = choose|k: int|
                    0 <= k < bound.drop_last().len() && dialable(#[trigger] bound.drop_last()[k])
                        == addr;
                assert(dialable(bound[k]) == addr);
            } else {
                let k = all.index_of(addr);
                assert(k == before.len());
                assert(dialable(bound[bound.len() - 1]) == addr);
            }
        }
    }
}

} // verus!
