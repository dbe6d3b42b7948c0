//! What every channel command resolves before it touches the network: which
//! topic, and this node's credentials for it.
//!
//! A missing credential is a local error that names the command that fixes it,
//! rather than a dial that fails later with something about a handshake.

use vstd::prelude::*;

use crate::ids::{NodeId, TopicId};
use crate::peers::{peer_views, PeerView, TopicPeer};
use crate::text::{
    char_is_whitespace, chars_of, copy_maybe, debug_quoted, debug_text, hex, is_whitespace,
    maybe_text,
};
use crate::topics::{TopicNodeConfig, TopicTicket};

verus! {

/// The arguments the channel commands share: which topic, whom to bootstrap
/// from, and where the credentials come from.
#[derive(Debug, PartialEq, Eq)]
pub struct TopicArgs {
    /// The topic's name; blank means the channel this node joined.
    pub topic: String,
    /// Tickets to bootstrap from.
    pub peer: Vec<String>,
    /// The seed of this node's key, in hexadecimal.
    pub node_seed: Option<String>,
    /// A file that holds the seed.
    pub node_seed_file: Option<String>,
    /// A relay to use instead of the default one.
    pub relay_url: Option<String>,
    /// The membership token.
    pub membership: Option<String>,
    /// A file that holds the membership token.
    pub membership_file: Option<String>,
    /// The inclusion proof.
    pub inclusion_proof: Option<String>,
    /// A file that holds the inclusion proof.
    pub inclusion_proof_file: Option<String>,
}

/// Where this node's key comes from.
#[derive(Debug, PartialEq, Eq)]
pub enum KeySource {
    /// This seed.
    Seed(String),
    /// This file.
    File(String),
    /// The keystore.
    Keystore,
}

/// A membership: who is a member of which fabric, and until when.
#[derive(Clone, Copy, Debug, PartialEq, Eq)]
pub struct Membership {
    pub fabric: NodeId,
    pub member: NodeId,
    pub not_after: i64,
}

/// What was found when each credential was looked for: its value, `None` where
/// there is none, or why it could not be read.
#[derive(Debug)]
pub struct Found {
    /// The channel this node joined.
    pub channel: Result<Option<String>, String>,
    /// This node's key.
    pub node: Result<NodeId, String>,
    pub membership: Result<Option<Membership>, String>,
    /// The inclusion proof, encoded.
    pub inclusion: Result<Option<String>, String>,
    /// The version of the roster head.
    pub head: Result<Option<u64>, String>,
    /// The version of the newest fabric key.
    pub key: Result<Option<u64>, String>,
    /// The tickets named on the command line, decoded.
    pub tickets: Vec<Result<TopicTicket, String>>,
    /// Where each credential was looked for.
    pub membership_path: String,
    pub proof_path: String,
    pub head_path: String,
    pub keyring_path: String,
}

/// Why a channel command cannot start.
#[allow(inconsistent_fields)]
#[derive(Debug)]
pub enum ResolveError {
    /// A credential could not be read; holds why.
    Unreadable(String),
    /// No topic was named and no channel is joined.
    NoTopic,
    NoMembership { looked_for: String },
    /// The membership was issued to another node.
    NotOurs { node: NodeId, member: NodeId },
    NoProof { looked_for: String },
    NoHead { looked_for: String },
    NoKey { looked_in: String },
    /// A ticket does not decode; holds why.
    BadTicket(String),
    /// A ticket is for another fabric.
    OtherFabric { ticket: NodeId, own: NodeId },
    /// A ticket is for another topic.
    OtherTopic { ticket: String, own: String },
}

/// What a channel command runs with.
#[derive(Debug)]
pub struct TopicContext {
    /// This node.
    pub node: NodeId,
    pub membership: Membership,
    /// The inclusion proof presented at every admission, encoded.
    pub inclusion: String,
    /// The version of the roster head that was there.
    pub head: u64,
    /// The topic's name.
    pub name: String,
    /// The fabric every signature is checked against.
    pub fabric_root: NodeId,
    /// The peers the tickets name.
    pub ticket_peers: Vec<TopicPeer>,
    pub relay_url: Option<String>,
}

/// Whether a text is nothing but white space.
pub open spec fn is_blank(s: Seq<char>) -> bool {
    forall|i: int| 0 <= i < s.len() ==> is_whitespace(#[trigger] s[i])
}

/// Whether a text is nothing but white space.
pub fn blank(s: &str) -> (yes: bool)
    ensures
        yes == is_blank(s@),
{
    let chars = chars_of(s);
    let mut i: usize = 0;
    while i < chars.len()
        invariant
            chars@ == s@,
            i <= chars@.len(),
            forall|j: int| 0 <= j < i ==> is_whitespace(#[trigger] chars@[j]),
        decreases chars@.len() - i,
    {
        if !char_is_whitespace(chars[i]) {
            assert(!is_whitespace(chars@[i as int]));
            return false;
        }
        i += 1;
    }
    true
}

impl TopicArgs {
    /// No argument given: the joined channel, and everything from the keystore.
    pub fn none() -> (args: TopicArgs)
        ensures
            args.topic@.len() == 0,
            args.peer@.len() == 0,
            args.node_seed is None,
            args.node_seed_file is None,
            args.relay_url is None,
            args.membership is None,
            args.membership_file is None,
            args.inclusion_proof is None,
            args.inclusion_proof_file is None,
    {
        TopicArgs {
            topic: String::new(),
            peer: Vec::new(),
            node_seed: None,
            node_seed_file: None,
            relay_url: None,
            membership: None,
            membership_file: None,
            inclusion_proof: None,
            inclusion_proof_file: None,
        }
    }

    /// Where this node's key comes from: a seed wins over a file, and a file
    /// over the keystore.
    pub fn key_source(&self) -> (source: KeySource)
        ensures
            match source {
                KeySource::Seed(seed) => self.node_seed matches Some(s) && s@ == seed@,
                KeySource::File(path) => self.node_seed is None && (self.node_seed_file matches Some(
                    p,
                ) && p@ == path@),
                KeySource::Keystore => self.node_seed is None && self.node_seed_file is None,
            },
    {
        match (&self.node_seed, &self.node_seed_file) {
            (Some(seed), _) => KeySource::Seed(seed.clone()),
            (None, Some(path)) => KeySource::File(path.clone()),
            (None, None) => KeySource::Keystore,
        }
    }
}

/// The name of the topic: the one given, or the joined channel's when that is
/// blank.
pub open spec fn topic_name(args: TopicArgs, found: Found) -> Option<Seq<char>> {
    if !is_blank(args.topic@) {
        Some(args.topic@)
    } else {
        match found.channel {
            Ok(Some(name)) => Some(name@),
            _ => None,
        }
    }
}

/// Whether a ticket leads to this topic.
pub open spec fn ticket_fits(
    ticket: Result<TopicTicket, String>,
    fabric: NodeId,
    name: Seq<char>,
) -> bool {
    ticket matches Ok(t) && t.fabric == fabric && t.name@ == name
}

/// The peers that a list of tickets names, in order.
pub open spec fn peers_of(tickets: Seq<Result<TopicTicket, String>>) -> Seq<PeerView>
    decreases tickets.len(),
{
    if tickets.len() == 0 {
        Seq::empty()
    } else {
        peers_of(tickets.drop_last()) + match tickets.last() {
            Ok(t) => peer_views(t.peers@),
            Err(_) => Seq::empty(),
        }
    }
}

/// There is a topic name.
pub open spec fn has_name(args: TopicArgs, found: Found) -> bool {
    topic_name(args, found) is Some
}

/// ... and this node's key,
pub open spec fn has_node(args: TopicArgs, found: Found) -> bool {
    has_name(args, found) && found.node is Ok
}

/// ... and a membership,
pub open spec fn has_membership(args: TopicArgs, found: Found) -> bool {
    has_node(args, found) && found.membership matches Ok(Some(_))
}

/// ... issued to this node,
pub open spec fn is_ours(args: TopicArgs, found: Found) -> bool {
    has_membership(args, found) && found.membership->Ok_0->0.member == found.node->Ok_0
}

/// ... and an inclusion proof,
pub open spec fn has_proof(args: TopicArgs, found: Found) -> bool {
    is_ours(args, found) && found.inclusion matches Ok(Some(_))
}

/// ... and a roster head,
pub open spec fn has_head(args: TopicArgs, found: Found) -> bool {
    has_proof(args, found) && found.head matches Ok(Some(_))
}

/// ... and a fabric key,
pub open spec fn has_key(args: TopicArgs, found: Found) -> bool {
    has_head(args, found) && found.key matches Ok(Some(_))
}

/// ... and the first `n` tickets lead to this topic.
pub open spec fn tickets_fit(args: TopicArgs, found: Found, n: int) -> bool {
    has_key(args, found) && forall|i: int|
        0 <= i < n ==> ticket_fits(
            #[trigger] found.tickets@[i],
            found.membership->Ok_0->0.fabric,
            topic_name(args, found)->0,
        )
}

/// A ticket that is the first not to lead to this topic.
pub open spec fn first_misfit(args: TopicArgs, found: Found, i: int) -> bool {
    &&& 0 <= i < found.tickets@.len()
    &&& tickets_fit(args, found, i)
    &&& !ticket_fits(
        found.tickets@[i],
        found.membership->Ok_0->0.fabric,
        topic_name(args, found)->0,
    )
}

/// Whether an error is the one that what was found calls for: the first thing
/// that is missing or wrong, in the order they are looked for.
pub open spec fn calls_for(args: TopicArgs, found: Found, e: ResolveError) -> bool {
    match e {
        ResolveError::Unreadable(why) => {
            ||| is_blank(args.topic@) && (found.channel matches Err(w) && why@ == w@)
            ||| has_name(args, found) && (found.node matches Err(w) && why@ == w@)
            ||| has_node(args, found) && (found.membership matches Err(w) && why@ == w@)
            ||| is_ours(args, found) && (found.inclusion matches Err(w) && why@ == w@)
            ||| has_proof(args, found) && (found.head matches Err(w) && why@ == w@)
            ||| has_head(args, found) && (found.key matches Err(w) && why@ == w@)
        },
        ResolveError::NoTopic => is_blank(args.topic@) && found.channel matches Ok(None),
        ResolveError::NoMembership { looked_for } => has_node(args, found) && (
        found.membership matches Ok(None)) && looked_for@ == found.membership_path@,
        ResolveError::NotOurs { node, member } => has_membership(args, found) && !is_ours(
            args,
            found,
        ) && found.node == Ok::<NodeId, String>(node) && member
            == found.membership->Ok_0->0.member,
        ResolveError::NoProof { looked_for } => is_ours(args, found) && (found.inclusion matches Ok(
            None,
        )) && looked_for@ == found.proof_path@,
        ResolveError::NoHead { looked_for } => has_proof(args, found) && (found.head matches Ok(
            None,
        )) && looked_for@ == found.head_path@,
        ResolveError::NoKey { looked_in } => has_head(args, found) && (found.key matches Ok(None))
            && looked_in@ == found.keyring_path@,
        ResolveError::BadTicket(why) => exists|i: int| #[trigger]
            first_misfit(args, found, i) && (found.tickets@[i] matches Err(w) && why@ == w@),
        ResolveError::OtherFabric { ticket, own } => exists|i: int| #[trigger]
            first_misfit(args, found, i) && (found.tickets@[i] matches Ok(t) && t.fabric == ticket
                && ticket != own && own == found.membership->Ok_0->0.fabric),
        ResolveError::OtherTopic { ticket, own } => exists|i: int| #[trigger]
            first_misfit(args, found, i) && (found.tickets@[i] matches Ok(t) && t.fabric
                == found.membership->Ok_0->0.fabric && t.name@ == ticket@ && ticket@ != own@ && own@
                == topic_name(args, found)->0),
    }
}

impl TopicContext {
    /// Put together what was found, or say what is missing first: a name, this
    /// node's key, a membership issued to it, an inclusion proof, a roster head,
    /// a fabric key, and tickets that all lead to this topic in this fabric.
    pub fn resolve(args: &TopicArgs, found: Found) -> (resolved: Result<TopicContext, ResolveError>)
        ensures
            match resolved {
                Ok(ctx) => {
                    &&& tickets_fit(*args, found, found.tickets@.len() as int)
                    &&& Ok::<NodeId, String>(ctx.node) == found.node
                    &&& found.membership == Ok::<Option<Membership>, String>(Some(ctx.membership))
                    &&& found.inclusion == Ok::<Option<String>, String>(Some(ctx.inclusion))
                    &&& found.head == Ok::<Option<u64>, String>(Some(ctx.head))
                    &&& topic_name(*args, found) == Some(ctx.name@)
                    &&& ctx.fabric_root == ctx.membership.fabric
                    &&& peer_views(ctx.ticket_peers@) == peers_of(found.tickets@)
                    &&& maybe_text(ctx.relay_url) == maybe_text(args.relay_url)
                },
                Err(e) => calls_for(*args, found, e),
            },
    {
        let ghost all = found;
        let name: String = if blank(args.topic.as_str()) {
            match found.channel {
                Err(why) => {
                    return Err(ResolveError::Unreadable(why));
                },
                Ok(None) => {
                    return Err(ResolveError::NoTopic);
                },
                Ok(Some(name)) => name,
            }
        } else {
            args.topic.clone()
        };
        let node: NodeId = match found.node {
            Err(why) => {
                return Err(ResolveError::Unreadable(why));
            },
            Ok(node) => node,
        };
        let membership: Membership = match found.membership {
            Err(why) => {
                return Err(ResolveError::Unreadable(why));
            },
            Ok(None) => {
                return Err(ResolveError::NoMembership { looked_for: found.membership_path });
            },
            Ok(Some(membership)) => membership,
        };
        if !membership.member.same(&node) {
            return Err(ResolveError::NotOurs { node, member: membership.member });
        }
        let inclusion: String = match found.inclusion {
            Err(why) => {
                return Err(ResolveError::Unreadable(why));
            },
            Ok(None) => {
                return Err(ResolveError::NoProof { looked_for: found.proof_path });
            },
            Ok(Some(text)) => text,
        };
        let head: u64 = match found.head {
            Err(why) => {
                return Err(ResolveError::Unreadable(why));
            },
            Ok(None) => {
                return Err(ResolveError::NoHead { looked_for: found.head_path });
            },
            Ok(Some(head)) => head,
        };
        match found.key {
            Err(why) => {
                return Err(ResolveError::Unreadable(why));
            },
            Ok(None) => {
                return Err(ResolveError::NoKey { looked_in: found.keyring_path });
            },
            Ok(Some(_)) => {},
        }
        let fabric = membership.fabric;
        let mut peers: Vec<TopicPeer> = Vec::new();
        let mut i: usize = 0;
        assert(peer_views(peers@) =~= Seq::<PeerView>::empty());
        while i < found.tickets.len()
            invariant
                i <= found.tickets@.len(),
                all == found,
                has_key(*args, all),
                tickets_fit(*args, all, i as int),
                fabric == all.membership->Ok_0->0.fabric,
                topic_name(*args, all) == Some(name@),
                peer_views(peers@) == peers_of(all.tickets@.take(i as int)),
            decreases found.tickets@.len() - i,
        {
            match &found.tickets[i] {
                Err(why) => {
                    assert(first_misfit(*args, all, i as int));
                    return Err(ResolveError::BadTicket(why.clone()));
                },
                Ok(ticket) => {
                    if !ticket.fabric.same(&fabric) {
                        assert(first_misfit(*args, all, i as int));
                        return Err(
                            ResolveError::OtherFabric { ticket: ticket.fabric, own: fabric },
                        );
                    }
                    if ticket.name != name {
                        assert(first_misfit(*args, all, i as int));
                        return Err(
                            ResolveError::OtherTopic { ticket: ticket.name.clone(), own: name },
                        );
                    }
                    push_peers(&mut peers, &ticket.peers);
                    proof {
                        let now = all.tickets@.take(i + 1);
                        assert(now.drop_last() =~= all.tickets@.take(i as int));
                        assert(now.last() == all.tickets@[i as int]);
                    }
                },
            }
            i += 1;
        }
        assert(all.tickets@.take(all.tickets@.len() as int) =~= all.tickets@);
        Ok(
            TopicContext {
                node,
                membership,
                inclusion,
                head,
                name,
                fabric_root: fabric,
                ticket_peers: peers,
                relay_url: copy_maybe(&args.relay_url),
            },
        )
    }

    /// The setup of a node for this context, on the topic its name derives to.
    pub fn node_config(&self, topic: TopicId, admit_recheck: u64, replay_limit: u32) -> (
        cfg: TopicNodeConfig)
        ensures
            cfg.topic == topic,
            cfg.fabric_root == self.fabric_root,
            maybe_text(cfg.relay_url) == maybe_text(self.relay_url),
            cfg.admit_recheck == admit_recheck,
            cfg.replay_limit == replay_limit,
            cfg.channel_cap == crate::topics::EVENT_CHANNEL_CAP,
            cfg.protocols@.len() == 0,
    {
        let mut cfg = TopicNodeConfig::new(topic, self.fabric_root, admit_recheck, replay_limit);
        cfg.relay_url = copy_maybe(&self.relay_url);
        cfg
    }
}

/// Append a copy of each peer.
fn push_peers(peers: &mut Vec<TopicPeer>, more: &Vec<TopicPeer>)
    ensures
        peer_views(final(peers)@) == peer_views(old(peers)@) + peer_views(more@),
{
    let ghost start = peer_views(peers@);
    let ghost all = peer_views(more@);
    let mut i: usize = 0;
    assert(start + all.take(0) =~= start);
    while i < more.len()
        invariant
            i <= more@.len(),
            all == peer_views(more@),
            peer_views(peers@) == start + all.take(i as int),
        decreases more@.len() - i,
    {
        let ghost before = peers@;
        let next = more[i].copy();
        peers.push(next);
        assert(peer_views(peers@) =~= peer_views(before).push(next@));
        assert(start + all.take(i + 1) =~= (start + all.take(i as int)).push(all[i as int]));
        i += 1;
    }
    assert(all.take(all.len() as int) =~= all);
}

/// Whatever is found, resolving has one outcome: an error that is called for
/// rules out a context, and a context rules out every error.
pub proof fn resolving_is_decided(args: TopicArgs, found: Found, e: ResolveError)
    requires
        calls_for(args, found, e),
    ensures
        !tickets_fit(args, found, found.tickets@.len() as int),
{
    match e {
        ResolveError::BadTicket(_) => {
            let i = choose|i: int| #[trigger] first_misfit(args, found, i);
            assert(!ticket_fits(
                found.tickets@[i],
                found.membership->Ok_0->0.fabric,
                topic_name(args, found)->0,
            ));
        },
        ResolveError::OtherFabric { .. } => {
            let i = choose|i: int| #[trigger] first_misfit(args, found, i);
            assert(!ticket_fits(
                found.tickets@[i],
                found.membership->Ok_0->0.fabric,
                topic_name(args, found)->0,
            ));
        },
        ResolveError::OtherTopic { .. } => {
            let i = choose|i: int| #[trigger] first_misfit(args, found, i);
            assert(!ticket_fits(
                found.tickets@[i],
                found.membership->Ok_0->0.fabric,
                topic_name(args, found)->0,
            ));
        },
        _ => {},
    }
}

impl ResolveError {
    /// What the error says: what is missing, and the command that supplies it.
    pub open spec fn said(self) -> Seq<char> {
        match self {
            ResolveError::Unreadable(why) => why@,
            ResolveError::NoTopic => "no topic named and no channel joined; pass one (e.g. `wires watch ops`) or run `wires join <token>` first"@,
            ResolveError::NoMembership { looked_for } => "no membership: run `wires advanced import --membership <token>` with the token your operator minted (looked for "@
                + looked_for@ + ")"@,
            ResolveError::NotOurs { node, member } => "the membership is for node "@ + hex(
                member.bytes@,
            ) + ", not for this node ("@ + hex(node.bytes@)
                + "); run `wires advanced import --membership <token>` with one minted for it"@,
            ResolveError::NoProof { looked_for } => "no inclusion proof: topics admit peers by roster inclusion, so this node needs its own proof — run `wires advanced import --inclusion-proof-file <node-id>.proof` from `wires advanced roster commit --out DIR` (looked for "@
                + looked_for@ + ")"@,
            ResolveError::NoHead { looked_for } => "no roster head: admission checks every peer's proof against a signed head, so this node needs the current one — run `wires advanced import --roster-head <token>` (looked for "@
                + looked_for@ + ")"@,
            ResolveError::NoKey { looked_in } => "no fabric key in the keyring: topics are end-to-end encrypted, so a member with no key can neither publish nor read — run `wires advanced import --fabric-key-file <node-id>.key` from `wires advanced roster commit --out DIR` (looked in "@
                + looked_in@ + ")"@,
            ResolveError::BadTicket(why) => "--peer (is the pasted base64 ticket complete?): "@
                + why@,
            ResolveError::OtherFabric { ticket, own } => "--peer: this ticket is for fabric "@
                + hex(ticket.bytes@) + ", but this node's membership is in fabric "@ + hex(
                own.bytes@,
            ) + "; a ticket from another fabric can never be admitted"@,
            ResolveError::OtherTopic { ticket, own } => "--peer: this ticket is for topic "@
                + debug_text(ticket@) + ", not "@ + debug_text(own@)
                + "; the peers on it are on a different mesh"@,
        }
    }

    /// What the error says: what is missing, and the command that supplies it.
    pub fn text(&self) -> (text: String)
        ensures
            text@ == self.said(),
    {
        match self {
            ResolveError::Unreadable(why) => why.clone(),
            ResolveError::NoTopic => "no topic named and no channel joined; pass one (e.g. `wires watch ops`) or run `wires join <token>` first".to_owned(),
            ResolveError::NoMembership { looked_for } => {
                let mut text = "no membership: run `wires advanced import --membership <token>` with the token your operator minted (looked for ".to_owned();
                text.append(looked_for.as_str());
                text.append(")");
                text
            },
            ResolveError::NotOurs { node, member } => {
                let mut text = "the membership is for node ".to_owned();
                text.append(member.hex().as_str());
                text.append(", not for this node (");
                text.append(node.hex().as_str());
                text.append("); run `wires advanced import --membership <token>` with one minted for it");
                text
            },
            ResolveError::NoProof { looked_for } => {
                let mut text = "no inclusion proof: topics admit peers by roster inclusion, so this node needs its own proof — run `wires advanced import --inclusion-proof-file <node-id>.proof` from `wires advanced roster commit --out DIR` (looked for ".to_owned();
                text.append(looked_for.as_str());
                text.append(")");
                text
            },
            ResolveError::NoHead { looked_for } => {
                let mut text = "no roster head: admission checks every peer's proof against a signed head, so this node needs the current one — run `wires advanced import --roster-head <token>` (looked for ".to_owned();
                text.append(looked_for.as_str());
                text.append(")");
                text
            },
            ResolveError::NoKey { looked_in } => {
                let mut text = "no fabric key in the keyring: topics are end-to-end encrypted, so a member with no key can neither publish nor read — run `wires advanced import --fabric-key-file <node-id>.key` from `wires advanced roster commit --out DIR` (looked in ".to_owned();
                text.append(looked_in.as_str());
                text.append(")");
                text
            },
            ResolveError::BadTicket(why) => {
                let mut text = "--peer (is the pasted base64 ticket complete?): ".to_owned();
                text.append(why.as_str());
                text
            },
            ResolveError::OtherFabric { ticket, own } => {
                let mut text = "--peer: this ticket is for fabric ".to_owned();
                text.append(ticket.hex().as_str());
                text.append(", but this node's membership is in fabric ");
                text.append(own.hex().as_str());
                text.append("; a ticket from another fabric can never be admitted");
                text
            },
            ResolveError::OtherTopic { ticket, own } => {
                let mut text = "--peer: this ticket is for topic ".to_owned();
                text.append(debug_quoted(ticket.as_str()).as_str());
                text.append(", not ");
                text.append(debug_quoted(own.as_str()).as_str());
                text.append("; the peers on it are on a different mesh");
                text
            },
        }
    }
}

/// The topic is the one that is named, where the name says anything, and else the
/// channel that was joined.
pub proof fn a_named_topic_comes_first(args: TopicArgs, found: Found, i: int)
    ensures
        0 <= i < args.topic@.len() && !is_whitespace(args.topic@[i]) ==> topic_name(args, found)
            == Some(args.topic@),
        (forall|k: int| 0 <= k < args.topic@.len() ==> is_whitespace(#[trigger] args.topic@[k]))
            ==> match found.channel {
            Ok(Some(name)) => topic_name(args, found) == Some(name@),
            _ => topic_name(args, found) is None,
        },
{
}

/// A context is resolved exactly where everything is there: a topic, the node, a
/// membership of that node, a proof, a head, a key, and tickets that are all of the
/// membership's fabric and of the topic.
pub proof fn a_context_needs_everything(args: TopicArgs, found: Found)
    ensures
        tickets_fit(args, found, found.tickets@.len() as int) <==> {
            let name = topic_name(args, found);
            &&& name is Some
            &&& found.node is Ok
            &&& found.membership is Ok && found.membership->Ok_0 is Some
            &&& found.membership->Ok_0->0.member == found.node->Ok_0
            &&& found.inclusion is Ok && found.inclusion->Ok_0 is Some
            &&& found.head is Ok && found.head->Ok_0 is Some
            &&& found.key is Ok && found.key->Ok_0 is Some
            &&& forall|i: int|
                0 <= i < found.tickets@.len() ==> ((#[trigger] found.tickets@[i]) is Ok
                    && found.tickets@[i]->Ok_0.fabric == found.membership->Ok_0->0.fabric
                    && found.tickets@[i]->Ok_0.name@ == name->0)
        },
{
}

/// Where something is missing, the error is that of the first thing missing: the
/// topic, the node, the membership and whose it is, the proof, the head, the key, and
/// then the first ticket that does not fit.
pub proof fn the_first_missing_thing_is_named(args: TopicArgs, found: Found, e: ResolveError)
    requires
        calls_for(args, found, e),
    ensures
        ({
            let named = topic_name(args, found) is Some;
            let node = found.node is Ok;
            let member = found.membership is Ok && found.membership->Ok_0 is Some;
            let ours = found.membership->Ok_0->0.member == found.node->Ok_0;
            let proof_there = found.inclusion is Ok && found.inclusion->Ok_0 is Some;
            let head = found.head is Ok && found.head->Ok_0 is Some;
            let key = found.key is Ok && found.key->Ok_0 is Some;
            if !named {
                if found.channel is Err {
                    e matches ResolveError::Unreadable(why) && why@ == found.channel->Err_0@
                } else {
                    e is NoTopic
                }
            } else if !node {
                e matches ResolveError::Unreadable(why) && why@ == found.node->Err_0@
            } else if !member {
                if found.membership is Err {
                    e matches ResolveError::Unreadable(why) && why@ == found.membership->Err_0@
                } else {
                    e matches ResolveError::NoMembership { looked_for } && looked_for@
                        == found.membership_path@
                }
            } else if !ours {
                e matches ResolveError::NotOurs { node, member } && node == found.node->Ok_0
                    && member == found.membership->Ok_0->0.member
            } else if !proof_there {
                if found.inclusion is Err {
                    e matches ResolveError::Unreadable(why) && why@ == found.inclusion->Err_0@
                } else {
                    e matches ResolveError::NoProof { looked_for } && looked_for@
                        == found.proof_path@
                }
            } else if !head {
                if found.head is Err {
                    e matches ResolveError::Unreadable(why) && why@ == found.head->Err_0@
                } else {
                    e matches ResolveError::NoHead { looked_for } && looked_for@
                        == found.head_path@
                }
            } else if !key {
                if found.key is Err {
                    e matches ResolveError::Unreadable(why) && why@ == found.key->Err_0@
                } else {
                    e matches ResolveError::NoKey { looked_in } && looked_in@
                        == found.keyring_path@
                }
            } else {
                e is BadTicket || e is OtherFabric || e is OtherTopic
            }
        }),
{
}

/// The peers of two lists of tickets are those of the one and then those of the
/// other; a ticket's are its own.
pub proof fn ticket_peers_add_up(
    a: Seq<Result<TopicTicket, String>>,
    b: Seq<Result<TopicTicket, String>>,
    ticket: TopicTicket,
)
    ensures
        peers_of(a + b) == peers_of(a) + peers_of(b),
        peers_of(seq![Ok(ticket)]) == peer_views(ticket.peers@),
    decreases b.len(),
{
    let one = seq![Ok::<TopicTicket, String>(ticket)];
    assert(one.drop_last() =~= Seq::empty());
    assert(peers_of(one.drop_last()) =~= Seq::<PeerView>::empty());
    assert(peers_of(one) =~= peer_views(ticket.peers@));
    if b.len() == 0 {
        assert(a + b =~= a);
        assert(peers_of(a) + peers_of(b) =~= peers_of(a));
    } else {
        ticket_peers_add_up(a, b.drop_last(), ticket);
        assert((a + b).drop_last() =~= a + b.drop_last());
        assert((a + b).last() == b.last());
        assert(peers_of(a + b) =~= peers_of(a) + peers_of(b));
    }
}

/// What is said of a membership of another node names the member and then this node;
/// of a ticket of another fabric or topic the ticket's and then this node's own; of
/// what could not be read the reason as it stands; and of what is missing where it
/// was looked for.
pub proof fn a_mismatch_names_both_sides(
    node: NodeId,
    member: NodeId,
    path: String,
    ticket: String,
    own: String,
)
    ensures
        ("the membership is for node "@ + hex(member.bytes@) + ", not for this node ("@ + hex(
            node.bytes@,
        )).is_prefix_of(ResolveError::NotOurs { node, member }.said()),
        ("--peer: this ticket is for fabric "@ + hex(member.bytes@)
            + ", but this node's membership is in fabric "@ + hex(node.bytes@)).is_prefix_of(
            ResolveError::OtherFabric { ticket: member, own: node }.said(),
        ),
        ("--peer: this ticket is for topic "@ + debug_text(ticket@) + ", not "@ + debug_text(
            own@,
        )).is_prefix_of(ResolveError::OtherTopic { ticket, own }.said()),
        ResolveError::Unreadable(path).said() == path@,
        (path@ + ")"@).is_suffix_of(ResolveError::NoMembership { looked_for: path }.said()),
        (path@ + ")"@).is_suffix_of(ResolveError::NoProof { looked_for: path }.said()),
        (path@ + ")"@).is_suffix_of(ResolveError::NoHead { looked_for: path }.said()),
        (path@ + ")"@).is_suffix_of(ResolveError::NoKey { looked_in: path }.said()),
        path@.is_suffix_of(ResolveError::BadTicket(path).said()),
{
    let a = "the membership is for node "@ + hex(member.bytes@) + ", not for this node ("@ + hex(
        node.bytes@,
    );
    assert(ResolveError::NotOurs { node, member }.said().take(a.len() as int) =~= a);
    let b = "--peer: this ticket is for fabric "@ + hex(member.bytes@)
        + ", but this node's membership is in fabric "@ + hex(node.bytes@);
    assert(ResolveError::OtherFabric { ticket: member, own: node }.said().take(b.len() as int)
        =~= b);
    let c = "--peer: this ticket is for topic "@ + debug_text(ticket@) + ", not "@ + debug_text(
        own@,
    );
    assert(ResolveError::OtherTopic { ticket, own }.said().take(c.len() as int) =~= c);
    let d = path@ + ")"@;
    ends_with(ResolveError::NoMembership { looked_for: path }.said(), d);
    ends_with(ResolveError::NoProof { looked_for: path }.said(), d);
    ends_with(ResolveError::NoHead { looked_for: path }.said(), d);
    ends_with(ResolveError::NoKey { looked_in: path }.said(), d);
    ends_with(ResolveError::BadTicket(path).said(), path@);
}

proof fn ends_with(text: Seq<char>, end: Seq<char>)
    requires
        text.len() >= end.len(),
        text.skip(text.len() - end.len()) =~= end,
    ensures
        end.is_suffix_of(text),
{
}

} // verus!
