//! What a channel command resolves first, and what a re-key changes.

use wires::context::{Found, KeySource, Membership, ResolveError, TopicArgs, TopicContext};
use wires::ids::{NodeId, TopicId};
use wires::nodes::NodeSet;
use wires::peers::{Addr, TopicPeer};
use wires::rekey::{
    adopt, conclude, directory_for, install, key_is_stale, observe, report, Adoption, HeadSource,
    InclusionProof, Notice, Offered, OwnPart, ProofDirectory, Rekey, RosterHead, Vault, Write,
};
use wires::topics::{TopicTicket, EVENT_CHANNEL_CAP};

fn node(seed: u8) -> NodeId {
    NodeId { bytes: [seed; 32] }
}

const ROOT: u8 = 1;
const ME: u8 = 2;

fn args() -> TopicArgs {
    TopicArgs { topic: "ops".into(), ..TopicArgs::none() }
}

/// Everything a provisioned member has.
fn found() -> Found {
    Found {
        channel: Ok(None),
        node: Ok(node(ME)),
        membership: Ok(Some(Membership {
            fabric: node(ROOT),
            member: node(ME),
            not_after: i64::MAX,
        })),
        inclusion: Ok(Some("proof".into())),
        head: Ok(Some(1)),
        key: Ok(Some(1)),
        tickets: vec![],
        membership_path: "home/membership.json".into(),
        proof_path: "home/inclusion-proof.json".into(),
        head_path: "home/roster-head.json".into(),
        keyring_path: "home/keyring".into(),
    }
}

fn refusal(args: &TopicArgs, found: Found) -> String {
    TopicContext::resolve(args, found).unwrap_err().text()
}

#[test]
fn preflight_resolves_a_provisioned_member() {
    let ctx = TopicContext::resolve(&args(), found()).unwrap();
    assert_eq!(ctx.fabric_root, node(ROOT));
    assert_eq!(ctx.membership.member, node(ME));
    assert_eq!(ctx.name, "ops");
    assert_eq!((ctx.node, ctx.head, ctx.inclusion.as_str()), (node(ME), 1, "proof"));
    assert!(ctx.ticket_peers.is_empty());
    let topic = TopicId { bytes: [8; 32] };
    let cfg = ctx.node_config(topic, 30_000, 200);
    assert_eq!((cfg.topic, cfg.fabric_root), (topic, node(ROOT)));
    assert_eq!(cfg.channel_cap, EVENT_CHANNEL_CAP);
}

#[test]
fn preflight_names_the_import_for_a_missing_membership() {
    let msg = refusal(&args(), Found { membership: Ok(None), ..found() });
    assert!(msg.contains("wires advanced import --membership"), "{msg}");
}

#[test]
fn preflight_names_the_import_for_a_missing_proof() {
    let msg = refusal(&args(), Found { inclusion: Ok(None), ..found() });
    assert!(msg.contains("wires advanced import --inclusion-proof"), "{msg}");
    assert!(msg.contains("roster commit --out"), "{msg}");
}

#[test]
fn preflight_names_the_import_for_a_missing_head() {
    let msg = refusal(&args(), Found { head: Ok(None), ..found() });
    assert!(msg.contains("wires advanced import --roster-head"), "{msg}");
}

#[test]
fn preflight_names_the_import_for_an_empty_keyring() {
    let msg = refusal(&args(), Found { key: Ok(None), ..found() });
    assert!(msg.contains("wires advanced import --fabric-key"), "{msg}");
    assert!(msg.contains("end-to-end encrypted"), "{msg}");
}

#[test]
fn preflight_refuses_a_credential_issued_to_another_node() {
    // One node's keystore, but another one's seed on the command line.
    let stranger = node(7);
    let given = TopicArgs { node_seed: Some("07".repeat(32)), ..args() };
    assert_eq!(given.key_source(), KeySource::Seed("07".repeat(32)));
    let msg = refusal(&given, Found { node: Ok(stranger), ..found() });
    assert!(msg.contains(&stranger.hex()), "{msg}");
    assert!(msg.contains("wires advanced import --membership"), "{msg}");
}

#[test]
fn preflight_refuses_a_ticket_from_another_fabric_or_topic() {
    let stranger = node(8);
    let foreign = TopicTicket {
        fabric: stranger,
        name: "ops".into(),
        peers: vec![TopicPeer::new(stranger)],
    };
    let msg = refusal(&args(), Found { tickets: vec![Ok(foreign)], ..found() });
    assert!(msg.contains("another fabric") || msg.contains("for fabric"), "{msg}");
    let other_topic = TopicTicket { fabric: node(ROOT), name: "eng".into(), peers: vec![] };
    let msg = refusal(&args(), Found { tickets: vec![Ok(other_topic)], ..found() });
    assert!(msg.contains("\"eng\""), "{msg}");
    let msg = refusal(&args(), Found { tickets: vec![Err("not base64".into())], ..found() });
    assert!(msg.contains("not base64"), "{msg}");
}

#[test]
fn no_topic_means_the_joined_channel() {
    let blank = || TopicArgs { topic: String::new(), ..args() };
    let msg = refusal(&blank(), found());
    assert!(msg.contains("wires join"), "{msg}");
    let joined = Found { channel: Ok(Some("ops".into())), ..found() };
    assert_eq!(TopicContext::resolve(&blank(), joined).unwrap().name, "ops");
}

#[test]
fn preflight_takes_the_peers_off_a_good_ticket() {
    let peer = || TopicPeer {
        node: node(9),
        addrs: vec![Addr::V4 { ip: 0x7f00_0001, port: 4242 }],
        relay_url: None,
    };
    let ticket = TopicTicket { fabric: node(ROOT), name: "ops".into(), peers: vec![peer()] };
    let ctx =
        TopicContext::resolve(&args(), Found { tickets: vec![Ok(ticket)], ..found() }).unwrap();
    assert_eq!(ctx.ticket_peers, vec![peer()]);
}

#[test]
fn an_unreadable_credential_is_the_error() {
    for broken in [
        Found { node: Err("denied".into()), ..found() },
        Found { membership: Err("denied".into()), ..found() },
        Found { inclusion: Err("denied".into()), ..found() },
        Found { head: Err("denied".into()), ..found() },
        Found { key: Err("denied".into()), ..found() },
    ] {
        let e = TopicContext::resolve(&args(), broken).unwrap_err();
        assert!(matches!(e, ResolveError::Unreadable(ref why) if why == "denied"), "{e:?}");
    }
    let from_file = TopicArgs { node_seed_file: Some("f".into()), ..args() };
    assert_eq!(from_file.key_source(), KeySource::File("f".into()));
    assert_eq!(args().key_source(), KeySource::Keystore);
}

fn head(version: u64) -> RosterHead {
    RosterHead { version, digest: [version as u8; 32] }
}

fn rekey(version: u64, members: &[u8]) -> Rekey {
    Rekey { head: head(version), members: members.iter().map(|m| node(*m)).collect() }
}

fn own(version: u64) -> Option<OwnPart> {
    Some(OwnPart {
        inclusion: InclusionProof { member: node(ME), version },
        key: [version as u8; 32],
    })
}

fn members(set: &NodeSet, want: &[u8]) -> bool {
    (0..=255u8).all(|m| set.contains(&node(m)) == want.contains(&m))
}

/// A re-key that verifies, with this node's part.
fn offered(version: u64, members: &[u8], own: Option<OwnPart>) -> Offered {
    Offered { rekey: rekey(version, members), verified: Ok(()), own: Ok(own) }
}

/// A vault that holds the first commit.
fn world() -> Vault {
    let mut vault = Vault { head: None, inclusion: None, directory: None, keys: vec![] };
    install(&mut vault, &offered(1, &[ME, 3], own(1)), node(ME)).unwrap();
    vault
}

fn newest(vault: &Vault) -> Option<u64> {
    vault.keys.iter().map(|(v, _)| *v).max()
}

#[test]
fn a_member_installs_its_part_and_the_head_last() {
    let mut vault = world();
    assert_eq!(vault.head, Some(head(1)));
    let v2 = rekey(2, &[ME, 3]);
    let (plan, writes) = adopt(&vault, &v2, node(ME), own(2));
    assert_eq!(plan.persist, Some(head(2)));
    assert_eq!(writes.len(), 3);
    assert!(writes.iter().all(|w| !matches!(w, Write::Head(_))));
    let adoption = install(&mut vault, &offered(2, &[ME, 3], own(2)), node(ME)).unwrap();
    assert!(adoption.own && adoption.head_advanced && !adoption.superseded);
    assert_eq!(report(&adoption), Notice::Installed);
    assert_eq!(vault.head, Some(head(2)));
    assert_eq!(vault.inclusion.unwrap().version, 2);
    assert_eq!(newest(&vault), Some(2));
    assert!(vault.keys.contains(&(2, [2; 32])));
    let dir = vault.directory.as_ref().unwrap();
    assert_eq!(dir.head, head(2));
    assert!(members(&dir.members, &[ME, 3]));
    assert!(!key_is_stale(Some(2), newest(&vault)));
}

#[test]
fn a_removed_member_learns_the_head_and_gets_nothing_else() {
    let mut vault = world();
    let adoption = install(&mut vault, &offered(2, &[3], None), node(ME)).unwrap();
    assert!(!adoption.own && adoption.head_advanced);
    assert_eq!(report(&adoption), Notice::Removed);
    assert_eq!(vault.head, Some(head(2)));
    // Its proof and newest key are still the first commit's: it can no longer
    // be admitted or publish, which is the point.
    assert_eq!(vault.inclusion.unwrap().version, 1);
    assert!(key_is_stale(Some(2), newest(&vault)));
}

#[test]
fn an_older_re_key_moves_nothing_backwards() {
    let mut vault = world();
    install(&mut vault, &offered(2, &[ME, 3], own(2)), node(ME)).unwrap();
    let again = install(&mut vault, &offered(1, &[ME, 3], own(1)), node(ME)).unwrap();
    assert!(again.superseded && !again.head_advanced);
    assert_eq!(report(&again), Notice::Superseded);
    assert_eq!(vault.head, Some(head(2)));
    assert_eq!(vault.inclusion.unwrap().version, 2);
    assert_eq!(vault.directory.as_ref().unwrap().head, head(2));
}

#[test]
fn a_forged_re_key_is_refused_and_changes_nothing() {
    let mut vault = world();
    let forged = || Offered {
        verified: Err("signed by another root".into()),
        ..offered(2, &[ME, 3], own(2))
    };
    assert_eq!(
        install(&mut vault, &forged(), node(ME)).unwrap_err(),
        "verifying the re-key against the fabric root: signed by another root"
    );
    assert!(observe(&mut vault, &Some(forged()), node(ME)).is_none());
    let sealed = Offered { own: Err("not for this key".into()), ..offered(2, &[ME, 3], None) };
    assert_eq!(
        install(&mut vault, &sealed, node(ME)).unwrap_err(),
        "opening this node's part of the re-key: not for this key"
    );
    assert!(observe(&mut vault, &None, node(ME)).is_none());
    assert_eq!(vault.head, Some(head(1)));
    assert_eq!(newest(&vault), Some(1));
    let plan = observe(&mut vault, &Some(offered(2, &[ME, 3], own(2))), node(ME)).unwrap();
    assert!(plan.own && plan.persist == Some(head(2)));
    // The credentials are in place before the head is.
    assert_eq!(vault.head, Some(head(1)));
    assert_eq!(newest(&vault), Some(2));
    let taken = conclude(&mut vault, plan, Ok(Some(head(2)))).unwrap();
    assert!(taken.head_advanced && vault.head == Some(head(2)));
}

#[test]
fn an_adoption_reports_what_persisting_the_head_answered() {
    // The handler is ahead of the keystore: the head is offered, and not moved.
    let mut vault = world();
    let plan = observe(&mut vault, &Some(offered(2, &[ME, 3], own(2))), node(ME)).unwrap();
    let taken = conclude(&mut vault, plan, Ok(None)).unwrap();
    assert!(taken.own && !taken.head_advanced);
    assert_eq!(vault.head, Some(head(1)));
    // It is offered for the stored version too, and to a node without a part.
    let plan = observe(&mut vault, &Some(offered(1, &[3], None)), node(ME)).unwrap();
    assert_eq!((plan.own, plan.superseded, plan.persist), (false, false, Some(head(1))));
    let failed = conclude(&mut vault, plan, Err("disk full".into()));
    assert_eq!(failed, Err("disk full".to_string()));
    // A superseded record offers none, whatever is answered.
    let mut vault = world();
    install(&mut vault, &offered(3, &[ME], own(3)), node(ME)).unwrap();
    let plan = observe(&mut vault, &Some(offered(2, &[ME], own(2))), node(ME)).unwrap();
    assert_eq!((plan.superseded, plan.persist), (true, None));
    let old = conclude(&mut vault, plan, Err("not asked".into())).unwrap();
    assert!(old.superseded && !old.own && !old.head_advanced);
    assert_eq!(vault.head, Some(head(3)));
}

#[test]
fn chunks_of_one_commit_fill_one_directory() {
    let mut vault = world();
    for member in [ME, 3] {
        let part = if member == ME { own(2) } else { None };
        install(&mut vault, &offered(2, &[member], part), node(ME)).unwrap();
    }
    let dir = vault.directory.as_ref().unwrap();
    assert_eq!(dir.head, head(2));
    assert!(members(&dir.members, &[ME, 3]));
}

#[test]
fn the_session_gate_reads_the_directory_beside_a_keystore_head_only() {
    let beside = || world().directory;
    let read = directory_for(HeadSource::Keystore, beside()).unwrap();
    assert_eq!(read.head, head(1));
    assert!(members(&read.members, &[ME, 3]));
    assert!(directory_for(HeadSource::Fixed, beside()).is_none());
    assert!(directory_for(HeadSource::File, beside()).is_none());
    assert!(directory_for(HeadSource::Keystore, None::<ProofDirectory>).is_none());
}

#[test]
fn an_adoption_that_changed_nothing_is_not_worth_saying() {
    let adoption = |own| Adoption { version: 1, head_advanced: false, own, superseded: false };
    assert_eq!(report(&adoption(false)), Notice::Nothing);
    assert!(!key_is_stale(None, Some(1)) && !key_is_stale(Some(1), None));
}
