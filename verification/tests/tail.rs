//! The commands' arguments, the resident loop, dialing, publishing and what a
//! topic node hands on.

use wires::cli::{parse, CliError, Command, Opt, Subject};
use wires::dial::{Answer, DialRound};
use wires::envelope::TopicEnvelope;
use wires::ids::{MessageHash, NodeId, TopicId};
use wires::peers::{Addr, PeerBook, TopicPeer};
use wires::publish::{
    is_message, neighbor_in, no_known_peer_text, streamed, unreachable_text, After, Before,
    LastFailure, LinePublish, LineStep, OneShot, Streamed, PUBLISH_ATTEMPTS,
};
use wires::topics::{
    bridge, ticket_addrs, GossipEvent, TopicEvent, TopicNode, TopicNodeConfig, TopicSender,
};
use wires::watch::{
    arm, tail_banner, Ingested, Joined, Redial, Refusals, Tail, TailAction, TailEvent,
    DEFAULT_BACKFILL, DENIAL_STRIKES, REDIAL_MAX, REDIAL_MIN,
};

fn words(line: &[&str]) -> Vec<String> {
    line.iter().map(|w| w.to_string()).collect()
}

fn node(seed: u8) -> NodeId {
    NodeId { bytes: [seed; 32] }
}

#[test]
fn watch_parses_the_documented_flags() {
    match parse(&words(&["watch", "ops"])).unwrap() {
        Command::Watch(a) => {
            assert_eq!(a.common.topic, "ops");
            assert_eq!(a.backfill, DEFAULT_BACKFILL, "the default is 200");
            assert!(!a.json);
            assert!(a.common.peer.is_empty());
        }
        _ => panic!("expected watch"),
    }
    // `--peer` is repeatable; the rest mirror `call`.
    let cli = parse(&words(&[
        "watch",
        "ops",
        "--peer",
        "t1",
        "--peer",
        "t2",
        "--backfill",
        "7",
        "--json",
        "--relay-url",
        "https://r",
        "--node-seed",
        "ab",
    ]))
    .unwrap();
    match cli {
        Command::Watch(a) => {
            assert_eq!(a.common.peer, vec!["t1".to_string(), "t2".to_string()]);
            assert_eq!(a.backfill, 7);
            assert!(a.json);
            assert_eq!(a.common.relay_url.as_deref(), Some("https://r"));
            assert_eq!(a.common.node_seed.as_deref(), Some("ab"));
        }
        _ => panic!("expected watch"),
    }
    // No topic is the joined channel, resolved at preflight.
    match parse(&words(&["watch"])).unwrap() {
        Command::Watch(a) => assert!(a.common.topic.is_empty()),
        _ => panic!("expected watch"),
    }
    // The old name survives under `advanced`.
    match parse(&words(&["advanced", "tail", "ops", "--json"])).unwrap() {
        Command::AdvancedTail(a) => {
            assert_eq!(a.common.topic, "ops");
            assert!(a.json);
        }
        _ => panic!("expected advanced tail"),
    }
    assert_eq!(DEFAULT_BACKFILL, 200);
}

#[test]
fn publish_parses_the_documented_flags() {
    match parse(&words(&["advanced", "publish", "ops", "-m", "ship it"])).unwrap() {
        Command::AdvancedPublish(a) => {
            assert_eq!(a.common.topic, "ops");
            assert_eq!(a.message.as_deref(), Some("ship it"));
        }
        _ => panic!("expected publish"),
    }
    // No `--message` is the stdin form, not an error.
    match parse(&words(&["advanced", "publish", "ops"])).unwrap() {
        Command::AdvancedPublish(a) => assert!(a.message.is_none()),
        _ => panic!("expected publish"),
    }
}

#[test]
fn every_spelling_of_an_option_is_read() {
    let message = |line: &[&str]| match parse(&words(line)).unwrap() {
        Command::AdvancedPublish(a) => a.message,
        _ => panic!("expected publish"),
    };
    for form in [
        &["advanced", "publish", "--message=x=y"][..],
        &["advanced", "publish", "-mx=y"],
        &["advanced", "publish", "-m=x=y"],
        &["advanced", "publish", "--message", "x=y"],
    ] {
        assert_eq!(message(form).as_deref(), Some("x=y"));
    }
    match parse(&words(&[
        "watch",
        "--membership-file=m",
        "--inclusion-proof",
        "p",
        "--node-seed-file",
        "s",
        "--backfill=+0",
        "--",
        "--odd",
    ]))
    .unwrap()
    {
        Command::Watch(a) => {
            assert_eq!(a.common.membership_file.as_deref(), Some("m"));
            assert_eq!(a.common.inclusion_proof.as_deref(), Some("p"));
            assert_eq!(a.common.node_seed_file.as_deref(), Some("s"));
            assert_eq!(a.backfill, 0);
            assert_eq!(a.common.topic, "--odd");
        }
        _ => panic!("expected watch"),
    }
}

#[test]
fn a_wrong_command_line_says_what_is_wrong() {
    let wrong = |line: &[&str]| parse(&words(line)).unwrap_err();
    assert!(matches!(wrong(&[]), CliError::NoCommand));
    assert!(matches!(wrong(&["advanced"]), CliError::NoCommand));
    assert!(matches!(wrong(&["watch", "--message", "x"]), CliError::Unknown(a) if a == "--message"));
    assert!(matches!(wrong(&["watch", "-m"]), CliError::Unknown(a) if a == "-m"));
    assert!(matches!(wrong(&["watch", "--peer"]), CliError::NoValue(Opt::Peer)));
    assert!(matches!(wrong(&["watch", "--peer", "--json"]), CliError::NoValue(Opt::Peer)));
    assert!(matches!(wrong(&["watch", "--json=1"]), CliError::HasValue(Opt::Json)));
    assert!(matches!(wrong(&["watch", "--json", "--json"]), CliError::Twice(Opt::Json)));
    assert!(matches!(
        wrong(&["watch", "--backfill", "1", "--backfill", "2"]),
        CliError::Twice(Opt::Backfill)
    ));
    assert!(matches!(wrong(&["watch", "a", "b"]), CliError::ExtraTopic(t) if t == "b"));
    for n in ["", "x", "1x", "99999999999999999999999", "+"] {
        assert!(matches!(
            parse(&vec!["watch".into(), format!("--backfill={n}")]).unwrap_err(),
            CliError::NotANumber(t) if t == n
        ));
    }
    assert!(matches!(
        wrong(&["watch", "--membership", "a", "--membership-file", "b"]),
        CliError::Conflict(Opt::Membership, Opt::MembershipFile)
    ));
    assert!(matches!(
        wrong(&["advanced", "publish", "--inclusion-proof=a", "--inclusion-proof-file=b"]),
        CliError::Conflict(Opt::InclusionProof, Opt::InclusionProofFile)
    ));
}

#[test]
fn help_is_printed_where_it_is_asked_for() {
    let help = |line: &[&str]| match parse(&words(line)).unwrap() {
        Command::Help(subject) => subject,
        other => panic!("expected help, got {other:?}"),
    };
    assert_eq!(help(&["watch", "--help"]), Subject::Watch);
    assert_eq!(help(&["watch", "ops", "--json", "-h"]), Subject::Watch);
    assert_eq!(help(&["watch", "-h", "--no-such-option"]), Subject::Watch);
    assert_eq!(help(&["watch", "-hx"]), Subject::Watch);
    assert_eq!(help(&["advanced", "tail", "--help"]), Subject::AdvancedTail);
    assert_eq!(help(&["advanced", "publish", "ops", "-h"]), Subject::AdvancedPublish);
    assert_eq!(help(&["--help"]), Subject::Program);
    assert_eq!(help(&["-h", "watch"]), Subject::Program);
    assert_eq!(help(&["help"]), Subject::Program);
    assert_eq!(help(&["help", "watch"]), Subject::Watch);
    assert_eq!(help(&["help", "advanced"]), Subject::Advanced);
    assert_eq!(help(&["help", "advanced", "tail"]), Subject::AdvancedTail);
    assert_eq!(help(&["advanced", "-h"]), Subject::Advanced);
    assert_eq!(help(&["advanced", "help", "publish"]), Subject::AdvancedPublish);
    // What is wrong before it comes first, and it may stand for something else.
    let wrong = |line: &[&str]| parse(&words(line)).unwrap_err();
    assert!(matches!(wrong(&["watch", "--nope", "--help"]), CliError::Unknown(a) if a == "--nope"));
    assert!(matches!(wrong(&["watch", "--peer", "--help"]), CliError::NoValue(Opt::Peer)));
    assert!(matches!(wrong(&["watch", "--help=x"]), CliError::HasValue(Opt::Help)));
    assert!(matches!(wrong(&["help", "nothing"]), CliError::NoCommand));
    assert!(matches!(wrong(&["advanced", "help", "watch"]), CliError::NoCommand));
    match parse(&words(&["watch", "--", "--help"])).unwrap() {
        Command::Watch(a) => assert_eq!(a.common.topic, "--help"),
        other => panic!("expected a watch, got {other:?}"),
    }
    match parse(&words(&["advanced", "publish", "ops", "-mh"])).unwrap() {
        Command::AdvancedPublish(a) => assert_eq!(a.message.as_deref(), Some("h")),
        other => panic!("expected a publish, got {other:?}"),
    }
}

#[test]
fn a_pending_deadline_keeps_the_sooner_of_the_two() {
    let mut slot: Option<u64> = None;
    arm(&mut slot, 0, 60_000);
    let far = slot.unwrap();
    arm(&mut slot, 0, 2_000);
    let near = slot.unwrap();
    assert!(near < far, "an urgent reason must move a pending periodic deadline in");
    arm(&mut slot, 0, 60_000);
    assert_eq!(slot.unwrap(), near, "and a lazy one must not push it out");
}

#[test]
fn a_refusal_becomes_a_verdict_only_when_it_repeats() {
    let mut strikes = Refusals::default();
    for _ in 1..DENIAL_STRIKES {
        assert!(!strikes.refused(), "one round is not a verdict");
    }
    assert!(strikes.refused(), "{DENIAL_STRIKES} in a row is");
    // Any evidence that this node is still in the roster resets the count.
    let mut strikes = Refusals::default();
    assert!(!strikes.refused());
    strikes.admitted();
    for _ in 1..DENIAL_STRIKES {
        assert!(!strikes.refused());
    }
}

fn book(peers: &[u8]) -> PeerBook {
    PeerBook::from_list(peers.iter().map(|p| TopicPeer::new(node(*p))).collect())
}

#[test]
fn a_loop_with_known_peers_redials_until_one_is_up() {
    let mut tail = Tail::new(node(1), book(&[1, 2]), 2_000, 30_000, 0);
    assert!(tail.is_live() && tail.takes_requests());
    let due = tail.due(0);
    assert!(due.catchup && !due.redial && !due.rejoin && !due.readmit);
    assert_eq!(tail.step(TailEvent::CatchUpDue, 0), TailAction::StartCatchUp);
    assert!(!tail.due(0).catchup, "one catch-up at a time");
    assert_eq!(tail.step(TailEvent::CaughtUp, 10), TailAction::ShowCaughtUp);
    assert!(tail.due(REDIAL_MIN).redial);
    // Nobody answered: the pause doubles up to its longest.
    let nobody = Redial { tried: 1, admitted: 0, denials: 0 };
    let mut now = REDIAL_MIN;
    for _ in 0..8 {
        tail.step(TailEvent::Redialed(nobody), now);
        now = now + REDIAL_MAX;
        assert!(tail.due(now).redial);
    }
    // A neighbor comes up: it is remembered, and nothing is redialed.
    assert_eq!(tail.step(TailEvent::NeighborUp(node(3)), now), TailAction::SaveBook);
    assert!(!tail.due(u64::MAX / 2).redial);
    assert!(tail.peers().iter().any(|p| p.node == node(3)));
    tail.step(TailEvent::NeighborDown(node(3)), now);
    assert!(tail.due(now + REDIAL_MAX).redial);
}

#[test]
fn only_repeated_refusals_end_the_loop() {
    let mut tail = Tail::new(node(1), book(&[2]), 2_000, 30_000, 0);
    let refused = Redial { tried: 1, admitted: 0, denials: 1 };
    for _ in 1..DENIAL_STRIKES {
        assert_ne!(tail.step(TailEvent::Redialed(refused), 1), TailAction::Fail);
    }
    assert_eq!(tail.step(TailEvent::Redialed(refused), 1), TailAction::Fail);
    let mut tail = Tail::new(node(1), book(&[2]), 2_000, 30_000, 0);
    for _ in 0..3 {
        assert_ne!(tail.step(TailEvent::Redialed(refused), 1), TailAction::Fail);
        assert_ne!(
            tail.step(TailEvent::Redialed(Redial { tried: 1, admitted: 1, denials: 0 }), 1),
            TailAction::Fail
        );
    }
}

#[test]
fn each_event_has_its_action() {
    let mut tail = Tail::new(node(1), book(&[]), 2_000, 30_000, 0);
    assert_eq!(tail.step(TailEvent::Request, 0), TailAction::Publish);
    assert_eq!(
        tail.step(TailEvent::Message(Ingested::Inserted), 0),
        TailAction::Show { observe: true, print: true }
    );
    assert!(matches!(
        tail.step(TailEvent::Message(Ingested::Duplicate), 0),
        TailAction::Wait | TailAction::Show { print: false, .. }
    ));
    // A lag ends the subscription, and a join is tried again.
    tail.step(TailEvent::Lagged, 0);
    assert!(!tail.is_live());
    assert!(tail.due(REDIAL_MAX).rejoin);
    tail.step(TailEvent::Rejoined(Joined::Subscribed), REDIAL_MAX);
    assert!(tail.is_live());
    tail.step(TailEvent::ControlClosed, REDIAL_MAX);
    assert!(!tail.takes_requests());
    assert_eq!(tail.step(TailEvent::Stop, REDIAL_MAX), TailAction::Stop);
    assert!(tail.wake().is_some());
    assert_eq!(tail.refresh_hints(&vec![node(9)]), vec![TopicPeer::new(node(9))]);
}

#[test]
fn the_banner_ends_with_the_ticket() {
    let topic = TopicId { bytes: [7; 32] };
    let lines = tail_banner(
        "ops", topic, node(1), node(2), Some(3), i64::MAX, 0, "/s", Ok("TOKEN"),
    );
    assert_eq!(lines.last().unwrap(), "share to bootstrap: TOKEN");
    assert!(lines[0].contains("topic \"ops\" ("), "{}", lines[0]);
    assert!(lines.iter().any(|l| l == "wires watch: control socket /s"));
    let late = tail_banner(
        "o\"ps", topic, node(1), node(2), None, 5, 6, "/s", Err("no relay"),
    );
    assert_eq!(late.len(), lines.len() + 1, "an expired membership is said");
    assert!(late[0].contains("topic \"o\\\"ps\" ("), "{}", late[0]);
    assert!(late.last().unwrap().ends_with("could not build this node's ticket: no relay"));
}

fn dial(answers: &[(u8, Answer)]) -> DialRound {
    let peers = answers.iter().map(|(p, _)| TopicPeer::new(node(*p))).collect();
    let mut round = DialRound::new(node(1), peers, 0, 1_000);
    while let Some(peer) = round.next(0) {
        let answer = answers.iter().find(|(p, _)| node(*p) == peer.node).unwrap().1;
        round.answered(peer.node, answer);
    }
    round
}

#[test]
fn one_peers_refusal_does_not_stop_a_join_that_another_peer_admits() {
    let mixed = dial(&[(2, Answer::Denied), (3, Answer::Failed), (4, Answer::Admitted)]);
    assert_eq!(mixed.redialed(), Redial { tried: 3, admitted: 1, denials: 1 });
    assert_eq!(mixed.joined(), Ok(vec![node(4)]));
    let refused = dial(&[(2, Answer::Failed), (3, Answer::Denied), (4, Answer::Denied)]);
    assert_eq!(refused.joined(), Err(node(3)));
    // Nobody answered: no refusal, and nobody to hand to the mesh.
    assert_eq!(dial(&[(2, Answer::Failed)]).joined(), Ok(vec![]));
    // This node itself is never dialed.
    assert_eq!(dial(&[(1, Answer::Denied)]).redialed().tried, 0);
}

#[test]
fn a_spent_budget_leaves_the_rest_to_another_round() {
    let peers = vec![TopicPeer::new(node(2)), TopicPeer::new(node(3))];
    let mut round = DialRound::new(node(1), peers, 100, 50);
    assert_eq!(round.next(100).unwrap().node, node(2));
    round.answered(node(2), Answer::Failed);
    assert!(round.next(150).is_none());
    assert!(round.next(100).is_none());
}

#[test]
fn a_line_is_tried_again_and_then_dropped() {
    let mut line = LinePublish::new(true);
    assert_eq!(line.next(), LineStep::Send);
    assert_eq!(line.last.text("t.sock"), "the publish was never attempted");
    line.sent(Err("no fabric key in the keyring".into()));
    assert_eq!(line.last.text("t.sock"), "no fabric key in the keyring");
    for _ in 1..PUBLISH_ATTEMPTS {
        assert!(line.outcome("t.sock").is_none());
        assert_eq!(line.next(), LineStep::Connect { delayed: true });
        line.dialed(false);
    }
    assert_eq!(line.next(), LineStep::Drop);
    assert!(matches!(line.last, LastFailure::NoTail));
    assert_eq!(
        line.outcome("home/t.sock"),
        Some(Err("no resident tail on home/t.sock to publish through".to_string()))
    );
    let mut line = LinePublish::new(false);
    assert_eq!(line.next(), LineStep::Connect { delayed: false });
    line.dialed(true);
    line.sent(Ok(4));
    assert_eq!(line.next(), LineStep::Done { seq: 4 });
    assert_eq!(line.outcome("t.sock"), Some(Ok(4)));
    assert!(line.connected);
    assert_eq!(streamed(0, 0), Streamed::Nothing);
    assert_eq!(streamed(0, 2), Streamed::Failed);
    assert_eq!(streamed(2, 0), Streamed::All);
    assert_eq!(streamed(2, 1), Streamed::Partly { dropped: 1 });
    assert!(is_message(" x ") && !is_message(" \t\u{3000}") && !is_message(""));
}

/// Publish a line over a connection slot, to a node that answers with `answer`,
/// where there is one.
fn publish_line(
    connected: &mut bool,
    up: bool,
    answer: &mut dyn FnMut() -> Result<u64, String>,
) -> Result<u64, String> {
    let mut line = LinePublish::new(*connected);
    loop {
        if let Some(end) = line.outcome("r.sock") {
            *connected = line.connected;
            return end;
        }
        match line.next() {
            LineStep::Connect { .. } => line.dialed(up),
            LineStep::Send if up => line.sent(answer()),
            _ => line.sent(Err("closed".into())),
        }
    }
}

#[test]
fn a_streaming_publish_survives_a_refusal_and_a_reconnect() {
    // A resident node that refuses the first line it sees, and then answers.
    let mut seen = 0u64;
    let mut tail = || {
        let answer = if seen == 0 {
            Err("no fabric key in the keyring".to_string())
        } else {
            Ok(seen)
        };
        seen += 1;
        answer
    };
    let mut connected = true;
    assert_eq!(publish_line(&mut connected, true, &mut tail), Ok(1));
    assert!(connected);
    assert_eq!(publish_line(&mut connected, true, &mut tail), Ok(2));
    // It goes away: the line is reported after its attempts.
    let e = publish_line(&mut connected, false, &mut tail).unwrap_err();
    assert!(e.contains("no resident tail"), "{e}");
    assert_eq!(e, "no resident tail on r.sock to publish through");
    assert!(!connected);
}

#[test]
fn a_publish_gives_up_on_a_tail_that_never_answers() {
    // Every attempt runs out of time, which is a failure like any other.
    let mut asked = 0;
    let mut mute = || {
        asked += 1;
        Err("the resident tail did not answer within 50ms".to_string())
    };
    let mut connected = true;
    let e = publish_line(&mut connected, true, &mut mute).unwrap_err();
    assert!(e.contains("did not answer"), "{e}");
    assert!(!connected);
    assert_eq!(asked, PUBLISH_ATTEMPTS);
}

#[test]
fn a_one_shot_publish_stores_and_may_broadcast() {
    let mut alone = OneShot::new(false);
    assert!(!alone.waits());
    assert_eq!(alone.waited(Some(node(2))), Before::NoKnownPeer);
    assert!(!alone.stored());
    assert_eq!(alone.ended(), After::Close);
    let mut met = OneShot::new(true);
    assert_eq!(met.ended(), After::Nothing);
    assert_eq!(met.waited(Some(node(2))), Before::Connected);
    assert!(met.stored());
    assert_eq!(met.ended(), After::Linger);
    assert_eq!(OneShot::new(true).waited(None), Before::Unreachable);
    assert_eq!(neighbor_in(&TopicEvent::NeighborUp(node(2))), Some(node(2)));
    assert_eq!(neighbor_in(&TopicEvent::Lagged), None);
    assert_eq!(
        no_known_peer_text("a\nb"),
        "wires advanced publish: no known peer on topic \"a\\nb\" — storing locally (pass `--peer <ticket>`, or keep a `wires watch` running)"
    );
    assert!(unreachable_text("ops", 15).contains("\"ops\" after 15s"));
}

fn envelope(topic: TopicId) -> TopicEnvelope {
    TopicEnvelope {
        topic,
        sender: node(1),
        seq: 0,
        prev_hash: MessageHash { bytes: [0; 32] },
        key_version: 1,
        timestamp: 0,
        hash: MessageHash { bytes: [1; 32] },
        wire: vec![1, 2, 3],
    }
}

fn topic_node() -> TopicNode {
    let cfg = TopicNodeConfig::new(TopicId { bytes: [1; 32] }, node(9), 30_000, 200);
    TopicNode::spawn_on(node(1), &vec![b"gossip".to_vec()], cfg).unwrap()
}

#[test]
fn join_refuses_a_foreign_topic() {
    let other = TopicId { bytes: [2; 32] };
    let node = topic_node();
    let mut round = node.join(node.topic(), vec![TopicPeer::new(self::node(2))], 0).unwrap();
    assert_eq!(round.next(29_999).unwrap().node, self::node(2));
    let mut round = node.join(node.topic(), vec![TopicPeer::new(self::node(2))], 0).unwrap();
    assert!(round.next(30_000).is_none());
    // The node itself is never dialed.
    let mut round = node.join(node.topic(), vec![TopicPeer::new(node.node_id())], 0).unwrap();
    assert!(round.next(0).is_none());
    let e = node.join(other, vec![], 0).unwrap_err();
    assert!(e.join_text().contains(&other.hex()));
    let e = node.ticket("x", other, vec![], &vec![]).unwrap_err();
    assert_eq!(
        e.ticket_text("x"),
        format!(
            "topic name \"x\" derives to {} under this fabric, not the topic this node serves ({})",
            other.hex(),
            node.topic().hex()
        )
    );
    let mut cfg = TopicNodeConfig::new(other, node.me, 1, 1);
    cfg.protocols = vec![b"mine".to_vec(), b"gossip".to_vec()];
    assert_eq!(
        TopicNode::spawn_on(node.me, &vec![b"gossip".to_vec()], cfg).unwrap_err(),
        b"gossip".to_vec()
    );
}

#[test]
fn ticket_advertises_this_node_on_the_topic() {
    let mut node = topic_node();
    node.relay_url = Some("https://r".into());
    let known = Addr::V4 { ip: 0x0a00_0001, port: 5 };
    let bound = vec![
        Addr::V4 { ip: 0, port: 5 },
        Addr::V6 { ip: 0, port: 6, flow: 1, scope: 1 },
        Addr::V4 { ip: 0x0a00_0001, port: 5 },
    ];
    let ticket = node.ticket("ops", node.topic, vec![known], &bound).unwrap();
    assert_eq!(ticket.fabric, node.fabric_root);
    assert_eq!(ticket.name, "ops");
    assert_eq!(ticket.peers.len(), 1);
    assert_eq!(ticket.peers[0].node, node.me);
    assert_eq!(ticket.peers[0].relay_url.as_deref(), Some("https://r"));
    assert_eq!(
        ticket.peers[0].addrs,
        vec![
            known,
            Addr::V4 { ip: 0x7f00_0001, port: 5 },
            Addr::V6 { ip: 1, port: 6, flow: 0, scope: 0 },
        ]
    );
    assert_eq!(ticket_addrs(vec![known], &bound), ticket.peers[0].addrs);
}

#[test]
fn a_sender_refuses_a_foreign_envelope() {
    let sender = TopicSender { topic: TopicId { bytes: [1; 32] } };
    assert_eq!(sender.broadcast(&envelope(sender.topic)), Ok(vec![1, 2, 3]));
    let other = TopicId { bytes: [2; 32] };
    let e = sender.broadcast(&envelope(other)).unwrap_err();
    assert!(e.broadcast_text().contains(&other.hex()));
}

#[test]
fn bridge_survives_malformed_payload() {
    let step = bridge(GossipEvent::Received(None));
    assert!(step.forward.is_none() && !step.end);
    let step = bridge(GossipEvent::Received(Some(envelope(TopicId { bytes: [1; 32] }))));
    assert!(matches!(step.forward, Some(TopicEvent::Message(_))) && !step.end);
    let step = bridge(GossipEvent::Lagged);
    assert!(matches!(step.forward, Some(TopicEvent::Lagged)) && step.end);
    for last in [GossipEvent::Failed, GossipEvent::Ended] {
        let step = bridge(last);
        assert!(step.forward.is_none() && step.end);
    }
    assert!(matches!(
        bridge(GossipEvent::NeighborDown(node(2))).forward,
        Some(TopicEvent::NeighborDown(_))
    ));
}
