//! The topic log, the chain a node extends, the peers it remembers and the
//! lines it prints.

use wires::context::{Membership, TopicContext};
use wires::envelope::{
    hwm_value, log_key, parse_hwm_value, parse_log_key, parse_sender_key, ChainState,
    TopicEnvelope, HWM_VALUE_LEN, LOG_KEY_LEN,
};
use wires::ids::{MessageHash, NodeId, TopicId};
use wires::local::{
    append_local, current_fabric_key, next_link, plan_publish, publish_from_tail, KeyError, Link,
    LocalError, LockWait, PublishError,
};
use wires::order::{put_in_order, Order};
use wires::rekey::{Adoption, RekeyCatchUp};
use wires::peers::{peers_file, Addr, PeerBook, TopicPeer};
use wires::printer::{format_clock, short_id, Keyring, Opening, Parsed, Printer};
use wires::records::{AuditRecord, ChannelRecord, IdentityClaim};
use wires::start::{start_up, StartAction};
use wires::store::{AppendError, Appended, TopicStore};
use wires::topics::TopicSender;

const ZERO: MessageHash = MessageHash { bytes: [0; 32] };

fn topic() -> TopicId {
    TopicId { bytes: *blake3::hash(b"ops").as_bytes() }
}

fn alice() -> NodeId {
    NodeId { bytes: *blake3::hash(b"alice").as_bytes() }
}

fn bob() -> NodeId {
    NodeId { bytes: *blake3::hash(b"bob").as_bytes() }
}

/// One message of `topic` at `seq`, linked to `prev`: the same fields make the
/// same bytes and the same hash.
fn sealed_in(
    topic: TopicId,
    sender: NodeId,
    seq: u64,
    prev: MessageHash,
    timestamp: i64,
    text: &str,
) -> TopicEnvelope {
    let mut wire = Vec::new();
    wire.extend_from_slice(&topic.bytes);
    wire.extend_from_slice(&sender.bytes);
    wire.extend_from_slice(&seq.to_be_bytes());
    wire.extend_from_slice(&prev.bytes);
    wire.extend_from_slice(&timestamp.to_be_bytes());
    wire.extend_from_slice(text.as_bytes());
    TopicEnvelope {
        topic,
        sender,
        seq,
        prev_hash: prev,
        key_version: 1,
        timestamp,
        hash: MessageHash { bytes: *blake3::hash(&wire).as_bytes() },
        wire,
    }
}

fn sealed(sender: NodeId, seq: u64, prev: MessageHash, ts: i64, text: &str) -> TopicEnvelope {
    sealed_in(topic(), sender, seq, prev, ts, text)
}

/// A linked run of `count` messages from `sender`.
fn chain(sender: NodeId, count: u64, base_ts: i64) -> Vec<TopicEnvelope> {
    let mut prev = ZERO;
    let mut out = Vec::new();
    for i in 0..count {
        let env = sealed(sender, i, prev, base_ts + i as i64, &format!("message {i}"));
        prev = env.hash;
        out.push(env);
    }
    out
}

fn store() -> TopicStore {
    TopicStore::new(topic())
}

fn copies(list: &[TopicEnvelope]) -> Vec<TopicEnvelope> {
    list.iter().map(TopicEnvelope::copy).collect()
}

#[test]
fn a_fresh_database_reads_as_empty_everywhere() {
    let store = store();
    let who = alice();
    assert_eq!(store.chain_state(who), None);
    assert_eq!(store.hash_at(who, 0), None);
    assert!(store.read_after(who, None, 10).is_empty());
    assert!(store.senders().is_empty());
    assert!(store.hwm_all().is_empty());
    assert!(store.read_backfill(10).is_empty());
}

#[test]
fn append_inserts_once_and_is_idempotent_thereafter() {
    let mut store = store();
    let env = sealed(alice(), 0, ZERO, 100, "hello");
    assert_eq!(store.append(env.copy()), Ok(Appended::Inserted));
    assert_eq!(store.append(env.copy()), Ok(Appended::Duplicate));
    // The same message in the same slot again is also a duplicate.
    let resealed = sealed(alice(), 0, ZERO, 100, "hello");
    assert_eq!(resealed, env);
    assert_eq!(store.append(resealed), Ok(Appended::Duplicate));
    // One message, once.
    assert_eq!(store.read_after(alice(), None, 10), vec![env]);
}

#[test]
fn a_different_envelope_in_an_occupied_slot_is_a_fork() {
    let mut store = store();
    let held = sealed(alice(), 0, ZERO, 100, "hello");
    let rival = sealed(alice(), 0, ZERO, 100, "goodbye");
    let (held_hash, rival_hash) = (held.hash, rival.hash);
    store.append(held.copy()).unwrap();
    let e = store.append(rival).unwrap_err();
    assert_eq!(
        e,
        AppendError::Fork { sender: alice(), seq: 0, held: held_hash, offered: rival_hash }
    );
    let err = e.text();
    assert!(err.contains("fork"), "{err}");
    assert!(err.contains(&alice().hex()), "{err}");
    // The store keeps what it had; the fork is refused, not resolved.
    assert_eq!(store.hash_at(alice(), 0), Some(held_hash));
    assert_eq!(store.read_after(alice(), None, 10), vec![held]);
}

#[test]
fn the_mark_never_lags_the_log_and_hwm_all_agrees_with_chain_state() {
    let mut store = store();
    let from_alice = chain(alice(), 3, 100);
    let from_bob = chain(bob(), 2, 200);
    for env in from_alice.iter().chain(from_bob.iter()) {
        assert_eq!(store.append(env.copy()), Ok(Appended::Inserted));
        assert_eq!(
            store.chain_state(env.sender),
            Some(ChainState { seq: env.seq, hash: env.hash }),
            "mark lagged after appending seq {}",
            env.seq
        );
    }
    let all = store.hwm_all();
    assert_eq!(all.len(), 2);
    for (sender, state) in &all {
        assert_eq!(store.chain_state(*sender).as_ref(), Some(state));
    }
    let seq_of = |node: NodeId| all.iter().find(|(n, _)| *n == node).map(|(_, s)| s.seq);
    assert_eq!(seq_of(alice()), Some(2));
    assert_eq!(seq_of(bob()), Some(1));
}

#[test]
fn an_out_of_order_append_leaves_the_mark_behind_the_hole_and_filling_it_heals() {
    let mut store = store();
    let run = chain(alice(), 3, 100);
    store.append(run[0].copy()).unwrap();
    store.append(run[2].copy()).unwrap();
    assert_eq!(store.chain_state(alice()).unwrap().seq, 0);
    store.append(run[1].copy()).unwrap();
    assert_eq!(store.chain_state(alice()).unwrap().seq, 2);
}

#[test]
fn read_after_windows_the_senders_own_chain() {
    let mut store = store();
    let from_alice = chain(alice(), 5, 100);
    let from_bob = chain(bob(), 2, 100);
    for env in from_alice.iter().chain(from_bob.iter()) {
        store.append(env.copy()).unwrap();
    }
    let who = alice();
    // From genesis: this sender's chain only, in sequence order.
    assert_eq!(store.read_after(who, None, 10), from_alice);
    // Mid-chain: strictly after the presented mark.
    assert_eq!(store.read_after(who, Some(1), 10), copies(&from_alice[2..]));
    // Clamped to `limit`, from the front of the window.
    assert_eq!(store.read_after(who, None, 2), copies(&from_alice[..2]));
    assert_eq!(store.read_after(who, Some(2), 1), copies(&from_alice[3..4]));
    // Nothing left, an empty window, and the wire-supplied ceiling.
    assert!(store.read_after(who, Some(4), 10).is_empty());
    assert!(store.read_after(who, None, 0).is_empty());
    assert!(store.read_after(who, Some(u64::MAX), 10).is_empty());
}

#[test]
fn senders_lists_exactly_the_writers() {
    let mut store = store();
    for env in chain(alice(), 2, 100) {
        store.append(env).unwrap();
    }
    store.append(chain(bob(), 1, 100)[0].copy()).unwrap();
    let mut expected = vec![alice(), bob()];
    expected.sort();
    assert_eq!(store.senders(), expected);
    // A node that never published is not a sender.
    let stranger = NodeId { bytes: [4; 32] };
    assert!(!store.senders().contains(&stranger));
}

#[test]
fn backfill_merges_by_timestamp_then_sender_then_seq() {
    let mut store = store();
    // Alice at t=100 and t=300; Bob at t=100 (a tie with Alice) and t=200.
    let a0 = sealed(alice(), 0, ZERO, 100, "a0");
    let a1 = sealed(alice(), 1, a0.hash, 300, "a1");
    let b0 = sealed(bob(), 0, ZERO, 100, "b0");
    let b1 = sealed(bob(), 1, b0.hash, 200, "b1");
    for env in [&a1, &b1, &a0, &b0] {
        store.append(env.copy()).unwrap();
    }
    // The tie is broken by sender id, so two nodes holding the same messages
    // print the same transcript.
    let (tie_first, tie_second) =
        if alice() < bob() { (a0.copy(), b0.copy()) } else { (b0.copy(), a0.copy()) };
    let expected = vec![tie_first, tie_second, b1, a1];
    assert_eq!(store.read_backfill(10), expected);
    // "The newest `limit`", still in display order.
    assert_eq!(store.read_backfill(2), copies(&expected[2..]));
    assert!(store.read_backfill(0).is_empty());
}

#[test]
fn a_reopened_store_holds_everything_it_had() {
    let run = chain(alice(), 3, 100);
    let mut first = store();
    for env in &run {
        first.append(env.copy()).unwrap();
    }
    let rows = first.read_backfill(usize::MAX);
    let store = TopicStore::open(topic(), rows).unwrap();
    assert_eq!(store.topic(), topic());
    assert_eq!(TopicStore::db_path(topic()), format!("topics/{}.db", topic().hex()));
    assert_eq!(store.senders(), vec![alice()]);
    assert_eq!(
        store.chain_state(alice()),
        Some(ChainState { seq: 2, hash: run[2].hash })
    );
    assert_eq!(store.read_after(alice(), None, 10), run);
    assert_eq!(store.read_backfill(10), run);
    // And the messages are still the ones that were sealed, byte for byte.
    assert!(store.read_backfill(1)[0].wire.ends_with(b"message 2"));
}

#[test]
fn hash_at_hits_stored_slots_and_misses_empty_ones() {
    let mut store = store();
    let run = chain(alice(), 2, 100);
    for env in &run {
        store.append(env.copy()).unwrap();
    }
    assert_eq!(store.hash_at(alice(), 1), Some(run[1].hash));
    // Past the end, and a sender with no chain at all.
    assert_eq!(store.hash_at(alice(), 2), None);
    assert_eq!(store.hash_at(bob(), 0), None);
    // The hash is the chain link, not a hash of the storage encoding.
    assert_eq!(store.hash_at(alice(), 0), Some(run[1].prev_hash));
}

#[test]
fn an_envelope_for_another_topic_is_refused() {
    let mut store = store();
    let elsewhere = TopicId { bytes: *blake3::hash(b"other").as_bytes() };
    let env = sealed_in(elsewhere, alice(), 0, ZERO, 100, "hi");
    let e = store.append(env).unwrap_err();
    assert_eq!(e, AppendError::WrongTopic { envelope: elsewhere, log: topic() });
    assert!(e.text().contains(&elsewhere.hex()), "{}", e.text());
    assert!(store.senders().is_empty());
    let stray = sealed_in(elsewhere, alice(), 0, ZERO, 100, "hi");
    assert!(TopicStore::open(topic(), vec![stray]).is_err());
}

#[test]
fn log_keys_round_trip_and_sort_by_sender_then_seq() {
    for seed in [0u8, 1, 127, 255] {
        let sender = NodeId { bytes: [seed; 32] };
        for a in [0u64, 1, 255, 256, u64::MAX - 1, u64::MAX] {
            let key = log_key(sender, a);
            assert_eq!(parse_log_key(&key), Ok((sender, a)));
            for b in [0u64, 1, 255, 256, u64::MAX - 1, u64::MAX] {
                assert_eq!(key.cmp(&log_key(sender, b)), a.cmp(&b));
            }
        }
    }
}

#[test]
fn hwm_values_round_trip() {
    for seq in [0u64, 1, 1 << 40, u64::MAX] {
        let state = ChainState { seq, hash: MessageHash { bytes: [seq as u8; 32] } };
        assert_eq!(parse_hwm_value(&hwm_value(&state)), Ok(state));
    }
}

#[test]
fn wrong_width_records_error_and_never_panic() {
    for n in 0..96usize {
        let bytes = vec![7u8; n];
        assert_eq!(parse_log_key(&bytes).is_ok(), n == LOG_KEY_LEN);
        assert_eq!(parse_hwm_value(&bytes).is_ok(), n == HWM_VALUE_LEN);
        assert_eq!(parse_sender_key(&bytes).is_ok(), n == 32);
        if let Err(e) = parse_log_key(&bytes) {
            assert_eq!((e.len, e.expected), (n, LOG_KEY_LEN));
        }
    }
}

fn publish(store: &mut TopicStore, node: NodeId, text: &str, ts: i64) -> TopicEnvelope {
    let link = next_link(store, node).unwrap();
    let env = sealed(node, link.seq, link.prev_hash, ts, text);
    append_local(store, env.copy()).unwrap();
    env
}

#[test]
fn append_local_allocates_a_dense_chain() {
    let mut store = store();
    let me = alice();
    let first = publish(&mut store, me, "one", 1_000);
    let second = publish(&mut store, me, "two", 1_001);
    assert_eq!(first.seq, 0);
    assert_eq!(second.seq, 1);
    assert_eq!(first.prev_hash, ZERO, "genesis links to nothing");
    assert_eq!(second.prev_hash, first.hash);
    assert!(first.wire.ends_with(b"one"));
    // Both are in the log, and the chain state agrees with the last one.
    let state = store.chain_state(me).unwrap();
    assert_eq!(state.seq, 1);
    assert_eq!(state.hash, second.hash);
    assert_eq!(store.read_backfill(10), vec![first, second]);
}

#[test]
fn a_second_allocator_is_noticed() {
    let mut store = store();
    let env = publish(&mut store, alice(), "one", 1);
    let e = append_local(&mut store, env).unwrap_err();
    assert_eq!(e, LocalError::Raced { seq: 0 });
    assert!(e.text().contains("sequence 0 was already stored"), "{}", e.text());
    let e = append_local(&mut store, sealed(alice(), 0, ZERO, 1, "other")).unwrap_err();
    assert!(matches!(e, LocalError::Refused(AppendError::Fork { .. })));
    assert!(LocalError::Full.text().contains("full"));
    assert_eq!(next_link(&store, bob()), Ok(Link { seq: 0, prev_hash: ZERO }));
}

#[test]
fn publishing_refuses_a_superseded_fabric_key() {
    // A version 1 key under a version 1 head.
    assert_eq!(current_fabric_key(Some(1), Some(1)), Ok(1));
    // The root commits again; this node has the head but not yet the key.
    let err = current_fabric_key(Some(1), Some(2)).unwrap_err();
    assert_eq!(err, KeyError::Superseded { key: 1, head: 2 });
    let msg = err.text();
    assert!(
        msg.contains("superseded") && msg.contains("--fabric-key-file"),
        "the refusal must name the remedy: {msg}"
    );
    // The import it asked for makes publishing work again, with no restart.
    assert_eq!(current_fabric_key(Some(2), Some(2)), Ok(2));
    assert_eq!(current_fabric_key(None, Some(2)), Err(KeyError::NoKey));
    assert!(KeyError::NoKey.text().contains("no fabric key"));
}

#[test]
fn the_loop_stores_before_it_broadcasts() {
    let mut store = store();
    let sender = TopicSender { topic: topic() };
    let (version, link) = plan_publish(&store, alice(), Some(3), Some(3)).unwrap();
    assert_eq!((version, link.seq), (3, 0));
    let env = sealed(alice(), link.seq, link.prev_hash, 1, "one");
    assert_eq!(
        publish_from_tail(&mut store, &sender, env.copy()),
        Ok(Some(env.wire.clone()))
    );
    assert_eq!(
        publish_from_tail(&mut store, &sender, env.copy()),
        Err(LocalError::Raced { seq: 0 })
    );
    // A sender of another topic gets nothing, and the message is stored.
    let next = sealed(alice(), 1, env.hash, 2, "two");
    let elsewhere = TopicSender { topic: TopicId { bytes: [9; 32] } };
    assert_eq!(publish_from_tail(&mut store, &elsewhere, next), Ok(None));
    assert_eq!(store.chain_state(alice()).unwrap().seq, 1);
    let stale = plan_publish(&store, alice(), Some(1), Some(2)).unwrap_err();
    assert_eq!(stale, PublishError::Key(KeyError::Superseded { key: 1, head: 2 }));
    assert!(stale.text().contains("superseded"));
}

#[test]
fn a_claim_is_checked_for_the_human_line_only() {
    let claim = Some(Parsed {
        record: ChannelRecord::Identity(IdentityClaim { node: alice(), issuer: None }),
        json: "{}".into(),
    });
    assert!(Printer { json: false }.checks(true, &claim));
    assert!(!Printer { json: true }.checks(true, &claim));
    assert!(!Printer { json: false }.checks(false, &claim));
    assert!(!Printer { json: false }.checks(true, &None));
}

#[test]
fn a_lock_is_waited_out_once_with_a_word() {
    let mut wait = LockWait::new(1_000, 200);
    assert_eq!(wait.failed(1_000), Some(true));
    assert_eq!(wait.failed(1_100), Some(false));
    assert_eq!(wait.failed(1_200), None);
}

fn hinted(node: NodeId) -> TopicPeer {
    TopicPeer {
        node,
        addrs: vec![Addr::V4 { ip: 0x7f00_0001, port: 9 }],
        relay_url: None,
    }
}

#[test]
fn the_peer_book_unions_hints_and_survives_a_restart() {
    let node = bob();
    let mut book = PeerBook::new();
    assert!(book.list().is_empty());
    assert!(book.record(hinted(node)));
    assert!(!book.record(hinted(node)), "recording twice changes nothing");
    // A bare hint for a peer whose addresses are known must not erase them.
    assert!(!book.record(TopicPeer::new(node)));
    assert_eq!(book.list(), vec![hinted(node)]);
    // A second peer, learned live, joins the file.
    let live = NodeId { bytes: [3; 32] };
    assert!(book.record(TopicPeer::new(live)));
    let reopened = PeerBook::open(Some(book.list()));
    let mut expected = vec![hinted(node), TopicPeer::new(live)];
    expected.sort_by_key(|p| p.node);
    assert_eq!(reopened.list(), expected);
    assert_eq!(peers_file(&topic()), format!("{}.peers.json", topic().hex()));
    assert!(book.knows_another(&live));
    assert_eq!(book.hint(node), hinted(node));
    assert_eq!(book.hint(alice()), TopicPeer::new(alice()));
}

#[test]
fn a_corrupt_peer_file_is_ignored_rather_than_fatal() {
    let parsed: Option<Vec<serde_json::Value>> = serde_json::from_str("{not json").ok();
    assert!(PeerBook::open(parsed.map(|_| vec![hinted(bob())])).list().is_empty());
    assert!(PeerBook::open(None).list().is_empty());
}

#[test]
fn a_start_prints_saves_binds_and_joins_in_order() {
    let mut log = store();
    for env in &chain(alice(), 3, 100) {
        log.append(env.copy()).unwrap();
    }
    let ctx = |ticket_peers| TopicContext {
        node: bob(),
        membership: Membership { fabric: alice(), member: bob(), not_after: 9 },
        inclusion: "proof".into(),
        head: 1,
        name: "ops".into(),
        fabric_root: alice(),
        ticket_peers,
        relay_url: Some("https://r".into()),
    };
    let mut book = PeerBook::open(None);
    let session = Some(b"session".to_vec());
    let tickets = ctx(vec![hinted(alice())]);
    let actions = start_up(&tickets, topic(), &log, 2, &mut book, session, 30_000, 200);
    assert_eq!(actions.len(), 7);
    assert!(matches!(&actions[0], StartAction::Show(e) if e.seq == 1));
    assert!(matches!(&actions[1], StartAction::Show(e) if e.seq == 2));
    assert!(matches!(actions[2], StartAction::SaveBook));
    let StartAction::Bind(config) = &actions[3] else {
        panic!("expected the bind");
    };
    assert_eq!((config.topic, config.fabric_root), (topic(), alice()));
    assert_eq!(config.protocols, vec![b"session".to_vec()]);
    assert_eq!(config.relay_url.as_deref(), Some("https://r"));
    assert!(matches!(actions[4], StartAction::Banner));
    assert!(matches!(actions[5], StartAction::OpenSocket));
    assert!(matches!(&actions[6], StartAction::Join(peers) if *peers == vec![hinted(alice())]));
    // What the book knows already is not written again, and a plain watch carries
    // no session.
    let actions = start_up(&tickets, topic(), &log, 0, &mut book, None, 1, 1);
    assert_eq!(actions.len(), 4);
    assert!(matches!(&actions[0], StartAction::Bind(c) if c.protocols.is_empty()));
}

#[test]
fn recording_many_reports_any_change() {
    let mut book = PeerBook::new();
    assert!(book.record_all(&vec![hinted(alice()), hinted(bob())]));
    assert!(!book.record_all(&vec![hinted(alice()), TopicPeer::new(bob())]));
    let moved = TopicPeer {
        node: bob(),
        addrs: vec![Addr::V6 { ip: 1, port: 7, flow: 0, scope: 0 }],
        relay_url: Some("https://r".into()),
    };
    assert!(book.record_all(&vec![hinted(alice()), moved.copy()]));
    assert!(book.hint(bob()).same(&moved));
}

#[test]
fn a_message_line_has_a_fixed_shape() {
    let me = alice();
    // 01:02:05 UTC, fixed, so the line is byte-comparable.
    let envelope = sealed(me, 0, ZERO, 3_725, "ship it");
    let printer = Printer { json: false };
    assert_eq!(
        printer.render(&envelope, "ship it", &None),
        format!("01:02:05 {} ship it", &me.hex()[..8])
    );
    // The clock is dateless and wraps by day; a pre-epoch timestamp still
    // renders rather than panicking.
    assert_eq!(format_clock(0), "00:00:00");
    assert_eq!(format_clock(86_399), "23:59:59");
    assert_eq!(format_clock(86_400 + 61), "00:01:01");
    assert_eq!(format_clock(-1), "23:59:59");
    assert_eq!(short_id(me), me.hex()[..8]);
}

#[test]
fn the_json_line_carries_the_documented_fields() {
    let me = alice();
    let envelope = sealed(me, 0, ZERO, 1_700_000_000, "ship it");
    let line = Printer { json: true }.render(&envelope, "ship it", &None);
    let value: serde_json::Value = serde_json::from_str(&line).unwrap();
    assert_eq!(value["ts"], 1_700_000_000i64);
    assert_eq!(value["sender"], me.hex());
    assert_eq!(value["seq"], 0);
    assert_eq!(value["text"], "ship it");
    assert!(value.get("record").is_none(), "plain text carries no record");
    // One line, so one object a line stays that.
    assert!(!line.contains('\n'));
    // Whatever the text holds, it is one line and reads back.
    let odd = "a\"b\\c\n\r\t\u{8}\u{c}\u{1b}\u{0}é\u{2028}😀";
    let line = Printer { json: true }.render(&envelope, odd, &None);
    assert!(!line.contains('\n'));
    let value: serde_json::Value = serde_json::from_str(&line).unwrap();
    assert_eq!(value["text"], odd);
}

#[test]
fn a_record_renders_as_its_record_line_and_json_object() {
    let me = alice();
    let parsed = || {
        Some(Parsed {
            record: ChannelRecord::Audit(AuditRecord::Denied {
                caller: me,
                tool: None,
                reason: "roster inclusion rejected: revoked".into(),
            }),
            json: r#"{"type":"audit","kind":"denied","reason":"roster inclusion rejected: revoked"}"#
                .to_string(),
        })
    };
    let envelope = sealed(me, 0, ZERO, 3_725, "record");
    let short = &me.hex()[..8];
    assert_eq!(
        Printer { json: false }.render(&envelope, "record", &parsed()),
        format!(
            "01:02:05 {short} ✗ {}… denied: roster inclusion rejected: revoked",
            &short[..4]
        )
    );
    let line = Printer { json: true }.render(&envelope, "record", &parsed());
    let value: serde_json::Value = serde_json::from_str(&line).unwrap();
    assert!(value.get("text").is_none(), "a record replaces the text");
    assert_eq!(value["record"]["type"], "audit");
    assert_eq!(value["record"]["kind"], "denied");
    assert_eq!(
        value["record"],
        serde_json::from_str::<serde_json::Value>(&parsed().unwrap().json).unwrap()
    );
}

#[test]
fn an_unknown_key_version_warns_once_and_heals_on_import() {
    // A keyring with no key at all: the message is stored, not shown.
    let mut keyring = Keyring::load(vec![]);
    assert_eq!(keyring.open(1, Some(vec![])), Opening::Warn);
    assert_eq!(
        keyring.open(1, Some(vec![])),
        Opening::Silent,
        "one warning per version, not per message"
    );
    // The key arrives; the next message opens without a restart.
    assert_eq!(keyring.open(1, Some(vec![(1, [9; 32])])), Opening::Key([9; 32]));
    assert!(keyring.holds(1));
    // A keyring that cannot be read leaves the keys it has.
    assert_eq!(keyring.open(1, None), Opening::Key([9; 32]));
    assert_eq!(keyring.open(2, None), Opening::Warn);
}

#[test]
fn both_orders_sort_what_came_in() {
    let a = chain(alice(), 2, 100);
    let b = chain(bob(), 2, 50);
    let mut all = copies(&a);
    all.extend(copies(&b));
    let shown = put_in_order(Order::Display, &all);
    let times: Vec<i64> = shown.iter().map(|e| e.timestamp).collect();
    assert_eq!(times, vec![50, 51, 100, 101]);
    // Re-keys go by key version first.
    all[0].key_version = 9;
    let keyed = put_in_order(Order::Rekey, &all);
    let versions: Vec<(u64, i64)> = keyed.iter().map(|e| (e.key_version, e.timestamp)).collect();
    assert_eq!(versions, vec![(1, 50), (1, 51), (1, 101), (9, 100)]);
    // Of two that tie, the earlier one in the list stays first.
    let tied = vec![sealed(bob(), 0, ZERO, 5, "b"), sealed(alice(), 0, ZERO, 5, "a")];
    assert_eq!(put_in_order(Order::Rekey, &tied), tied);
}

#[test]
fn a_catch_up_looks_at_older_commits_first_and_counts_its_own_parts() {
    let mut all = chain(alice(), 3, 100);
    all[0].key_version = 9;
    let mut pass = RekeyCatchUp::start(Ok(copies(&all)));
    let adopted = |own| Some(Adoption { version: 1, head_advanced: false, own, superseded: false });
    let mut times = Vec::new();
    for found in [adopted(true), None, adopted(false)] {
        times.push(pass.next().unwrap().timestamp);
        pass.looked_at(found);
    }
    assert_eq!(times, vec![101, 102, 100]);
    assert!(pass.next().is_none());
    assert_eq!(pass.adopted(), 1);
    // A catch-up that failed brought nothing.
    let mut none = RekeyCatchUp::start(Err("no peer".into()));
    assert!(none.next().is_none());
    assert_eq!(none.adopted(), 0);
}
