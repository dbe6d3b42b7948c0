//! The directory: its store, its answers, its subscribers, its peers and its
//! frames.

use wires::commands::{
    check_keystore, edit_in, is_edit, open_standalone, DirectoryCmd, Edited, KeystoreFound,
    StandaloneError,
};
use wires::db::{item_key, store_newer, DirectoryDb, Fresh, KEEP_HEADS};
use wires::directory::{
    seed, Answer, Checked, Directory, OpenError, Request, Settings, Since, MAX_UNDECIDED,
    NOT_ADMITTED, NOT_YET,
};
use wires::feeds::{
    FeedStep, FrameCache, FrameKey, LastView, PolicyFeed, ReplicaFeed, Slots, SubFrame, ViewFeed,
    ViewStep, CACHED_FRAMES, NO_LONGER,
};
use wires::ids::NodeId;
use wires::policy::{Head, Item, SignedPolicy};
use wires::serve::{
    beat_pause, follow_frame, peers, replicate, Backoff, Exchange, Follower, PeerFrame,
    RequestAction, RequestEvent, RequestRead, SubAction, SubEvent, SubRead, Subscription,
    SubscriptionKind,
};
use wires::wire::{ending, next_read, too_long_text, Ending, FrameKind, NextRead};

fn node(seed: u8) -> NodeId {
    NodeId { bytes: [seed; 32] }
}

const ME: u8 = 40;
const ROOT: u8 = 1;

fn item(key: &str, json: &str) -> Item {
    Item { key: key.into(), json: json.as_bytes().to_vec() }
}

/// Version `v`, banning node `b` for each `b` in `bans`, beside one item that
/// all versions share, with the items in the order of their keys.
fn listed(v: u64, bans: &[u8], directories: &[u8]) -> SignedPolicy {
    let mut items: Vec<Item> = bans
        .iter()
        .map(|b| item(&format!("ban:{:02x}", b), &format!("{{\"ban\":{b}}}")))
        .collect();
    items.push(item("settings:", "{\"settings\":{}}"));
    items.sort_by(|a, b| a.key.cmp(&b.key));
    SignedPolicy {
        head: Head {
            version: v,
            directories: directories.iter().map(|d| node(*d)).collect(),
            json: format!("{{\"version\":{v}}}").into_bytes(),
        },
        items,
    }
}

fn signed(v: u64, bans: &[u8]) -> SignedPolicy {
    listed(v, bans, &[])
}

fn same(a: &SignedPolicy, b: &SignedPolicy) -> bool {
    a.head.version == b.head.version
        && a.head.directories == b.head.directories
        && a.head.json == b.head.json
        && a.items.len() == b.items.len()
        && a.items.iter().zip(&b.items).all(|(x, y)| x.same(y))
}

fn good() -> Checked {
    banning(&[])
}

/// A policy that verified, and bans these nodes.
fn banning(bans: &[u8]) -> Checked {
    let bans = bans.iter().map(|b| node(*b)).collect();
    Checked::Good(Settings { fresh_secs: 900, beat_secs: 300, bans })
}

/// Save a store as its rows and load it back.
fn restart(db: &DirectoryDb) -> DirectoryDb {
    let heads = db
        .heads()
        .iter()
        .map(|r| wires::db::HeadRecord {
            head: r.head.copy(),
            items: r.items.clone(),
        })
        .collect();
    DirectoryDb::from_rows(heads, db.item_rows(), db.current_index(), db.fresh()).unwrap()
}

#[test]
fn an_empty_store_holds_nothing() {
    let db = DirectoryDb::new();
    assert_eq!(db.version(), 0);
    assert!(db.current().unwrap().is_none());
    assert!(db.fresh().is_none());
    assert!(db.kept().is_empty());
}

#[test]
fn stores_only_newer_heads_and_reloads_them() {
    let mut first = DirectoryDb::new();
    assert!(first.store(&signed(2, &[5])));
    assert!(!first.store(&signed(2, &[6])));
    assert!(!first.store(&signed(1, &[])));
    assert!(same(&first.current().unwrap().unwrap(), &signed(2, &[5])));
    // A restart reads back the same head and items.
    let db = restart(&first);
    assert_eq!(db.version(), 2);
    let back = db.current().unwrap().unwrap();
    assert!(same(&back, &signed(2, &[5])));
    let index = db.current_index();
    assert_eq!(index.len(), back.items.len());
    assert!(index.windows(2).all(|w| w[0].0 < w[1].0));
    for (key, hash) in &index {
        let item = back.items.iter().find(|i| i.key == *key).unwrap();
        assert_eq!(*hash, item_key(item));
    }
}

#[test]
fn keeps_the_last_heads_and_collects_their_items() {
    let mut db = DirectoryDb::new();
    for v in 1..=(KEEP_HEADS as u64 + 4) {
        // Each version bans a node of its own: one new item per head.
        store_newer(&mut db, &signed(v, &[v as u8])).unwrap();
    }
    let kept = db.kept();
    assert_eq!(kept.len(), KEEP_HEADS);
    assert_eq!(kept[0], 5);
    assert!(db.policy_at(4).unwrap().is_none());
    assert!(same(&db.policy_at(5).unwrap().unwrap(), &signed(5, &[5])));
    // One ban item per kept head, plus the one settings item they share.
    assert_eq!(db.item_count(), KEEP_HEADS + 1);
    assert_eq!(
        store_newer(&mut db, &signed(3, &[])).unwrap_err(),
        "version 3 is not newer"
    );
}

#[test]
fn the_latest_fresh_survives_a_restart() {
    let mut db = DirectoryDb::new();
    db.store(&listed(1, &[], &[30]));
    let fresh = Fresh { directory: node(30), version: 1, at: 10, until: 20 };
    db.set_fresh(fresh);
    assert_eq!(restart(&db).fresh(), Some(fresh));
}

#[test]
fn any_arrival_order_ends_at_the_newest() {
    for order in [[1u64, 2, 3, 4, 5, 6], [6, 5, 4, 3, 2, 1], [3, 6, 1, 5, 2, 4]] {
        let mut db = DirectoryDb::new();
        for v in order {
            db.store(&signed(v, &[v as u8]));
        }
        assert_eq!(db.version(), 6);
        assert!(same(&db.current().unwrap().unwrap(), &signed(6, &[6])));
    }
}

#[test]
fn an_item_is_kept_under_its_hash() {
    let i = item("a:b", "{\"x\":1}");
    assert_eq!(item_key(&i), blake3::hash(&i.json).to_hex().to_string());
    assert_ne!(item_key(&i), item_key(&item("a:b", "{\"x\":2}")));
}

#[test]
fn rows_that_were_never_stored_are_refused() {
    let record = |v: u64| wires::db::HeadRecord {
        head: signed(v, &[]).head,
        items: vec!["gone".into()],
    };
    assert!(DirectoryDb::from_rows(vec![record(2), record(1)], vec![], vec![], None).is_none());
    assert!(DirectoryDb::from_rows(vec![record(0)], vec![], vec![], None).is_none());
    let many = (1..=17).map(record).collect();
    assert!(DirectoryDb::from_rows(many, vec![], vec![], None).is_none());
    // A head that names an item that is not there cannot be read.
    let db = DirectoryDb::from_rows(vec![record(1)], vec![], vec![], None).unwrap();
    let lacks = db.current().unwrap_err();
    assert_eq!(lacks.text(), "directory.redb lacks item gone");
    let e = Directory::open(node(ME), node(ROOT), db, Err("x".into()), 4, 0).unwrap_err();
    assert!(matches!(e, OpenError::Lacks(ref lacks) if lacks.key == "gone"));
    assert_eq!(e.text(), "directory.redb lacks item gone");
}

/// Versions 1..=`n`, each banning one more node.
fn versions(n: u64) -> Vec<SignedPolicy> {
    (1..=n)
        .map(|v| {
            let bans: Vec<u8> = (0..v).map(|b| 100 + b as u8).collect();
            listed(v, &bans, &[ME])
        })
        .collect()
}

fn empty() -> Directory {
    Directory::open(node(ME), node(ROOT), DirectoryDb::new(), Err(String::new()), 4, 0).unwrap()
}

/// A directory that took every one of `policies`, in order.
fn directory(policies: &[SignedPolicy]) -> Directory {
    let mut dir = empty();
    for p in policies {
        assert_eq!(dir.accept(p, &good(), 0), Ok(true));
    }
    dir
}

fn ask(dir: &mut Directory, have: u64) -> Answer {
    dir.answer(Request::Policy { have }, 0)
}

#[test]
fn a_policy_request_gets_a_delta_from_a_kept_head() {
    let all = versions(3);
    let mut dir = directory(&all);
    assert!(matches!(ask(&mut dir, 0), Answer::Policy { policy, .. } if same(&policy, &all[2])));
    let Answer::PolicyUpdate { update, fresh } = ask(&mut dir, 1) else {
        panic!("expected a policy_update");
    };
    assert!(same(&all[0].apply(&update), &all[2]));
    assert_eq!((fresh.version, fresh.directory), (3, node(ME)));
    assert!(matches!(ask(&mut dir, 3), Answer::Current { .. }));
    // Newer than the directory's own: nothing to send.
    assert!(matches!(ask(&mut dir, 9), Answer::Current { .. }));
}

#[test]
fn a_head_no_longer_kept_gets_the_whole_policy() {
    let n = KEEP_HEADS as u64 + 2;
    let all = versions(n);
    let mut dir = directory(&all);
    assert!(matches!(ask(&mut dir, 1), Answer::Policy { .. }));
    assert!(matches!(ask(&mut dir, n - 1), Answer::PolicyUpdate { .. }));
}

#[test]
fn what_since_sends_always_reaches_the_newest() {
    for n in 1..6u64 {
        let all = versions(n);
        let dir = directory(&all);
        for have in 0..8u64 {
            match dir.since(have) {
                Since::Current => assert!(have >= n),
                Since::Whole => assert_eq!(have, 0),
                Since::Update(update) => {
                    let held = &all[have as usize - 1];
                    assert!(same(&held.apply(&update), &all[n as usize - 1]));
                }
            }
        }
    }
    // A holder of a version that was never taken is sent the whole policy, and so is
    // one of a kept head whose items are lost.
    let mut dir = directory(&versions(3));
    dir.accept(&versions(9)[8], &good(), 0).unwrap();
    assert!(matches!(dir.since(7), Since::Whole));
    assert!(matches!(dir.since(2), Since::Update(_)));
    let lost = wires::db::HeadRecord { head: signed(1, &[]).head, items: vec!["gone".into()] };
    let mut db = DirectoryDb::from_rows(vec![lost], vec![], vec![], None).unwrap();
    assert!(db.store(&versions(2)[1]));
    let settings = Settings { fresh_secs: 900, beat_secs: 300, bans: vec![] };
    let dir = Directory::open(node(ME), node(ROOT), db, Ok(settings), 4, 0).unwrap();
    assert!(dir.keeps(1));
    assert!(matches!(dir.since(1), Since::Whole));
    assert!(matches!(dir.since(2), Since::Current));
    // Items that change and go away are carried, too.
    let mut old = versions(1).remove(0);
    old.items.push(item("zone:a", "1"));
    old.items.push(item("zone:b", "1"));
    let mut new = versions(2).remove(1);
    new.items.push(item("zone:b", "2"));
    let update = new.update_from(&old);
    assert_eq!(update.removed, vec!["zone:a".to_string()]);
    assert_eq!(update.changed.len(), 2);
    assert!(same(&old.apply(&update), &new));
}

#[test]
fn subscribers_at_one_version_share_one_encoded_frame() {
    let all = versions(3);
    let dir = directory(&all);
    let mut cache = FrameCache::new();
    let mut a = PolicyFeed { sent: 1 };
    let FeedStep::Send { frame: SubFrame::PolicyUpdate { update, .. }, key: Some(key) } =
        a.step(&dir, &cache)
    else {
        panic!("expected a policy_update");
    };
    assert_eq!(a.sent, 3);
    assert!(same(&all[0].apply(&update), &all[2]));
    cache.keep(key, b"encoded".to_vec());
    let mut b = PolicyFeed { sent: 1 };
    let FeedStep::Ready { bytes } = b.step(&dir, &cache) else {
        panic!("expected the bytes encoded before");
    };
    assert_eq!((bytes, b.sent), (b"encoded".to_vec(), 3));
    // At the head: a beat. Ahead of it: nothing.
    assert!(matches!(
        PolicyFeed { sent: 3 }.step(&dir, &cache),
        FeedStep::Send { frame: SubFrame::Fresh { .. }, .. }
    ));
    assert!(matches!(PolicyFeed { sent: 4 }.step(&dir, &cache), FeedStep::Wait));
}

#[test]
fn the_frame_cache_keeps_the_newest_few() {
    let key = |n: u64| FrameKey { have: n, head: 99, at: 0 };
    let mut cache = FrameCache::new();
    for n in 0..CACHED_FRAMES as u64 {
        cache.keep(key(n), vec![n as u8]);
    }
    // Kept again, it is the newest; one more pushes the oldest out.
    cache.keep(key(0), vec![77]);
    cache.keep(key(50), vec![50]);
    assert_eq!(cache.find(key(0)), Some(vec![77]));
    assert_eq!(cache.find(key(1)), None);
    assert_eq!(cache.find(key(2)), Some(vec![2]));
    assert_eq!(cache.find(key(50)), Some(vec![50]));
}

#[test]
fn a_restarted_directory_serves_the_same_head_and_a_new_fresh() {
    let all = versions(2);
    let now = 1_000;
    let mut first = empty();
    first.accept(&all[1], &good(), now).unwrap();
    let fresh = first.fresh().unwrap();
    assert_eq!((fresh.at, fresh.until), (now, now + 900));
    let later = now + 60;
    let db = restart(first.db());
    let settings = Ok(Settings { fresh_secs: 900, beat_secs: 300, bans: vec![] });
    let mut dir = Directory::open(node(ME), node(ROOT), db, settings, 8, later).unwrap();
    assert!(same(&dir.held().unwrap().policy, &all[1]));
    let renewed = dir.fresh().unwrap();
    assert_ne!(renewed, fresh);
    assert_eq!(renewed.at, later);
    // The answer to `head` carries it.
    let Answer::Head { head, fresh } = dir.answer(Request::Head, later) else {
        panic!("expected a head");
    };
    assert_eq!((head.version, fresh), (2, renewed));
    // A beat signs yet another.
    dir.beat(later + 300);
    assert_eq!(dir.fresh().unwrap().at, later + 300);
    assert_eq!(dir.db().fresh(), dir.fresh());
    // A store whose policy fails does not open.
    let e = Directory::open(node(ME), node(ROOT), restart(dir.db()), Err("bad".into()), 8, 0)
        .unwrap_err();
    assert_eq!(e.text(), "directory.redb holds a policy that fails: bad");
}

#[test]
fn a_node_opens_on_its_own_newer_policy() {
    let all = versions(3);
    let mut db = DirectoryDb::new();
    seed(&mut db, &None);
    assert_eq!(db.version(), 0);
    seed(&mut db, &Some((all[1].copy(), false)));
    assert_eq!(db.version(), 0, "an expired one is left");
    seed(&mut db, &Some((all[1].copy(), true)));
    assert_eq!(db.version(), 2);
    seed(&mut db, &Some((all[0].copy(), true)));
    assert_eq!(db.version(), 2);
}

#[test]
fn tampered_mixed_and_older_policies_are_refused() {
    let all = versions(2);
    let mut dir = empty();
    assert_eq!(dir.accept(&all[1], &good(), 0), Ok(true));
    let tampered = Checked::Failed("the items are not what the head commits to".into());
    let e = dir.accept(&all[1], &tampered, 0).unwrap_err();
    assert!(e.contains("commits to"), "{e}");
    assert_eq!(
        dir.accept(&all[1], &Checked::Expired("at 5".into()), 0),
        Err("the published policy has expired: at 5".into())
    );
    // An older head: verified, but not adopted.
    assert_eq!(dir.accept(&all[0], &good(), 0), Ok(false));
    // Answered as a publish: the version held, not the one offered.
    let publish = Request::Publish { policy: all[0].copy(), checked: good() };
    assert!(matches!(dir.answer(publish, 0), Answer::Published { version: 2 }));
    let publish = Request::Publish {
        policy: all[1].copy(),
        checked: Checked::Failed("forged".into()),
    };
    assert!(matches!(
        dir.answer(publish, 0),
        Answer::Denied { reason } if reason == "the published policy was refused: forged"
    ));
    assert_eq!(dir.version(), 2);
    assert_eq!(dir.accepted(), 1);
}

#[test]
fn a_directory_the_head_does_not_list_vouches_for_nothing() {
    let mut dir = empty();
    assert!(matches!(
        dir.answer(Request::Head, 0),
        Answer::Denied { reason } if reason == "this directory holds no policy yet"
    ));
    dir.accept(&listed(7, &[], &[9]), &good(), 0).unwrap();
    assert!(dir.fresh().is_none());
    let denied = "this node is not a directory of the policy it holds (version 7)";
    assert!(matches!(
        dir.answer(Request::Head, 0),
        Answer::Denied { reason } if reason == denied
    ));
    assert!(matches!(ask(&mut dir, 0), Answer::Denied { reason } if reason == denied));
    let view = || signed(7, &[]);
    for request in [
        Request::View { have: 0, newest: view(), then: None },
        Request::Resolve { name: "settings:".into(), newest: view() },
    ] {
        assert!(matches!(
            dir.answer(request, 0),
            Answer::Denied { reason } if reason == denied
        ));
    }
    assert!(matches!(
        dir.answer(Request::Slice, 0),
        Answer::Denied { reason } if reason == NOT_YET
    ));
    assert_eq!(
        NOT_YET,
        "this directory does not serve slices, views or resolve yet (cards 36c, 37); ask for `policy`"
    );
    assert!(matches!(
        dir.answer(Request::Hello, 0),
        Answer::Denied { reason } if reason == "a second hello"
    ));
    // The last moment there is bounds a freshness.
    let mut far = empty();
    far.accept(&versions(1)[0], &good(), i64::MAX - 1).unwrap();
    assert_eq!(far.fresh().unwrap().until, i64::MAX);
}

/// A stream that was just opened.
fn opened() -> Exchange {
    Exchange::start(node(7), &mut Slots::new(16)).unwrap()
}

/// A stream that came as far as its request.
fn admitted(dir: &mut Directory) -> Exchange {
    let mut stream = opened();
    let hello = RequestEvent::Read(RequestRead::Got(Request::Hello));
    assert!(matches!(stream.one_request(dir, hello, 0), RequestAction::Check));
    assert!(matches!(
        stream.one_request(dir, RequestEvent::Verdict(Ok(())), 0),
        RequestAction::Read
    ));
    stream
}

#[test]
fn strangers_and_banned_nodes_hear_only_not_a_member() {
    let mut dir = directory(&versions(1));
    let hears = |action: RequestAction| match action {
        RequestAction::Reply { answer: Answer::Denied { reason }, detail } => {
            assert_eq!(reason, NOT_ADMITTED);
            detail.unwrap()
        }
        other => panic!("expected a refusal, got {other:?}"),
    };
    // A badge from another root: the detail stays here.
    let why = dir.admission(node(7), &Err("another root".into())).unwrap_err();
    assert_eq!(why, format!("{}… is not admitted: another root", &node(7).hex()[..8]));
    let hello = || RequestEvent::Read(RequestRead::Got(Request::Hello));
    let mut stream = opened();
    stream.one_request(&mut dir, hello(), 0);
    let foreign = RequestEvent::Verdict(Err("another root".into()));
    assert_eq!(hears(stream.one_request(&mut dir, foreign, 0)), why);
    // A ban is in force as soon as the policy is taken, with the badge as good as
    // before.
    assert!(dir.admission(node(7), &Ok(())).is_ok());
    dir.accept(&versions(2)[1], &banning(&[8, 7]), 0).unwrap();
    let why = format!("{}… is not admitted: the policy bans it", &node(7).hex()[..8]);
    assert_eq!(dir.admission(node(7), &Ok(())), Err(why.clone()));
    let mut stream = opened();
    stream.one_request(&mut dir, hello(), 0);
    assert_eq!(hears(stream.one_request(&mut dir, RequestEvent::Verdict(Ok(())), 0)), why);
    assert!(dir.admission(node(9), &Ok(())).is_ok());
    assert!(empty().admission(node(7), &Ok(())).is_ok());
    dir.accept(&versions(3)[2], &good(), 0).unwrap();
    // No hello, or nothing that reads.
    let first = RequestEvent::Read(RequestRead::Got(Request::Head));
    assert_eq!(hears(opened().one_request(&mut dir, first, 0)), "expected a hello");
    let first = RequestEvent::Read(RequestRead::Unreadable("bad frame".into()));
    assert_eq!(hears(opened().one_request(&mut dir, first, 0)), "bad frame");
    // A member is answered, once.
    let mut stream = admitted(&mut dir);
    let head = || RequestEvent::Read(RequestRead::Got(Request::Head));
    assert!(matches!(
        stream.one_request(&mut dir, head(), 0),
        RequestAction::Reply { answer: Answer::Head { .. }, detail: None }
    ));
    assert!(matches!(stream.one_request(&mut dir, head(), 0), RequestAction::End));
    let mut stream = admitted(&mut dir);
    let torn = RequestEvent::Read(RequestRead::Unreadable("torn".into()));
    assert!(matches!(stream.one_request(&mut dir, torn, 0), RequestAction::End));
}

struct Served {
    dir: Directory,
    cache: FrameCache,
    waiting: Slots,
    subscribers: Slots,
}

impl Served {
    fn new(dir: Directory, cap: usize) -> Served {
        Served {
            dir,
            cache: FrameCache::new(),
            waiting: Slots::new(16),
            subscribers: Slots::new(cap),
        }
    }

    fn step(&mut self, stream: &mut Subscription, event: SubEvent) -> SubAction {
        stream.step(&self.dir, &self.cache, &mut self.waiting, &mut self.subscribers, event)
    }

    fn subscribe(&mut self, caller: u8, kind: SubscriptionKind, have: u64) -> (Subscription, SubAction) {
        let mut stream = Subscription::start(node(caller), &mut self.waiting).unwrap();
        assert!(matches!(
            self.step(&mut stream, SubEvent::Read(SubRead::Hello)),
            SubAction::Check
        ));
        assert!(matches!(self.step(&mut stream, SubEvent::Verdict(Ok(()))), SubAction::Read));
        let action = self.step(&mut stream, SubEvent::Read(SubRead::Subscribe { kind, have }));
        (stream, action)
    }
}

fn reason(action: SubAction) -> String {
    match action {
        SubAction::Deny { reason, .. } => reason,
        other => panic!("expected a refusal, got {other:?}"),
    }
}

#[test]
fn a_host_follows_the_policy() {
    let all = versions(4);
    let mut served = Served::new(directory(&all[..2]), 1);
    let (mut host, action) = served.subscribe(7, SubscriptionKind::Policy, 0);
    assert!(matches!(
        action,
        SubAction::Send { frame: SubFrame::Policy { policy, .. }, key: Some(_) } if same(&policy, &all[1])
    ));
    served.dir.accept(&all[2], &good(), 5).unwrap();
    let SubAction::Send { frame: SubFrame::PolicyUpdate { update, .. }, .. } =
        served.step(&mut host, SubEvent::Changed)
    else {
        panic!("expected a policy_update");
    };
    assert!(same(&all[1].apply(&update), &all[2]));
    served.dir.beat(6);
    assert!(matches!(
        served.step(&mut host, SubEvent::Changed),
        SubAction::Send { frame: SubFrame::Fresh { .. }, .. }
    ));
    // The cap is reached until the host goes away.
    let (_, action) = served.subscribe(8, SubscriptionKind::Policy, 0);
    assert_eq!(reason(action), "this directory's subscriber cap (1) is reached");
    assert!(matches!(served.step(&mut host, SubEvent::Closed), SubAction::End));
    let (mut next, action) = served.subscribe(8, SubscriptionKind::Policy, 3);
    assert!(matches!(action, SubAction::Send { frame: SubFrame::Fresh { .. }, .. }));
    // A directory that is no longer one says so and ends.
    served.dir.accept(&listed(9, &[], &[5]), &good(), 7).unwrap();
    assert_eq!(reason(served.step(&mut next, SubEvent::Changed)), NO_LONGER);
    assert!(served.subscribers.any_left());
}

#[test]
fn a_replica_must_be_listed() {
    let mut served = Served::new(directory(&versions(1)), 4);
    let (_, action) = served.subscribe(5, SubscriptionKind::Replica, 0);
    assert_eq!(
        reason(action),
        "only a directory the policy lists may follow it as a replica"
    );
    served.dir.accept(&listed(2, &[], &[ME, 5]), &good(), 0).unwrap();
    let (mut peer, action) = served.subscribe(5, SubscriptionKind::Replica, 1);
    assert!(matches!(
        action,
        SubAction::Send { frame: SubFrame::Policy { policy, .. }, key: None } if policy.version() == 2
    ));
    assert!(matches!(
        served.step(&mut peer, SubEvent::Changed),
        SubAction::Send { frame: SubFrame::Fresh { .. }, key: None }
    ));
    served.dir.accept(&listed(3, &[], &[ME]), &good(), 0).unwrap();
    assert_eq!(reason(served.step(&mut peer, SubEvent::Changed)), NO_LONGER);
    let mut feed = ReplicaFeed { caller: node(ME), sent: 0 };
    assert!(matches!(feed.step(&served.dir), FeedStep::Send { .. }));
    assert_eq!(feed.sent, 3);
}

#[test]
fn a_subscription_opens_with_a_hello() {
    let mut served = Served::new(directory(&versions(1)), 4);
    let denied = |action: SubAction| match action {
        SubAction::Deny { reason, detail } => (reason, detail),
        other => panic!("expected a refusal, got {other:?}"),
    };
    let told = |detail: &str| (NOT_ADMITTED.to_string(), Some(detail.to_string()));
    let start = |s: &mut Served| Subscription::start(node(9), &mut s.waiting).unwrap();
    let want = || SubEvent::Read(SubRead::Subscribe { kind: SubscriptionKind::Policy, have: 0 });
    let mut stream = start(&mut served);
    assert_eq!(denied(served.step(&mut stream, want())), told("expected a hello"));
    let mut stream = start(&mut served);
    let torn = || SubEvent::Read(SubRead::Unreadable("torn".into()));
    assert_eq!(denied(served.step(&mut stream, torn())), told("torn"));
    let mut stream = start(&mut served);
    served.step(&mut stream, SubEvent::Read(SubRead::Hello));
    let action = served.step(&mut stream, SubEvent::Verdict(Err("expired".into())));
    let short = &node(9).hex()[..8];
    assert_eq!(denied(action), told(&format!("{short}… is not admitted: expired")));
    let let_in = |s: &mut Served, stream: &mut Subscription| {
        s.step(stream, SubEvent::Read(SubRead::Hello));
        s.step(stream, SubEvent::Verdict(Ok(())));
    };
    let mut stream = start(&mut served);
    let_in(&mut served, &mut stream);
    let action = served.step(&mut stream, SubEvent::Read(SubRead::Hello));
    assert_eq!(denied(action), ("a second hello".to_string(), None));
    let mut stream = start(&mut served);
    let_in(&mut served, &mut stream);
    assert!(matches!(served.step(&mut stream, torn()), SubAction::Fail(why) if why == "torn"));
    assert!(matches!(served.step(&mut stream, want()), SubAction::End));
    // Each of them gave its place among the undecided back.
    let mut open = Vec::new();
    while let Some(s) = Subscription::start(node(9), &mut served.waiting) {
        open.push(s);
    }
    assert_eq!(open.len(), 16);
    assert!(!served.waiting.any_left());
}

#[test]
fn one_undecided_stream_too_many_is_turned_away() {
    let mut waiting = Slots::new(MAX_UNDECIDED);
    let mut requests: Vec<Exchange> = Vec::new();
    for _ in 1..MAX_UNDECIDED {
        requests.push(Exchange::start(node(7), &mut waiting).unwrap());
    }
    // Requests and subscriptions count together.
    let subscription = Subscription::start(node(8), &mut waiting);
    assert!(subscription.is_some());
    assert!(Exchange::start(node(9), &mut waiting).is_none());
    assert!(Subscription::start(node(9), &mut waiting).is_none());
    // A stream keeps its place until it is over, answered or not.
    let mut dir = directory(&versions(1));
    let mut first = requests.remove(0);
    let hello = RequestEvent::Read(RequestRead::Got(Request::Hello));
    first.one_request(&mut dir, hello, 0);
    first.one_request(&mut dir, RequestEvent::Verdict(Ok(())), 0);
    let head = RequestEvent::Read(RequestRead::Got(Request::Head));
    assert!(matches!(first.one_request(&mut dir, head, 0), RequestAction::Reply { .. }));
    assert!(Exchange::start(node(9), &mut waiting).is_none());
    first.end(&mut waiting);
    assert!(Exchange::start(node(9), &mut waiting).is_some());
    assert!(!waiting.any_left());
}

#[test]
fn a_caller_follows_its_view() {
    let all = versions(3);
    let mut view = ViewFeed { sent: None };
    assert_eq!(view.step(&empty()), ViewStep::Wait);
    let mut dir = directory(&all[..1]);
    let fresh = dir.fresh().unwrap();
    assert_eq!(view.step(&dir), ViewStep::Whole(fresh));
    assert_eq!(view.step(&dir), ViewStep::Beat(fresh));
    dir.accept(&all[2], &good(), 9).unwrap();
    assert_eq!(view.step(&dir), ViewStep::Update(1, dir.fresh().unwrap()));
    assert_eq!(view.sent, Some(3));
}

/// A caller's view at version `v`: the entries of these services.
fn view(v: u64, services: &[(&str, &str)]) -> SignedPolicy {
    let items = services.iter().map(|(name, description)| item(name, description)).collect();
    SignedPolicy { head: listed(v, &[], &[ME]).head, items }
}

/// A directory that took version 3.
fn at_three() -> Directory {
    let mut dir = empty();
    assert_eq!(dir.accept(&listed(3, &[], &[ME]), &good(), 0), Ok(true));
    dir
}

const V3: [(&str, &str); 2] = [("orders-db", "Orders"), ("status", "Build status")];

#[test]
fn a_refresh_from_a_kept_head_is_an_update() {
    let mut dir = at_three();
    let old = view(3, &V3);
    assert_eq!(dir.accept(&listed(4, &[], &[ME]), &good(), 0), Ok(true));
    let new = || view(4, &[("orders-db", "Orders"), ("status", "Build status, now")]);
    let fresh = dir.fresh().unwrap();
    let refresh = |have, then| Request::View { have, newest: new(), then };
    let Answer::ViewUpdate { update, fresh: vouched } =
        dir.answer(refresh(3, Some(view(3, &V3))), 0)
    else {
        panic!("expected a view_update");
    };
    assert_eq!(vouched, fresh);
    assert_eq!(update.changed.len(), 1);
    assert!(update.removed.is_empty());
    assert!(dir.keeps(3) && !dir.keeps(2));
    // Applied, it is what a whole fetch gives.
    let held = old.apply(&update);
    assert_eq!(held.version(), 4);
    let Answer::View { view: whole, .. } = dir.answer(refresh(0, None), 0) else {
        panic!("expected a view");
    };
    assert!(same(&held, &whole));
    // A head that is not kept, or whose view is not at hand, gets the whole view.
    for request in [refresh(2, Some(view(2, &V3))), refresh(3, None)] {
        assert!(matches!(dir.answer(request, 0), Answer::View { view, .. } if same(&view, &whole)));
    }
    for have in [4, 9] {
        assert!(matches!(dir.answer(refresh(have, None), 0), Answer::Current { .. }));
    }
}

#[test]
fn without_a_verified_identity_the_view_is_empty() {
    let mut dir = at_three();
    let anonymous = || view(3, &[]);
    let resolve = |name: &str, newest| Request::Resolve { name: name.into(), newest };
    let Answer::View { view: held, .. } =
        dir.answer(Request::View { have: 0, newest: anonymous(), then: None }, 0)
    else {
        panic!("expected a view");
    };
    assert!(held.items.is_empty());
    assert_eq!(held.version(), 3);
    assert!(matches!(
        dir.answer(resolve("orders-db", anonymous()), 0),
        Answer::Resolved { entry: None, .. }
    ));
    let Answer::Resolved { entry: Some(found), .. } =
        dir.answer(resolve("orders-db", view(3, &V3)), 0)
    else {
        panic!("expected one service");
    };
    assert_eq!(found.key, "orders-db");
    assert!(matches!(
        dir.answer(resolve("payroll", view(3, &V3)), 0),
        Answer::Resolved { entry: None, .. }
    ));
    let mut twice = view(3, &V3);
    twice.items.push(item("status", "later"));
    assert_eq!(twice.find("status").unwrap().json, b"later");
}

#[test]
fn a_view_that_cannot_be_updated_is_fetched_whole_again() {
    let mut served = Served::new(at_three(), 1);
    // Whatever the caller says it has, the first frame is the whole view.
    let (mut caller, action) = served.subscribe(60, SubscriptionKind::View, 3);
    let SubAction::View(step) = action else {
        panic!("expected a view");
    };
    let mut last = LastView::none();
    let Some(SubFrame::View { view: held, .. }) = last.frame(step, view(3, &V3)) else {
        panic!("expected the whole view");
    };
    assert_eq!(held.items.len(), 2);
    // Then updates apply on top of it.
    assert_eq!(served.dir.accept(&listed(4, &[], &[ME]), &good(), 0), Ok(true));
    let SubAction::View(step) = served.step(&mut caller, SubEvent::Changed) else {
        panic!("expected an update");
    };
    let Some(SubFrame::ViewUpdate { update, .. }) =
        last.frame(step, view(4, &[("orders-db", "Orders")]))
    else {
        panic!("expected an update");
    };
    let held = held.apply(&update);
    assert_eq!(held.version(), 4);
    assert_eq!(held.items.len(), 1);
    assert_eq!(held.items[0].key, "orders-db");
    // A beat in between is freshness alone.
    served.dir.beat(5);
    let SubAction::View(step) = served.step(&mut caller, SubEvent::Changed) else {
        panic!("expected a beat");
    };
    assert!(matches!(last.frame(step, view(4, &[])), Some(SubFrame::Fresh { .. })));
    // The place is taken until the caller goes, and without a policy there is no view.
    let (_, action) = served.subscribe(61, SubscriptionKind::View, 0);
    assert_eq!(reason(action), "this directory's subscriber cap (1) is reached");
    assert!(matches!(served.step(&mut caller, SubEvent::Closed), SubAction::End));
    assert!(served.subscribers.any_left());
    let mut nothing = Served::new(empty(), 1);
    let (_, action) = nothing.subscribe(60, SubscriptionKind::View, 0);
    assert_eq!(reason(action), "this directory holds no policy yet");
    assert!(last.frame(ViewStep::Wait, view(4, &[])).is_none());
}

#[test]
fn a_hello_is_read_as_a_small_frame() {
    let mut dir = directory(&versions(1));
    let opening = || b"{\"type\":\"publish\"".to_vec();
    let stream = opened();
    let kind = stream.reads(64, 1 << 20, opening());
    assert!(matches!(kind, FrameKind::Capped { max: 64 }));
    // A large frame is refused from its prefix, though it opens like a publish.
    let prefix = 65u32.to_be_bytes().to_vec();
    assert_eq!(next_read(&kind, &prefix), NextRead::TooLong { len: 65, max: 64 });
    let kind = admitted(&mut dir).reads(64, 1 << 20, opening());
    assert!(matches!(kind, FrameKind::Request { small: 64, large: 1048576, .. }));
    assert_eq!(next_read(&kind, &prefix), NextRead::More(opening().len()));
}

#[test]
fn a_directory_follows_every_other_listed_one() {
    let mut dir = empty();
    assert!(peers(&dir).is_empty());
    dir.accept(&listed(1, &[], &[5, ME, 6, 6]), &good(), 0).unwrap();
    assert_eq!(peers(&dir), vec![node(5), node(6), node(6)]);
    let plan = replicate(&dir, &vec![]);
    assert_eq!((plan.stop, plan.begin), (vec![], vec![node(5), node(6)]));
    // One finished, one is no longer listed, one goes on.
    let followers = vec![
        Follower { peer: node(5), finished: true },
        Follower { peer: node(6), finished: false },
        Follower { peer: node(7), finished: false },
    ];
    let plan = replicate(&dir, &followers);
    assert_eq!((plan.stop, plan.begin), (vec![node(5), node(7)], vec![node(5)]));
}

#[test]
fn a_replica_pauses_longer_each_time() {
    let mut backoff = Backoff::new();
    let failed: Vec<u64> = (0..7).map(|_| backoff.pause(false)).collect();
    assert_eq!(failed, vec![1, 2, 4, 8, 16, 30, 30]);
    assert_eq!(backoff.pause(true), 1);
    assert_eq!(backoff.pause(false), 2);
}

#[test]
fn a_directory_that_missed_a_publish_catches_up_from_a_replica() {
    let all = versions(3);
    let mut dir = directory(&all[..1]);
    let frame = |policy: &SignedPolicy, head: Result<(), String>, fresh: Result<(), String>| {
        PeerFrame::Policy { policy: policy.copy(), head, fresh, checked: good() }
    };
    assert_eq!(follow_frame(&mut dir, PeerFrame::Beat, 0), Ok(()));
    assert_eq!(
        follow_frame(&mut dir, frame(&all[2], Err("forged".into()), Ok(())), 0),
        Err("forged".into())
    );
    assert_eq!(
        follow_frame(&mut dir, frame(&all[2], Ok(()), Err("a stranger".into())), 0),
        Err("the replica's freshness doesn't vouch for its head: a stranger".into())
    );
    assert_eq!(dir.version(), 1);
    assert_eq!(follow_frame(&mut dir, frame(&all[2], Ok(()), Ok(())), 4), Ok(()));
    assert!(same(&dir.held().unwrap().policy, &all[2]));
    // Its own word for the head it caught up to.
    assert_eq!(dir.fresh().unwrap().directory, node(ME));
    assert_eq!(dir.fresh().unwrap().at, 4);
    // An older one is passed over, whatever else is wrong with it.
    let stale = PeerFrame::Policy {
        policy: all[1].copy(),
        head: Ok(()),
        fresh: Ok(()),
        checked: Checked::Failed("bad".into()),
    };
    assert_eq!(follow_frame(&mut dir, stale, 5), Ok(()));
    let newer = PeerFrame::Policy {
        policy: versions(4).remove(3),
        head: Ok(()),
        fresh: Ok(()),
        checked: Checked::Failed("bad".into()),
    };
    assert_eq!(follow_frame(&mut dir, newer, 5), Err("bad".into()));
    assert_eq!(
        follow_frame(&mut dir, PeerFrame::Denied("cap".into()), 5),
        Err("refused: cap".into())
    );
    assert_eq!(
        follow_frame(&mut dir, PeerFrame::Other("View".into()), 5),
        Err("an unexpected frame for a replica: View".into())
    );
    assert_eq!(dir.version(), 3);
    assert_eq!(beat_pause(&dir, 60), 300);
    assert_eq!(beat_pause(&empty(), 0), 1);
    assert_eq!(dir.max_subscribers(), 4);
    assert_eq!(dir.root(), node(ROOT));
}

#[test]
fn directory_serve_needs_a_listed_node_that_is_not_the_admin() {
    let found = |root_seed, membership, preflight| KeystoreFound {
        path: "/home/admin".into(),
        root_seed,
        membership,
        preflight,
    };
    let e = check_keystore(&found(true, true, Ok(()))).unwrap_err();
    assert!(e.text().contains("root.seed"), "{}", e.text());
    assert!(e.text().starts_with("/home/admin holds the admin key (root.seed); "));
    // Joined, but the policy it holds doesn't list it.
    let mut dir = empty();
    dir.accept(&listed(3, &[], &[5]), &good(), 0).unwrap();
    let e = open_standalone(&dir).unwrap_err();
    assert!(e.text().contains("not one of the network's directories"), "{}", e.text());
    assert!(e.text().contains("(version 3)") && e.text().contains(&node(ME).hex()));
    // Listed (and joined after): it runs.
    let dir = directory(&versions(1));
    assert!(check_keystore(&found(false, true, Ok(()))).is_ok());
    assert!(open_standalone(&dir).is_ok());
    assert_eq!(dir.id(), node(ME));
    assert!(dir.fresh().is_some());
    // An empty keystore joined no network.
    assert!(matches!(
        check_keystore(&found(false, false, Ok(()))).unwrap_err(),
        StandaloneError::NoMembership
    ));
    let e = check_keystore(&found(false, true, Err("expired".into()))).unwrap_err();
    assert_eq!(e.text(), "expired");
}

#[test]
fn directory_edits_say_what_changed() {
    let done = |label: Option<&str>| Edited {
        node: node(5),
        label: label.map(str::to_string),
        version: 7,
        directories: 2,
    };
    let add = DirectoryCmd::Add { node: "workbench".into() };
    let rm = DirectoryCmd::Rm { node: node(5).hex() };
    assert!(is_edit(&add) && is_edit(&rm) && !is_edit(&DirectoryCmd::Serve));
    assert_eq!(
        edit_in(&add, &done(Some("workbench"))).unwrap(),
        format!(
            "directory {} (workbench) added (policy version 7; 2 directory(ies))",
            node(5).hex()
        )
    );
    let out = edit_in(&rm, &done(None)).unwrap();
    assert_eq!(
        out,
        format!("directory {} removed (policy version 7; 2 directory(ies))", node(5).hex())
    );
    assert_eq!(
        edit_in(&DirectoryCmd::Serve, &done(None)).unwrap_err(),
        "`directory serve` is not an edit"
    );
}

const SMALL: usize = 16 * 1024;
const LARGE: usize = 4 << 20;

fn request_kind() -> FrameKind {
    FrameKind::Request {
        small: SMALL,
        large: LARGE,
        opening: b"{\"type\":\"publish\"".to_vec(),
    }
}

#[test]
fn a_large_request_must_open_as_a_publish() {
    // A 1 MiB body that opens like a `head`: refused before it is read.
    let mut bytes = ((1usize << 20) as u32).to_be_bytes().to_vec();
    let kind = request_kind();
    assert_eq!(next_read(&kind, &bytes), NextRead::More(17));
    bytes.extend_from_slice(br#"{"type":"head"}  "#);
    assert_eq!(next_read(&kind, &bytes), NextRead::BadOpening);
    // One that opens like a publish is read on.
    let mut bytes = ((1usize << 20) as u32).to_be_bytes().to_vec();
    bytes.extend_from_slice(b"{\"type\":\"publish\"");
    assert_eq!(next_read(&kind, &bytes), NextRead::More((1 << 20) - 17));
    // Over the hard limit: refused from the prefix alone.
    let over = ((LARGE + 1) as u32).to_be_bytes().to_vec();
    assert_eq!(
        next_read(&kind, &over),
        NextRead::TooLong { len: LARGE + 1, max: LARGE }
    );
    // A small request reads back.
    let mut head = 15u32.to_be_bytes().to_vec();
    assert_eq!(next_read(&kind, &head), NextRead::More(15));
    head.extend_from_slice(br#"{"type":"head"}"#);
    assert_eq!(next_read(&kind, &head), NextRead::Whole);
}

#[test]
fn a_subscriber_sends_nothing_large() {
    let kind = FrameKind::Capped { max: SMALL };
    let over = ((SMALL + 1) as u32).to_be_bytes().to_vec();
    assert_eq!(
        next_read(&kind, &over),
        NextRead::TooLong { len: SMALL + 1, max: SMALL }
    );
    assert_eq!(
        too_long_text(SMALL + 1, SMALL),
        "a 16385-byte directory frame (at most 16384)"
    );
    // A clean end of stream is not a frame.
    assert_eq!(ending(0), Ending::Clean);
    assert_eq!(ending(3), Ending::Clean);
    assert_eq!(ending(4), Ending::Truncated);
    assert_eq!(next_read(&kind, &vec![0, 0]), NextRead::More(2));
    assert_eq!(next_read(&kind, &vec![0, 0, 0, 0]), NextRead::Whole);
}
