//! A directory without the network: its copy of the policy, its freshness, and
//! the answer to each request.
//!
//! A directory holds the newest signed policy, vouches for its head, takes a
//! newer one from anyone admitted and answers requests. It never decides a
//! call. Signatures are made and checked around it.

use vstd::prelude::*;

use crate::db::{
    a_freshness_leaves_the_items, a_stored_policy_is_read_back, complete, hashes_apart, head_at,
    head_complete, heads_in_order, item_of, kept_from, nothing_kept, reads_row, rebuilt, stored,
    what_is_kept_is_what_was_stored, DbView, DirectoryDb, Fresh, HeadRow, LacksItem,
};
use crate::idp_view::short8;
use crate::ids::NodeId;
use crate::policy::{
    an_update_reaches_the_newer_policy, applies, by_key, canonical, canonical_determined,
    canonical_has_one_each, copy_nodes, item_under, maybe_item, one_each, update_between, updated, Head,
    HeadView, Item, ItemView, PolicyUpdate, PolicyView, SignedPolicy, UpdateView,
};
use crate::text::{decimal, decimal_text};

verus! {

/// How many streams may be open before their hello is checked.
pub const MAX_UNDECIDED: usize = 16;

/// How many subscribers a directory follows unless told otherwise.
pub const DEFAULT_MAX_SUBSCRIBERS: usize = 4096;

/// What a node that is not admitted hears, whatever the reason.
pub const NOT_ADMITTED: &'static str = "not a member";

/// What a request that this directory does not serve hears.
pub const NOT_YET: &'static str =
    "this directory does not serve slices, views or resolve yet (cards 36c, 37); ask for `policy`";

/// A verified policy, with the settings a directory reads of it.
#[derive(Debug)]
pub struct Held {
    pub policy: SignedPolicy,
    /// How long a freshness of it lasts, in seconds.
    pub fresh_secs: u32,
    /// How often a new freshness is signed, in seconds.
    pub beat_secs: u32,
    /// The nodes it bans.
    pub bans: Vec<NodeId>,
}

/// A held policy, as values.
#[verifier::ext_equal]
pub ghost struct HeldView {
    pub policy: PolicyView,
    pub fresh_secs: u32,
    pub beat_secs: u32,
    pub bans: Seq<NodeId>,
}

impl View for Held {
    type V = HeldView;

    open spec fn view(&self) -> HeldView {
        HeldView {
            policy: self.policy@,
            fresh_secs: self.fresh_secs,
            beat_secs: self.beat_secs,
            bans: self.bans@,
        }
    }
}

/// What a directory reads of a policy that verified.
#[derive(Debug)]
pub struct Settings {
    pub fresh_secs: u32,
    pub beat_secs: u32,
    /// The nodes it bans.
    pub bans: Vec<NodeId>,
}

impl Settings {
    /// A policy with these settings.
    pub open spec fn with(self, policy: PolicyView) -> HeldView {
        HeldView {
            policy,
            fresh_secs: self.fresh_secs,
            beat_secs: self.beat_secs,
            bans: self.bans@,
        }
    }
}

/// What verifying a policy under the root found.
#[derive(Debug)]
pub enum Checked {
    /// It verifies, and has not run out.
    Good(Settings),
    /// Its signature, its items or its contents fail, and how.
    Failed(String),
    /// It verifies, but has run out.
    Expired(String),
}

impl Checked {
    /// Why a policy is refused.
    pub open spec fn said(&self) -> Seq<char> {
        match *self {
            Checked::Good(_) => Seq::empty(),
            Checked::Failed(why) => why@,
            Checked::Expired(why) => "the published policy has expired: "@ + why@,
        }
    }
}

/// A directory, as values.
#[verifier::ext_equal]
pub ghost struct DirectoryView {
    pub me: NodeId,
    pub root: NodeId,
    pub db: DbView,
    /// The newest policy.
    pub held: Option<HeldView>,
    /// This directory's word for it.
    pub fresh: Option<Fresh>,
    /// How many policies it has taken since it opened.
    pub accepts: u64,
    pub max_subscribers: usize,
}

/// A directory.
#[derive(Debug)]
pub struct Directory {
    me: NodeId,
    root: NodeId,
    db: DirectoryDb,
    held: Option<Held>,
    fresh: Option<Fresh>,
    accepts: u64,
    max_subscribers: usize,
}

impl View for Directory {
    type V = DirectoryView;

    closed spec fn view(&self) -> DirectoryView {
        DirectoryView {
            me: self.me,
            root: self.root,
            db: self.db@,
            held: match self.held {
                Some(held) => Some(held@),
                None => None,
            },
            fresh: self.fresh,
            accepts: self.accepts,
            max_subscribers: self.max_subscribers,
        }
    }
}

/// `now` and `secs` later, or the last moment there is.
pub open spec fn later(now: i64, secs: u32) -> i64 {
    if now + secs > i64::MAX {
        i64::MAX
    } else {
        (now + secs) as i64
    }
}

/// What `me` signs for a held policy at `now`: a freshness that lasts as long
/// as the policy says, if its head lists `me`, and else nothing.
pub open spec fn vouched(me: NodeId, held: HeldView, now: i64) -> Option<Fresh> {
    if held.policy.head.directories.contains(me) {
        Some(
            Fresh {
                directory: me,
                version: held.policy.head.version,
                at: now,
                until: later(now, held.fresh_secs),
            },
        )
    } else {
        None
    }
}

/// The version a directory holds; 0 before the first.
pub open spec fn version_of(dir: DirectoryView) -> u64 {
    match dir.held {
        Some(held) => held.policy.head.version,
        None => 0,
    }
}

/// A directory at its freshness's next beat.
pub open spec fn beaten(dir: DirectoryView, now: i64) -> DirectoryView {
    match dir.held {
        None => dir,
        Some(held) => {
            let fresh = vouched(dir.me, held, now);
            DirectoryView {
                fresh,
                db: if fresh is Some {
                    DbView { fresh, ..dir.db }
                } else {
                    dir.db
                },
                ..dir
            }
        },
    }
}

/// A directory after it took a policy that verified: nothing changes unless the
/// policy is strictly newer.
pub open spec fn taken(
    dir: DirectoryView,
    policy: PolicyView,
    settings: Settings,
    now: i64,
) -> DirectoryView {
    if policy.head.version <= dir.db.version {
        dir
    } else {
        let held = settings.with(policy);
        let fresh = vouched(dir.me, held, now);
        let db = stored(dir.db, policy);
        DirectoryView {
            db: if fresh is Some {
                DbView { fresh, ..db }
            } else {
                db
            },
            held: Some(held),
            fresh,
            accepts: (dir.accepts + 1) as u64,
            ..dir
        }
    }
}

/// What a directory makes of a candidate.
pub open spec fn offered(
    dir: DirectoryView,
    policy: PolicyView,
    checked: Checked,
    now: i64,
) -> DirectoryView {
    match checked {
        Checked::Good(settings) => taken(dir, policy, settings, now),
        _ => dir,
    }
}

/// What holds of every directory: it holds what its store has newest, it
/// vouches for it exactly when its head lists this node, and it has taken no
/// more policies than there are versions.
pub open spec fn sound(dir: DirectoryView) -> bool {
    &&& heads_in_order(dir.db)
    &&& dir.db.version == version_of(dir)
    &&& dir.held is Some == (dir.db.version > 0)
    &&& dir.accepts <= dir.db.version
    &&& match dir.held {
        None => dir.fresh is None,
        Some(held) => match dir.fresh {
            None => !held.policy.head.directories.contains(dir.me),
            Some(fresh) => vouched(dir.me, held, fresh.at) == Some(fresh),
        },
    }
}

/// A beat leaves a directory sound.
pub proof fn a_beat_keeps_a_directory_sound(dir: DirectoryView, now: i64)
    requires
        sound(dir),
    ensures
        sound(beaten(dir, now)),
{
}

/// Taking a policy leaves a directory sound.
pub proof fn a_policy_keeps_a_directory_sound(
    dir: DirectoryView,
    policy: PolicyView,
    checked: Checked,
    now: i64,
)
    requires
        sound(dir),
    ensures
        sound(offered(dir, policy, checked, now)),
{
    if checked is Good {
        if policy.head.version > dir.db.version {
            let keys = crate::db::storage_keys(policy.items);
            crate::db::storing_keeps_heads_in_order(dir.db, policy, keys);
        }
    }
}

/// A directory never goes back: its version only rises.
pub proof fn a_directory_never_goes_back(
    dir: DirectoryView,
    policy: PolicyView,
    checked: Checked,
    now: i64,
)
    requires
        sound(dir),
    ensures
        version_of(offered(dir, policy, checked, now)) >= version_of(dir),
        version_of(beaten(dir, now)) == version_of(dir),
        checked is Good ==> version_of(offered(dir, policy, checked, now))
            >= policy.head.version,
        !(checked is Good) ==> offered(dir, policy, checked, now) == dir,
{
}

/// What brings a holder of a version to a directory's newest head.
#[derive(Debug)]
pub enum Since {
    /// It is the newest, or newer than the directory's: nothing but freshness.
    Current,
    /// The delta from the kept head at that version.
    Update(PolicyUpdate),
    /// The whole policy.
    Whole,
}

/// What a holder of a version is sent, as values.
pub ghost enum SinceView {
    Current,
    Update(UpdateView),
    Whole,
}

impl View for Since {
    type V = SinceView;

    open spec fn view(&self) -> SinceView {
        match *self {
            Since::Current => SinceView::Current,
            Since::Update(update) => SinceView::Update(update@),
            Since::Whole => SinceView::Whole,
        }
    }
}

/// What a policy, with the heads kept beside it, is to a holder of `have`:
/// nothing to send where it is as new; the delta where the head at `have` is
/// kept with its items; and else the whole policy.
pub open spec fn since_of(db: DbView, policy: PolicyView, have: u64) -> SinceView {
    if have >= policy.head.version {
        SinceView::Current
    } else if have == 0 {
        SinceView::Whole
    } else {
        match head_at(db.heads, have) {
            None => SinceView::Whole,
            Some(i) => if head_complete(db, db.heads[i]) {
                SinceView::Update(update_between(policy, rebuilt(db, db.heads[i])))
            } else {
                SinceView::Whole
            },
        }
    }
}

/// What a directory sends to a holder of any version: nothing but freshness if and
/// only if that is the newest or a newer one; the whole policy if and only if it is
/// older and is 0, not kept, or not readable; and else the delta from it. Where no
/// kept head lacks an item, every kept head is readable.
pub proof fn what_is_sent_is_decided(dir: DirectoryView, have: u64)
    requires
        dir.held is Some,
    ensures
        ({
            let newest = dir.held->0.policy;
            let at = head_at(dir.db.heads, have);
            let sent = since_of(dir.db, newest, have);
            &&& sent is Current <==> have >= newest.head.version
            &&& sent is Whole <==> have < newest.head.version && (have == 0 || at is None
                || !head_complete(dir.db, dir.db.heads[at->0]))
            &&& (sent matches SinceView::Update(update) ==> update == update_between(
                newest,
                rebuilt(dir.db, dir.db.heads[at->0]),
            ))
            &&& complete(dir.db) ==> (sent is Whole <==> have < newest.head.version && (have == 0
                || at is None))
        }),
{
    if let Some(i) = head_at(dir.db.heads, have) {
        let row = dir.db.heads[i];
        assert(row.head.version == have);
        if complete(dir.db) {
            assert forall|k: int| 0 <= k < row.keys.len() implies dir.db.items.dom().contains(
                #[trigger] row.keys[k],
            ) by {
                assert(row.keys.contains(row.keys[k]));
                assert(crate::db::named(dir.db.heads, row.keys[k]));
            }
        }
    }
}

/// From any version a holder may have, what a directory sends brings it to the
/// newest head exactly: the delta makes of the policy kept at that version the
/// newest one. Asked of the two policies is only that no two items of one differ
/// under one key; where the newest is in the order of its keys, applying the delta
/// gives that very policy.
pub proof fn what_is_sent_reaches_the_newest(dir: DirectoryView, have: u64)
    requires
        dir.held is Some,
        one_each(dir.held->0.policy.items),
        head_at(dir.db.heads, have) matches Some(i) ==> one_each(
            rebuilt(dir.db, dir.db.heads[i]).items,
        ),
    ensures
        ({
            let newest = dir.held->0.policy;
            let at = head_at(dir.db.heads, have);
            since_of(dir.db, newest, have) matches SinceView::Update(update) ==> {
                let older = rebuilt(dir.db, dir.db.heads[at->0]);
                &&& 0 < have < newest.head.version
                &&& at is Some
                &&& older.head.version == have
                &&& reaches(older, update, newest)
            }
        }),
{
    let newest = dir.held->0.policy;
    if let Some(i) = head_at(dir.db.heads, have) {
        let older = rebuilt(dir.db, dir.db.heads[i]);
        assert(dir.db.heads[i].head.version == have);
        an_update_reaches_the_newer_policy(newest, older);
        if canonical(newest.items) {
            assert forall|got: PolicyView| #[trigger]
                applies(older, update_between(newest, older), got) implies got == newest by {
                an_applied_update_is_the_newer_policy(got, newest, older);
            }
        }
    }
}

/// Whether an update brings a holder of one policy to another: it has that one's
/// head and leaves its items, and, where they are in the order of their keys,
/// applying it gives that policy.
pub open spec fn reaches(older: PolicyView, update: UpdateView, newest: PolicyView) -> bool {
    &&& update.head == newest.head
    &&& updated(by_key(older.items), update) == by_key(newest.items)
    &&& canonical(newest.items) ==> forall|got: PolicyView| #[trigger]
        applies(older, update, got) ==> got == newest
}

/// Whether all that a directory keeps and holds was taken out of `pool`.
pub open spec fn took_from(dir: DirectoryView, pool: Set<PolicyView>) -> bool {
    &&& kept_from(dir.db, pool)
    &&& dir.held matches Some(held) ==> dir.db.heads.len() > 0 && held.policy == rebuilt(
        dir.db,
        dir.db.heads.last(),
    )
}

/// A directory that keeps nothing took nothing.
pub proof fn an_empty_directory_took_nothing(dir: DirectoryView, pool: Set<PolicyView>)
    requires
        sound(dir),
        dir.db == nothing_kept(),
    ensures
        took_from(dir, pool),
{
}

/// What may happen to a directory.
pub ghost enum Happening {
    /// A policy is offered, with what verifying it found.
    Offered { policy: PolicyView, checked: Checked, now: i64 },
    /// A beat.
    Beat { now: i64 },
}

/// A directory after one thing happened.
pub open spec fn after_one(dir: DirectoryView, what: Happening) -> DirectoryView {
    match what {
        Happening::Offered { policy, checked, now } => offered(dir, policy, checked, now),
        Happening::Beat { now } => beaten(dir, now),
    }
}

/// A directory after all of `happened`, in turn.
pub open spec fn after_all(dir: DirectoryView, happened: Seq<Happening>) -> DirectoryView
    decreases happened.len(),
{
    if happened.len() == 0 {
        dir
    } else {
        after_one(after_all(dir, happened.drop_last()), happened.last())
    }
}

/// Whether what is offered, and verifies, is one of `pool`.
pub open spec fn offers_from(what: Happening, pool: Set<PolicyView>) -> bool {
    what matches Happening::Offered { policy, checked, .. } ==> checked is Good ==> pool.contains(
        policy,
    )
}

/// One thing that happens leaves a directory sound, and with nothing but what it
/// took.
pub proof fn a_directory_keeps_what_it_took(
    dir: DirectoryView,
    what: Happening,
    pool: Set<PolicyView>,
)
    requires
        sound(dir),
        took_from(dir, pool),
        hashes_apart(pool),
        offers_from(what, pool),
    ensures
        sound(after_one(dir, what)),
        took_from(after_one(dir, what), pool),
{
    let now = after_one(dir, what);
    match what {
        Happening::Offered { policy, checked, now: at } => {
            a_policy_keeps_a_directory_sound(dir, policy, checked, at);
            if checked is Good && policy.head.version > dir.db.version {
                what_is_kept_is_what_was_stored(dir.db, policy, pool);
                stored_alone_is_read_back(dir.db, policy, pool);
                same_but_fresh(stored(dir.db, policy), now.db, pool);
            }
        },
        Happening::Beat { now: at } => {
            a_beat_keeps_a_directory_sound(dir, at);
            same_but_fresh(dir.db, now.db, pool);
        },
    }
}

/// A policy out of a pool whose items hash apart is read back as it was stored.
proof fn stored_alone_is_read_back(db: DbView, policy: PolicyView, pool: Set<PolicyView>)
    requires
        heads_in_order(db),
        pool.contains(policy),
        hashes_apart(pool),
        policy.head.version > db.version,
    ensures
        stored(db, policy).heads.len() > 0,
        rebuilt(stored(db, policy), stored(db, policy).heads.last()) == policy,
{
    let keys = crate::db::storage_keys(policy.items);
    assert forall|i: int, j: int|
        0 <= i < policy.items.len() && 0 <= j < policy.items.len() && #[trigger] keys[i]
            == #[trigger] keys[j] implies policy.items[i] == policy.items[j] by {
        assert(policy.items.contains(policy.items[i]) && policy.items.contains(policy.items[j]));
        assert(item_of(pool, policy.items[i]) && item_of(pool, policy.items[j]));
    }
    a_stored_policy_is_read_back(db, policy);
}

/// What is kept does not depend on the freshness beside it.
proof fn same_but_fresh(db: DbView, now: DbView, pool: Set<PolicyView>)
    requires
        now == (DbView { fresh: now.fresh, ..db }),
    ensures
        kept_from(db, pool) ==> kept_from(now, pool),
        forall|row: HeadRow| #[trigger] rebuilt(now, row) == rebuilt(db, row),
{
    a_freshness_leaves_the_items(db, now.fresh);
    assert forall|row: HeadRow| #[trigger] rebuilt(now, row) == rebuilt(db, row) by {
        assert(rebuilt(now, row).items =~= rebuilt(db, row).items);
    }
    if kept_from(db, pool) {
        assert forall|i: int| 0 <= i < now.heads.len() implies pool.contains(
            rebuilt(now, #[trigger] now.heads[i]),
        ) by {
            assert(pool.contains(rebuilt(db, db.heads[i])));
        }
        assert forall|key: Seq<char>| #[trigger] now.items.dom().contains(key) implies item_of(
            pool,
            now.items[key],
        ) && crate::db::storage_key(now.items[key]) == key by {
            assert(db.items.dom().contains(key));
        }
    }
}

/// Whatever happens to a directory, and however often, a holder of any version is
/// sent what brings it to the newest: nothing where it has that or a newer one, the
/// whole policy only where its own is no longer kept, and else a delta from the
/// very policy that the directory took at its version. Asked is that the policies
/// taken have one item under each key, and that no two different items of theirs
/// hash alike.
pub proof fn after_anything_a_holder_reaches_the_newest(
    start: DirectoryView,
    happened: Seq<Happening>,
    pool: Set<PolicyView>,
    have: u64,
)
    requires
        sound(start),
        took_from(start, pool),
        hashes_apart(pool),
        forall|policy: PolicyView| #[trigger] pool.contains(policy) ==> one_each(policy.items),
        forall|i: int| 0 <= i < happened.len() ==> offers_from(#[trigger] happened[i], pool),
    ensures
        ({
            let dir = after_all(start, happened);
            &&& sound(dir)
            &&& took_from(dir, pool)
            &&& dir.held matches Some(held) ==> {
                let newest = held.policy;
                let at = head_at(dir.db.heads, have);
                match since_of(dir.db, newest, have) {
                    SinceView::Current => have >= newest.head.version,
                    SinceView::Whole => have < newest.head.version && (have == 0 || at is None),
                    SinceView::Update(update) => {
                        let older = rebuilt(dir.db, dir.db.heads[at->0]);
                        &&& 0 < have < newest.head.version
                        &&& pool.contains(older)
                        &&& older.head.version == have
                        &&& reaches(older, update, newest)
                    },
                }
            }
        }),
    decreases happened.len(),
{
    let dir = after_all(start, happened);
    if happened.len() > 0 {
        let before = happened.drop_last();
        assert forall|i: int| 0 <= i < before.len() implies offers_from(
            #[trigger] before[i],
            pool,
        ) by {
            assert(before[i] == happened[i]);
        }
        after_anything_a_holder_reaches_the_newest(start, before, pool, have);
        assert(happened.last() == happened[happened.len() - 1]);
        a_directory_keeps_what_it_took(after_all(start, before), happened.last(), pool);
    }
    if dir.held is Some {
        assert(pool.contains(rebuilt(dir.db, dir.db.heads[dir.db.heads.len() - 1])));
        if let Some(i) = head_at(dir.db.heads, have) {
            assert(dir.db.heads[i].head.version == have);
            assert(pool.contains(rebuilt(dir.db, dir.db.heads[i])));
        }
        what_is_sent_is_decided(dir, have);
        what_is_sent_reaches_the_newest(dir, have);
    }
}

/// A policy in the order of its keys that has an update's head, and the items
/// the update leaves of an older policy, is the policy the update came from.
pub proof fn an_applied_update_is_the_newer_policy(
    applied: PolicyView,
    new: PolicyView,
    old: PolicyView,
)
    requires
        canonical(new.items),
        one_each(old.items),
        applies(old, update_between(new, old), applied),
    ensures
        applied == new,
{
    canonical_has_one_each(new.items);
    an_update_reaches_the_newer_policy(new, old);
    canonical_determined(applied.items, new.items);
    assert(applied =~= new);
}

/// Whether the policy a directory holds bans `node`.
pub open spec fn banned_by(dir: DirectoryView, node: NodeId) -> bool {
    dir.held is Some && dir.held->0.bans.contains(node)
}

/// Why `caller` is not admitted, given what checking its badge under the root
/// found; nothing where it is: the badge verifies and names it, and the held
/// policy, if there is one, does not ban it.
pub open spec fn not_admitted(
    dir: DirectoryView,
    caller: NodeId,
    badge: Result<(), String>,
) -> Option<Seq<char>> {
    let who = short8(caller) + "… is not admitted: "@;
    match badge {
        Err(why) => Some(who + why@),
        Ok(_) => if banned_by(dir, caller) {
            Some(who + "the policy bans it"@)
        } else {
            None
        },
    }
}

/// A ban is in force as soon as the policy that has it is taken: whatever badge
/// the node presents from then on, it is not admitted, and the next beat changes
/// nothing of that.
pub proof fn a_ban_is_in_force_once_taken(
    dir: DirectoryView,
    policy: PolicyView,
    settings: Settings,
    now: i64,
    caller: NodeId,
    badge: Result<(), String>,
    later: i64,
)
    requires
        sound(dir),
        policy.head.version > version_of(dir),
        settings.bans@.contains(caller),
    ensures
        ({
            let after = offered(dir, policy, Checked::Good(settings), now);
            &&& not_admitted(after, caller, badge) is Some
            &&& not_admitted(beaten(after, later), caller, badge) is Some
        }),
{
}

/// A request to a directory from a node it admitted.
#[derive(Debug)]
pub enum Request {
    /// Take this policy; `checked` is what verifying it under the root found.
    Publish { policy: SignedPolicy, checked: Checked },
    /// The newest head.
    Head,
    /// What brings a holder of `have` to the newest policy.
    Policy { have: u64 },
    /// A part of the policy.
    Slice,
    /// What brings a caller whose view is of version `have` to its newest view.
    /// `newest` is what the held policy lets the caller see, and `then` what the
    /// kept policy at `have` did, where it could be read; both are cut from the
    /// policies around the directory.
    View { have: u64, newest: SignedPolicy, then: Option<SignedPolicy> },
    /// The one service of this name, if the caller's view `newest` has it.
    Resolve { name: String, newest: SignedPolicy },
    /// The greeting that opens a stream.
    Hello,
}

/// A directory's answer.
#[derive(Debug)]
#[allow(inconsistent_fields)]
pub enum Answer {
    Published { version: u64 },
    Head { head: Head, fresh: Fresh },
    Current { fresh: Fresh },
    Policy { policy: SignedPolicy, fresh: Fresh },
    PolicyUpdate { update: PolicyUpdate, fresh: Fresh },
    /// A caller's view, whole: the head, and the entries of what it may use.
    View { view: SignedPolicy, fresh: Fresh },
    /// What changed since a caller's last view.
    ViewUpdate { update: PolicyUpdate, fresh: Fresh },
    /// The entry of the service that was asked for, if the caller may use it.
    Resolved { entry: Option<Item>, fresh: Fresh },
    /// A refusal, with the whole reason: whoever encodes it cuts it to the length
    /// that a frame may carry.
    Denied { reason: String },
}

/// An answer, as values.
#[allow(inconsistent_fields)]
pub ghost enum AnswerView {
    Published { version: u64 },
    Head { head: HeadView, fresh: Fresh },
    Current { fresh: Fresh },
    Policy { policy: PolicyView, fresh: Fresh },
    PolicyUpdate { update: UpdateView, fresh: Fresh },
    View { view: PolicyView, fresh: Fresh },
    ViewUpdate { update: UpdateView, fresh: Fresh },
    Resolved { entry: Option<ItemView>, fresh: Fresh },
    Denied { reason: Seq<char> },
}

impl View for Answer {
    type V = AnswerView;

    open spec fn view(&self) -> AnswerView {
        match *self {
            Answer::Published { version } => AnswerView::Published { version },
            Answer::Head { head, fresh } => AnswerView::Head { head: head@, fresh },
            Answer::Current { fresh } => AnswerView::Current { fresh },
            Answer::Policy { policy, fresh } => AnswerView::Policy { policy: policy@, fresh },
            Answer::PolicyUpdate { update, fresh } => AnswerView::PolicyUpdate {
                update: update@,
                fresh,
            },
            Answer::View { view, fresh } => AnswerView::View { view: view@, fresh },
            Answer::ViewUpdate { update, fresh } => AnswerView::ViewUpdate {
                update: update@,
                fresh,
            },
            Answer::Resolved { entry, fresh } => AnswerView::Resolved {
                entry: maybe_item(entry),
                fresh,
            },
            Answer::Denied { reason } => AnswerView::Denied { reason: reason@ },
        }
    }
}

/// Why a directory has nothing to serve; nothing where it has a policy and its
/// word for it.
pub open spec fn nothing_to_serve(dir: DirectoryView) -> Option<Seq<char>> {
    match dir.held {
        None => Some("this directory holds no policy yet"@),
        Some(held) => match dir.fresh {
            None => Some(
                "this node is not a directory of the policy it holds (version "@ + decimal(
                    held.policy.head.version as nat,
                ) + ")"@,
            ),
            Some(_) => None,
        },
    }
}

/// The answer to a holder of `have` that asks for the policy.
pub open spec fn policy_answer(dir: DirectoryView, have: u64) -> AnswerView {
    match nothing_to_serve(dir) {
        Some(reason) => AnswerView::Denied { reason },
        None => {
            let policy = dir.held->0.policy;
            let fresh = dir.fresh->0;
            match since_of(dir.db, policy, have) {
                SinceView::Current => AnswerView::Current { fresh },
                SinceView::Update(update) => AnswerView::PolicyUpdate { update, fresh },
                SinceView::Whole => AnswerView::Policy { policy, fresh },
            }
        },
    }
}

/// The answer to a caller whose view is of version `have`: nothing but freshness
/// where that is the newest; what changed where the head at `have` is kept and
/// what it showed is at hand; and else the whole view.
pub open spec fn view_answer(
    dir: DirectoryView,
    have: u64,
    newest: PolicyView,
    then: Option<PolicyView>,
) -> AnswerView {
    match nothing_to_serve(dir) {
        Some(reason) => AnswerView::Denied { reason },
        None => {
            let fresh = dir.fresh->0;
            if have >= version_of(dir) {
                AnswerView::Current { fresh }
            } else if head_at(dir.db.heads, have) is Some && then is Some {
                AnswerView::ViewUpdate { update: update_between(newest, then->0), fresh }
            } else {
                AnswerView::View { view: newest, fresh }
            }
        },
    }
}

/// The answer to a caller that asks for the service of one name.
pub open spec fn resolve_answer(
    dir: DirectoryView,
    name: Seq<char>,
    newest: PolicyView,
) -> AnswerView {
    match nothing_to_serve(dir) {
        Some(reason) => AnswerView::Denied { reason },
        None => AnswerView::Resolved {
            entry: item_under(by_key(newest.items), name),
            fresh: dir.fresh->0,
        },
    }
}

/// The value of a policy, if there is one.
pub open spec fn maybe_policy(policy: Option<SignedPolicy>) -> Option<PolicyView> {
    match policy {
        Some(policy) => Some(policy@),
        None => None,
    }
}

/// From any version of its view a caller may have, what it is answered brings it
/// to its newest view: a whole view is that view, and an update makes it of the
/// view at the kept head. Asked of the views is only that no two entries of one
/// differ under one name.
pub proof fn a_refresh_reaches_the_newest_view(
    dir: DirectoryView,
    have: u64,
    newest: PolicyView,
    then: Option<PolicyView>,
)
    requires
        sound(dir),
        one_each(newest.items),
        then matches Some(old) ==> one_each(old.items),
    ensures
        match view_answer(dir, have, newest, then) {
            AnswerView::Denied { .. } => dir.fresh is None,
            AnswerView::Current { fresh } => dir.fresh == Some(fresh) && have >= version_of(dir),
            AnswerView::View { view, fresh } => {
                &&& dir.fresh == Some(fresh)
                &&& have < version_of(dir)
                &&& view == newest
                &&& head_at(dir.db.heads, have) is None || then is None
            },
            AnswerView::ViewUpdate { update, fresh } => {
                &&& dir.fresh == Some(fresh)
                &&& have < version_of(dir)
                &&& head_at(dir.db.heads, have) is Some
                &&& update.head == newest.head
                &&& updated(by_key(then->0.items), update) == by_key(newest.items)
            },
            _ => false,
        },
{
    if let Some(old) = then {
        an_update_reaches_the_newer_policy(newest, old);
    }
}

/// The answer to a request.
pub open spec fn answered(dir: DirectoryView, request: Request, now: i64) -> AnswerView {
    match request {
        Request::Publish { policy, checked } => match checked {
            Checked::Good(_) => AnswerView::Published {
                version: version_of(offered(dir, policy@, checked, now)),
            },
            _ => AnswerView::Denied {
                reason: "the published policy was refused: "@ + checked.said(),
            },
        },
        Request::Head => match nothing_to_serve(dir) {
            Some(reason) => AnswerView::Denied { reason },
            None => AnswerView::Head { head: dir.held->0.policy.head, fresh: dir.fresh->0 },
        },
        Request::Policy { have } => policy_answer(dir, have),
        Request::Slice => AnswerView::Denied { reason: NOT_YET@ },
        Request::View { have, newest, then } => view_answer(
            dir,
            have,
            newest@,
            maybe_policy(then),
        ),
        Request::Resolve { name, newest } => resolve_answer(dir, name@, newest@),
        Request::Hello => AnswerView::Denied { reason: "a second hello"@ },
    }
}

/// A directory after a request.
pub open spec fn after_request(dir: DirectoryView, request: Request, now: i64) -> DirectoryView {
    match request {
        Request::Publish { policy, checked } => offered(dir, policy@, checked, now),
        _ => dir,
    }
}

/// `now` and `secs` later, or the last moment there is.
fn add_secs(now: i64, secs: u32) -> (then: i64)
    ensures
        then == later(now, secs),
{
    match now.checked_add(secs as i64) {
        Some(then) => then,
        None => i64::MAX,
    }
}

/// What `me` signs for `held` at `now`.
pub fn sign_fresh(me: NodeId, held: &Held, now: i64) -> (fresh: Option<Fresh>)
    ensures
        fresh == vouched(me, held@, now),
{
    if held.policy.head.lists(&me) {
        Some(
            Fresh {
                directory: me,
                version: held.policy.version(),
                at: now,
                until: add_secs(now, held.fresh_secs),
            },
        )
    } else {
        None
    }
}

/// The store a directory opens on: `db`, or, where the node's own policy is
/// newer and has not run out, `db` with that stored.
pub open spec fn seeded(db: DbView, own: Option<(PolicyView, bool)>) -> DbView {
    match own {
        Some((policy, unexpired)) => if unexpired {
            stored(db, policy)
        } else {
            db
        },
        None => db,
    }
}

/// Put the node's own policy into the store it opens on, where it is newer and
/// has not run out.
pub fn seed(db: &mut DirectoryDb, own: &Option<(SignedPolicy, bool)>)
    requires
        old(db).wf(),
    ensures
        final(db).wf(),
        final(db)@ == seeded(
            old(db)@,
            match *own {
                Some((policy, unexpired)) => Some((policy@, unexpired)),
                None => None,
            },
        ),
{
    if let Some((policy, unexpired)) = own {
        if *unexpired {
            let _ = db.store(policy);
        }
    }
}

/// Why a directory does not open.
#[derive(Debug)]
pub enum OpenError {
    /// The store lacks an item of its newest head.
    Lacks(LacksItem),
    /// The policy it has newest does not verify.
    Fails(String),
}

impl OpenError {
    /// What it reads as.
    pub open spec fn said(&self) -> Seq<char> {
        match *self {
            OpenError::Lacks(lacks) => lacks.said(),
            OpenError::Fails(why) => "directory.redb holds a policy that fails: "@ + why@,
        }
    }

    /// What it reads as.
    pub fn text(&self) -> (text: String)
        ensures
            text@ == self.said(),
    {
        match self {
            OpenError::Lacks(lacks) => lacks.text(),
            OpenError::Fails(why) => {
                let mut text = "directory.redb holds a policy that fails: ".to_owned();
                text.append(why.as_str());
                text
            },
        }
    }
}

impl Checked {
    /// Why a policy is refused.
    pub fn text(&self) -> (text: String)
        ensures
            text@ == self.said(),
    {
        match self {
            Checked::Good(_) => {
                let text = String::new();
                assert(text@ =~= Seq::<char>::empty());
                text
            },
            Checked::Failed(why) => why.clone(),
            Checked::Expired(why) => {
                let mut text = "the published policy has expired: ".to_owned();
                text.append(why.as_str());
                text
            },
        }
    }
}

impl Directory {
    /// The store is in order, and what holds of every directory holds.
    pub closed spec fn wf(&self) -> bool {
        &&& self.db.wf()
        &&& sound(self@)
    }

    /// A well-formed directory is sound.
    pub proof fn is_sound(&self)
        requires
            self.wf(),
        ensures
            sound(self@),
    {
    }

    /// Open a directory on its store. `verified` is what verifying the store's
    /// newest policy under the root found; it does not matter where the store
    /// has none.
    pub fn open(
        me: NodeId,
        root: NodeId,
        db: DirectoryDb,
        verified: Result<Settings, String>,
        max_subscribers: usize,
        now: i64,
    ) -> (opened: Result<Directory, OpenError>)
        requires
            db.wf(),
        ensures
            opened is Ok == (db@.version == 0 || (head_complete(db@, db@.heads.last())
                && verified is Ok)),
            (opened matches Ok(dir) ==> {
                &&& dir.wf()
                &&& complete(dir@.db) == complete(db@)
                &&& forall|pool: Set<PolicyView>| #[trigger]
                    kept_from(db@, pool) ==> took_from(dir@, pool)
                &&& dir@ == beaten(
                    DirectoryView {
                        me,
                        root,
                        db: db@,
                        held: if db@.version == 0 {
                            None
                        } else {
                            Some(verified->Ok_0.with(rebuilt(db@, db@.heads.last())))
                        },
                        fresh: None,
                        accepts: 0,
                        max_subscribers,
                    },
                    now,
                )
            }),
            (opened matches Err(OpenError::Lacks(lacks)) ==> reads_row(
                db@,
                db@.heads.last(),
                Err(lacks),
            )),
            (opened matches Err(OpenError::Fails(why)) ==> head_complete(db@, db@.heads.last())
                && why@ == verified->Err_0@),
    {
        proof {
            db.keeps_heads_in_order();
        }
        let found = db.current();
        let held = match found {
            Err(lacks) => {
                proof {
                    newest_row(db@);
                }
                return Err(OpenError::Lacks(lacks));
            },
            Ok(None) => {
                proof {
                    if db@.version != 0 {
                        newest_row(db@);
                    }
                }
                None
            },
            Ok(Some(policy)) => {
                proof {
                    newest_row(db@);
                }
                match verified {
                    Err(why) => {
                        return Err(OpenError::Fails(why));
                    },
                    Ok(settings) => Some(
                        Held {
                            policy,
                            fresh_secs: settings.fresh_secs,
                            beat_secs: settings.beat_secs,
                            bans: settings.bans,
                        },
                    ),
                }
            },
        };
        let mut dir = Directory { me, root, db, held, fresh: None, accepts: 0, max_subscribers };
        dir.renew(now);
        proof {
            assert forall|pool: Set<PolicyView>| #[trigger]
                kept_from(db@, pool) implies took_from(dir@, pool) by {
                same_but_fresh(db@, dir@.db, pool);
            }
        }
        Ok(dir)
    }

    /// Sign a new freshness for the held policy, and keep it.
    fn renew(&mut self, now: i64)
        requires
            old(self).db.wf(),
        ensures
            final(self).db.wf(),
            final(self)@ == beaten(old(self)@, now),
            complete(final(self)@.db) == complete(old(self)@.db),
    {
        let fresh = match &self.held {
            None => {
                return;
            },
            Some(held) => sign_fresh(self.me, held, now),
        };
        if let Some(fresh) = fresh {
            self.db.set_fresh(fresh);
        }
        self.fresh = fresh;
        assert(self@ =~= beaten(old(self)@, now));
    }
}

impl Directory {
    /// This directory's node.
    pub fn id(&self) -> (me: NodeId)
        ensures
            me == self@.me,
    {
        self.me
    }

    /// The root everything verifies under.
    pub fn root(&self) -> (root: NodeId)
        ensures
            root == self@.root,
    {
        self.root
    }

    /// The version it holds; 0 before the first.
    pub fn version(&self) -> (version: u64)
        ensures
            version == version_of(self@),
    {
        match &self.held {
            Some(held) => held.policy.version(),
            None => 0,
        }
    }

    /// What it holds.
    pub fn held(&self) -> (held: Option<&Held>)
        ensures
            (held matches Some(h) ==> self@.held == Some(h@)),
            held is None ==> self@.held is None,
    {
        match &self.held {
            Some(held) => Some(held),
            None => None,
        }
    }

    /// Its word for what it holds.
    pub fn fresh(&self) -> (fresh: Option<Fresh>)
        ensures
            fresh == self@.fresh,
    {
        self.fresh
    }

    /// Its store.
    pub fn db(&self) -> (db: &DirectoryDb)
        ensures
            db@ == self@.db,
            self.wf() ==> db.wf(),
    {
        &self.db
    }

    /// How many policies it has taken since it opened.
    pub fn accepted(&self) -> (n: u64)
        ensures
            n == self@.accepts,
    {
        self.accepts
    }

    /// How many subscribers it follows at once.
    pub fn max_subscribers(&self) -> (n: usize)
        ensures
            n == self@.max_subscribers,
    {
        self.max_subscribers
    }

    /// Whether the policy it holds lists `node` as a directory.
    pub fn lists(&self, node: &NodeId) -> (listed: bool)
        ensures
            listed == listed_in(self@, *node),
    {
        match &self.held {
            Some(held) => held.policy.head.lists(node),
            None => false,
        }
    }

    /// Sign a new freshness for the held policy, and keep it. One whose head
    /// does not list this node gets none.
    pub fn beat(&mut self, now: i64)
        requires
            old(self).wf(),
        ensures
            final(self).wf(),
            final(self)@ == beaten(old(self)@, now),
            complete(final(self)@.db) == complete(old(self)@.db),
    {
        proof {
            a_beat_keeps_a_directory_sound(self@, now);
        }
        self.renew(now);
    }

    /// Take a candidate that verified and is strictly newer than the held
    /// policy: store it and sign a freshness for it. Whether it was newer, or
    /// why it is refused.
    pub fn accept(&mut self, candidate: &SignedPolicy, checked: &Checked, now: i64) -> (took: Result<
        bool,
        String,
    >)
        requires
            old(self).wf(),
        ensures
            final(self).wf(),
            final(self)@ == offered(old(self)@, candidate@, *checked, now),
            complete(old(self)@.db) ==> complete(final(self)@.db),
            took is Ok == checked is Good,
            (took matches Ok(newer) ==> newer == (candidate@.head.version > version_of(
                old(self)@,
            ))),
            (took matches Err(why) ==> why@ == checked.said()),
    {
        proof {
            a_policy_keeps_a_directory_sound(self@, candidate@, *checked, now);
        }
        let settings = match checked {
            Checked::Good(settings) => settings,
            _ => {
                return Err(checked.text());
            },
        };
        if !self.db.store(candidate) {
            assert(self@ =~= old(self)@);
            return Ok(false);
        }
        self.accepts = self.accepts + 1;
        self.held = Some(
            Held {
                policy: candidate.copy(),
                fresh_secs: settings.fresh_secs,
                beat_secs: settings.beat_secs,
                bans: copy_nodes(&settings.bans),
            },
        );
        self.fresh = None;
        self.renew(now);
        assert(self@ =~= offered(old(self)@, candidate@, *checked, now));
        Ok(true)
    }

    /// Whether the policy it holds bans `node`.
    pub fn bans(&self, node: &NodeId) -> (banned: bool)
        ensures
            banned == banned_by(self@, *node),
    {
        match &self.held {
            None => false,
            Some(held) => {
                let mut i: usize = 0;
                while i < held.bans.len()
                    invariant
                        i <= held.bans@.len(),
                        self@.held == Some(held@),
                        forall|j: int| 0 <= j < i ==> held.bans@[j] != *node,
                    decreases held.bans@.len() - i,
                {
                    if held.bans[i].same(node) {
                        assert(held.bans@[i as int] == *node);
                        return true;
                    }
                    i += 1;
                }
                false
            },
        }
    }

    /// Whether `caller` is admitted, given what checking its badge under the root
    /// found, by the policy held now. Why not is for this node's trace alone.
    pub fn admission(&self, caller: NodeId, badge: &Result<(), String>) -> (admitted: Result<
        (),
        String,
    >)
        ensures
            admitted is Ok == not_admitted(self@, caller, *badge) is None,
            (admitted matches Err(why) ==> not_admitted(self@, caller, *badge) == Some(why@)),
    {
        let mut text = crate::printer::short_id(caller);
        text.append("… is not admitted: ");
        match badge {
            Err(why) => {
                text.append(why.as_str());
                Err(text)
            },
            Ok(_) => if self.bans(&caller) {
                text.append("the policy bans it");
                Err(text)
            } else {
                Ok(())
            },
        }
    }

    /// Why there is nothing to serve, if there is nothing.
    fn refusal(&self) -> (reason: Option<String>)
        ensures
            crate::text::maybe_text(reason) == nothing_to_serve(self@),
    {
        match &self.held {
            None => Some("this directory holds no policy yet".to_owned()),
            Some(held) => match &self.fresh {
                Some(_) => None,
                None => {
                    let mut text =
                        "this node is not a directory of the policy it holds (version ".to_owned();
                    text.append(decimal_text(held.policy.version()).as_str());
                    text.append(")");
                    Some(text)
                },
            },
        }
    }

    /// What the held policy is to a holder of `have`. An older policy that
    /// cannot be read gives [`Since::Whole`].
    pub fn since(&self, have: u64) -> (since: Since)
        requires
            self.wf(),
            self@.held is Some,
        ensures
            since@ == since_of(self@.db, self@.held->0.policy, have),
    {
        proof {
            self.db.keeps_heads_in_order();
        }
        match &self.held {
            None => Since::Current,
            Some(held) => {
                if have >= held.policy.version() {
                    return Since::Current;
                }
                if have == 0 {
                    return Since::Whole;
                }
                match self.db.policy_at(have) {
                    Ok(Some(older)) => Since::Update(held.policy.update_from(&older)),
                    _ => Since::Whole,
                }
            },
        }
    }

    /// The answer to a holder of `have` that asks for the policy.
    fn policy_since(&self, have: u64) -> (answer: Answer)
        requires
            self.wf(),
        ensures
            answer@ == policy_answer(self@, have),
    {
        match self.refusal() {
            Some(reason) => {
                return Answer::Denied { reason };
            },
            None => {},
        }
        match (&self.held, self.fresh) {
            (Some(held), Some(fresh)) => match self.since(have) {
                Since::Current => Answer::Current { fresh },
                Since::Update(update) => Answer::PolicyUpdate { update, fresh },
                Since::Whole => Answer::Policy { policy: held.policy.copy(), fresh },
            },
            _ => Answer::Denied { reason: String::new() },
        }
    }

    /// Whether the head at `version` is kept.
    pub fn keeps(&self, version: u64) -> (kept: bool)
        requires
            self.wf(),
        ensures
            kept == (head_at(self@.db.heads, version) is Some),
    {
        self.db.keeps(version)
    }

    /// The answer to a caller whose view is of version `have`.
    fn view_since(&self, have: u64, newest: SignedPolicy, then: Option<SignedPolicy>) -> (answer:
        Answer)
        requires
            self.wf(),
        ensures
            answer@ == view_answer(self@, have, newest@, maybe_policy(then)),
    {
        match self.refusal() {
            Some(reason) => {
                return Answer::Denied { reason };
            },
            None => {},
        }
        match self.fresh {
            Some(fresh) => {
                if have >= self.version() {
                    return Answer::Current { fresh };
                }
                if self.keeps(have) {
                    if let Some(old) = &then {
                        return Answer::ViewUpdate { update: newest.update_from(old), fresh };
                    }
                }
                Answer::View { view: newest, fresh }
            },
            None => Answer::Denied { reason: String::new() },
        }
    }

    /// The answer to a caller that asks for the service of one name.
    fn resolve(&self, name: &str, newest: &SignedPolicy) -> (answer: Answer)
        ensures
            answer@ == resolve_answer(self@, name@, newest@),
    {
        match self.refusal() {
            Some(reason) => {
                return Answer::Denied { reason };
            },
            None => {},
        }
        match self.fresh {
            Some(fresh) => Answer::Resolved { entry: newest.find(name), fresh },
            None => Answer::Denied { reason: String::new() },
        }
    }

    /// The newest head and the word for it.
    fn head_answer(&self) -> (answer: Answer)
        ensures
            answer@ == answered(self@, Request::Head, 0),
    {
        match self.refusal() {
            Some(reason) => {
                return Answer::Denied { reason };
            },
            None => {},
        }
        match (&self.held, self.fresh) {
            (Some(held), Some(fresh)) => Answer::Head { head: held.policy.head.copy(), fresh },
            _ => Answer::Denied { reason: String::new() },
        }
    }

    /// The answer to one request from a node that was admitted.
    pub fn answer(&mut self, request: Request, now: i64) -> (answer: Answer)
        requires
            old(self).wf(),
        ensures
            final(self).wf(),
            final(self)@ == after_request(old(self)@, request, now),
            complete(old(self)@.db) ==> complete(final(self)@.db),
            answer@ == answered(old(self)@, request, now),
    {
        match request {
            Request::Publish { policy, checked } => match self.accept(&policy, &checked, now) {
                Ok(_) => Answer::Published { version: self.version() },
                Err(why) => {
                    let mut reason = "the published policy was refused: ".to_owned();
                    reason.append(why.as_str());
                    Answer::Denied { reason }
                },
            },
            Request::Head => self.head_answer(),
            Request::Policy { have } => self.policy_since(have),
            Request::Slice => Answer::Denied { reason: NOT_YET.to_owned() },
            Request::View { have, newest, then } => self.view_since(have, newest, then),
            Request::Resolve { name, newest } => self.resolve(name.as_str(), &newest),
            Request::Hello => Answer::Denied { reason: "a second hello".to_owned() },
        }
    }
}

/// Whether the policy a directory holds lists `node` as a directory.
pub open spec fn listed_in(dir: DirectoryView, node: NodeId) -> bool {
    dir.held is Some && dir.held->0.policy.head.directories.contains(node)
}

/// The newest head of a store that has one is its last.
proof fn newest_row(db: DbView)
    requires
        heads_in_order(db),
        db.version != 0,
    ensures
        head_at(db.heads, db.version) == Some(db.heads.len() - 1),
{
    let last = db.heads.len() - 1;
    assert(db.heads[last].head.version == db.version);
    let at = head_at(db.heads, db.version)->0;
    assert(db.heads[at].head.version == db.version);
}

/// What a beat does: a directory that holds nothing is left as it is; one that its
/// policy lists vouches anew, from now and for as long as the policy says, and keeps
/// that; one that its policy does not list vouches no more. Nothing else changes.
pub proof fn a_beat_vouches_anew(dir: DirectoryView, now: i64)
    ensures
        ({
            let after = beaten(dir, now);
            let lists = dir.held is Some && dir.held->0.policy.head.directories.contains(dir.me);
            &&& after.me == dir.me && after.root == dir.root && after.held == dir.held
            &&& after.accepts == dir.accepts && after.max_subscribers == dir.max_subscribers
            &&& after.db.version == dir.db.version && after.db.heads == dir.db.heads
            &&& after.db.items == dir.db.items && after.db.current == dir.db.current
            &&& dir.held is None ==> after.fresh == dir.fresh && after.db.fresh == dir.db.fresh
            &&& dir.held is Some && !lists ==> after.fresh is None && after.db.fresh
                == dir.db.fresh
            &&& lists ==> {
                let end = now + dir.held->0.fresh_secs;
                &&& after.fresh is Some && after.db.fresh == after.fresh
                &&& after.fresh->0.directory == dir.me
                &&& after.fresh->0.version == dir.held->0.policy.head.version
                &&& after.fresh->0.at == now
                &&& end <= i64::MAX ==> after.fresh->0.until == end
                &&& end > i64::MAX ==> after.fresh->0.until == i64::MAX
            }
        }),
{
}

/// What a published policy does: one that does not hold, and one that is not newer
/// than what is kept, change nothing; any other is held from then on, with its bans
/// and periods, counted, stored, and vouched for where it lists this directory.
pub proof fn a_newer_policy_is_taken(
    dir: DirectoryView,
    policy: PolicyView,
    checked: Checked,
    now: i64,
)
    requires
        sound(dir),
    ensures
        ({
            let after = offered(dir, policy, checked, now);
            let taken = checked is Good && policy.head.version > dir.db.version;
            &&& !taken ==> after == dir
            &&& taken ==> {
                let settings = checked->Good_0;
                let held = after.held->0;
                let end = now + settings.fresh_secs;
                &&& after.held is Some
                &&& held.policy == policy
                &&& held.fresh_secs == settings.fresh_secs && held.beat_secs == settings.beat_secs
                &&& held.bans == settings.bans@
                &&& after.accepts == dir.accepts + 1
                &&& after.db.version == policy.head.version
                &&& after.db.heads.last().head == policy.head
                &&& after.me == dir.me && after.root == dir.root
                &&& after.max_subscribers == dir.max_subscribers
                &&& after.fresh is Some == policy.head.directories.contains(dir.me)
                &&& after.fresh is None ==> after.db.fresh == dir.db.fresh
                &&& after.fresh matches Some(fresh) ==> {
                    &&& after.db.fresh == after.fresh
                    &&& fresh.directory == dir.me && fresh.version == policy.head.version
                    &&& fresh.at == now
                    &&& end <= i64::MAX ==> fresh.until == end
                    &&& end > i64::MAX ==> fresh.until == i64::MAX
                }
            }
        }),
{
    crate::db::a_newer_policy_is_the_last_head(dir.db, policy, 0);
}

/// A caller is admitted exactly with a good badge and unbanned, and one that is not
/// is told why.
pub proof fn a_good_badge_without_a_ban_admits(
    dir: DirectoryView,
    caller: NodeId,
    badge: Result<(), String>,
)
    ensures
        ({
            let refused = not_admitted(dir, caller, badge);
            let banned = dir.held is Some && dir.held->0.bans.contains(caller);
            &&& refused is None <==> badge is Ok && !banned
            &&& badge is Err ==> refused->0.len() >= badge->Err_0@.len() && refused->0.skip(
                refused->0.len() - badge->Err_0@.len(),
            ) == badge->Err_0@
        }),
{
    if let Err(why) = badge {
        let text = not_admitted(dir, caller, badge)->0;
        assert(text.skip(text.len() - why@.len()) =~= why@);
    }
}

/// What each request is answered: a publish says the version held after it, or is
/// refused; a directory that holds nothing, or does not vouch, serves nothing; the
/// head is the held one; a policy comes whole, as an update, or not at all to one
/// that has it; an entry is the last of its name; and everything that is served
/// carries the directory's own freshness. Only a publish changes the directory.
pub proof fn each_request_is_answered(dir: DirectoryView, request: Request, now: i64)
    requires
        sound(dir),
    ensures
        ({
            let answer = answered(dir, request, now);
            let serves = dir.held is Some && dir.fresh is Some;
            let fresh = dir.fresh->0;
            let held = dir.held->0.policy;
            match request {
                Request::Publish { policy, checked } => {
                    let version = if policy@.head.version > dir.db.version {
                        policy@.head.version
                    } else {
                        dir.db.version
                    };
                    &&& checked is Good ==> answer == (AnswerView::Published { version })
                    &&& !(checked is Good) ==> answer is Denied && after_request(dir, request, now)
                        == dir
                },
                Request::Head => {
                    &&& serves ==> answer == (AnswerView::Head { head: held.head, fresh })
                    &&& !serves ==> answer is Denied
                },
                Request::Policy { have } => {
                    &&& !serves ==> answer is Denied
                    &&& serves && have >= held.head.version ==> answer == (AnswerView::Current {
                        fresh,
                    })
                    &&& serves && have == 0 && held.head.version > 0 ==> answer == (
                    AnswerView::Policy { policy: held, fresh })
                    &&& serves ==> match since_of(dir.db, held, have) {
                        SinceView::Current => answer == (AnswerView::Current { fresh }),
                        SinceView::Update(update) => answer == (AnswerView::PolicyUpdate {
                            update,
                            fresh,
                        }),
                        SinceView::Whole => answer == (AnswerView::Policy { policy: held, fresh }),
                    }
                    &&& serves && have < held.head.version ==> match answer {
                        AnswerView::Policy { policy, fresh: word } => policy == held && word
                            == fresh,
                        AnswerView::PolicyUpdate { update, fresh: word } => update.head == held.head
                            && word == fresh && have > 0,
                        _ => false,
                    }
                },
                Request::View { have, newest, then } => {
                    &&& !serves ==> answer is Denied
                    &&& serves && have >= held.head.version ==> answer == (AnswerView::Current {
                        fresh,
                    })
                    &&& serves && have < held.head.version ==> match answer {
                        AnswerView::View { view, fresh: word } => view == newest@ && word == fresh
                            && (then is None || forall|k: int|
                            0 <= k < dir.db.heads.len() ==> (#[trigger] dir.db.heads[k]).head.version
                                != have),
                        AnswerView::ViewUpdate { update, fresh: word } => then is Some && update
                            == update_between(newest@, then->0@) && word == fresh && exists|k: int|
                            0 <= k < dir.db.heads.len() && (#[trigger] dir.db.heads[k]).head.version
                                == have,
                        _ => false,
                    }
                },
                Request::Resolve { name, newest } => {
                    &&& !serves ==> answer is Denied
                    &&& serves ==> (answer matches AnswerView::Resolved { entry, fresh: word }
                        && word == fresh && entry == item_under(by_key(newest@.items), name@))
                },
                Request::Slice | Request::Hello => answer is Denied,
            }
        }),
        !(request is Publish) ==> after_request(dir, request, now) == dir,
{
    if let Request::Publish { policy, checked } = request {
        a_newer_policy_is_taken(dir, policy@, checked, now);
        a_policy_keeps_a_directory_sound(dir, policy@, checked, now);
    }
}

/// What a directory starts from: its own policy where it is newer and has not
/// expired, and what it kept where not.
pub proof fn only_an_unexpired_policy_seeds(db: DbView, own: Option<(PolicyView, bool)>)
    ensures
        own is None ==> seeded(db, own) == db,
        own matches Some((policy, unexpired)) ==> {
            let now = seeded(db, own);
            &&& !unexpired || policy.head.version <= db.version ==> now == db
            &&& unexpired && policy.head.version > db.version ==> now.version
                == policy.head.version && now.heads.last().head == policy.head
        },
{
    if let Some((policy, unexpired)) = own {
        crate::db::a_newer_policy_is_the_last_head(db, policy, 0);
    }
}

/// A directory lists a node exactly where the policy it holds does, and without one
/// it lists nobody and is at version zero.
pub proof fn a_held_policy_lists_the_directories(dir: DirectoryView, node: NodeId)
    ensures
        dir.held is None ==> !listed_in(dir, node) && version_of(dir) == 0,
        dir.held matches Some(held) ==> listed_in(dir, node)
            == held.policy.head.directories.contains(node) && version_of(dir)
            == held.policy.head.version,
{
}

/// What is wrong with a policy is said as it was found, and of an expired one that it
/// has expired; a kept policy that fails is said to be one that was kept.
pub proof fn a_refused_policy_is_told_why(why: String)
    ensures
        Checked::Failed(why).said() == why@,
        Checked::Expired(why).said() == "the published policy has expired: "@ + why@,
        OpenError::Fails(why).said() == "directory.redb holds a policy that fails: "@ + why@,
{
}

} // verus!
