//! What a directory sends its subscribers: a host that follows the policy,
//! another directory that follows it as a replica, and a caller that follows
//! its view.

use vstd::prelude::*;

use crate::db::Fresh;
use crate::directory::{
    listed_in, maybe_policy, since_of, sound, version_of, Directory, DirectoryView, Since,
    SinceView,
};
use crate::envelope::copy_bytes;
use crate::ids::NodeId;
use crate::policy::{
    an_update_reaches_the_newer_policy, by_key, one_each, update_between, updated, PolicyUpdate,
    PolicyView, SignedPolicy, UpdateView,
};
use crate::text::{decimal, decimal_text};

verus! {

/// How many encoded frames a directory keeps for its subscribers.
pub const CACHED_FRAMES: usize = 8;

/// What a subscriber of this directory hears when it can no longer vouch.
pub const NO_LONGER: &'static str = "no longer a directory of this network";

/// A frame of a subscription.
#[derive(Debug)]
#[allow(inconsistent_fields)]
pub enum SubFrame {
    /// Nothing new but freshness.
    Fresh { fresh: Fresh },
    /// The delta to the newest policy.
    PolicyUpdate { update: PolicyUpdate, fresh: Fresh },
    /// The newest policy whole.
    Policy { policy: SignedPolicy, fresh: Fresh },
    /// What changed since the caller's last view.
    ViewUpdate { update: PolicyUpdate, fresh: Fresh },
    /// The caller's newest view whole.
    View { view: SignedPolicy, fresh: Fresh },
}

/// A frame, as values.
#[allow(inconsistent_fields)]
pub ghost enum FrameView {
    Fresh { fresh: Fresh },
    PolicyUpdate { update: UpdateView, fresh: Fresh },
    Policy { policy: PolicyView, fresh: Fresh },
    ViewUpdate { update: UpdateView, fresh: Fresh },
    View { view: PolicyView, fresh: Fresh },
}

impl View for SubFrame {
    type V = FrameView;

    open spec fn view(&self) -> FrameView {
        match *self {
            SubFrame::Fresh { fresh } => FrameView::Fresh { fresh },
            SubFrame::PolicyUpdate { update, fresh } => FrameView::PolicyUpdate {
                update: update@,
                fresh,
            },
            SubFrame::Policy { policy, fresh } => FrameView::Policy { policy: policy@, fresh },
            SubFrame::ViewUpdate { update, fresh } => FrameView::ViewUpdate {
                update: update@,
                fresh,
            },
            SubFrame::View { view, fresh } => FrameView::View { view: view@, fresh },
        }
    }
}

/// The frame for a subscriber at `sent` that the directory is not behind of.
pub open spec fn frame_for(dir: DirectoryView, fresh: Fresh, sent: u64) -> FrameView {
    let policy = dir.held->0.policy;
    match since_of(dir.db, policy, sent) {
        SinceView::Current => FrameView::Fresh { fresh },
        SinceView::Update(update) => FrameView::PolicyUpdate { update, fresh },
        SinceView::Whole => FrameView::Policy { policy, fresh },
    }
}

/// The frame a subscriber at `sent` gets, and the version it then holds;
/// nothing where it holds a newer head than the directory.
pub fn next_frame(dir: &Directory, fresh: Fresh, sent: u64) -> (next: Option<(SubFrame, u64)>)
    requires
        dir.wf(),
        dir@.held is Some,
    ensures
        next is None == (sent > version_of(dir@)),
        (next matches Some((frame, to)) ==> to == version_of(dir@) && frame@ == frame_for(
            dir@,
            fresh,
            sent,
        )),
{
    let version: u64 = dir.version();
    if sent > version {
        return None;
    }
    let frame = match dir.since(sent) {
        Since::Current => SubFrame::Fresh { fresh },
        Since::Update(update) => SubFrame::PolicyUpdate { update, fresh },
        Since::Whole => match dir.held() {
            Some(held) => SubFrame::Policy { policy: held.policy.copy(), fresh },
            None => SubFrame::Fresh { fresh },
        },
    };
    Some((frame, version))
}

/// What an encoded frame is for: the version the subscriber held, the version
/// it moves to, and when the freshness in it was signed.
#[derive(Clone, Copy, Debug, PartialEq, Eq, Structural)]
pub struct FrameKey {
    pub have: u64,
    pub head: u64,
    pub at: i64,
}

/// The encoded frames that subscribers share, newest last.
#[derive(Debug)]
pub struct FrameCache {
    frames: Vec<(FrameKey, Vec<u8>)>,
}

impl View for FrameCache {
    type V = Seq<(FrameKey, Seq<u8>)>;

    closed spec fn view(&self) -> Seq<(FrameKey, Seq<u8>)> {
        self.frames@.map_values(|frame: (FrameKey, Vec<u8>)| (frame.0, frame.1@))
    }
}

/// Frames that are for something else than `key`.
pub open spec fn other_than(key: FrameKey) -> spec_fn((FrameKey, Seq<u8>)) -> bool {
    |frame: (FrameKey, Seq<u8>)| frame.0 != key
}

/// The last [`CACHED_FRAMES`] of a list.
pub open spec fn last_frames(frames: Seq<(FrameKey, Seq<u8>)>) -> Seq<(FrameKey, Seq<u8>)> {
    if frames.len() <= CACHED_FRAMES {
        frames
    } else {
        frames.skip(frames.len() - CACHED_FRAMES)
    }
}

/// A cache after a frame was kept: in place of an earlier one for the same, and
/// of the oldest where there would be too many.
pub open spec fn frame_kept(
    frames: Seq<(FrameKey, Seq<u8>)>,
    key: FrameKey,
    bytes: Seq<u8>,
) -> Seq<(FrameKey, Seq<u8>)> {
    last_frames(frames.filter(other_than(key)).push((key, bytes)))
}

/// Where a cache has a frame for `key`.
pub open spec fn frame_of(frames: Seq<(FrameKey, Seq<u8>)>, key: FrameKey) -> Option<Seq<u8>> {
    if exists|i: int| 0 <= i < frames.len() && (#[trigger] frames[i]).0 == key {
        Some(frames[choose|i: int| 0 <= i < frames.len() && (#[trigger] frames[i]).0 == key].1)
    } else {
        None
    }
}

/// No two frames of a cache are for the same, and there are no more than are
/// kept.
pub open spec fn cache_in_order(frames: Seq<(FrameKey, Seq<u8>)>) -> bool {
    &&& frames.len() <= CACHED_FRAMES
    &&& forall|i: int, j: int|
        0 <= i < j < frames.len() ==> (#[trigger] frames[i]).0 != (#[trigger] frames[j]).0
}

/// Frames that pass a filter stay apart.
proof fn filter_keeps_apart(frames: Seq<(FrameKey, Seq<u8>)>, key: FrameKey)
    requires
        forall|i: int, j: int|
            0 <= i < j < frames.len() ==> (#[trigger] frames[i]).0 != (#[trigger] frames[j]).0,
    ensures
        ({
            let rest = frames.filter(other_than(key));
            &&& rest.len() <= frames.len()
            &&& forall|i: int, j: int|
                0 <= i < j < rest.len() ==> (#[trigger] rest[i]).0 != (#[trigger] rest[j]).0
            &&& forall|i: int| 0 <= i < rest.len() ==> (#[trigger] rest[i]).0 != key
            &&& forall|i: int|
                0 <= i < rest.len() ==> frames.contains(#[trigger] rest[i])
        }),
    decreases frames.len(),
{
    reveal(Seq::filter);
    if frames.len() > 0 {
        let less = frames.drop_last();
        let rest = less.filter(other_than(key));
        let all = frames.filter(other_than(key));
        assert forall|i: int, j: int| 0 <= i < j < less.len() implies (#[trigger] less[i]).0 != (
        #[trigger] less[j]).0 by {
            assert(frames[i].0 != frames[j].0);
        }
        filter_keeps_apart(less, key);
        assert forall|i: int| 0 <= i < rest.len() implies frames.contains(#[trigger] rest[i]) by {
            let k = choose|k: int| 0 <= k < less.len() && less[k] == rest[i];
            assert(frames[k] == rest[i]);
        }
        if frames.last().0 != key {
            assert forall|i: int| 0 <= i < rest.len() implies (#[trigger] rest[i]).0
                != frames.last().0 by {
                let k = choose|k: int| 0 <= k < less.len() && less[k] == rest[i];
                assert(frames[k].0 != frames[frames.len() - 1].0);
            }
            assert(frames[frames.len() - 1] == frames.last());
        }
    }
}

/// Subscribers at one version share one frame: a frame that was kept is what
/// the next look for the same finds, and keeping it leaves the cache in order.
pub proof fn subscribers_at_one_version_share_one_frame(
    frames: Seq<(FrameKey, Seq<u8>)>,
    key: FrameKey,
    bytes: Seq<u8>,
)
    requires
        cache_in_order(frames),
    ensures
        cache_in_order(frame_kept(frames, key, bytes)),
        frame_of(frame_kept(frames, key, bytes), key) == Some(bytes),
{
    filter_keeps_apart(frames, key);
    let rest = frames.filter(other_than(key));
    let all = rest.push((key, bytes));
    let now = frame_kept(frames, key, bytes);
    let last = now.len() - 1;
    assert(now[last] == (key, bytes));
    assert forall|i: int, j: int| 0 <= i < j < all.len() implies (#[trigger] all[i]).0 != (
    #[trigger] all[j]).0 by {
        if j == rest.len() {
            assert(rest[i].0 != key);
        }
    }
    let at = choose|i: int| 0 <= i < now.len() && (#[trigger] now[i]).0 == key;
    assert(now[at].0 == now[last].0);
}

impl FrameCache {
    /// No two frames are for the same, and there are no more than are kept.
    pub closed spec fn wf(&self) -> bool {
        cache_in_order(self@)
    }

    /// A cache without a frame.
    pub fn new() -> (cache: FrameCache)
        ensures
            cache.wf(),
            cache@ == Seq::<(FrameKey, Seq<u8>)>::empty(),
    {
        let cache = FrameCache { frames: Vec::new() };
        assert(cache@ =~= Seq::<(FrameKey, Seq<u8>)>::empty());
        cache
    }

    /// The frame kept for `key`.
    pub fn find(&self, key: FrameKey) -> (found: Option<Vec<u8>>)
        requires
            self.wf(),
        ensures
            (found matches Some(bytes) ==> frame_of(self@, key) == Some(bytes@)),
            found is None ==> frame_of(self@, key) is None,
    {
        let mut i: usize = 0;
        while i < self.frames.len()
            invariant
                self.wf(),
                i <= self.frames@.len(),
                forall|j: int| 0 <= j < i ==> (#[trigger] self@[j]).0 != key,
            decreases self.frames@.len() - i,
        {
            if self.frames[i].0 == key {
                proof {
                    assert(self@[i as int].0 == key);
                    let at = choose|k: int| 0 <= k < self@.len() && (#[trigger] self@[k]).0 == key;
                    assert(at == i);
                }
                return Some(copy_bytes(&self.frames[i].1));
            }
            i += 1;
        }
        assert(self@.len() == self.frames@.len());
        None
    }

    /// Keep a frame.
    pub fn keep(&mut self, key: FrameKey, bytes: Vec<u8>)
        requires
            old(self).wf(),
        ensures
            final(self).wf(),
            final(self)@ == frame_kept(old(self)@, key, bytes@),
    {
        let ghost before = self@;
        proof {
            subscribers_at_one_version_share_one_frame(before, key, bytes@);
            reveal(Seq::filter);
        }
        let mut i: usize = 0;
        let ghost mut done: int = 0;
        assert(before.take(0) =~= Seq::<(FrameKey, Seq<u8>)>::empty());
        assert(self@.take(0) =~= before.take(0).filter(other_than(key)));
        assert(self@.skip(0) =~= before.skip(0));
        while i < self.frames.len()
            invariant
                i <= self.frames@.len(),
                0 <= done <= before.len(),
                i <= done,
                self@.len() - i == before.len() - done,
                self@.take(i as int) == before.take(done).filter(other_than(key)),
                self@.skip(i as int) == before.skip(done),
            decreases self.frames@.len() - i,
        {
            let ghost now = self@;
            proof {
                reveal(Seq::filter);
                assert(now.skip(i as int)[0] == before.skip(done)[0]);
                assert(now[i as int] == before[done]);
                assert(before.take(done + 1).drop_last() =~= before.take(done));
                assert(now.skip(i as int).drop_first() =~= now.skip(i + 1));
                assert(before.skip(done).drop_first() =~= before.skip(done + 1));
            }
            if self.frames[i].0 == key {
                let _ = self.frames.remove(i);
                proof {
                    assert(self@ =~= now.remove(i as int));
                    assert(self@.take(i as int) =~= now.take(i as int));
                    assert(self@.skip(i as int) =~= now.skip(i + 1));
                }
            } else {
                assert(now.take(i + 1) =~= now.take(i as int).push(now[i as int]));
                i += 1;
            }
            proof {
                done = done + 1;
            }
        }
        let ghost rest = self@;
        proof {
            assert(rest.take(rest.len() as int) =~= rest);
            assert(before.take(before.len() as int) =~= before);
            filter_keeps_apart(before, key);
        }
        self.frames.push((key, bytes));
        let ghost all = rest.push((key, bytes@));
        assert(self@ =~= all);
        if self.frames.len() > CACHED_FRAMES {
            let _ = self.frames.remove(0);
            assert(self@ =~= all.skip(1));
        }
        assert(self@ =~= frame_kept(before, key, bytes@));
    }
}

/// What to do next for a subscriber.
#[derive(Debug)]
#[allow(inconsistent_fields)]
pub enum FeedStep {
    /// Wait for the directory to change.
    Wait,
    /// End the subscription with this reason.
    Deny { reason: String },
    /// Send a frame that is encoded already.
    Ready { bytes: Vec<u8> },
    /// Encode this frame and send it; a frame with a key is kept under it.
    Send { frame: SubFrame, key: Option<FrameKey> },
}

/// What to do next, as values.
#[allow(inconsistent_fields)]
pub ghost enum StepView {
    Wait,
    Deny { reason: Seq<char> },
    Ready { bytes: Seq<u8> },
    Send { frame: FrameView, key: Option<FrameKey> },
}

impl View for FeedStep {
    type V = StepView;

    open spec fn view(&self) -> StepView {
        match *self {
            FeedStep::Wait => StepView::Wait,
            FeedStep::Deny { reason } => StepView::Deny { reason: reason@ },
            FeedStep::Ready { bytes } => StepView::Ready { bytes: bytes@ },
            FeedStep::Send { frame, key } => StepView::Send { frame: frame@, key },
        }
    }
}

/// What a frame for a subscriber at `sent` is kept under.
pub open spec fn key_for(dir: DirectoryView, fresh: Fresh, sent: u64) -> FrameKey {
    FrameKey { have: sent, head: version_of(dir), at: fresh.at }
}

/// The next step for a host at `sent` that follows the policy, and the version
/// it then holds.
pub open spec fn policy_step(
    dir: DirectoryView,
    cache: Seq<(FrameKey, Seq<u8>)>,
    sent: u64,
) -> (StepView, u64) {
    match (dir.held, dir.fresh) {
        (None, _) => (StepView::Wait, sent),
        (Some(_), None) => (StepView::Deny { reason: NO_LONGER@ }, sent),
        (Some(_), Some(fresh)) => if sent > version_of(dir) {
            (StepView::Wait, sent)
        } else {
            let key = key_for(dir, fresh, sent);
            let step = match frame_of(cache, key) {
                Some(bytes) => StepView::Ready { bytes },
                None => StepView::Send { frame: frame_for(dir, fresh, sent), key: Some(key) },
            };
            (step, version_of(dir))
        },
    }
}

/// The next step for the directory `caller` at `sent` that follows as a
/// replica, and the version it then holds: the whole policy whenever it moves
/// past what was sent, and else freshness.
pub open spec fn replica_step(dir: DirectoryView, caller: NodeId, sent: u64) -> (StepView, u64) {
    if !listed_in(dir, caller) {
        (StepView::Deny { reason: NO_LONGER@ }, sent)
    } else {
        match dir.fresh {
            None => (StepView::Wait, sent),
            Some(fresh) => if version_of(dir) > sent {
                (
                    StepView::Send {
                        frame: FrameView::Policy { policy: dir.held->0.policy, fresh },
                        key: None,
                    },
                    version_of(dir),
                )
            } else {
                (StepView::Send { frame: FrameView::Fresh { fresh }, key: None }, sent)
            },
        }
    }
}

/// A host that follows the policy.
#[derive(Debug)]
pub struct PolicyFeed {
    /// The version it holds.
    pub sent: u64,
}

impl PolicyFeed {
    /// The next step for this host.
    pub fn step(&mut self, dir: &Directory, cache: &FrameCache) -> (step: FeedStep)
        requires
            dir.wf(),
            cache.wf(),
        ensures
            (step@, final(self).sent) == policy_step(dir@, cache@, old(self).sent),
    {
        if dir.held().is_none() {
            return FeedStep::Wait;
        }
        let fresh = match dir.fresh() {
            None => {
                return FeedStep::Deny { reason: NO_LONGER.to_owned() };
            },
            Some(fresh) => fresh,
        };
        let version: u64 = dir.version();
        if self.sent > version {
            return FeedStep::Wait;
        }
        let key = FrameKey { have: self.sent, head: version, at: fresh.at };
        let sent: u64 = self.sent;
        self.sent = version;
        match cache.find(key) {
            Some(bytes) => {
                return FeedStep::Ready { bytes };
            },
            None => {},
        }
        match next_frame(dir, fresh, sent) {
            Some((frame, _)) => FeedStep::Send { frame, key: Some(key) },
            None => FeedStep::Wait,
        }
    }
}

/// Another directory that follows as a replica.
#[derive(Debug)]
pub struct ReplicaFeed {
    pub caller: NodeId,
    /// The version it holds.
    pub sent: u64,
}

impl ReplicaFeed {
    /// The next step for this directory.
    pub fn step(&mut self, dir: &Directory) -> (step: FeedStep)
        requires
            dir.wf(),
        ensures
            final(self).caller == old(self).caller,
            (step@, final(self).sent) == replica_step(dir@, old(self).caller, old(self).sent),
    {
        if !dir.lists(&self.caller) {
            return FeedStep::Deny { reason: NO_LONGER.to_owned() };
        }
        match (dir.held(), dir.fresh()) {
            (Some(held), Some(fresh)) => {
                let version: u64 = dir.version();
                if version > self.sent {
                    self.sent = version;
                    FeedStep::Send {
                        frame: SubFrame::Policy { policy: held.policy.copy(), fresh },
                        key: None,
                    }
                } else {
                    FeedStep::Send { frame: SubFrame::Fresh { fresh }, key: None }
                }
            },
            _ => FeedStep::Wait,
        }
    }
}

/// What to do next for a caller that follows its view.
#[derive(Clone, Copy, Debug, PartialEq, Eq)]
pub enum ViewStep {
    /// Wait for the directory to change.
    Wait,
    /// Send freshness alone.
    Beat(Fresh),
    /// Send the whole view of the held policy.
    Whole(Fresh),
    /// Send what changed since the view of the policy at this version.
    Update(u64, Fresh),
}

/// The next step for a caller whose last view, if any, was of version `sent`,
/// and the version of its view then. The first frame is the whole view, whatever
/// the caller says it has.
pub open spec fn view_step(dir: DirectoryView, sent: Option<u64>) -> (ViewStep, Option<u64>) {
    match (dir.held, dir.fresh) {
        (Some(_), Some(fresh)) => match sent {
            Some(version) => if version >= version_of(dir) {
                (ViewStep::Beat(fresh), sent)
            } else {
                (ViewStep::Update(version, fresh), Some(version_of(dir)))
            },
            None => (ViewStep::Whole(fresh), Some(version_of(dir))),
        },
        _ => (ViewStep::Wait, sent),
    }
}

/// A caller that follows its view.
#[derive(Debug)]
pub struct ViewFeed {
    /// The version of the policy its last view was of.
    pub sent: Option<u64>,
}

impl ViewFeed {
    /// The next step for this caller.
    pub fn step(&mut self, dir: &Directory) -> (step: ViewStep)
        requires
            dir.wf(),
        ensures
            (step, final(self).sent) == view_step(dir@, old(self).sent),
    {
        match (dir.held(), dir.fresh()) {
            (Some(_), Some(fresh)) => {
                let version: u64 = dir.version();
                match self.sent {
                    Some(sent) => {
                        if sent >= version {
                            ViewStep::Beat(fresh)
                        } else {
                            self.sent = Some(version);
                            ViewStep::Update(sent, fresh)
                        }
                    },
                    None => {
                        self.sent = Some(version);
                        ViewStep::Whole(fresh)
                    },
                }
            },
            _ => ViewStep::Wait,
        }
    }
}

/// The frame for a caller's step, given its newest view and the one it was sent
/// last: freshness alone at a beat, and else the whole view to a caller that was
/// sent none, and what changed since the last one to any other.
pub open spec fn view_frame(
    step: ViewStep,
    newest: PolicyView,
    last: Option<PolicyView>,
) -> Option<FrameView> {
    match step {
        ViewStep::Wait => None,
        ViewStep::Beat(fresh) => Some(FrameView::Fresh { fresh }),
        ViewStep::Whole(fresh) => Some(FrameView::View { view: newest, fresh }),
        ViewStep::Update(_, fresh) => match last {
            Some(last) => Some(
                FrameView::ViewUpdate { update: update_between(newest, last), fresh },
            ),
            None => Some(FrameView::View { view: newest, fresh }),
        },
    }
}

/// The view a caller has after a step's frame.
pub open spec fn view_after(
    step: ViewStep,
    newest: PolicyView,
    last: Option<PolicyView>,
) -> Option<PolicyView> {
    match step {
        ViewStep::Wait => last,
        ViewStep::Beat(_) => last,
        _ => Some(newest),
    }
}

/// The view a caller was sent last.
#[derive(Debug)]
pub struct LastView {
    view: Option<SignedPolicy>,
}

impl LastView {
    /// The view, if one was sent.
    pub closed spec fn sent(&self) -> Option<PolicyView> {
        maybe_policy(self.view)
    }

    /// Nothing was sent yet.
    pub fn none() -> (last: LastView)
        ensures
            last.sent() is None,
    {
        LastView { view: None }
    }

    /// The frame for a step, where there is one to send; `newest` is what the
    /// held policy lets the caller see.
    pub fn frame(&mut self, step: ViewStep, newest: SignedPolicy) -> (frame: Option<SubFrame>)
        ensures
            (frame matches Some(f) ==> view_frame(step, newest@, old(self).sent()) == Some(f@)),
            frame is None ==> view_frame(step, newest@, old(self).sent()) is None,
            final(self).sent() == view_after(step, newest@, old(self).sent()),
    {
        match step {
            ViewStep::Wait => None,
            ViewStep::Beat(fresh) => Some(SubFrame::Fresh { fresh }),
            ViewStep::Whole(fresh) => {
                let view = newest.copy();
                self.view = Some(newest);
                Some(SubFrame::View { view, fresh })
            },
            ViewStep::Update(_, fresh) => {
                let frame = match &self.view {
                    Some(last) => SubFrame::ViewUpdate { update: newest.update_from(last), fresh },
                    None => SubFrame::View { view: newest.copy(), fresh },
                };
                self.view = Some(newest);
                Some(frame)
            },
        }
    }
}

/// A caller that takes what it is sent has its newest view: the first frame is
/// that view whole, whatever the caller said it had, and an update makes it of the
/// view that was sent last. Asked of the views is only that no two entries of one
/// differ under one name.
pub proof fn a_follower_has_its_newest_view(
    dir: DirectoryView,
    sent: Option<u64>,
    newest: PolicyView,
    last: Option<PolicyView>,
)
    requires
        sound(dir),
        dir.fresh is Some,
        sent is Some == last is Some,
        one_each(newest.items),
        last matches Some(old) ==> one_each(old.items),
    ensures
        ({
            let (step, to) = view_step(dir, sent);
            &&& to is Some == view_after(step, newest, last) is Some
            &&& match view_frame(step, newest, last) {
                Some(FrameView::View { view, fresh }) => {
                    &&& sent is None
                    &&& view == newest
                    &&& dir.fresh == Some(fresh)
                },
                Some(FrameView::ViewUpdate { update, fresh }) => {
                    &&& sent is Some && sent->0 < version_of(dir)
                    &&& update.head == newest.head
                    &&& updated(by_key(last->0.items), update) == by_key(newest.items)
                    &&& dir.fresh == Some(fresh)
                },
                Some(FrameView::Fresh { fresh }) => {
                    &&& sent is Some && sent->0 >= version_of(dir)
                    &&& dir.fresh == Some(fresh)
                },
                _ => false,
            }
        }),
{
    if let Some(old) = last {
        an_update_reaches_the_newer_policy(newest, old);
    }
}

/// No step takes a subscriber back to an older version, and where the directory
/// vouches for what it holds, the step brings it at least to that.
pub proof fn a_subscriber_only_moves_forward(
    dir: DirectoryView,
    cache: Seq<(FrameKey, Seq<u8>)>,
    caller: NodeId,
    sent: u64,
    view: Option<u64>,
)
    requires
        sound(dir),
    ensures
        policy_step(dir, cache, sent).1 >= sent,
        replica_step(dir, caller, sent).1 >= sent,
        view is Some ==> view_step(dir, view).1 is Some && view_step(dir, view).1->0 >= view->0,
        dir.fresh is Some ==> policy_step(dir, cache, sent).1 >= version_of(dir),
        dir.fresh is Some && listed_in(dir, caller) ==> replica_step(dir, caller, sent).1
            >= version_of(dir),
        dir.fresh is Some ==> view_step(dir, view).1 is Some && view_step(dir, view).1->0
            >= version_of(dir),
{
}

/// A directory sends only what it vouches for: where it has no word for what it
/// holds, nothing is sent.
pub proof fn nothing_is_sent_unvouched(
    dir: DirectoryView,
    cache: Seq<(FrameKey, Seq<u8>)>,
    caller: NodeId,
    sent: u64,
    view: Option<u64>,
)
    requires
        sound(dir),
        dir.fresh is None,
    ensures
        policy_step(dir, cache, sent).0 is Wait || policy_step(dir, cache, sent).0 is Deny,
        replica_step(dir, caller, sent).0 is Wait || replica_step(dir, caller, sent).0 is Deny,
        view_step(dir, view).0 is Wait,
{
}

/// How many of a bounded number of places are taken.
#[derive(Debug)]
pub struct Slots {
    taken: usize,
    limit: usize,
}

impl Slots {
    /// How many are taken.
    pub closed spec fn taken(&self) -> usize {
        self.taken
    }

    /// How many there are.
    pub closed spec fn limit(&self) -> usize {
        self.limit
    }

    /// No more are taken than there are.
    pub closed spec fn wf(&self) -> bool {
        self.taken <= self.limit
    }

    /// `limit` places, none taken.
    pub fn new(limit: usize) -> (slots: Slots)
        ensures
            slots.wf(),
            slots.taken() == 0,
            slots.limit() == limit,
    {
        Slots { taken: 0, limit }
    }

    /// Whether a place is left.
    pub fn any_left(&self) -> (left: bool)
        ensures
            left == (self.taken() < self.limit()),
    {
        self.taken < self.limit
    }

    /// How many there are.
    pub fn size(&self) -> (limit: usize)
        ensures
            limit == self.limit(),
    {
        self.limit
    }

    /// Take a place, if one is left.
    pub fn take(&mut self) -> (got: bool)
        requires
            old(self).wf(),
        ensures
            final(self).wf(),
            final(self).limit() == old(self).limit(),
            got == (old(self).taken() < old(self).limit()),
            final(self).taken() == old(self).taken() + if got {
                1int
            } else {
                0int
            },
    {
        if self.taken < self.limit {
            self.taken = self.taken + 1;
            true
        } else {
            false
        }
    }

    /// Give a place back.
    pub fn give_back(&mut self)
        requires
            old(self).wf(),
            old(self).taken() > 0,
        ensures
            final(self).wf(),
            final(self).limit() == old(self).limit(),
            final(self).taken() == old(self).taken() - 1,
    {
        self.taken = self.taken - 1;
    }
}

/// What a subscriber past the cap hears.
pub open spec fn cap_reached(limit: usize) -> Seq<char> {
    "this directory's subscriber cap ("@ + decimal(limit as nat) + ") is reached"@
}

/// What a subscriber past the cap hears.
pub fn cap_text(limit: usize) -> (text: String)
    ensures
        text@ == cap_reached(limit),
{
    let mut text = "this directory's subscriber cap (".to_owned();
    text.append(decimal_text(limit as u64).as_str());
    text.append(") is reached");
    text
}

/// A replica is sent what it misses: where the directory vouches for what it holds
/// and lists the caller, a replica behind the held version, by however much, is sent
/// exactly the held policy, and is then at its version; one at that version or past
/// it is sent freshness alone, and stays. A caller that is not listed is turned away,
/// and nothing is sent without the directory's word.
pub proof fn a_replica_behind_is_sent_the_held_policy(
    dir: DirectoryView,
    caller: NodeId,
    sent: u64,
)
    ensures
        ({
            let (step, to) = replica_step(dir, caller, sent);
            let listed = dir.held is Some && dir.held->0.policy.head.directories.contains(caller);
            let version = dir.held->0.policy.head.version;
            &&& !listed ==> to == sent && (step matches StepView::Deny { reason } && reason
                == NO_LONGER@)
            &&& listed && dir.fresh is None ==> to == sent && step is Wait
            &&& listed && dir.fresh is Some && sent < version ==> {
                &&& to == version
                &&& step matches StepView::Send { frame, key } && key is None && frame == (
                FrameView::Policy { policy: dir.held->0.policy, fresh: dir.fresh->0 })
            }
            &&& listed && dir.fresh is Some && sent >= version ==> {
                &&& to == sent
                &&& step matches StepView::Send { frame, key } && key is None && frame == (
                FrameView::Fresh { fresh: dir.fresh->0 })
            }
        }),
{
}

/// A host is sent what it misses: where the directory vouches for what it holds, a
/// host behind the held version is brought to it, by the whole policy where it has
/// nothing and else by that or by a delta with its head; a host at that version is
/// sent freshness; one past it waits. What is sent is made for the version the host
/// has, the one it moves to and the freshness in it, and bytes that are encoded
/// already are sent in its place only where they were made for just these.
pub proof fn a_host_behind_is_brought_to_the_held_version(
    dir: DirectoryView,
    cache: Seq<(FrameKey, Seq<u8>)>,
    sent: u64,
)
    ensures
        ({
            let (step, to) = policy_step(dir, cache, sent);
            let newest = dir.held->0.policy;
            let version = newest.head.version;
            let fresh = dir.fresh->0;
            &&& dir.held is None ==> step is Wait && to == sent
            &&& dir.held is Some && dir.fresh is None ==> to == sent && (
            step matches StepView::Deny { reason } && reason == NO_LONGER@)
            &&& dir.held is Some && dir.fresh is Some && sent > version ==> step is Wait && to
                == sent
            &&& dir.held is Some && dir.fresh is Some && sent <= version ==> {
                &&& to == version
                &&& match step {
                    StepView::Ready { bytes } => exists|i: int|
                        0 <= i < cache.len() && (#[trigger] cache[i]).1 == bytes && cache[i].0.have
                            == sent && cache[i].0.head == version && cache[i].0.at == fresh.at,
                    StepView::Send { frame, key } => {
                        &&& key matches Some(key) && key.have == sent && key.head == version
                            && key.at == fresh.at
                        &&& match frame {
                            FrameView::Fresh { fresh: word } => sent == version && word == fresh,
                            FrameView::Policy { policy, fresh: word } => sent < version && policy
                                == newest && word == fresh,
                            FrameView::PolicyUpdate { update, fresh: word } => 0 < sent < version
                                && update.head == newest.head && word == fresh,
                            _ => false,
                        }
                    },
                    _ => false,
                }
            }
        }),
{
    if dir.held is Some && dir.fresh is Some {
        let key = key_for(dir, dir.fresh->0, sent);
        if exists|i: int| 0 <= i < cache.len() && (#[trigger] cache[i]).0 == key {
            let i = choose|i: int| 0 <= i < cache.len() && (#[trigger] cache[i]).0 == key;
            assert(cache[i].0 == key);
        }
    }
}

/// A caller that follows its view is sent the whole view first, what changed with
/// every newer policy, and freshness otherwise; and nothing without the directory's
/// word.
pub proof fn a_caller_follows_every_newer_policy(dir: DirectoryView, sent: Option<u64>)
    ensures
        ({
            let (step, to) = view_step(dir, sent);
            let version = dir.held->0.policy.head.version;
            if dir.held is None || dir.fresh is None {
                step is Wait && to == sent
            } else if sent is None {
                step == ViewStep::Whole(dir.fresh->0) && to == Some(version)
            } else if sent->0 < version {
                step == ViewStep::Update(sent->0, dir.fresh->0) && to == Some(version)
            } else {
                step == ViewStep::Beat(dir.fresh->0) && to == sent
            }
        }),
{
}

/// A caller that is to wait is sent nothing and keeps its view.
pub proof fn a_waiting_caller_keeps_its_view(newest: PolicyView, last: Option<PolicyView>, fresh: Fresh)
    ensures
        view_frame(ViewStep::Wait, newest, last) is None,
        view_after(ViewStep::Wait, newest, last) == last,
        view_after(ViewStep::Beat(fresh), newest, last) == last,
        view_after(ViewStep::Whole(fresh), newest, last) == Some(newest),
        forall|have: u64| #[trigger]
            view_after(ViewStep::Update(have, fresh), newest, last) == Some(newest),
{
}

/// Keeping a frame changes nothing of the frames for other things but that the
/// oldest may go, and that only from a full cache.
pub proof fn keeping_a_frame_spoils_no_other(
    frames: Seq<(FrameKey, Seq<u8>)>,
    key: FrameKey,
    bytes: Seq<u8>,
    other: FrameKey,
)
    requires
        cache_in_order(frames),
        other != key,
    ensures
        ({
            let now = frame_of(frame_kept(frames, key, bytes), other);
            &&& now is None || now == frame_of(frames, other)
            &&& frames.len() < CACHED_FRAMES ==> now == frame_of(frames, other)
        }),
{
    broadcast use Seq::lemma_filter_contains_rev;

    subscribers_at_one_version_share_one_frame(frames, key, bytes);
    filter_keeps_apart(frames, key);
    let rest = frames.filter(other_than(key));
    let all = rest.push((key, bytes));
    let kept = frame_kept(frames, key, bytes);
    assert forall|i: int| 0 <= i < kept.len() && (#[trigger] kept[i]).0 == other implies frame_of(
        frames,
        other,
    ) == Some(kept[i].1) by {
        let k = if all.len() <= CACHED_FRAMES { i } else { i + all.len() - CACHED_FRAMES };
        assert(kept[i] == all[k]);
        assert(rest[k] == all[k]);
        assert(frames.contains(rest[k]));
        let j = choose|j: int| 0 <= j < frames.len() && frames[j] == rest[k];
        let at = choose|at: int| 0 <= at < frames.len() && (#[trigger] frames[at]).0 == other;
        assert(frames[j].0 == other);
        assert(frames[at].0 == frames[j].0);
        assert(at == j);
    }
    if frames.len() < CACHED_FRAMES && frame_of(frames, other) is Some {
        let at = choose|at: int| 0 <= at < frames.len() && (#[trigger] frames[at]).0 == other;
        frames.lemma_filter_contains(other_than(key), at);
        let k = choose|k: int| 0 <= k < rest.len() && rest[k] == frames[at];
        assert(all[k] == frames[at]);
        assert(kept[k].0 == other);
    }
    if exists|i: int| 0 <= i < kept.len() && (#[trigger] kept[i]).0 == other {
        let i = choose|i: int| 0 <= i < kept.len() && (#[trigger] kept[i]).0 == other;
        assert(kept[i].0 == other);
    }
}

/// A subscriber past the cap hears how many there may be, in a number that reads back.
pub proof fn the_cap_is_named(limit: usize) -> (number: Seq<char>)
    ensures
        cap_reached(limit) == "this directory's subscriber cap ("@ + number + ") is reached"@,
        crate::text::number_read(number, 10) == limit,
{
    crate::text::a_decimal_reads_back(limit as nat);
    decimal(limit as nat)
}

/// Bytes that are encoded already for just this step are sent, and only without them
/// is a frame made anew: freshness alone, the delta from the version the host has, or
/// the whole policy, as the directory's history allows.
pub proof fn a_kept_frame_is_used(
    dir: DirectoryView,
    cache: Seq<(FrameKey, Seq<u8>)>,
    sent: u64,
    i: int,
)
    requires
        dir.held is Some,
        dir.fresh is Some,
        sent <= dir.held->0.policy.head.version,
    ensures
        ({
            let step = policy_step(dir, cache, sent).0;
            let policy = dir.held->0.policy;
            let fresh = dir.fresh->0;
            let same = |key: FrameKey|
                key.have == sent && key.head == policy.head.version && key.at == fresh.at;
            &&& 0 <= i < cache.len() && same(cache[i].0) ==> step is Ready
            &&& (forall|k: int| 0 <= k < cache.len() ==> !same((#[trigger] cache[k]).0)) ==> (
            step matches StepView::Send { frame, .. } && match since_of(dir.db, policy, sent) {
                SinceView::Current => frame == (FrameView::Fresh { fresh }),
                SinceView::Update(update) => frame == (FrameView::PolicyUpdate { update, fresh }),
                SinceView::Whole => frame == (FrameView::Policy { policy, fresh }),
            })
        }),
{
    let key = key_for(dir, dir.fresh->0, sent);
    if 0 <= i < cache.len() && cache[i].0.have == sent && cache[i].0.head
        == dir.held->0.policy.head.version && cache[i].0.at == dir.fresh->0.at {
        assert(cache[i].0 == key);
    }
}

/// A caller that follows its view is sent what its step says: freshness, the view
/// whole, or what changed since the view it was sent; and the whole view where none
/// was sent.
pub proof fn a_step_becomes_a_frame(newest: PolicyView, last: Option<PolicyView>, have: u64, fresh: Fresh)
    ensures
        view_frame(ViewStep::Beat(fresh), newest, last) == Some(FrameView::Fresh { fresh }),
        view_frame(ViewStep::Whole(fresh), newest, last) == Some(
            FrameView::View { view: newest, fresh },
        ),
        last is None ==> view_frame(ViewStep::Update(have, fresh), newest, last) == Some(
            FrameView::View { view: newest, fresh },
        ),
        last matches Some(old) ==> (view_frame(ViewStep::Update(have, fresh), newest, last)
            matches Some(FrameView::ViewUpdate { update, fresh: word }) && word == fresh && update
            == update_between(newest, old)),
{
}

/// From a full cache only the frame that was kept longest goes.
pub proof fn only_the_oldest_frame_goes(
    frames: Seq<(FrameKey, Seq<u8>)>,
    key: FrameKey,
    bytes: Seq<u8>,
    i: int,
)
    requires
        cache_in_order(frames),
        0 < i < frames.len(),
        frames[i].0 != key,
    ensures
        frame_of(frame_kept(frames, key, bytes), frames[i].0) == Some(frames[i].1),
{
    let rest = frames.filter(other_than(key));
    let all = rest.push((key, bytes));
    let kept = frame_kept(frames, key, bytes);
    filter_keeps_apart(frames, key);
    subscribers_at_one_version_share_one_frame(frames, key, bytes);
    frames.lemma_filter_contains(other_than(key), i);
    let k = choose|k: int| 0 <= k < rest.len() && rest[k] == frames[i];
    if all.len() <= CACHED_FRAMES {
        assert(kept[k] == frames[i]);
    } else {
        a_full_filter_is_the_whole(frames, other_than(key));
        assert(rest == frames);
        assert(all[i] == frames[i]);
        assert(kept[i - 1] == all[i]);
    }
    let at = choose|at: int| 0 <= at < kept.len() && (#[trigger] kept[at]).0 == frames[i].0;
    assert(kept[at].0 == frames[i].0);
}

proof fn a_full_filter_is_the_whole(
    frames: Seq<(FrameKey, Seq<u8>)>,
    keep: spec_fn((FrameKey, Seq<u8>)) -> bool,
)
    ensures
        frames.filter(keep).len() <= frames.len(),
        frames.filter(keep).len() == frames.len() ==> frames.filter(keep) == frames,
    decreases frames.len(),
{
    reveal(Seq::filter);
    if frames.len() > 0 {
        a_full_filter_is_the_whole(frames.drop_last(), keep);
        assert(frames.drop_last().push(frames.last()) =~= frames);
    } else {
        assert(frames.filter(keep) =~= frames);
    }
}

} // verus!
