//! A directory on the network, without the network: what each read, verdict and
//! change makes a stream do, which peers a directory follows, and when a node
//! may run one.

use vstd::prelude::*;

use crate::directory::{
    after_request, answered, banned_by, listed_in, not_admitted, version_of, Answer, AnswerView,
    Checked, Directory, DirectoryView, Request, NOT_ADMITTED,
};
use crate::feeds::{
    cap_reached, cap_text, policy_step, replica_step, FeedStep, FrameCache, FrameKey, FrameView,
    view_step, PolicyFeed, ReplicaFeed, Slots, StepView, SubFrame, ViewFeed, ViewStep,
};
use crate::ids::NodeId;
use crate::policy::SignedPolicy;
use crate::text::maybe_text;
use crate::wire::{body_len, read_next, FrameKind, NextRead, PREFIX_LEN};

verus! {

/// What a subscription is for.
#[derive(Clone, Copy, Debug, PartialEq, Eq, Structural)]
pub enum SubscriptionKind {
    /// Another directory follows the policy.
    Replica,
    /// A host follows the policy.
    Policy,
    /// A caller follows its view.
    View,
}

/// What was read of a subscription's stream.
#[derive(Debug)]
pub enum SubRead {
    Hello,
    Subscribe { kind: SubscriptionKind, have: u64 },
    /// Nothing that can be read, and why.
    Unreadable(String),
}

/// Where a subscription stands.
#[derive(Clone, Copy, Debug, PartialEq, Eq)]
pub enum Phase {
    /// Its hello is not read yet.
    AwaitHello,
    /// Its badge is being checked.
    AwaitVerdict,
    /// It is admitted; what it wants is not read yet.
    AwaitSubscribe,
    /// A host that holds this version follows the policy.
    Policy(u64),
    /// A directory that holds this version follows as a replica.
    Replica(u64),
    /// A caller, whose last view was of this version, follows its view.
    View(Option<u64>),
    /// It is over.
    Ended,
}

/// What happened on a subscription's stream.
#[derive(Debug)]
pub enum SubEvent {
    Read(SubRead),
    /// What checking the badge under the root found.
    Verdict(Result<(), String>),
    /// The directory's policy or freshness changed.
    Changed,
    /// The other side, or the directory, is gone.
    Closed,
}

/// What a subscription does next.
#[derive(Debug)]
#[allow(inconsistent_fields)]
pub enum SubAction {
    /// Read the next frame.
    Read,
    /// Check the badge of the hello.
    Check,
    /// Wait for the directory to change or the stream to close.
    Wait,
    /// Close the stream.
    End,
    /// Close the stream on this error.
    Fail(String),
    /// Say why, and close the stream. The reason is whole: whoever encodes it cuts
    /// it to the length that a frame may carry. A detail is for this node's trace
    /// alone.
    Deny { reason: String, detail: Option<String> },
    /// Send bytes encoded already, then wait.
    Ready { bytes: Vec<u8> },
    /// Encode a frame, keep it under its key if it has one, send it, then wait.
    Send { frame: SubFrame, key: Option<FrameKey> },
    /// Send the caller's frame for this step, then wait.
    View(ViewStep),
}

/// What a subscription does next, as values.
#[allow(inconsistent_fields)]
pub ghost enum ActionView {
    Read,
    Check,
    Wait,
    End,
    Fail(Seq<char>),
    Deny { reason: Seq<char>, detail: Option<Seq<char>> },
    Ready { bytes: Seq<u8> },
    Send { frame: FrameView, key: Option<FrameKey> },
    View(ViewStep),
}

impl View for SubAction {
    type V = ActionView;

    open spec fn view(&self) -> ActionView {
        match *self {
            SubAction::Read => ActionView::Read,
            SubAction::Check => ActionView::Check,
            SubAction::Wait => ActionView::Wait,
            SubAction::End => ActionView::End,
            SubAction::Fail(why) => ActionView::Fail(why@),
            SubAction::Deny { reason, detail } => ActionView::Deny {
                reason: reason@,
                detail: maybe_text(detail),
            },
            SubAction::Ready { bytes } => ActionView::Ready { bytes: bytes@ },
            SubAction::Send { frame, key } => ActionView::Send { frame: frame@, key },
            SubAction::View(step) => ActionView::View(step),
        }
    }
}

/// A stream in this phase counts among the undecided.
pub open spec fn undecided(phase: Phase) -> bool {
    phase is AwaitHello || phase is AwaitVerdict || phase is AwaitSubscribe
}

/// A stream in this phase has a subscriber's place.
pub open spec fn following(phase: Phase) -> bool {
    phase is Policy || phase is Replica || phase is View
}

/// A refusal, with nothing for the trace.
pub open spec fn denied(reason: Seq<char>) -> (Phase, ActionView) {
    (Phase::Ended, ActionView::Deny { reason, detail: None })
}

/// What a stranger hears, with a detail for the trace.
pub open spec fn turned_away(detail: Seq<char>) -> (Phase, ActionView) {
    (Phase::Ended, ActionView::Deny { reason: NOT_ADMITTED@, detail: Some(detail) })
}

/// A feed's step as a subscription's: a refusal ends it.
pub open spec fn fed(phase: Phase, step: StepView) -> (Phase, ActionView) {
    match step {
        StepView::Wait => (phase, ActionView::Wait),
        StepView::Deny { reason } => denied(reason),
        StepView::Ready { bytes } => (phase, ActionView::Ready { bytes }),
        StepView::Send { frame, key } => (phase, ActionView::Send { frame, key }),
    }
}

/// A host at `sent` that follows the policy, at its next step.
pub open spec fn policy_fed(
    dir: DirectoryView,
    cache: Seq<(FrameKey, Seq<u8>)>,
    sent: u64,
) -> (Phase, ActionView) {
    let (step, to) = policy_step(dir, cache, sent);
    fed(Phase::Policy(to), step)
}

/// A directory at `sent` that follows as a replica, at its next step.
pub open spec fn replica_fed(dir: DirectoryView, caller: NodeId, sent: u64) -> (Phase, ActionView) {
    let (step, to) = replica_step(dir, caller, sent);
    fed(Phase::Replica(to), step)
}

/// A caller that follows its view, at its next step.
pub open spec fn view_fed(dir: DirectoryView, sent: Option<u64>) -> (Phase, ActionView) {
    let (step, to) = view_step(dir, sent);
    (
        Phase::View(to),
        if step is Wait {
            ActionView::Wait
        } else {
            ActionView::View(step)
        },
    )
}

/// What an admitted subscriber gets, given whether a place is free and how many
/// there are.
pub open spec fn subscribed(
    dir: DirectoryView,
    cache: Seq<(FrameKey, Seq<u8>)>,
    caller: NodeId,
    free: bool,
    limit: usize,
    kind: SubscriptionKind,
    have: u64,
) -> (Phase, ActionView) {
    match kind {
        SubscriptionKind::Policy => if !free {
            denied(cap_reached(limit))
        } else {
            policy_fed(dir, cache, have)
        },
        SubscriptionKind::View => if !free {
            denied(cap_reached(limit))
        } else if dir.held is None {
            denied("this directory holds no policy yet"@)
        } else {
            view_fed(dir, None)
        },
        SubscriptionKind::Replica => if !listed_in(dir, caller) {
            denied("only a directory the policy lists may follow it as a replica"@)
        } else if !free {
            denied(cap_reached(limit))
        } else {
            replica_fed(dir, caller, have)
        },
    }
}

/// Where an event takes a subscription, and what it does then. An event that
/// does not belong to the phase changes nothing.
pub open spec fn sub_next(
    dir: DirectoryView,
    cache: Seq<(FrameKey, Seq<u8>)>,
    caller: NodeId,
    free: bool,
    limit: usize,
    phase: Phase,
    event: SubEvent,
) -> (Phase, ActionView) {
    match (phase, event) {
        (Phase::Ended, _) => (Phase::Ended, ActionView::End),
        (_, SubEvent::Closed) => (Phase::Ended, ActionView::End),
        (Phase::AwaitHello, SubEvent::Read(read)) => match read {
            SubRead::Hello => (Phase::AwaitVerdict, ActionView::Check),
            SubRead::Subscribe { .. } => turned_away("expected a hello"@),
            SubRead::Unreadable(why) => turned_away(why@),
        },
        (Phase::AwaitVerdict, SubEvent::Verdict(badge)) => match not_admitted(dir, caller, badge) {
            None => (Phase::AwaitSubscribe, ActionView::Read),
            Some(detail) => turned_away(detail),
        },
        (Phase::AwaitSubscribe, SubEvent::Read(read)) => match read {
            SubRead::Subscribe { kind, have } => subscribed(
                dir,
                cache,
                caller,
                free,
                limit,
                kind,
                have,
            ),
            SubRead::Hello => denied("a second hello"@),
            SubRead::Unreadable(why) => (Phase::Ended, ActionView::Fail(why@)),
        },
        (Phase::Policy(sent), SubEvent::Changed) => policy_fed(dir, cache, sent),
        (Phase::Replica(sent), SubEvent::Changed) => replica_fed(dir, caller, sent),
        (Phase::View(sent), SubEvent::Changed) => view_fed(dir, sent),
        _ => (phase, ActionView::Wait),
    }
}

/// A refusal, with nothing for the trace.
fn deny(reason: &str) -> (done: (Phase, SubAction))
    ensures
        (done.0, done.1@) == denied(reason@),
{
    (Phase::Ended, SubAction::Deny { reason: reason.to_owned(), detail: None })
}

/// What a stranger hears, with a detail for the trace.
fn turn_away(detail: &str) -> (done: (Phase, SubAction))
    ensures
        (done.0, done.1@) == turned_away(detail@),
{
    (
        Phase::Ended,
        SubAction::Deny { reason: NOT_ADMITTED.to_owned(), detail: Some(detail.to_owned()) },
    )
}

/// A feed's step as a subscription's.
fn feed(phase: Phase, step: FeedStep) -> (done: (Phase, SubAction))
    ensures
        (done.0, done.1@) == fed(phase, step@),
{
    match step {
        FeedStep::Wait => (phase, SubAction::Wait),
        FeedStep::Deny { reason } => deny(reason.as_str()),
        FeedStep::Ready { bytes } => (phase, SubAction::Ready { bytes }),
        FeedStep::Send { frame, key } => (phase, SubAction::Send { frame, key }),
    }
}

/// A host that follows the policy, at its next step.
fn feed_policy(dir: &Directory, cache: &FrameCache, sent: u64) -> (done: (Phase, SubAction))
    requires
        dir.wf(),
        cache.wf(),
    ensures
        (done.0, done.1@) == policy_fed(dir@, cache@, sent),
{
    let mut host = PolicyFeed { sent };
    let step = host.step(dir, cache);
    feed(Phase::Policy(host.sent), step)
}

/// A directory that follows as a replica, at its next step.
fn feed_replica(dir: &Directory, caller: NodeId, sent: u64) -> (done: (Phase, SubAction))
    requires
        dir.wf(),
    ensures
        (done.0, done.1@) == replica_fed(dir@, caller, sent),
{
    let mut peer = ReplicaFeed { caller, sent };
    let step = peer.step(dir);
    feed(Phase::Replica(peer.sent), step)
}

/// A caller that follows its view, at its next step.
fn feed_view(dir: &Directory, sent: Option<u64>) -> (done: (Phase, SubAction))
    requires
        dir.wf(),
    ensures
        (done.0, done.1@) == view_fed(dir@, sent),
{
    let mut caller = ViewFeed { sent };
    match caller.step(dir) {
        ViewStep::Wait => (Phase::View(caller.sent), SubAction::Wait),
        step => (Phase::View(caller.sent), SubAction::View(step)),
    }
}

/// One subscription of a node to this directory.
#[derive(Debug)]
pub struct Subscription {
    caller: NodeId,
    phase: Phase,
}

impl Subscription {
    /// The node that subscribes.
    pub closed spec fn caller(&self) -> NodeId {
        self.caller
    }

    /// Where it stands.
    pub closed spec fn phase(&self) -> Phase {
        self.phase
    }

    /// A stream that `caller` opened, if it may be among the undecided; one too
    /// many is closed unanswered.
    pub fn start(caller: NodeId, waiting: &mut Slots) -> (stream: Option<Subscription>)
        requires
            old(waiting).wf(),
        ensures
            final(waiting).wf(),
            final(waiting).limit() == old(waiting).limit(),
            stream is Some == (old(waiting).taken() < old(waiting).limit()),
            final(waiting).taken() == old(waiting).taken() + if stream is Some {
                1int
            } else {
                0int
            },
            (stream matches Some(s) ==> s.caller() == caller && s.phase() == Phase::AwaitHello),
    {
        if waiting.take() {
            Some(Subscription { caller, phase: Phase::AwaitHello })
        } else {
            None
        }
    }

    /// What to do on an event. A stream counts among the undecided until what it
    /// wants is read, and has a subscriber's place while it follows.
    pub fn step(
        &mut self,
        dir: &Directory,
        cache: &FrameCache,
        waiting: &mut Slots,
        subscribers: &mut Slots,
        event: SubEvent,
    ) -> (action: SubAction)
        requires
            dir.wf(),
            cache.wf(),
            old(waiting).wf(),
            old(subscribers).wf(),
            undecided(old(self).phase()) ==> old(waiting).taken() > 0,
            following(old(self).phase()) ==> old(subscribers).taken() > 0,
        ensures
            final(self).caller() == old(self).caller(),
            (final(self).phase(), action@) == sub_next(
                dir@,
                cache@,
                old(self).caller(),
                old(subscribers).taken() < old(subscribers).limit(),
                old(subscribers).limit(),
                old(self).phase(),
                event,
            ),
            final(waiting).wf(),
            final(waiting).limit() == old(waiting).limit(),
            final(waiting).taken() == old(waiting).taken() - if undecided(old(self).phase())
                && !undecided(final(self).phase()) {
                1int
            } else {
                0int
            },
            final(subscribers).wf(),
            final(subscribers).limit() == old(subscribers).limit(),
            final(subscribers).taken() == old(subscribers).taken() + if following(
                final(self).phase(),
            ) {
                1int
            } else {
                0int
            } - if following(old(self).phase()) {
                1int
            } else {
                0int
            },
    {
        let was_undecided = match self.phase {
            Phase::AwaitHello => true,
            Phase::AwaitVerdict => true,
            Phase::AwaitSubscribe => true,
            _ => false,
        };
        let was_following = match self.phase {
            Phase::Policy(_) => true,
            Phase::Replica(_) => true,
            Phase::View(_) => true,
            _ => false,
        };
        let (phase, action) = self.decide(dir, cache, subscribers, event);
        let is_undecided = match phase {
            Phase::AwaitHello => true,
            Phase::AwaitVerdict => true,
            Phase::AwaitSubscribe => true,
            _ => false,
        };
        let is_following = match phase {
            Phase::Policy(_) => true,
            Phase::Replica(_) => true,
            Phase::View(_) => true,
            _ => false,
        };
        if was_undecided && !is_undecided {
            waiting.give_back();
        }
        if is_following && !was_following {
            let _ = subscribers.take();
        }
        if was_following && !is_following {
            subscribers.give_back();
        }
        self.phase = phase;
        action
    }

    /// Where an event leads.
    fn decide(
        &self,
        dir: &Directory,
        cache: &FrameCache,
        subscribers: &Slots,
        event: SubEvent,
    ) -> (done: (Phase, SubAction))
        requires
            dir.wf(),
            cache.wf(),
            subscribers.wf(),
        ensures
            (done.0, done.1@) == sub_next(
                dir@,
                cache@,
                self.caller(),
                subscribers.taken() < subscribers.limit(),
                subscribers.limit(),
                self.phase(),
                event,
            ),
            following(done.0) && !following(self.phase()) ==> subscribers.taken()
                < subscribers.limit(),
            undecided(done.0) ==> undecided(self.phase()),
    {
        match event {
            SubEvent::Closed => (Phase::Ended, SubAction::End),
            SubEvent::Read(read) => match self.phase {
                Phase::Ended => (Phase::Ended, SubAction::End),
                Phase::AwaitHello => match read {
                    SubRead::Hello => (Phase::AwaitVerdict, SubAction::Check),
                    SubRead::Subscribe { .. } => turn_away("expected a hello"),
                    SubRead::Unreadable(why) => turn_away(why.as_str()),
                },
                Phase::AwaitSubscribe => match read {
                    SubRead::Subscribe { kind, have } => self.subscribe(
                        dir,
                        cache,
                        subscribers,
                        kind,
                        have,
                    ),
                    SubRead::Hello => deny("a second hello"),
                    SubRead::Unreadable(why) => (Phase::Ended, SubAction::Fail(why)),
                },
                _ => (self.phase, SubAction::Wait),
            },
            SubEvent::Verdict(verdict) => match self.phase {
                Phase::Ended => (Phase::Ended, SubAction::End),
                Phase::AwaitVerdict => match dir.admission(self.caller, &verdict) {
                    Ok(_) => (Phase::AwaitSubscribe, SubAction::Read),
                    Err(detail) => turn_away(detail.as_str()),
                },
                _ => (self.phase, SubAction::Wait),
            },
            SubEvent::Changed => match self.phase {
                Phase::Ended => (Phase::Ended, SubAction::End),
                Phase::Policy(sent) => feed_policy(dir, cache, sent),
                Phase::Replica(sent) => feed_replica(dir, self.caller, sent),
                Phase::View(sent) => feed_view(dir, sent),
                _ => (self.phase, SubAction::Wait),
            },
        }
    }

    /// What an admitted subscriber gets.
    fn subscribe(
        &self,
        dir: &Directory,
        cache: &FrameCache,
        subscribers: &Slots,
        kind: SubscriptionKind,
        have: u64,
    ) -> (done: (Phase, SubAction))
        requires
            dir.wf(),
            cache.wf(),
            subscribers.wf(),
        ensures
            (done.0, done.1@) == subscribed(
                dir@,
                cache@,
                self.caller(),
                subscribers.taken() < subscribers.limit(),
                subscribers.limit(),
                kind,
                have,
            ),
            following(done.0) ==> subscribers.taken() < subscribers.limit(),
            !undecided(done.0),
    {
        match kind {
            SubscriptionKind::Policy => {
                if !subscribers.any_left() {
                    let text = cap_text(subscribers.size());
                    return deny(text.as_str());
                }
                feed_policy(dir, cache, have)
            },
            SubscriptionKind::View => {
                if !subscribers.any_left() {
                    let text = cap_text(subscribers.size());
                    return deny(text.as_str());
                }
                if dir.held().is_none() {
                    return deny("this directory holds no policy yet");
                }
                feed_view(dir, None)
            },
            SubscriptionKind::Replica => {
                if !dir.lists(&self.caller) {
                    return deny("only a directory the policy lists may follow it as a replica");
                }
                if !subscribers.any_left() {
                    let text = cap_text(subscribers.size());
                    return deny(text.as_str());
                }
                feed_replica(dir, self.caller, have)
            },
        }
    }
}

/// A stranger hears the same words whatever the reason: until its badge is
/// admitted, a subscription that is refused hears nothing of this directory.
pub proof fn a_stranger_hears_only_one_thing(
    dir: DirectoryView,
    cache: Seq<(FrameKey, Seq<u8>)>,
    caller: NodeId,
    free: bool,
    limit: usize,
    phase: Phase,
    event: SubEvent,
)
    requires
        phase is AwaitHello || phase is AwaitVerdict,
    ensures
        ({
            let (next, action) = sub_next(dir, cache, caller, free, limit, phase, event);
            &&& !following(next)
            &&& !(action is Send) && !(action is Ready) && !(action is View)
            &&& action matches ActionView::Deny { reason, .. } ==> reason == NOT_ADMITTED@
        }),
{
}

/// A node that the held policy bans is turned away from every stream, whatever
/// badge it presents, and hears only what any stranger hears.
pub proof fn a_banned_node_is_turned_away(
    dir: DirectoryView,
    cache: Seq<(FrameKey, Seq<u8>)>,
    caller: NodeId,
    free: bool,
    limit: usize,
    badge: Result<(), String>,
    now: i64,
)
    requires
        banned_by(dir, caller),
    ensures
        ({
            let (next, action) = sub_next(
                dir,
                cache,
                caller,
                free,
                limit,
                Phase::AwaitVerdict,
                SubEvent::Verdict(badge),
            );
            next == Phase::Ended && (action matches ActionView::Deny { reason, .. } && reason
                == NOT_ADMITTED@)
        }),
        ({
            let (next, action) = request_next(
                dir,
                caller,
                Turn::Verdict,
                RequestEvent::Verdict(badge),
                now,
            );
            next == Turn::Over && (action matches RequestActionView::Reply { answer, .. } && answer
                == AnswerView::Denied { reason: NOT_ADMITTED@ })
        }),
{
}

/// A directory that is no longer listed gets nothing more as a replica.
pub proof fn a_replica_is_dropped_when_unlisted(
    dir: DirectoryView,
    cache: Seq<(FrameKey, Seq<u8>)>,
    caller: NodeId,
    free: bool,
    limit: usize,
    sent: u64,
)
    requires
        !listed_in(dir, caller),
    ensures
        sub_next(dir, cache, caller, free, limit, Phase::Replica(sent), SubEvent::Changed).0
            == Phase::Ended,
        subscribed(dir, cache, caller, free, limit, SubscriptionKind::Replica, sent).0
            == Phase::Ended,
{
}

/// What was read of a request's stream.
#[derive(Debug)]
pub enum RequestRead {
    Got(Request),
    /// Nothing that can be read, and why.
    Unreadable(String),
}

/// Where a request's stream stands.
#[derive(Clone, Copy, Debug, PartialEq, Eq)]
pub enum Turn {
    /// Its hello is not read yet.
    Hello,
    /// Its badge is being checked.
    Verdict,
    /// It is admitted; its request is not read yet.
    Request,
    /// It is over.
    Over,
}

/// What happened on a request's stream.
#[derive(Debug)]
pub enum RequestEvent {
    Read(RequestRead),
    /// What checking the badge under the root found.
    Verdict(Result<(), String>),
}

/// What a request's stream does next.
#[derive(Debug)]
#[allow(inconsistent_fields)]
pub enum RequestAction {
    /// Check the badge of the hello.
    Check,
    /// Read the request. Only now may it be large.
    Read,
    /// Send this answer and finish. A detail is for this node's trace alone.
    Reply { answer: Answer, detail: Option<String> },
    /// Finish without an answer.
    End,
}

/// What a request's stream does next, as values.
#[allow(inconsistent_fields)]
pub ghost enum RequestActionView {
    Check,
    Read,
    Reply { answer: AnswerView, detail: Option<Seq<char>> },
    End,
}

impl View for RequestAction {
    type V = RequestActionView;

    open spec fn view(&self) -> RequestActionView {
        match *self {
            RequestAction::Check => RequestActionView::Check,
            RequestAction::Read => RequestActionView::Read,
            RequestAction::Reply { answer, detail } => RequestActionView::Reply {
                answer: answer@,
                detail: maybe_text(detail),
            },
            RequestAction::End => RequestActionView::End,
        }
    }
}

/// What a stranger hears, with a detail for the trace.
pub open spec fn refused(detail: Seq<char>) -> (Turn, RequestActionView) {
    (
        Turn::Over,
        RequestActionView::Reply {
            answer: AnswerView::Denied { reason: NOT_ADMITTED@ },
            detail: Some(detail),
        },
    )
}

/// Where an event takes a request's stream, and what it does then.
pub open spec fn request_next(
    dir: DirectoryView,
    caller: NodeId,
    turn: Turn,
    event: RequestEvent,
    now: i64,
) -> (Turn, RequestActionView) {
    match (turn, event) {
        (Turn::Hello, RequestEvent::Read(read)) => match read {
            RequestRead::Got(request) => if request is Hello {
                (Turn::Verdict, RequestActionView::Check)
            } else {
                refused("expected a hello"@)
            },
            RequestRead::Unreadable(why) => refused(why@),
        },
        (Turn::Verdict, RequestEvent::Verdict(badge)) => match not_admitted(dir, caller, badge) {
            None => (Turn::Request, RequestActionView::Read),
            Some(detail) => refused(detail),
        },
        (Turn::Request, RequestEvent::Read(read)) => match read {
            RequestRead::Got(request) => (
                Turn::Over,
                RequestActionView::Reply { answer: answered(dir, request, now), detail: None },
            ),
            RequestRead::Unreadable(_) => (Turn::Over, RequestActionView::End),
        },
        _ => (Turn::Over, RequestActionView::End),
    }
}

/// A directory after an event on a request's stream: only the request of a node
/// that was admitted changes it.
pub open spec fn request_leaves(
    dir: DirectoryView,
    turn: Turn,
    event: RequestEvent,
    now: i64,
) -> DirectoryView {
    match (turn, event) {
        (Turn::Request, RequestEvent::Read(RequestRead::Got(request))) => after_request(
            dir,
            request,
            now,
        ),
        _ => dir,
    }
}

/// One request to this directory.
#[derive(Debug)]
pub struct Exchange {
    caller: NodeId,
    turn: Turn,
}

/// What may be read of a request's stream at its next turn: of a stranger's first
/// frame no more than a small one, whatever it opens with, and a large one only
/// once its sender is admitted.
pub open spec fn turn_reads(turn: Turn, small: usize, large: usize, opening: Vec<u8>) -> FrameKind {
    if turn == Turn::Hello {
        FrameKind::Capped { max: small }
    } else {
        FrameKind::Request { small, large, opening }
    }
}

/// A stranger cannot make a directory read a large body: however its first frame
/// opens, one that says it is over the small limit is refused from its prefix, and
/// no read goes past that limit.
pub proof fn a_stranger_sends_nothing_large(
    small: usize,
    large: usize,
    opening: Vec<u8>,
    read: Seq<u8>,
)
    requires
        small + PREFIX_LEN <= usize::MAX,
        read.len() <= PREFIX_LEN + small,
    ensures
        ({
            let kind = turn_reads(Turn::Hello, small, large, opening);
            &&& kind.wf()
            &&& (read_next(kind, read) matches NextRead::More(n) ==> read.len() + n <= PREFIX_LEN
                + small)
            &&& (read.len() >= PREFIX_LEN && body_len(read) > small ==> read_next(kind, read)
                is TooLong)
        }),
{
}

impl Exchange {
    /// Where it stands.
    pub closed spec fn turn(&self) -> Turn {
        self.turn
    }

    /// The node that opened it.
    pub closed spec fn caller(&self) -> NodeId {
        self.caller
    }

    /// A stream that `caller` opened, if it may be among the undecided; one too
    /// many is closed unanswered. Its place is taken until [`Exchange::end`].
    pub fn start(caller: NodeId, waiting: &mut Slots) -> (exchange: Option<Exchange>)
        requires
            old(waiting).wf(),
        ensures
            final(waiting).wf(),
            final(waiting).limit() == old(waiting).limit(),
            exchange is Some == (old(waiting).taken() < old(waiting).limit()),
            final(waiting).taken() == old(waiting).taken() + if exchange is Some {
                1int
            } else {
                0int
            },
            (exchange matches Some(e) ==> e.turn() == Turn::Hello && e.caller() == caller),
    {
        if waiting.take() {
            Some(Exchange { caller, turn: Turn::Hello })
        } else {
            None
        }
    }

    /// The stream is over, answered or not: its place is free again.
    pub fn end(self, waiting: &mut Slots)
        requires
            old(waiting).wf(),
            old(waiting).taken() > 0,
        ensures
            final(waiting).wf(),
            final(waiting).limit() == old(waiting).limit(),
            final(waiting).taken() == old(waiting).taken() - 1,
    {
        waiting.give_back();
    }

    /// What may be read of the stream next.
    pub fn reads(&self, small: usize, large: usize, opening: Vec<u8>) -> (kind: FrameKind)
        ensures
            kind == turn_reads(self.turn(), small, large, opening),
    {
        match self.turn {
            Turn::Hello => FrameKind::Capped { max: small },
            _ => FrameKind::Request { small, large, opening },
        }
    }

    /// What to do on an event.
    pub fn one_request(
        &mut self,
        dir: &mut Directory,
        event: RequestEvent,
        now: i64,
    ) -> (action: RequestAction)
        requires
            old(dir).wf(),
        ensures
            final(dir).wf(),
            final(dir)@ == request_leaves(old(dir)@, old(self).turn(), event, now),
            final(self).caller() == old(self).caller(),
            (final(self).turn(), action@) == request_next(
                old(dir)@,
                old(self).caller(),
                old(self).turn(),
                event,
                now,
            ),
    {
        let turn = self.turn;
        self.turn = Turn::Over;
        match event {
            RequestEvent::Read(read) => match turn {
                Turn::Hello => match read {
                    RequestRead::Got(Request::Hello) => {
                        self.turn = Turn::Verdict;
                        RequestAction::Check
                    },
                    RequestRead::Got(_) => stranger("expected a hello"),
                    RequestRead::Unreadable(why) => stranger(why.as_str()),
                },
                Turn::Request => match read {
                    RequestRead::Got(request) => RequestAction::Reply {
                        answer: dir.answer(request, now),
                        detail: None,
                    },
                    RequestRead::Unreadable(_) => RequestAction::End,
                },
                _ => RequestAction::End,
            },
            RequestEvent::Verdict(verdict) => match turn {
                Turn::Verdict => match dir.admission(self.caller, &verdict) {
                    Ok(_) => {
                        self.turn = Turn::Request;
                        RequestAction::Read
                    },
                    Err(detail) => stranger(detail.as_str()),
                },
                _ => RequestAction::End,
            },
        }
    }
}

/// What a stranger hears, with a detail for the trace.
fn stranger(detail: &str) -> (action: RequestAction)
    ensures
        action@ == refused(detail@).1,
{
    RequestAction::Reply {
        answer: Answer::Denied { reason: NOT_ADMITTED.to_owned() },
        detail: Some(detail.to_owned()),
    }
}

/// The peers a directory follows: every directory its policy lists but itself.
pub open spec fn peers_of(dir: DirectoryView) -> Seq<NodeId> {
    match dir.held {
        None => Seq::empty(),
        Some(held) => held.policy.head.directories.filter(not_node(dir.me)),
    }
}

/// Whether a node is another one than `me`.
pub open spec fn not_node(me: NodeId) -> spec_fn(NodeId) -> bool {
    |node: NodeId| node != me
}

/// A peer that is followed, and whether that has ended by itself.
#[derive(Clone, Copy, Debug, PartialEq, Eq)]
pub struct Follower {
    pub peer: NodeId,
    pub finished: bool,
}

/// Whether a follower is to go on.
pub open spec fn goes_on(peers: Seq<NodeId>) -> spec_fn(Follower) -> bool {
    |follower: Follower| peers.contains(follower.peer) && !follower.finished
}

/// Whether a follower is to be stopped.
pub open spec fn stops(peers: Seq<NodeId>) -> spec_fn(Follower) -> bool {
    |follower: Follower| !goes_on(peers)(follower)
}

/// The peers of a list of followers.
pub open spec fn followed(followers: Seq<Follower>) -> Seq<NodeId> {
    followers.map_values(|follower: Follower| follower.peer)
}

/// The peers, each once, that none of `kept` is.
pub open spec fn begun(peers: Seq<NodeId>, kept: Seq<NodeId>) -> Seq<NodeId>
    decreases peers.len(),
{
    if peers.len() == 0 {
        Seq::empty()
    } else {
        let rest = begun(peers.drop_last(), kept);
        if kept.contains(peers.last()) || rest.contains(peers.last()) {
            rest
        } else {
            rest.push(peers.last())
        }
    }
}

/// What a directory changes about whom it follows.
#[derive(Debug)]
pub struct Plan {
    /// Whom to stop following.
    pub stop: Vec<NodeId>,
    /// Whom to begin to follow.
    pub begin: Vec<NodeId>,
}

/// Whether a list has a node.
fn has_node(nodes: &Vec<NodeId>, node: &NodeId) -> (yes: bool)
    ensures
        yes == nodes@.contains(*node),
{
    let mut i: usize = 0;
    while i < nodes.len()
        invariant
            i <= nodes@.len(),
            forall|j: int| 0 <= j < i ==> nodes@[j] != *node,
        decreases nodes@.len() - i,
    {
        if nodes[i].same(node) {
            assert(nodes@[i as int] == *node);
            return true;
        }
        i += 1;
    }
    false
}

/// The peers `dir` follows.
pub fn peers(dir: &Directory) -> (peers: Vec<NodeId>)
    ensures
        peers@ == peers_of(dir@),
{
    let mut out: Vec<NodeId> = Vec::new();
    if let Some(held) = dir.held() {
        let me = dir.id();
        let listed = &held.policy.head.directories;
        let ghost want = not_node(me);
        let mut i: usize = 0;
        proof {
            reveal(Seq::filter);
            assert(listed@.take(0) =~= Seq::<NodeId>::empty());
        }
        while i < listed.len()
            invariant
                i <= listed@.len(),
                want == not_node(me),
                out@ == listed@.take(i as int).filter(want),
            decreases listed@.len() - i,
        {
            proof {
                reveal(Seq::filter);
                assert(listed@.take(i + 1).drop_last() =~= listed@.take(i as int));
            }
            if !listed[i].same(&me) {
                out.push(listed[i]);
            }
            i += 1;
        }
        assert(listed@.take(listed@.len() as int) =~= listed@);
    }
    out
}

/// What `dir` changes about whom it follows: whoever is no longer listed or has
/// finished is stopped, and every listed peer that is then not followed is
/// begun.
pub fn replicate(dir: &Directory, followers: &Vec<Follower>) -> (plan: Plan)
    ensures
        plan.stop@ == followed(followers@.filter(stops(peers_of(dir@)))),
        plan.begin@ == begun(
            peers_of(dir@),
            followed(followers@.filter(goes_on(peers_of(dir@)))),
        ),
{
    let peers = peers(dir);
    let mut stop: Vec<NodeId> = Vec::new();
    let mut keep: Vec<NodeId> = Vec::new();
    let mut i: usize = 0;
    proof {
        reveal(Seq::filter);
        assert(followers@.take(0) =~= Seq::<Follower>::empty());
        assert(stop@ =~= followed(followers@.take(0).filter(stops(peers@))));
        assert(keep@ =~= followed(followers@.take(0).filter(goes_on(peers@))));
    }
    while i < followers.len()
        invariant
            i <= followers@.len(),
            stop@ == followed(followers@.take(i as int).filter(stops(peers@))),
            keep@ == followed(followers@.take(i as int).filter(goes_on(peers@))),
        decreases followers@.len() - i,
    {
        let follower = followers[i];
        proof {
            reveal(Seq::filter);
            assert(followers@.take(i + 1).drop_last() =~= followers@.take(i as int));
            let a = followers@.take(i as int).filter(stops(peers@));
            let b = followers@.take(i as int).filter(goes_on(peers@));
            assert(followed(a.push(follower)) =~= followed(a).push(follower.peer));
            assert(followed(b.push(follower)) =~= followed(b).push(follower.peer));
        }
        if has_node(&peers, &follower.peer) && !follower.finished {
            keep.push(follower.peer);
        } else {
            stop.push(follower.peer);
        }
        i += 1;
    }
    assert(followers@.take(followers@.len() as int) =~= followers@);
    let mut begin: Vec<NodeId> = Vec::new();
    let mut j: usize = 0;
    assert(peers@.take(0) =~= Seq::<NodeId>::empty());
    while j < peers.len()
        invariant
            j <= peers@.len(),
            begin@ == begun(peers@.take(j as int), keep@),
        decreases peers@.len() - j,
    {
        assert(peers@.take(j + 1).drop_last() =~= peers@.take(j as int));
        if !has_node(&keep, &peers[j]) && !has_node(&begin, &peers[j]) {
            begin.push(peers[j]);
        }
        j += 1;
    }
    assert(peers@.take(peers@.len() as int) =~= peers@);
    Plan { stop, begin }
}

/// What [`begun`] gives: the peers that are not kept, each once.
proof fn begun_is_the_rest(peers: Seq<NodeId>, kept: Seq<NodeId>)
    ensures
        begun(peers, kept).no_duplicates(),
        forall|node: NodeId| #[trigger]
            begun(peers, kept).contains(node) == (peers.contains(node) && !kept.contains(node)),
    decreases peers.len(),
{
    if peers.len() > 0 {
        let less = peers.drop_last();
        let last = peers.last();
        begun_is_the_rest(less, kept);
        let rest = begun(less, kept);
        let all = begun(peers, kept);
        assert(peers =~= less.push(last));
        assert forall|node: NodeId| #[trigger]
            all.contains(node) == (peers.contains(node) && !kept.contains(node)) by {
            assert(peers.contains(node) == (less.contains(node) || node == last)) by {
                if less.contains(node) {
                    let k = choose|k: int| 0 <= k < less.len() && less[k] == node;
                    assert(peers[k] == node);
                }
                assert(peers[peers.len() - 1] == last);
            }
            if !(kept.contains(last) || rest.contains(last)) {
                assert(all.contains(node) == (rest.contains(node) || node == last)) by {
                    if rest.contains(node) {
                        let k = choose|k: int| 0 <= k < rest.len() && rest[k] == node;
                        assert(all[k] == node);
                    }
                    assert(all[rest.len() as int] == last);
                }
            }
        }
    }
}

/// A directory follows exactly the other directories that its policy lists:
/// after a plan, whoever goes on or is begun is one of them, each of them is one
/// of those, and no peer is begun twice or beside a follower that goes on.
pub proof fn exactly_the_listed_peers_are_followed(dir: DirectoryView, followers: Seq<Follower>)
    ensures
        ({
            let peers = peers_of(dir);
            let kept = followed(followers.filter(goes_on(peers)));
            let new = begun(peers, kept);
            &&& !peers.contains(dir.me)
            &&& new.no_duplicates()
            &&& forall|node: NodeId| #![trigger peers.contains(node)]
                peers.contains(node) == (kept.contains(node) || new.contains(node))
            &&& forall|node: NodeId| #![trigger new.contains(node)]
                !(kept.contains(node) && new.contains(node))
        }),
{
    broadcast use Seq::lemma_filter_contains_rev;

    let peers = peers_of(dir);
    let going = followers.filter(goes_on(peers));
    let kept = followed(going);
    begun_is_the_rest(peers, kept);
    assert forall|node: NodeId| #[trigger] kept.contains(node) implies peers.contains(node) by {
        let k = choose|k: int| 0 <= k < kept.len() && kept[k] == node;
        followers.lemma_filter_pred(goes_on(peers), k);
        assert(going[k].peer == node);
    }
    if let Some(held) = dir.held {
        let listed = held.policy.head.directories;
        if peers.contains(dir.me) {
            let k = choose|k: int| 0 <= k < peers.len() && peers[k] == dir.me;
            listed.lemma_filter_pred(not_node(dir.me), k);
        }
    }
}

/// The longest a replica waits between two attempts, in seconds.
pub const MAX_BACKOFF: u64 = 30;

/// How long a replica waits before it follows a peer again.
#[derive(Debug)]
pub struct Backoff {
    secs: u64,
}

impl Backoff {
    /// The next pause, in seconds.
    pub closed spec fn secs(&self) -> u64 {
        self.secs
    }

    /// Between one second and the longest.
    pub closed spec fn wf(&self) -> bool {
        1 <= self.secs <= MAX_BACKOFF
    }

    /// The first pause is one second.
    pub fn new() -> (backoff: Backoff)
        ensures
            backoff.wf(),
            backoff.secs() == 1,
    {
        Backoff { secs: 1 }
    }

    /// How long to wait after an attempt: one second after one that ended well,
    /// and else twice as long as the time before, up to the longest.
    pub fn pause(&mut self, well: bool) -> (secs: u64)
        requires
            old(self).wf(),
        ensures
            final(self).wf(),
            1 <= secs <= MAX_BACKOFF,
            secs == if well {
                1
            } else {
                old(self).secs()
            },
            final(self).secs() == if 2 * secs > MAX_BACKOFF {
                MAX_BACKOFF as int
            } else {
                2 * secs
            },
    {
        if well {
            self.secs = 1;
        }
        let secs: u64 = self.secs;
        self.secs = if secs * 2 > MAX_BACKOFF {
            MAX_BACKOFF
        } else {
            secs * 2
        };
        secs
    }
}

/// What a replica reads from the peer it follows, with what checking it found.
#[derive(Debug)]
pub enum PeerFrame {
    /// A policy: whether its head is signed by the root, whether the freshness
    /// vouches for that head, and what verifying it whole found.
    Policy {
        policy: SignedPolicy,
        head: Result<(), String>,
        fresh: Result<(), String>,
        checked: Checked,
    },
    /// Freshness alone.
    Beat,
    Denied(String),
    /// Any other frame, as it reads.
    Other(String),
}

/// Why a frame ends the following of a peer, if it does.
pub open spec fn frame_fails(dir: DirectoryView, frame: PeerFrame) -> Option<Seq<char>> {
    match frame {
        PeerFrame::Policy { policy, head, fresh, checked } => if let Err(why) = head {
            Some(why@)
        } else if let Err(why) = fresh {
            Some("the replica's freshness doesn't vouch for its head: "@ + why@)
        } else if policy@.head.version > version_of(dir) && !(checked is Good) {
            Some(checked.said())
        } else {
            None
        },
        PeerFrame::Beat => None,
        PeerFrame::Denied(reason) => Some("refused: "@ + reason@),
        PeerFrame::Other(text) => Some("an unexpected frame for a replica: "@ + text@),
    }
}

/// A replica after a frame: it takes every newer policy that a peer vouches for
/// and that verifies.
pub open spec fn frame_leaves(dir: DirectoryView, frame: PeerFrame, now: i64) -> DirectoryView {
    match frame {
        PeerFrame::Policy { policy, head, fresh, checked } => if head is Ok && fresh is Ok
            && policy@.head.version > version_of(dir) {
            crate::directory::offered(dir, policy@, checked, now)
        } else {
            dir
        },
        _ => dir,
    }
}

/// Take a frame from the peer that is followed; why following it ends, if it
/// does.
pub fn follow_frame(dir: &mut Directory, frame: PeerFrame, now: i64) -> (done: Result<(), String>)
    requires
        old(dir).wf(),
    ensures
        final(dir).wf(),
        final(dir)@ == frame_leaves(old(dir)@, frame, now),
        done is Ok == (frame_fails(old(dir)@, frame) is None),
        (done matches Err(why) ==> frame_fails(old(dir)@, frame) == Some(why@)),
{
    match frame {
        PeerFrame::Policy { policy, head, fresh, checked } => {
            if let Err(why) = head {
                return Err(why);
            }
            if let Err(why) = fresh {
                let mut text = "the replica's freshness doesn't vouch for its head: ".to_owned();
                text.append(why.as_str());
                return Err(text);
            }
            if policy.version() > dir.version() {
                if let Err(why) = dir.accept(&policy, &checked, now) {
                    return Err(why);
                }
            }
            Ok(())
        },
        PeerFrame::Beat => Ok(()),
        PeerFrame::Denied(reason) => {
            let mut text = "refused: ".to_owned();
            text.append(reason.as_str());
            Err(text)
        },
        PeerFrame::Other(text) => {
            let mut why = "an unexpected frame for a replica: ".to_owned();
            why.append(text.as_str());
            Err(why)
        },
    }
}

/// A directory that missed a publish catches up from any peer that vouches for
/// it: after a newer policy that verifies, it holds that version.
pub proof fn a_replica_catches_up(dir: DirectoryView, frame: PeerFrame, now: i64)
    requires
        crate::directory::sound(dir),
        frame matches PeerFrame::Policy { head, fresh, checked, .. } && head is Ok && fresh is Ok
            && checked is Good,
    ensures
        version_of(frame_leaves(dir, frame, now)) >= frame->policy@.head.version,
        version_of(frame_leaves(dir, frame, now)) >= version_of(dir),
        frame_fails(dir, frame) is None,
{
}

/// How long until the next freshness is signed, in seconds: as often as the held
/// policy says, `default` before the first, and never less than a second.
pub fn beat_pause(dir: &Directory, default: u32) -> (secs: u64)
    ensures
        ({
            let asked = if dir@.held is Some {
                dir@.held->0.beat_secs
            } else {
                default
            };
            secs == if asked == 0 {
                1
            } else {
                asked
            }
        }),
{
    let asked: u32 = match dir.held() {
        Some(held) => held.beat_secs,
        None => default,
    };
    if asked == 0 {
        1
    } else {
        asked as u64
    }
}

/// A subscription goes step by step. It opens with a hello and nothing else; the
/// hello's badge decides, with the bans, whether it goes on; then it names what it
/// follows, once. One that is over, or whose connection closes, ends; what fits no
/// step is waited over.
pub proof fn a_subscription_goes_step_by_step(
    dir: DirectoryView,
    cache: Seq<(FrameKey, Seq<u8>)>,
    caller: NodeId,
    free: bool,
    limit: usize,
    phase: Phase,
    event: SubEvent,
)
    ensures
        ({
            let (next, action) = sub_next(dir, cache, caller, free, limit, phase, event);
            let banned = dir.held is Some && dir.held->0.bans.contains(caller);
            let stays = next == phase && action is Wait;
            let stranger = next == Phase::Ended && (action matches ActionView::Deny {
                reason,
                detail,
            } && reason == NOT_ADMITTED@ && detail is Some);
            &&& phase == Phase::Ended || event is Closed ==> next == Phase::Ended && action is End
            &&& phase == Phase::AwaitHello && !(event is Closed) ==> match event {
                SubEvent::Read(SubRead::Hello) => next == Phase::AwaitVerdict && action is Check,
                SubEvent::Read(SubRead::Unreadable(why)) => stranger && action->detail == Some(
                    why@,
                ),
                SubEvent::Read(_) => stranger,
                _ => stays,
            }
            &&& phase == Phase::AwaitVerdict && !(event is Closed) ==> match event {
                SubEvent::Verdict(badge) => if badge is Ok && !banned {
                    next == Phase::AwaitSubscribe && action is Read
                } else {
                    stranger
                },
                _ => stays,
            }
            &&& phase == Phase::AwaitSubscribe && !(event is Closed) ==> match event {
                SubEvent::Read(SubRead::Subscribe { .. }) => next is Ended || next is Policy
                    || next is Replica || next is View,
                SubEvent::Read(SubRead::Hello) => next == Phase::Ended && (
                action matches ActionView::Deny { detail, .. } && detail is None),
                SubEvent::Read(SubRead::Unreadable(why)) => next == Phase::Ended && action
                    == ActionView::Fail(why@),
                _ => stays,
            }
            &&& (phase is Policy || phase is Replica || phase is View) && !(event is Closed)
                && !(event is Changed) ==> stays
        }),
{
    if let SubEvent::Verdict(badge) = event {
        crate::directory::a_good_badge_without_a_ban_admits(dir, caller, badge);
    }
}

/// What a subscriber is given when it names what it follows, and with every change.
/// Without a free place it is turned away. A replica must be listed, and is sent the
/// held policy while it is behind; a host is brought to the held version; and a
/// caller that follows its view is told to take it whole, then what changed.
pub proof fn a_subscriber_is_fed(
    dir: DirectoryView,
    cache: Seq<(FrameKey, Seq<u8>)>,
    caller: NodeId,
    free: bool,
    limit: usize,
    kind: SubscriptionKind,
    have: u64,
    seen: Option<u64>,
)
    ensures
        ({
            let (next, action) = subscribed(dir, cache, caller, free, limit, kind, have);
            let held = dir.held is Some;
            let version = dir.held->0.policy.head.version;
            let listed = held && dir.held->0.policy.head.directories.contains(caller);
            let turned = next == Phase::Ended && (action matches ActionView::Deny { detail, .. }
                && detail is None);
            &&& !free ==> turned
            &&& kind == SubscriptionKind::Replica && !listed ==> turned
            &&& kind == SubscriptionKind::View && !held ==> turned
            &&& kind == SubscriptionKind::Policy && held && dir.fresh is None ==> turned
            &&& free && kind == SubscriptionKind::Replica && listed ==> {
                &&& dir.fresh is None ==> next == Phase::Replica(have) && action is Wait
                &&& dir.fresh is Some && have < version ==> next == Phase::Replica(version) && (
                action matches ActionView::Send { frame, .. } && frame == (FrameView::Policy {
                    policy: dir.held->0.policy,
                    fresh: dir.fresh->0,
                }))
                &&& dir.fresh is Some && have >= version ==> next == Phase::Replica(have) && (
                action matches ActionView::Send { frame, .. } && frame == (FrameView::Fresh {
                    fresh: dir.fresh->0,
                }))
            }
            &&& free && kind == SubscriptionKind::Policy && !(held && dir.fresh is None) ==> {
                &&& !held || have > version ==> next == Phase::Policy(have) && action is Wait
                &&& held && have <= version ==> next == Phase::Policy(version) && (action is Ready
                    || action is Send)
            }
            &&& free && kind == SubscriptionKind::View && held ==> {
                &&& dir.fresh is None ==> next == Phase::View(None) && action is Wait
                &&& dir.fresh is Some ==> next == Phase::View(Some(version)) && action
                    == ActionView::View(ViewStep::Whole(dir.fresh->0))
            }
        }),
        sub_next(dir, cache, caller, free, limit, Phase::Replica(have), SubEvent::Changed)
            == subscribed(dir, cache, caller, true, limit, SubscriptionKind::Replica, have) || !(
        dir.held is Some && dir.held->0.policy.head.directories.contains(caller)),
        sub_next(dir, cache, caller, free, limit, Phase::Policy(have), SubEvent::Changed)
            == subscribed(dir, cache, caller, true, limit, SubscriptionKind::Policy, have),
        ({
            let (next, action) = sub_next(
                dir,
                cache,
                caller,
                free,
                limit,
                Phase::View(Some(have)),
                SubEvent::Changed,
            );
            let version = dir.held->0.policy.head.version;
            let vouched = dir.held is Some && dir.fresh is Some;
            &&& !vouched ==> next == Phase::View(Some(have)) && action is Wait
            &&& vouched && have < version ==> next == Phase::View(Some(version)) && action
                == ActionView::View(ViewStep::Update(have, dir.fresh->0))
            &&& vouched && have >= version ==> next == Phase::View(Some(have)) && action
                == ActionView::View(ViewStep::Beat(dir.fresh->0))
        }),
{
    crate::feeds::a_replica_behind_is_sent_the_held_policy(dir, caller, have);
    crate::feeds::a_host_behind_is_brought_to_the_held_version(dir, cache, have);
    crate::feeds::a_caller_follows_every_newer_policy(dir, None);
    crate::feeds::a_caller_follows_every_newer_policy(dir, Some(have));
}

/// A request goes step by step: a hello, its verdict, one request, and its answer. A
/// caller that opens with anything else, or whose badge or ban speaks against it, is
/// refused as no member; a request that cannot be read ends the exchange without an
/// answer; and only a publish that is read changes the directory.
pub proof fn a_request_goes_step_by_step(
    dir: DirectoryView,
    caller: NodeId,
    turn: Turn,
    event: RequestEvent,
    now: i64,
)
    ensures
        ({
            let (next, action) = request_next(dir, caller, turn, event, now);
            let banned = dir.held is Some && dir.held->0.bans.contains(caller);
            let stranger = next == Turn::Over && (action matches RequestActionView::Reply {
                answer,
                detail,
            } && answer == (AnswerView::Denied { reason: NOT_ADMITTED@ }) && detail is Some);
            let over = next == Turn::Over && action is End;
            match (turn, event) {
                (Turn::Hello, RequestEvent::Read(RequestRead::Got(Request::Hello))) => next
                    == Turn::Verdict && action is Check,
                (Turn::Hello, RequestEvent::Read(_)) => stranger,
                (Turn::Verdict, RequestEvent::Verdict(badge)) => if badge is Ok && !banned {
                    next == Turn::Request && action is Read
                } else {
                    stranger
                },
                (Turn::Request, RequestEvent::Read(RequestRead::Got(request))) => next
                    == Turn::Over && (action matches RequestActionView::Reply { answer, detail }
                    && answer == answered(dir, request, now) && detail is None),
                _ => over,
            }
        }),
        ({
            let after = request_leaves(dir, turn, event, now);
            &&& after != dir ==> turn == Turn::Request && event is Read && event->Read_0 is Got
                && event->Read_0->Got_0 is Publish
            &&& turn == Turn::Request ==> (event matches RequestEvent::Read(
                RequestRead::Got(Request::Publish { policy, checked }),
            ) ==> after == crate::directory::offered(dir, policy@, checked, now))
        }),
{
    if let RequestEvent::Verdict(badge) = event {
        crate::directory::a_good_badge_without_a_ban_admits(dir, caller, badge);
    }
}

/// The peers of a directory are the others that its policy lists. A follower is
/// stopped exactly where it has finished or its peer is listed no more, and begun for
/// a peer exactly where none goes on for it.
pub proof fn a_follower_runs_for_each_listed_peer(
    dir: DirectoryView,
    followers: Seq<Follower>,
    node: NodeId,
)
    ensures
        ({
            let peers = peers_of(dir);
            let stopped = followed(followers.filter(stops(peers)));
            let listed = dir.held is Some && dir.held->0.policy.head.directories.contains(node)
                && node != dir.me;
            let begin = begun(peers, followed(followers.filter(goes_on(peers))));
            &&& peers.contains(node) == listed
            &&& stopped.contains(node) == exists|i: int|
                0 <= i < followers.len() && (#[trigger] followers[i]).peer == node && (
                followers[i].finished || !listed)
            &&& begin.contains(node) == (listed && forall|i: int|
                0 <= i < followers.len() ==> !((#[trigger] followers[i]).peer == node
                    && !followers[i].finished))
        }),
{
    let peers = peers_of(dir);
    if let Some(held) = dir.held {
        let list = held.policy.head.directories;
        let other = not_node(dir.me);
        if peers.contains(node) {
            list.lemma_filter_pred(other, peers.index_of(node));
            list.lemma_filter_contains_rev(other, node);
        }
        if list.contains(node) && node != dir.me {
            list.lemma_filter_contains(other, list.index_of(node));
        }
    }
    exactly_the_listed_peers_are_followed(dir, followers);
    a_filtered_peer(followers, stops(peers), node);
    a_filtered_peer(followers, goes_on(peers), node);
    let kept = followed(followers.filter(goes_on(peers)));
    let begin = begun(peers, kept);
    assert(peers.contains(node) == (kept.contains(node) || begin.contains(node)));
    if exists|i: int|
        0 <= i < followers.len() && (#[trigger] followers[i]).peer == node && stops(peers)(
            followers[i],
        ) {
        let i = choose|i: int|
            0 <= i < followers.len() && (#[trigger] followers[i]).peer == node && stops(peers)(
                followers[i],
            );
        assert(followers[i].finished || !peers.contains(node));
    }
    if exists|i: int|
        0 <= i < followers.len() && (#[trigger] followers[i]).peer == node && (
        followers[i].finished || !peers.contains(node)) {
        let i = choose|i: int|
            0 <= i < followers.len() && (#[trigger] followers[i]).peer == node && (
            followers[i].finished || !peers.contains(node));
        assert(stops(peers)(followers[i]));
    }
}

proof fn a_filtered_peer(
    followers: Seq<Follower>,
    keep: spec_fn(Follower) -> bool,
    node: NodeId,
)
    ensures
        followed(followers.filter(keep)).contains(node) == exists|i: int|
            0 <= i < followers.len() && (#[trigger] followers[i]).peer == node && keep(
                followers[i],
            ),
{
    let some = followers.filter(keep);
    let names = followed(some);
    if names.contains(node) {
        let k = names.index_of(node);
        followers.lemma_filter_pred(keep, k);
        assert(some.contains(some[k]));
        followers.lemma_filter_contains_rev(keep, some[k]);
        let i = followers.index_of(some[k]);
        assert(followers[i].peer == node && keep(followers[i]));
    }
    if exists|i: int|
        0 <= i < followers.len() && (#[trigger] followers[i]).peer == node && keep(followers[i]) {
        let i = choose|i: int|
            0 <= i < followers.len() && (#[trigger] followers[i]).peer == node && keep(
                followers[i],
            );
        followers.lemma_filter_contains(keep, i);
        let k = some.index_of(followers[i]);
        assert(names[k] == node);
    }
}

/// What a replica makes of a frame: a policy whose head and freshness hold is taken
/// where it is newer, and then must hold itself; one that is not newer is passed
/// over; a beat is well, and a refusal or any other frame is not. Nothing but a newer
/// policy that holds changes the directory.
pub proof fn a_replica_takes_only_what_holds(dir: DirectoryView, frame: PeerFrame, now: i64)
    ensures
        ({
            let fails = frame_fails(dir, frame) is Some;
            let after = frame_leaves(dir, frame, now);
            let version = if dir.held is Some {
                dir.held->0.policy.head.version
            } else {
                0
            };
            match frame {
                PeerFrame::Policy { policy, head, fresh, checked } => {
                    let newer = policy@.head.version > version;
                    &&& fails == (head is Err || fresh is Err || (newer && !(checked is Good)))
                    &&& head is Err || fresh is Err || !newer || !(checked is Good) ==> after == dir
                    &&& head is Ok && fresh is Ok && newer && checked is Good ==> after
                        == crate::directory::offered(dir, policy@, checked, now)
                },
                PeerFrame::Beat => !fails && after == dir,
                _ => fails && after == dir,
            }
        }),
{
}

/// A stream is at every moment either undecided, or following, or over: undecided
/// until it has named what it follows, following from then on.
pub proof fn a_stream_is_undecided_or_following_or_over(phase: Phase)
    ensures
        undecided(phase) <==> phase == Phase::AwaitHello || phase == Phase::AwaitVerdict || phase
            == Phase::AwaitSubscribe,
        following(phase) <==> phase is Policy || phase is Replica || phase is View,
        phase == Phase::Ended <==> !undecided(phase) && !following(phase),
        !(undecided(phase) && following(phase)),
{
}

/// Before the hello is checked little is read: a first frame is capped small, and
/// only a later one may be large, behind its opening.
pub proof fn a_first_frame_is_small(turn: Turn, small: usize, large: usize, opening: Vec<u8>)
    ensures
        turn == Turn::Hello ==> turn_reads(turn, small, large, opening) == (FrameKind::Capped {
            max: small,
        }),
        turn != Turn::Hello ==> turn_reads(turn, small, large, opening) == (FrameKind::Request {
            small,
            large,
            opening,
        }),
{
}

} // verus!
