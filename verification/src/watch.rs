//! The resident node's loop, as decisions.
//!
//! The loop around it waits for whatever comes first (a signal, a publish, a
//! live event, a timer, the end of a catch-up), does the outside work and hands
//! the outcome in as a [`TailEvent`]; [`Tail::step`] moves the state and says
//! what to do. Times are milliseconds of one steady clock.

use vstd::prelude::*;

use crate::ids::{NodeId, TopicId};
use crate::nodes::NodeSet;
use crate::peers::{adds_nothing, bare, known, recorded, PeerBook, PeerView, TopicPeer};
use crate::text::{
    debug_quoted, debug_text, decimal, decimal_text, hex, signed_decimal, signed_text, texts,
    texts_push,
};

verus! {

/// How many stored messages a watch prints before it goes live.
pub const DEFAULT_BACKFILL: usize = 200;

/// First redial delay after the mesh empties.
pub const REDIAL_MIN: u64 = 5_000;

/// Longest redial delay; the backoff doubles up to this and stays there.
pub const REDIAL_MAX: u64 = 60_000;

/// How many publishes may queue for the loop at once.
pub const CONTROL_QUEUE: usize = 32;

/// How often a catch-up runs even when nothing happened: every other trigger
/// is an edge, and a hole whose only holder is asleep would stay open.
pub const CATCHUP_INTERVAL: u64 = 60_000;

/// How long one round of dialing peers may take before the rest is left to the
/// next round.
pub const PEER_ROUND_BUDGET: u64 = 30_000;

/// How many rounds in a row every reachable peer must refuse this node before
/// it concludes that it is off the roster. One round is not evidence.
pub const DENIAL_STRIKES: usize = 3;

/// Consecutive rounds in which every peer this node could reach refused it.
#[derive(Clone, Copy, Debug, PartialEq, Eq, Structural)]
pub struct Refusals {
    /// How many rounds in a row ended in nothing but refusals.
    pub consecutive: usize,
}

impl Default for Refusals {
    /// No refusal yet.
    fn default() -> (none: Refusals)
        ensures
            none.consecutive == 0,
    {
        Refusals { consecutive: 0 }
    }
}

impl Refusals {
    /// Record a round that ended in refusals only; `true` once that has
    /// happened [`DENIAL_STRIKES`] times in a row.
    pub fn refused(&mut self) -> (verdict: bool)
        requires
            old(self).consecutive < usize::MAX,
        ensures
            final(self).consecutive == old(self).consecutive + 1,
            verdict == (final(self).consecutive >= DENIAL_STRIKES),
    {
        self.consecutive += 1;
        self.consecutive >= DENIAL_STRIKES
    }

    /// Record any evidence that this node is still in the roster.
    pub fn admitted(&mut self)
        ensures
            final(self).consecutive == 0,
    {
        self.consecutive = 0;
    }
}

/// `now` and `delay` later.
pub fn deadline(now: u64, delay: u64) -> (at: u64)
    requires
        now + delay <= u64::MAX,
    ensures
        at == now + delay,
{
    now + delay
}

/// The sooner of a pending deadline and a new one.
pub open spec fn armed(slot: Option<u64>, at: u64) -> Option<u64> {
    match slot {
        Some(existing) if existing <= at => Some(existing),
        _ => Some(at),
    }
}

/// Schedule `slot` for `delay` from now, keeping whichever deadline is sooner:
/// an urgent reason moves a pending periodic one in, and a lazy one does not
/// push it out.
pub fn arm(slot: &mut Option<u64>, now: u64, delay: u64)
    requires
        now + delay <= u64::MAX,
    ensures
        *final(slot) == armed(*old(slot), (now + delay) as u64),
{
    let at: u64 = deadline(now, delay);
    *slot = match *slot {
        Some(existing) => if existing <= at {
            Some(existing)
        } else {
            Some(at)
        },
        None => Some(at),
    };
}

/// A pending deadline keeps the sooner of the two, in whatever order they come.
pub proof fn a_pending_deadline_keeps_the_sooner(slot: Option<u64>, a: u64, b: u64)
    ensures
        armed(armed(slot, a), b) == armed(armed(slot, b), a),
        armed(armed(slot, a), b) matches Some(at) && at <= a && at <= b,
{
}

/// What ingesting a live message found.
#[derive(Clone, Copy, Debug, PartialEq, Eq, Structural)]
pub enum Ingested {
    /// It was new, and is stored.
    Inserted,
    /// It was stored already.
    Duplicate,
    /// Something before it is missing; it was not stored.
    Gap,
    /// It was refused.
    Refused,
}

/// How a join of the topic ended.
#[derive(Clone, Copy, Debug, PartialEq, Eq, Structural)]
pub enum Joined {
    /// There is a new subscription.
    Subscribed,
    /// A peer refused this node, and none admitted it.
    Denied,
    /// It failed in another way.
    Failed,
}

/// What one round of redialing found: counts, because "every peer refused",
/// "nobody answered" and "one refused while four timed out" differ, and only
/// the first is evidence about this node's standing.
#[derive(Clone, Copy, Debug, PartialEq, Eq, Structural)]
pub struct Redial {
    /// Peers dialed (this node itself left out).
    pub tried: usize,
    /// Peers that completed the mutual admission handshake.
    pub admitted: usize,
    /// Peers that refused this node.
    pub denials: usize,
}

/// What the loop waits for.
#[derive(Clone, Copy, Debug, PartialEq, Eq)]
pub enum TailEvent {
    /// A signal to stop.
    Stop,
    /// A publish came in over the control socket.
    Request,
    /// The control socket ended.
    ControlClosed,
    /// A live message was ingested, with this verdict.
    Message(Ingested),
    NeighborUp(NodeId),
    NeighborDown(NodeId),
    /// The subscription dropped messages and is over.
    Lagged,
    /// The subscription closed.
    BridgeEnded,
    /// The re-join timer was due and a join was tried.
    Rejoined(Joined),
    /// The redial timer was due and a round was dialed.
    Redialed(Redial),
    /// The catch-up timer is due.
    CatchUpDue,
    /// The catch-up in flight ended.
    CaughtUp,
    /// The admission timer was due and admissions were refreshed.
    Readmitted,
}

/// What the loop is to do.
#[derive(Clone, Copy, Debug, PartialEq, Eq, Structural)]
pub enum TailAction {
    /// Nothing beyond waiting on.
    Wait,
    /// Shut down in order.
    Stop,
    /// End with the refusal: this node is off the roster.
    Fail,
    /// Seal, store and broadcast the publish, and answer it.
    Publish,
    /// Look at the message for a re-key, and print it, as told.
    Show { observe: bool, print: bool },
    /// Write the peer book out.
    SaveBook,
    /// Start a catch-up beside the loop.
    StartCatchUp,
    /// Show what the catch-up inserted.
    ShowCaughtUp,
}

/// The state of the loop, as values.
#[verifier::ext_equal]
pub ghost struct TailView {
    pub me: NodeId,
    pub book: Map<NodeId, PeerView>,
    pub neighbors: Set<NodeId>,
    pub backoff: u64,
    pub rejoin_backoff: u64,
    pub strikes: nat,
    pub redial_at: Option<u64>,
    pub catchup_at: Option<u64>,
    pub catching_up: bool,
    pub readmit_at: Option<u64>,
    pub rejoin_at: Option<u64>,
    pub live: bool,
    pub control_open: bool,
    pub debounce: u64,
    pub readmit: u64,
}

/// Twice a delay, up to [`REDIAL_MAX`].
pub open spec fn doubled(delay: u64) -> u64 {
    if 2 * delay <= REDIAL_MAX {
        (2 * delay) as u64
    } else {
        REDIAL_MAX
    }
}

/// Twice a delay, up to [`REDIAL_MAX`].
fn double(delay: u64) -> (next: u64)
    requires
        delay <= REDIAL_MAX,
    ensures
        next == doubled(delay),
{
    if 2 * delay <= REDIAL_MAX {
        2 * delay
    } else {
        REDIAL_MAX
    }
}

/// An empty mesh always has a redial pending: the rule that is reconciled
/// after every pass, instead of at each place that can break it.
pub open spec fn settled(s: TailView, now: u64) -> TailView {
    if s.live && s.neighbors == Set::<NodeId>::empty() && s.redial_at is None {
        TailView { redial_at: Some((now + s.backoff) as u64), ..s }
    } else {
        s
    }
}

/// Every reachable peer refused this node in this round.
pub open spec fn all_refused(round: Redial) -> bool {
    round.admitted == 0 && round.denials > 0 && round.denials == round.tried
}

/// Whether an event is one more round of refusals.
pub open spec fn strikes_at(event: TailEvent) -> bool {
    match event {
        TailEvent::Rejoined(Joined::Denied) => true,
        TailEvent::Redialed(round) => all_refused(round),
        _ => false,
    }
}

/// Whether an event is evidence that this node is still in the roster.
pub open spec fn admits(event: TailEvent) -> bool {
    match event {
        TailEvent::NeighborUp(_) => true,
        TailEvent::Rejoined(Joined::Subscribed) => true,
        TailEvent::Redialed(round) => round.admitted > 0,
        _ => false,
    }
}

/// The refusals in a row after an event.
pub open spec fn strikes_after(strikes: nat, event: TailEvent) -> nat {
    if admits(event) {
        0
    } else if strikes_at(event) {
        strikes + 1
    } else {
        strikes
    }
}

/// Whether an event ends the loop with the refusal.
pub open spec fn ends_refused(s: TailView, event: TailEvent) -> bool {
    strikes_at(event) && s.strikes + 1 >= DENIAL_STRIKES
}

/// What an event changes, before the mesh is reconciled.
pub open spec fn moved(s: TailView, event: TailEvent, now: u64) -> TailView {
    let s = TailView { strikes: strikes_after(s.strikes, event), ..s };
    let urgent = armed(s.catchup_at, (now + s.debounce) as u64);
    match event {
        TailEvent::ControlClosed => TailView { control_open: false, ..s },
        TailEvent::Message(Ingested::Gap) => TailView { catchup_at: urgent, ..s },
        TailEvent::NeighborUp(peer) => TailView {
            neighbors: s.neighbors.insert(peer),
            backoff: REDIAL_MIN,
            redial_at: None,
            book: recorded(s.book, bare(peer)),
            catchup_at: urgent,
            ..s
        },
        TailEvent::NeighborDown(peer) => TailView { neighbors: s.neighbors.remove(peer), ..s },
        TailEvent::Lagged => TailView {
            live: false,
            rejoin_at: armed(s.rejoin_at, now),
            catchup_at: urgent,
            ..s
        },
        TailEvent::BridgeEnded => TailView {
            live: false,
            rejoin_at: armed(s.rejoin_at, now),
            ..s
        },
        TailEvent::Rejoined(Joined::Subscribed) => TailView {
            rejoin_at: None,
            live: true,
            rejoin_backoff: REDIAL_MIN,
            neighbors: Set::empty(),
            catchup_at: urgent,
            ..s
        },
        TailEvent::Rejoined(_) => TailView {
            rejoin_at: Some((now + s.rejoin_backoff) as u64),
            rejoin_backoff: doubled(s.rejoin_backoff),
            ..s
        },
        TailEvent::Redialed(round) => if round.admitted > 0 {
            TailView { redial_at: None, backoff: REDIAL_MIN, catchup_at: urgent, ..s }
        } else {
            TailView { redial_at: None, backoff: doubled(s.backoff), ..s }
        },
        TailEvent::CatchUpDue => TailView { catchup_at: None, catching_up: true, ..s },
        TailEvent::CaughtUp => TailView {
            catching_up: false,
            catchup_at: armed(s.catchup_at, (now + CATCHUP_INTERVAL) as u64),
            ..s
        },
        TailEvent::Readmitted => TailView { readmit_at: Some((now + s.readmit) as u64), ..s },
        _ => s,
    }
}

/// What the loop is to do at an event.
pub open spec fn told(s: TailView, event: TailEvent) -> TailAction {
    match event {
        TailEvent::Stop => TailAction::Stop,
        TailEvent::Request => TailAction::Publish,
        // A re-key may come in a message that is not stored, so everything but
        // a duplicate is looked at; only what was inserted is printed.
        TailEvent::Message(verdict) => TailAction::Show {
            observe: verdict != Ingested::Duplicate,
            print: verdict == Ingested::Inserted,
        },
        TailEvent::NeighborUp(peer) => if adds_nothing(known(s.book, peer), bare(peer)) {
            TailAction::Wait
        } else {
            TailAction::SaveBook
        },
        TailEvent::CatchUpDue => TailAction::StartCatchUp,
        TailEvent::CaughtUp => TailAction::ShowCaughtUp,
        _ => if ends_refused(s, event) {
            TailAction::Fail
        } else {
            TailAction::Wait
        },
    }
}

/// Whether the mesh is reconciled after an event: always, but at the end of the
/// loop and when the control socket goes.
pub open spec fn reconciles(event: TailEvent) -> bool {
    event != TailEvent::Stop && event != TailEvent::ControlClosed
}

/// The state after an event that does not end the loop.
pub open spec fn stepped(s: TailView, event: TailEvent, now: u64) -> TailView {
    let next = moved(s, event, now);
    if reconciles(event) {
        settled(next, now)
    } else {
        next
    }
}

/// The state the loop starts in: a node that knows peers has a redial pending,
/// and the first catch-up is due at once.
pub open spec fn started(
    me: NodeId,
    book: Map<NodeId, PeerView>,
    debounce: u64,
    readmit: u64,
    now: u64,
) -> TailView {
    TailView {
        me,
        book,
        neighbors: Set::empty(),
        backoff: REDIAL_MIN,
        rejoin_backoff: REDIAL_MIN,
        strikes: 0,
        redial_at: if exists|n: NodeId| n != me && #[trigger] book.dom().contains(n) {
            Some((now + REDIAL_MIN) as u64)
        } else {
            None
        },
        catchup_at: Some(now),
        catching_up: false,
        readmit_at: Some((now + readmit) as u64),
        rejoin_at: None,
        live: true,
        control_open: true,
        debounce,
        readmit,
    }
}

/// The state of the resident loop.
#[derive(Debug)]
pub struct Tail {
    me: NodeId,
    book: PeerBook,
    neighbors: NodeSet,
    backoff: u64,
    rejoin_backoff: u64,
    strikes: Refusals,
    redial_at: Option<u64>,
    catchup_at: Option<u64>,
    catching_up: bool,
    readmit_at: Option<u64>,
    rejoin_at: Option<u64>,
    live: bool,
    control_open: bool,
    debounce: u64,
    readmit: u64,
}

impl View for Tail {
    type V = TailView;

    closed spec fn view(&self) -> TailView {
        TailView {
            me: self.me,
            book: self.book@,
            neighbors: self.neighbors@,
            backoff: self.backoff,
            rejoin_backoff: self.rejoin_backoff,
            strikes: self.strikes.consecutive as nat,
            redial_at: self.redial_at,
            catchup_at: self.catchup_at,
            catching_up: self.catching_up,
            readmit_at: self.readmit_at,
            rejoin_at: self.rejoin_at,
            live: self.live,
            control_open: self.control_open,
            debounce: self.debounce,
            readmit: self.readmit,
        }
    }
}

/// What holds of the loop's state at every step: the delays stay within their
/// bounds, and fewer refusals in a row than end the loop.
pub open spec fn in_bounds(s: TailView) -> bool {
    &&& REDIAL_MIN <= s.backoff <= REDIAL_MAX
    &&& REDIAL_MIN <= s.rejoin_backoff <= REDIAL_MAX
    &&& s.strikes < DENIAL_STRIKES
}

/// The clock has room left for every delay.
pub open spec fn has_room(s: TailView, now: u64) -> bool {
    &&& now + REDIAL_MAX <= u64::MAX
    &&& now + s.debounce <= u64::MAX
    &&& now + s.readmit <= u64::MAX
}

impl Tail {
    /// The set and the book are in order, and the values within their bounds.
    pub closed spec fn wf(&self) -> bool {
        &&& self.book.wf()
        &&& self.neighbors.wf()
        &&& in_bounds(self@)
    }

    /// The loop of node `me`, starting at `now` with the peers in `book`; after
    /// a reason to catch up it waits `debounce`, and it refreshes admissions
    /// every `readmit`.
    pub fn new(me: NodeId, book: PeerBook, debounce: u64, readmit: u64, now: u64) -> (tail: Tail)
        requires
            book.wf(),
            now + REDIAL_MIN <= u64::MAX,
            now + readmit <= u64::MAX,
        ensures
            tail.wf(),
            tail@ == started(me, book@, debounce, readmit, now),
    {
        let redial_at: Option<u64> = if book.knows_another(&me) {
            Some(deadline(now, REDIAL_MIN))
        } else {
            None
        };
        Tail {
            me,
            book,
            neighbors: NodeSet::new(),
            backoff: REDIAL_MIN,
            rejoin_backoff: REDIAL_MIN,
            strikes: Refusals { consecutive: 0 },
            redial_at,
            catchup_at: Some(now),
            catching_up: false,
            readmit_at: Some(deadline(now, readmit)),
            rejoin_at: None,
            live: true,
            control_open: true,
            debounce,
            readmit,
        }
    }

    /// Take one event at `now`, and say what to do about it.
    pub fn step(&mut self, event: TailEvent, now: u64) -> (action: TailAction)
        requires
            old(self).wf(),
            has_room(old(self)@, now),
        ensures
            action == told(old(self)@, event),
            action != TailAction::Fail ==> final(self).wf() && final(self)@ == stepped(
                old(self)@,
                event,
                now,
            ),
    {
        let ghost before = self@;
        let mut action = TailAction::Wait;
        match event {
            TailEvent::Stop => {
                return TailAction::Stop;
            },
            TailEvent::ControlClosed => {
                self.control_open = false;
                return TailAction::Wait;
            },
            TailEvent::Request => {
                action = TailAction::Publish;
            },
            TailEvent::Message(verdict) => {
                if verdict == Ingested::Gap {
                    arm(&mut self.catchup_at, now, self.debounce);
                }
                action = TailAction::Show {
                    observe: verdict != Ingested::Duplicate,
                    print: verdict == Ingested::Inserted,
                };
            },
            TailEvent::NeighborUp(peer) => {
                let _ = self.neighbors.insert(peer);
                self.backoff = REDIAL_MIN;
                self.redial_at = None;
                self.strikes.admitted();
                if self.book.record(TopicPeer::new(peer)) {
                    action = TailAction::SaveBook;
                }
                arm(&mut self.catchup_at, now, self.debounce);
            },
            TailEvent::NeighborDown(peer) => {
                let _ = self.neighbors.remove(&peer);
            },
            TailEvent::Lagged => {
                self.live = false;
                arm(&mut self.rejoin_at, now, 0);
                arm(&mut self.catchup_at, now, self.debounce);
            },
            TailEvent::BridgeEnded => {
                self.live = false;
                arm(&mut self.rejoin_at, now, 0);
            },
            TailEvent::Rejoined(joined) => {
                self.rejoin_at = None;
                match joined {
                    Joined::Subscribed => {
                        self.live = true;
                        self.rejoin_backoff = REDIAL_MIN;
                        self.strikes.admitted();
                        self.neighbors.clear();
                        arm(&mut self.catchup_at, now, self.debounce);
                    },
                    _ => {
                        if joined == Joined::Denied && self.strikes.refused() {
                            return TailAction::Fail;
                        }
                        self.rejoin_at = Some(deadline(now, self.rejoin_backoff));
                        self.rejoin_backoff = double(self.rejoin_backoff);
                    },
                }
            },
            TailEvent::Redialed(round) => {
                self.redial_at = None;
                if round.admitted > 0 {
                    self.backoff = REDIAL_MIN;
                    self.strikes.admitted();
                    arm(&mut self.catchup_at, now, self.debounce);
                } else {
                    if round.denials > 0 && round.denials == round.tried
                        && self.strikes.refused() {
                        return TailAction::Fail;
                    }
                    self.backoff = double(self.backoff);
                }
            },
            TailEvent::CatchUpDue => {
                self.catchup_at = None;
                self.catching_up = true;
                action = TailAction::StartCatchUp;
            },
            TailEvent::CaughtUp => {
                self.catching_up = false;
                arm(&mut self.catchup_at, now, CATCHUP_INTERVAL);
                action = TailAction::ShowCaughtUp;
            },
            TailEvent::Readmitted => {
                self.readmit_at = None;
                arm(&mut self.readmit_at, now, self.readmit);
            },
        }
        assert(self@ =~= moved(before, event, now));
        if self.live && self.neighbors.is_empty() && self.redial_at.is_none() {
            self.redial_at = Some(deadline(now, self.backoff));
        }
        assert(self@ =~= stepped(before, event, now));
        action
    }
}

/// The sooner of two optional times.
pub open spec fn sooner(a: Option<u64>, b: Option<u64>) -> Option<u64> {
    match (a, b) {
        (Some(x), Some(y)) => Some(
            if x <= y {
                x
            } else {
                y
            },
        ),
        (Some(x), None) => Some(x),
        (None, b) => b,
    }
}

/// The sooner of two optional times.
fn sooner_of(a: Option<u64>, b: Option<u64>) -> (at: Option<u64>)
    ensures
        at == sooner(a, b),
{
    match (a, b) {
        (Some(x), Some(y)) => if x <= y {
            Some(x)
        } else {
            Some(y)
        },
        (Some(x), None) => Some(x),
        (None, b) => b,
    }
}

/// When the re-join timer is due: only while there is no subscription.
pub open spec fn rejoin_timer(s: TailView) -> Option<u64> {
    if s.live {
        None
    } else {
        s.rejoin_at
    }
}

/// When the catch-up timer is due: only while none is in flight.
pub open spec fn catchup_timer(s: TailView) -> Option<u64> {
    if s.catching_up {
        None
    } else {
        s.catchup_at
    }
}

/// When the loop must wake, if nothing else comes first.
pub open spec fn wakes_at(s: TailView) -> Option<u64> {
    sooner(sooner(rejoin_timer(s), s.redial_at), sooner(catchup_timer(s), s.readmit_at))
}

/// The timers that are due.
#[derive(Clone, Copy, Debug, PartialEq, Eq)]
pub struct Due {
    pub rejoin: bool,
    pub redial: bool,
    pub catchup: bool,
    pub readmit: bool,
}

/// Whether a timer is due.
pub open spec fn is_due(timer: Option<u64>, now: u64) -> bool {
    timer matches Some(at) && at <= now
}

/// Whether a timer is due.
fn timer_due(timer: Option<u64>, now: u64) -> (due: bool)
    ensures
        due == is_due(timer, now),
{
    match timer {
        Some(at) => at <= now,
        None => false,
    }
}

impl Tail {
    /// When the loop must wake, if nothing else comes first.
    pub fn wake(&self) -> (at: Option<u64>)
        ensures
            at == wakes_at(self@),
    {
        let rejoin: Option<u64> = if self.live { None } else { self.rejoin_at };
        let catchup: Option<u64> = if self.catching_up { None } else { self.catchup_at };
        sooner_of(sooner_of(rejoin, self.redial_at), sooner_of(catchup, self.readmit_at))
    }

    /// The timers that are due at `now`.
    pub fn due(&self, now: u64) -> (due: Due)
        ensures
            due.rejoin == is_due(rejoin_timer(self@), now),
            due.redial == is_due(self@.redial_at, now),
            due.catchup == is_due(catchup_timer(self@), now),
            due.readmit == is_due(self@.readmit_at, now),
    {
        Due {
            rejoin: !self.live && timer_due(self.rejoin_at, now),
            redial: timer_due(self.redial_at, now),
            catchup: !self.catching_up && timer_due(self.catchup_at, now),
            readmit: timer_due(self.readmit_at, now),
        }
    }

    /// Whether there is a subscription to read.
    pub fn is_live(&self) -> (live: bool)
        ensures
            live == self@.live,
    {
        self.live
    }

    /// Whether the control socket is still to be read.
    pub fn takes_requests(&self) -> (open: bool)
        ensures
            open == self@.control_open,
    {
        self.control_open
    }

    /// The peers to dial.
    pub fn peers(&self) -> (list: Vec<TopicPeer>)
        requires
            self.wf(),
        ensures
            crate::peers::peers_sorted(crate::peers::peer_views(list@)),
            crate::peers::by_node(crate::peers::peer_views(list@)) == self@.book,
    {
        self.book.list()
    }

    /// The hints to refresh admissions that are about to lapse with: the book's
    /// where it has one, else the bare id.
    pub fn refresh_hints(&self, due: &Vec<NodeId>) -> (hints: Vec<TopicPeer>)
        requires
            self.wf(),
        ensures
            crate::peers::peer_views(hints@) == due@.map_values(
                |n: NodeId| crate::peers::hint_for(self@.book, n),
            ),
    {
        let ghost all = due@.map_values(|n: NodeId| crate::peers::hint_for(self@.book, n));
        let mut out: Vec<TopicPeer> = Vec::new();
        let mut i: usize = 0;
        assert(crate::peers::peer_views(out@) =~= all.take(0));
        while i < due.len()
            invariant
                self.wf(),
                i <= due@.len(),
                all == due@.map_values(|n: NodeId| crate::peers::hint_for(self@.book, n)),
                crate::peers::peer_views(out@) == all.take(i as int),
            decreases due@.len() - i,
        {
            let ghost before = out@;
            let next = self.book.hint(due[i]);
            out.push(next);
            assert(crate::peers::peer_views(out@) =~= crate::peers::peer_views(before).push(next@));
            assert(all.take(i + 1) =~= all.take(i as int).push(all[i as int]));
            i += 1;
        }
        assert(all.take(all.len() as int) =~= all);
        out
    }
}

/// An empty mesh always has a redial pending: whatever happened, after the
/// event a live node without neighbors has one, and an event that is not
/// reconciled keeps it so.
pub proof fn an_empty_mesh_always_has_a_redial_pending(s: TailView, event: TailEvent, now: u64)
    ensures
        ({
            let next = stepped(s, event, now);
            let held = |t: TailView|
                t.live && t.neighbors == Set::<NodeId>::empty() ==> t.redial_at is Some;
            &&& reconciles(event) ==> held(next)
            &&& held(s) ==> held(next)
        }),
{
}

/// What is waited for never goes missing: a catch-up is always pending or in
/// flight, a node without a subscription always has a re-join pending, and a
/// refresh of admissions is always pending.
pub open spec fn nothing_forgotten(s: TailView) -> bool {
    &&& s.catching_up || s.catchup_at is Some
    &&& s.live || s.rejoin_at is Some
    &&& s.readmit_at is Some
}

/// The loop starts with nothing forgotten and keeps it so at every event.
pub proof fn nothing_is_ever_forgotten(s: TailView, event: TailEvent, now: u64)
    ensures
        nothing_forgotten(s) ==> nothing_forgotten(stepped(s, event, now)),
{
}

/// The loop starts with nothing forgotten.
pub proof fn nothing_forgotten_at_the_start(
    me: NodeId,
    book: Map<NodeId, PeerView>,
    debounce: u64,
    readmit: u64,
    now: u64,
)
    ensures
        nothing_forgotten(started(me, book, debounce, readmit, now)),
{
}

/// The refusals in a row at the end of a run of events.
pub open spec fn refusals_in_a_row(events: Seq<TailEvent>) -> nat
    decreases events.len(),
{
    if events.len() == 0 {
        0
    } else {
        strikes_after(refusals_in_a_row(events.drop_last()), events.last())
    }
}

/// The state after a run of events, each at its time.
pub open spec fn ran(s: TailView, events: Seq<TailEvent>, times: Seq<u64>) -> TailView
    decreases events.len(),
{
    if events.len() == 0 {
        s
    } else {
        stepped(ran(s, events.drop_last(), times.drop_last()), events.last(), times.last())
    }
}

/// A refusal becomes a verdict only when it repeats: from the start, an event
/// ends the loop refused exactly when it is a refusal and [`DENIAL_STRIKES`]
/// came in a row with it, nothing admitting this node in between.
pub proof fn a_refusal_becomes_a_verdict_only_when_it_repeats(
    s: TailView,
    events: Seq<TailEvent>,
    times: Seq<u64>,
    event: TailEvent,
)
    requires
        s.strikes == 0,
        events.len() == times.len(),
    ensures
        ran(s, events, times).strikes == refusals_in_a_row(events),
        ends_refused(ran(s, events, times), event) == (strikes_at(event)
            && refusals_in_a_row(events.push(event)) >= DENIAL_STRIKES),
    decreases events.len(),
{
    if events.len() > 0 {
        a_refusal_becomes_a_verdict_only_when_it_repeats(
            s,
            events.drop_last(),
            times.drop_last(),
            event,
        );
    }
    assert(events.push(event).drop_last() =~= events);
}

/// Any evidence that this node is still in the roster starts the count anew.
pub proof fn admission_resets_the_count(events: Seq<TailEvent>, event: TailEvent)
    requires
        admits(event),
    ensures
        refusals_in_a_row(events.push(event)) == 0,
{
    assert(events.push(event).drop_last() =~= events);
}

/// The lines a node prints when it comes up.
pub open spec fn banner_text(
    name: Seq<char>,
    topic: TopicId,
    me: NodeId,
    fabric: NodeId,
    roster: Option<u64>,
    not_after: i64,
    now: i64,
    socket: Seq<char>,
    ticket: Result<Seq<char>, Seq<char>>,
) -> Seq<Seq<char>> {
    let hello = "wires watch: topic "@ + debug_text(name) + " ("@ + hex(topic.bytes@) + ") as "@
        + hex(me.bytes@);
    let within = "wires watch: fabric "@ + hex(fabric.bytes@);
    let net = match roster {
        Some(version) => within + ", roster version "@ + decimal(version as nat),
        None => within,
    };
    let first = seq![hello, net];
    let warned = if not_after < now {
        first.push(
            "wires watch: warning — this node's membership expired at "@ + signed_decimal(
                not_after as int,
            ) + "; ask the operator to re-mint it (`wires advanced member --subject "@ + hex(
                me.bytes@,
            ) + " --ttl …`)"@,
        )
    } else {
        first
    };
    let bound = warned.push("wires watch: control socket "@ + socket);
    bound.push(
        match ticket {
            Ok(token) => "share to bootstrap: "@ + token,
            Err(e) => "wires watch: could not build this node's ticket: "@ + e,
        },
    )
}

/// The lines a node prints when it comes up. The last one is the whole
/// bootstrap story: another member starts with that token and the two meshes
/// become one. An expired membership is not enforced here, but is the usual
/// reason a host refuses this node, so it is said once.
pub fn tail_banner(
    name: &str,
    topic: TopicId,
    me: NodeId,
    fabric: NodeId,
    roster: Option<u64>,
    not_after: i64,
    now: i64,
    socket: &str,
    ticket: Result<&str, &str>,
) -> (lines: Vec<String>)
    ensures
        texts(lines@) == banner_text(
            name@,
            topic,
            me,
            fabric,
            roster,
            not_after,
            now,
            socket@,
            match ticket {
                Ok(token) => Ok(token@),
                Err(e) => Err(e@),
            },
        ),
{
    let mut lines: Vec<String> = Vec::new();
    let mut hello = "wires watch: topic ".to_owned();
    hello.append(debug_quoted(name).as_str());
    hello.append(" (");
    hello.append(topic.hex().as_str());
    hello.append(") as ");
    hello.append(me.hex().as_str());
    let mut net = "wires watch: fabric ".to_owned();
    net.append(fabric.hex().as_str());
    match roster {
        Some(version) => {
            net.append(", roster version ");
            net.append(decimal_text(version).as_str());
        },
        None => {},
    }
    lines.push(hello);
    lines.push(net);
    assert(texts(lines@) =~= seq![hello@, net@]);
    if not_after < now {
        let mut warning = "wires watch: warning — this node's membership expired at ".to_owned();
        warning.append(signed_text(not_after).as_str());
        warning.append(
            "; ask the operator to re-mint it (`wires advanced member --subject ",
        );
        warning.append(me.hex().as_str());
        warning.append(" --ttl …`)");
        let ghost before = lines@;
        lines.push(warning);
        proof {
            texts_push(before, warning);
        }
    }
    let mut bound = "wires watch: control socket ".to_owned();
    bound.append(socket);
    let ghost before = lines@;
    lines.push(bound);
    proof {
        texts_push(before, bound);
    }
    let last = match ticket {
        Ok(token) => {
            let mut line = "share to bootstrap: ".to_owned();
            line.append(token);
            line
        },
        Err(e) => {
            let mut line = "wires watch: could not build this node's ticket: ".to_owned();
            line.append(e);
            line
        },
    };
    let ghost before = lines@;
    lines.push(last);
    proof {
        texts_push(before, last);
    }
    lines
}

/// What makes a catch-up pending: a message that leaves a gap, a new neighbor, a lag,
/// a new subscription and a redial that admitted someone each leave one pending no
/// later than the debounce from now, and no later than the one that was; the end of
/// one leaves the next pending within the interval. When one is due it is started,
/// and nothing else touches it.
pub proof fn a_hole_is_caught_up_with(s: TailView, event: TailEvent, now: u64)
    requires
        has_room(s, now),
    ensures
        ({
            let next = stepped(s, event, now);
            let urgent = event == TailEvent::Message(Ingested::Gap) || event is NeighborUp
                || event is Lagged || event == TailEvent::Rejoined(Joined::Subscribed) || (
            event matches TailEvent::Redialed(round) && round.admitted > 0);
            let within: int = if event is CaughtUp {
                60_000
            } else {
                s.debounce as int
            };
            &&& urgent || event is CaughtUp ==> {
                &&& next.catchup_at matches Some(at) && at <= now + within
                &&& s.catchup_at matches Some(pending) ==> next.catchup_at->0 <= pending
                &&& next.catchup_at->0 == now + within || next.catchup_at == s.catchup_at
            }
            &&& event is CatchUpDue ==> next.catchup_at is None && next.catching_up && told(s, event)
                == TailAction::StartCatchUp
            &&& event is CaughtUp ==> !next.catching_up && told(s, event)
                == TailAction::ShowCaughtUp
            &&& !urgent && !(event is CaughtUp) && !(event is CatchUpDue) ==> next.catchup_at
                == s.catchup_at
            &&& !(event is CaughtUp) && !(event is CatchUpDue) ==> next.catching_up
                == s.catching_up
        }),
{
}

/// The neighbors are exactly those that came up and did not go down, since the last
/// new subscription.
pub proof fn neighbors_come_and_go(s: TailView, event: TailEvent, now: u64, node: NodeId)
    ensures
        ({
            let there = stepped(s, event, now).neighbors.contains(node);
            match event {
                TailEvent::NeighborUp(peer) => there == (node == peer || s.neighbors.contains(node)),
                TailEvent::NeighborDown(peer) => there == (node != peer && s.neighbors.contains(
                    node,
                )),
                TailEvent::Rejoined(Joined::Subscribed) => !there,
                _ => there == s.neighbors.contains(node),
            }
        }),
{
}

/// The pause between redials starts at the shortest with every sign of life and
/// doubles with every round that finds nobody, up to the longest; the pause between
/// re-joins does the same.
pub proof fn pauses_double_up_to_the_longest(s: TailView, event: TailEvent, now: u64)
    requires
        in_bounds(s),
    ensures
        ({
            let next = stepped(s, event, now);
            let met = event is NeighborUp || (event matches TailEvent::Redialed(round)
                && round.admitted > 0);
            let alone = event matches TailEvent::Redialed(round) && round.admitted == 0;
            let failed = event matches TailEvent::Rejoined(joined) && joined != Joined::Subscribed;
            &&& met ==> next.backoff == 5_000
            &&& alone ==> next.backoff <= 60_000 && (next.backoff == 2 * s.backoff || (next.backoff
                == 60_000 && 2 * s.backoff > 60_000))
            &&& !met && !alone ==> next.backoff == s.backoff
            &&& event == TailEvent::Rejoined(Joined::Subscribed) ==> next.rejoin_backoff == 5_000
            &&& failed ==> next.rejoin_backoff <= 60_000 && (next.rejoin_backoff == 2
                * s.rejoin_backoff || (next.rejoin_backoff == 60_000 && 2 * s.rejoin_backoff
                > 60_000))
            &&& !(event is Rejoined) ==> next.rejoin_backoff == s.rejoin_backoff
        }),
{
}

/// A redial is pending exactly as long as it must be: a new neighbor calls it off, a
/// round that was dialed is over, any other event leaves a pending one at its time;
/// and where none is left pending, a live node without neighbors has one a pause from
/// now, and any other node none. Stopping, and the end of the control socket, leave it.
pub proof fn a_redial_is_pending_while_the_mesh_is_empty(s: TailView, event: TailEvent, now: u64)
    requires
        in_bounds(s),
        has_room(s, now),
    ensures
        event is Stop || event is ControlClosed ==> stepped(s, event, now).redial_at == s.redial_at,
        !(event is Stop) && !(event is ControlClosed) ==> ({
            let next = stepped(s, event, now);
            let left = !(event is NeighborUp) && !(event is Redialed) && s.redial_at is Some;
            let alone = forall|node: NodeId| !(#[trigger] next.neighbors.contains(node));
            if left {
                next.redial_at == s.redial_at
            } else if next.live && alone {
                next.redial_at matches Some(at) && at == now + next.backoff
            } else {
                next.redial_at is None
            }
        }),
{
    let next = stepped(s, event, now);
    if next.neighbors == Set::<NodeId>::empty() {
        assert(forall|node: NodeId| !(#[trigger] next.neighbors.contains(node)));
    } else if forall|node: NodeId| !(#[trigger] next.neighbors.contains(node)) {
        assert(next.neighbors =~= Set::<NodeId>::empty());
    }
}

/// A subscription that lagged or ended is over, and a re-join due at once; one that
/// was re-joined is live, with no re-join pending; a re-join that failed is tried
/// again after its pause; and nothing else touches either.
pub proof fn a_lost_subscription_is_joined_again(s: TailView, event: TailEvent, now: u64)
    requires
        in_bounds(s),
        has_room(s, now),
    ensures
        ({
            let next = stepped(s, event, now);
            match event {
                TailEvent::Lagged | TailEvent::BridgeEnded => {
                    &&& !next.live
                    &&& next.rejoin_at matches Some(at) && at <= now
                },
                TailEvent::Rejoined(Joined::Subscribed) => next.live && next.rejoin_at is None,
                TailEvent::Rejoined(_) => {
                    &&& next.live == s.live
                    &&& next.rejoin_at matches Some(at) && at == now + s.rejoin_backoff
                },
                _ => next.live == s.live && next.rejoin_at == s.rejoin_at,
            }
        }),
{
}

/// Admissions are refreshed a period after each other, a control socket that ended is
/// read no more, and nothing else touches either; who this node is, and the periods,
/// never change.
pub proof fn the_rest_of_the_state_is_steady(s: TailView, event: TailEvent, now: u64)
    requires
        has_room(s, now),
    ensures
        ({
            let next = stepped(s, event, now);
            &&& event is Readmitted ==> (next.readmit_at matches Some(at) && at == now + s.readmit)
            &&& !(event is Readmitted) ==> next.readmit_at == s.readmit_at
            &&& next.control_open == (s.control_open && !(event is ControlClosed))
            &&& next.me == s.me
            &&& next.debounce == s.debounce
            &&& next.readmit == s.readmit
        }),
{
}

/// A neighbor is remembered, with the addresses that were known of it, and the book
/// is written out exactly when it changed; no other event changes the book.
pub proof fn a_neighbor_is_remembered(s: TailView, event: TailEvent, now: u64, node: NodeId)
    ensures
        ({
            let next = stepped(s, event, now).book;
            &&& told(s, event) == TailAction::SaveBook <==> next != s.book
            &&& next.dom().contains(node) == (s.book.dom().contains(node) || event
                == TailEvent::NeighborUp(node))
            &&& s.book.dom().contains(node) && (event != TailEvent::NeighborUp(node)
                || s.book[node].addrs.len() > 0) ==> next[node] == s.book[node]
            &&& event == TailEvent::NeighborUp(node) && !s.book.dom().contains(node) ==> next[node].node
                == node && next[node].addrs.len() == 0 && next[node].relay_url is None
        }),
{
    if let TailEvent::NeighborUp(peer) = event {
        crate::peers::a_reported_change_is_a_change(s.book, bare(peer));
    }
}

/// What each event asks for: a publish is published, a message is looked at for a
/// re-key unless it is a duplicate and printed only where it is new, and the loop
/// ends refused exactly at the third round in a row in which everyone who answered
/// refused this node.
pub proof fn each_event_is_answered(s: TailView, event: TailEvent)
    ensures
        told(s, event) == TailAction::Publish <==> event is Request,
        told(s, event) == TailAction::StartCatchUp <==> event is CatchUpDue,
        told(s, event) == TailAction::ShowCaughtUp <==> event is CaughtUp,
        told(s, event) == TailAction::Stop <==> event is Stop,
        (event matches TailEvent::Message(verdict) ==> (told(s, event) matches TailAction::Show {
            observe,
            print,
        } && observe == !(verdict is Duplicate) && print == (verdict is Inserted))),
        !(event is Message) ==> !(told(s, event) is Show),
        told(s, event) == TailAction::Fail <==> s.strikes >= 2 && match event {
            TailEvent::Rejoined(joined) => joined is Denied,
            TailEvent::Redialed(round) => round.admitted == 0 && round.denials > 0 && round.tried
                == round.denials,
            _ => false,
        },
{
}

/// The refusals in a row: a round in which everyone who answered refused this node
/// adds one, any sign that it is still let in starts anew, and nothing else counts.
pub proof fn refusals_are_counted(s: TailView, event: TailEvent, now: u64)
    ensures
        ({
            let after = stepped(s, event, now).strikes;
            match event {
                TailEvent::NeighborUp(_) => after == 0,
                TailEvent::Rejoined(Joined::Subscribed) => after == 0,
                TailEvent::Rejoined(Joined::Denied) => after == s.strikes + 1,
                TailEvent::Redialed(round) => if round.admitted > 0 {
                    after == 0
                } else if round.denials > 0 && round.tried == round.denials {
                    after == s.strikes + 1
                } else {
                    after == s.strikes
                },
                _ => after == s.strikes,
            }
        }),
{
}

/// How the loop starts: live, alone and unrefused, with a catch-up due at once, a
/// refresh a period away, and a redial pending exactly where it knows another peer.
pub proof fn the_loop_starts_ready(
    me: NodeId,
    book: Map<NodeId, PeerView>,
    debounce: u64,
    readmit: u64,
    now: u64,
    other: NodeId,
)
    requires
        now + REDIAL_MIN <= u64::MAX,
        now + readmit <= u64::MAX,
    ensures
        ({
            let s = started(me, book, debounce, readmit, now);
            &&& s.live && s.control_open && !s.catching_up
            &&& s.strikes == 0
            &&& s.backoff == 5_000 && s.rejoin_backoff == 5_000
            &&& s.catchup_at == Some(now)
            &&& s.readmit_at matches Some(at) && at == now + readmit
            &&& s.rejoin_at is None
            &&& !s.neighbors.contains(other)
            &&& s.redial_at matches Some(at) ==> at == now + 5_000
            &&& other != me && book.dom().contains(other) ==> s.redial_at is Some
            &&& (forall|node: NodeId| #[trigger] book.dom().contains(node) ==> node == me)
                ==> s.redial_at is None
            &&& s.me == me && s.book == book
            &&& s.debounce == debounce && s.readmit == readmit
        }),
{
}

/// The loop wakes for the first of its timers: never after one that is armed, and at
/// the time of one. The re-join's is armed only without a subscription, and the
/// catch-up's only while none runs; and a timer is due from its time on.
pub proof fn the_loop_wakes_for_its_first_timer(s: TailView, now: u64)
    ensures
        ({
            let at = wakes_at(s);
            let rejoin = !s.live && s.rejoin_at is Some;
            let catchup = !s.catching_up && s.catchup_at is Some;
            &&& rejoin ==> at is Some && at->0 <= s.rejoin_at->0
            &&& catchup ==> at is Some && at->0 <= s.catchup_at->0
            &&& s.redial_at is Some ==> at is Some && at->0 <= s.redial_at->0
            &&& s.readmit_at is Some ==> at is Some && at->0 <= s.readmit_at->0
            &&& at is Some ==> (rejoin && at == s.rejoin_at) || (catchup && at == s.catchup_at)
                || at == s.redial_at || at == s.readmit_at
            &&& is_due(rejoin_timer(s), now) == (rejoin && s.rejoin_at->0 <= now)
            &&& is_due(catchup_timer(s), now) == (catchup && s.catchup_at->0 <= now)
            &&& is_due(s.redial_at, now) == (s.redial_at is Some && s.redial_at->0 <= now)
            &&& is_due(s.readmit_at, now) == (s.readmit_at is Some && s.readmit_at->0 <= now)
        }),
{
}

/// What a node prints when it comes up: the topic, the fabric with the roster's
/// version where it is known, the control socket and the ticket, each on its line;
/// and between them a warning exactly where the membership ran out before now.
pub proof fn a_banner_warns_of_an_expired_membership(
    name: Seq<char>,
    topic: TopicId,
    me: NodeId,
    fabric: NodeId,
    roster: Option<u64>,
    not_after: i64,
    now: i64,
    socket: Seq<char>,
    ticket: Result<Seq<char>, Seq<char>>,
)
    ensures
        ({
            let lines = banner_text(
                name,
                topic,
                me,
                fabric,
                roster,
                not_after,
                now,
                socket,
                ticket,
            );
            let n = lines.len();
            &&& n == if not_after < now {
                5int
            } else {
                4
            }
            &&& lines[0] == "wires watch: topic "@ + debug_text(name) + " ("@ + hex(topic.bytes@)
                + ") as "@ + hex(me.bytes@)
            &&& roster is None ==> lines[1] == "wires watch: fabric "@ + hex(fabric.bytes@)
            &&& roster matches Some(version) ==> lines[1] == "wires watch: fabric "@ + hex(
                fabric.bytes@,
            ) + ", roster version "@ + decimal(version as nat)
            &&& lines[n - 2] == "wires watch: control socket "@ + socket
            &&& ticket matches Ok(token) ==> lines[n - 1] == "share to bootstrap: "@ + token
            &&& ticket matches Err(why) ==> lines[n - 1]
                == "wires watch: could not build this node's ticket: "@ + why
        }),
{
}

} // verus!
