//! Publishing a message: through the resident node if there is one, else
//! one-shot.

use vstd::prelude::*;

use crate::context::{blank, is_blank};
use crate::ids::NodeId;
use crate::text::{debug_quoted, debug_text, decimal, decimal_text};
use crate::topics::TopicEvent;

verus! {

/// How long a one-shot publish waits for its first neighbor, in milliseconds.
pub const PUBLISH_NEIGHBOR_WAIT: u64 = 15_000;

/// How long a one-shot publish stays up after broadcasting, in milliseconds, so
/// that the bytes are on the wire before the endpoint closes.
pub const PUBLISH_LINGER: u64 = 1_000;

/// How many times a streaming publish tries one line before dropping it.
pub const PUBLISH_ATTEMPTS: usize = 3;

/// How long a streaming publish waits before it connects again, in
/// milliseconds.
pub const PUBLISH_RETRY_DELAY: u64 = 500;

/// Whether a line of input is a message: blank lines are passed over.
pub fn is_message(line: &str) -> (yes: bool)
    ensures
        yes == !is_blank(line@),
{
    !blank(line)
}

/// What to do next about one line.
#[derive(Clone, Copy, Debug, PartialEq, Eq, Structural)]
pub enum LineStep {
    /// Connect to the resident node, after the retry delay if told.
    Connect { delayed: bool },
    /// Send the line over the connection.
    Send,
    /// Drop the line: its attempts are spent.
    Drop,
    /// The line is published, under this sequence number.
    Done { seq: u64 },
}

/// Why the last attempt failed.
#[derive(Debug)]
pub enum LastFailure {
    /// None has failed.
    Never,
    /// There was no resident node to connect to.
    NoTail,
    /// The node refused the line, or hung up, and in which words.
    Refused(String),
}

impl LastFailure {
    /// What it reads as, for the control socket at `socket`.
    pub open spec fn said(&self, socket: Seq<char>) -> Seq<char> {
        match *self {
            LastFailure::Never => "the publish was never attempted"@,
            LastFailure::NoTail => "no resident tail on "@ + socket + " to publish through"@,
            LastFailure::Refused(why) => why@,
        }
    }

    /// What it reads as, for the control socket at `socket`.
    pub fn text(&self, socket: &str) -> (text: String)
        ensures
            text@ == self.said(socket@),
    {
        match self {
            LastFailure::Never => "the publish was never attempted".to_owned(),
            LastFailure::NoTail => {
                let mut text = "no resident tail on ".to_owned();
                text.append(socket);
                text.append(" to publish through");
                text
            },
            LastFailure::Refused(why) => why.clone(),
        }
    }
}

/// One line on its way through the resident node.
#[derive(Debug)]
pub struct LinePublish {
    /// Attempts that failed.
    pub failed: usize,
    /// Whether there is a connection. A failure discards it, because telling a
    /// refusal from a closed socket costs more than connecting again.
    pub connected: bool,
    pub last: LastFailure,
    /// The sequence number it got.
    pub published: Option<u64>,
}

impl LinePublish {
    /// At most [`PUBLISH_ATTEMPTS`] attempts fail, and only a connected line is
    /// published.
    pub open spec fn wf(self) -> bool {
        &&& self.failed <= PUBLISH_ATTEMPTS
        &&& (self.failed == 0) == (self.last is Never)
        &&& self.published is Some ==> self.failed < PUBLISH_ATTEMPTS && self.connected
    }

    /// What to do next.
    pub open spec fn next_step(self) -> LineStep {
        match self.published {
            Some(seq) => LineStep::Done { seq },
            None => if self.failed >= PUBLISH_ATTEMPTS {
                LineStep::Drop
            } else if self.connected {
                LineStep::Send
            } else {
                LineStep::Connect { delayed: self.failed > 0 }
            },
        }
    }

    /// A new line, over the connection there is, if any.
    pub open spec fn first(connected: bool) -> LinePublish {
        LinePublish { failed: 0, connected, last: LastFailure::Never, published: None }
    }

    /// The line after one more failed attempt.
    pub open spec fn after_failure(self, why: LastFailure) -> LinePublish {
        LinePublish {
            failed: (self.failed + 1) as usize,
            connected: false,
            last: why,
            published: None,
        }
    }

    /// A new line, over the connection there is, if any.
    pub fn new(connected: bool) -> (line: LinePublish)
        ensures
            line.wf(),
            line == LinePublish::first(connected),
    {
        LinePublish { failed: 0, connected, last: LastFailure::Never, published: None }
    }

    /// What to do next: connect (after a delay, if an attempt failed), send, or
    /// drop the line.
    pub fn next(&self) -> (step: LineStep)
        ensures
            step == self.next_step(),
    {
        match self.published {
            Some(seq) => LineStep::Done { seq },
            None => if self.failed >= PUBLISH_ATTEMPTS {
                LineStep::Drop
            } else if self.connected {
                LineStep::Send
            } else {
                LineStep::Connect { delayed: self.failed > 0 }
            },
        }
    }

    /// A connection was tried.
    pub fn dialed(&mut self, connected: bool)
        requires
            old(self).wf(),
            old(self).next_step() is Connect,
        ensures
            final(self).wf(),
            *final(self) == if connected {
                LinePublish { connected: true, ..*old(self) }
            } else {
                old(self).after_failure(LastFailure::NoTail)
            },
    {
        if connected {
            self.connected = true;
        } else {
            self.failed = self.failed + 1;
            self.last = LastFailure::NoTail;
        }
    }

    /// The line was sent, and answered: with its sequence number, or with why it is
    /// refused.
    pub fn sent(&mut self, answer: Result<u64, String>)
        requires
            old(self).wf(),
            old(self).next_step() is Send,
        ensures
            final(self).wf(),
            *final(self) == match answer {
                Ok(seq) => LinePublish { published: Some(seq), ..*old(self) },
                Err(why) => old(self).after_failure(LastFailure::Refused(why)),
            },
    {
        match answer {
            Ok(seq) => {
                self.published = Some(seq);
            },
            Err(why) => {
                self.failed = self.failed + 1;
                self.last = LastFailure::Refused(why);
                self.connected = false;
            },
        }
    }

    /// What became of the line: its sequence number, or the text of the last
    /// failure once its attempts are spent; nothing while it is still tried.
    pub fn outcome(&self, socket: &str) -> (end: Option<Result<u64, String>>)
        ensures
            match self.next_step() {
                LineStep::Done { seq } => end == Some(Ok::<u64, String>(seq)),
                LineStep::Drop => end matches Some(Err(text)) && text@ == self.last.said(socket@),
                _ => end is None,
            },
    {
        match self.next() {
            LineStep::Done { seq } => Some(Ok(seq)),
            LineStep::Drop => Some(Err(self.last.text(socket))),
            _ => None,
        }
    }
}

/// A refusal costs a retry, not the feed: however many attempts failed, as long
/// as fewer than [`PUBLISH_ATTEMPTS`] did the line is tried again, after a
/// delay; and when they are spent it is dropped with the last failure.
pub proof fn a_refusal_costs_a_retry(line: LinePublish, why: LastFailure)
    requires
        line.wf(),
        line.next_step() is Send || line.next_step() is Connect,
        !(why is Never),
    ensures
        ({
            let next = line.after_failure(why);
            &&& next.wf()
            &&& next.last == why
            &&& next.next_step() == if line.failed + 1 < PUBLISH_ATTEMPTS {
                LineStep::Connect { delayed: true }
            } else {
                LineStep::Drop
            }
        }),
{
}

/// How one attempt at a line went.
pub ghost enum Attempt {
    /// There was no resident node to connect to.
    NoTail,
    /// The line was refused, and in which words.
    Refused(String),
    /// The line was accepted, under this sequence number.
    Accepted(u64),
}

/// Why an attempt failed.
pub open spec fn failure(attempt: Attempt) -> LastFailure {
    match attempt {
        Attempt::Refused(why) => LastFailure::Refused(why),
        _ => LastFailure::NoTail,
    }
}

/// A line after the attempts on it, in turn. No attempt is made on a line that is
/// published or dropped.
pub open spec fn tried(line: LinePublish, attempts: Seq<Attempt>) -> LinePublish
    decreases attempts.len(),
{
    if attempts.len() == 0 {
        line
    } else {
        let before = tried(line, attempts.drop_last());
        if before.next_step() is Done || before.next_step() is Drop {
            before
        } else {
            match attempts.last() {
                Attempt::Accepted(seq) => LinePublish {
                    connected: true,
                    published: Some(seq),
                    ..before
                },
                failed => before.after_failure(failure(failed)),
            }
        }
    }
}

/// Attempts that fail add up.
proof fn failures_add_up(line: LinePublish, attempts: Seq<Attempt>)
    requires
        line.wf(),
        line.failed == 0,
        line.published is None,
        attempts.len() <= PUBLISH_ATTEMPTS,
        forall|i: int| 0 <= i < attempts.len() ==> !(#[trigger] attempts[i] is Accepted),
    ensures
        ({
            let end = tried(line, attempts);
            &&& end.wf()
            &&& end.failed == attempts.len()
            &&& end.published is None
            &&& attempts.len() > 0 ==> end.last == failure(attempts.last()) && !end.connected
        }),
    decreases attempts.len(),
{
    if attempts.len() > 0 {
        let before = attempts.drop_last();
        assert forall|i: int| 0 <= i < before.len() implies !(#[trigger] before[i] is Accepted) by {
            assert(before[i] == attempts[i]);
        }
        failures_add_up(line, before);
        assert(!(attempts[attempts.len() - 1] is Accepted));
    }
}

/// What is over stays as it is, whatever would be tried.
proof fn an_ended_line_stays(line: LinePublish, attempts: Seq<Attempt>, n: int)
    requires
        0 <= n <= attempts.len(),
        ({
            let then = tried(line, attempts.take(n));
            then.next_step() is Done || then.next_step() is Drop
        }),
    ensures
        tried(line, attempts) == tried(line, attempts.take(n)),
    decreases attempts.len() - n,
{
    if n == attempts.len() {
        assert(attempts.take(n) =~= attempts);
    } else {
        assert(attempts.take(n + 1).drop_last() =~= attempts.take(n));
        an_ended_line_stays(line, attempts, n + 1);
    }
}

/// A line ends with its first acceptance, if that is among its first
/// [`PUBLISH_ATTEMPTS`] attempts: it has that sequence number, its connection is
/// kept, and nothing is tried after it.
pub proof fn a_line_ends_with_its_first_acceptance(
    connected: bool,
    attempts: Seq<Attempt>,
    first: int,
)
    requires
        0 <= first < attempts.len(),
        first < PUBLISH_ATTEMPTS,
        attempts[first] is Accepted,
        forall|i: int| 0 <= i < first ==> !(#[trigger] attempts[i] is Accepted),
    ensures
        ({
            let end = tried(LinePublish::first(connected), attempts);
            &&& end.next_step() == (LineStep::Done { seq: attempts[first]->Accepted_0 })
            &&& end.connected
            &&& end.failed == first
        }),
{
    let line = LinePublish::first(connected);
    let before = attempts.take(first);
    assert forall|i: int| 0 <= i < before.len() implies !(#[trigger] before[i] is Accepted) by {
        assert(before[i] == attempts[i]);
    }
    failures_add_up(line, before);
    assert(attempts.take(first + 1).drop_last() =~= before);
    an_ended_line_stays(line, attempts, first + 1);
}

/// A line whose [`PUBLISH_ATTEMPTS`] attempts all fail is dropped, with the last
/// failure: where there was no resident node at the last attempt, that is what it
/// says.
pub proof fn a_line_that_is_never_accepted_is_dropped(
    connected: bool,
    attempts: Seq<Attempt>,
    socket: Seq<char>,
)
    requires
        attempts.len() >= PUBLISH_ATTEMPTS,
        forall|i: int| 0 <= i < PUBLISH_ATTEMPTS ==> !(#[trigger] attempts[i] is Accepted),
    ensures
        ({
            let end = tried(LinePublish::first(connected), attempts);
            let last = attempts[PUBLISH_ATTEMPTS - 1];
            &&& end.next_step() is Drop
            &&& end.failed == PUBLISH_ATTEMPTS
            &&& end.last.said(socket) == match last {
                Attempt::Refused(why) => why@,
                _ => "no resident tail on "@ + socket + " to publish through"@,
            }
        }),
{
    let line = LinePublish::first(connected);
    let tries = attempts.take(PUBLISH_ATTEMPTS as int);
    assert forall|i: int| 0 <= i < tries.len() implies !(#[trigger] tries[i] is Accepted) by {
        assert(tries[i] == attempts[i]);
    }
    failures_add_up(line, tries);
    an_ended_line_stays(line, attempts, PUBLISH_ATTEMPTS as int);
}

/// How a streaming publish ended.
#[derive(Clone, Copy, Debug, PartialEq, Eq, Structural)]
pub enum Streamed {
    /// There was nothing to publish.
    Nothing,
    /// Not one message got through: the command fails.
    Failed,
    /// Every message got through.
    All,
    /// This many lines did not get through.
    Partly { dropped: usize },
}

/// How a streaming publish ended: it fails only if nothing at all got through.
pub fn streamed(published: usize, dropped: usize) -> (how: Streamed)
    ensures
        how == if published == 0 && dropped == 0 {
            Streamed::Nothing
        } else if published == 0 {
            Streamed::Failed
        } else if dropped == 0 {
            Streamed::All
        } else {
            Streamed::Partly { dropped }
        },
{
    if published == 0 && dropped == 0 {
        Streamed::Nothing
    } else if published == 0 {
        Streamed::Failed
    } else if dropped == 0 {
        Streamed::All
    } else {
        Streamed::Partly { dropped }
    }
}

/// The neighbor an event brings up, if it does.
pub fn neighbor_in(event: &TopicEvent) -> (peer: Option<NodeId>)
    ensures
        peer == match *event {
            TopicEvent::NeighborUp(n) => Some(n),
            _ => None,
        },
{
    match event {
        TopicEvent::NeighborUp(n) => Some(*n),
        _ => None,
    }
}

/// A publish without a resident node.
#[derive(Clone, Copy, Debug, PartialEq, Eq)]
pub struct OneShot {
    /// Whether any peer is known to wait for.
    pub knows_peers: bool,
    /// The neighbor that came up, if one did.
    pub neighbor: Option<NodeId>,
    pub published: u64,
}

/// What a one-shot publish says before its messages.
#[derive(Clone, Copy, Debug, PartialEq, Eq, Structural)]
pub enum Before {
    /// No peer is known: the messages are stored, and nothing is waited for.
    NoKnownPeer,
    /// No peer could be reached in time: the messages are stored.
    Unreachable,
    /// A neighbor is up.
    Connected,
}

/// What a one-shot publish does at its end.
#[derive(Clone, Copy, Debug, PartialEq, Eq, Structural)]
pub enum After {
    /// Say that there was nothing to publish.
    Nothing,
    /// Stay up for a moment, then close.
    Linger,
    /// Close.
    Close,
}

impl OneShot {
    /// A publish that knows peers or not, and joined.
    pub fn new(knows_peers: bool) -> (shot: OneShot)
        ensures
            shot.knows_peers == knows_peers,
            shot.neighbor is None,
            shot.published == 0,
    {
        OneShot { knows_peers, neighbor: None, published: 0 }
    }

    /// Whether to wait for a neighbor: with no known peer there is nothing to
    /// wait for.
    pub fn waits(&self) -> (yes: bool)
        ensures
            yes == self.knows_peers,
    {
        self.knows_peers
    }

    /// Take in what the wait came to, and what to say about it. Without known
    /// peers nothing was waited for, and no neighbor counts.
    pub fn waited(&mut self, neighbor: Option<NodeId>) -> (say: Before)
        ensures
            final(self).knows_peers == old(self).knows_peers,
            final(self).published == old(self).published,
            final(self).neighbor == if old(self).knows_peers {
                neighbor
            } else {
                None
            },
            say == if !old(self).knows_peers {
                Before::NoKnownPeer
            } else if neighbor is None {
                Before::Unreachable
            } else {
                Before::Connected
            },
    {
        if !self.knows_peers {
            self.neighbor = None;
            return Before::NoKnownPeer;
        }
        self.neighbor = neighbor;
        if neighbor.is_none() {
            Before::Unreachable
        } else {
            Before::Connected
        }
    }

    /// A message was stored: whether to broadcast it, too. One that is not
    /// reaches the topic by replay.
    pub fn stored(&mut self) -> (broadcast: bool)
        requires
            old(self).published < u64::MAX,
        ensures
            final(self).knows_peers == old(self).knows_peers,
            final(self).neighbor == old(self).neighbor,
            final(self).published == old(self).published + 1,
            broadcast == (old(self).neighbor is Some),
    {
        self.published = self.published + 1;
        self.neighbor.is_some()
    }

    /// What to do when the input is at its end.
    pub fn ended(&self) -> (what: After)
        ensures
            what == if self.published == 0 {
                After::Nothing
            } else if self.neighbor is Some {
                After::Linger
            } else {
                After::Close
            },
    {
        if self.published == 0 {
            After::Nothing
        } else if self.neighbor.is_some() {
            After::Linger
        } else {
            After::Close
        }
    }
}

/// What a one-shot publish says when no peer is known.
pub fn no_known_peer_text(name: &str) -> (text: String)
    ensures
        text@ == "wires advanced publish: no known peer on topic "@ + debug_text(name@)
            + " — storing locally (pass `--peer <ticket>`, or keep a `wires watch` running)"@,
{
    let mut text = "wires advanced publish: no known peer on topic ".to_owned();
    text.append(debug_quoted(name).as_str());
    text.append(" — storing locally (pass `--peer <ticket>`, or keep a `wires watch` running)");
    text
}

/// What a one-shot publish says when no peer could be reached within `secs`.
pub fn unreachable_text(name: &str, secs: u64) -> (text: String)
    ensures
        text@ == "wires advanced publish: no reachable peer on topic "@ + debug_text(name@)
            + " after "@ + decimal(secs as nat)
            + "s — the message is stored locally and reaches the topic on the next catch-up"@,
{
    let mut text = "wires advanced publish: no reachable peer on topic ".to_owned();
    text.append(debug_quoted(name).as_str());
    text.append(" after ");
    text.append(decimal_text(secs).as_str());
    text.append("s — the message is stored locally and reaches the topic on the next catch-up");
    text
}

/// A line is done as soon as it is published, and dropped only after three failed
/// attempts; before that it is sent where a tail is connected, and else a tail is
/// looked for, with a pause only after a failure.
pub proof fn a_line_is_tried_until_it_ends(line: LinePublish)
    ensures
        line.next_step() is Done <==> line.published is Some,
        line.published matches Some(seq) ==> line.next_step() == (LineStep::Done { seq }),
        line.next_step() is Drop <==> line.published is None && line.failed >= 3,
        line.published is None && line.failed < 3 ==> (line.next_step() is Send <==> line.connected)
            && (line.next_step() matches LineStep::Connect { delayed } ==> (delayed <==> line.failed
            > 0)),
{
}

/// A failure counts, costs the connection, and is the one that is told in the end;
/// what was refused is told in the words of the refusal.
pub proof fn a_failure_counts_once(line: LinePublish, why: LastFailure, socket: Seq<char>)
    requires
        line.failed < usize::MAX,
    ensures
        line.after_failure(why).failed == line.failed + 1,
        !line.after_failure(why).connected,
        line.after_failure(why).last == why,
        line.after_failure(why).published is None,
        why matches LastFailure::Refused(said) ==> why.said(socket) == said@,
{
}

/// A line for which no tail was found is told the socket it was looked for on.
pub proof fn a_missing_tail_is_told_by_its_socket(socket: Seq<char>)
    ensures
        LastFailure::NoTail.said(socket) == "no resident tail on "@ + socket
            + " to publish through"@,
        LastFailure::Never.said(socket) == "the publish was never attempted"@,
{
}

} // verus!
