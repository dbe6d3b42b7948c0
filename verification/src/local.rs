//! This node's own chain on a topic: which link comes next, which key to seal
//! it under, and storing it. The one place a sequence number is allocated.

use vstd::prelude::*;

use crate::envelope::{ChainState, EnvelopeView, TopicEnvelope};
use crate::ids::{MessageHash, NodeId, TopicId};
use crate::store::{
    chain, filling_a_hole_heals_the_run, held, put_in, rows_sorted, run_end, slot_of, AppendError,
    Appended, TopicStore,
};
use crate::text::{decimal, decimal_text};
use crate::topics::TopicSender;

verus! {

/// How long an operation waits for another process to let go of a topic's log,
/// in milliseconds.
pub const STORE_LOCK_WAIT: u64 = 20_000;

/// The place a new message takes in its publisher's chain.
#[derive(Clone, Copy, Debug, PartialEq, Eq)]
pub struct Link {
    pub seq: u64,
    pub prev_hash: MessageHash,
}

/// Why a message of this node was not stored.
#[derive(Clone, Copy, Debug, PartialEq, Eq)]
pub enum LocalError {
    /// Every sequence number is taken.
    Full,
    /// The slot was taken already: another process is allocating, too.
    Raced { seq: u64 },
    /// The log refused it.
    Refused(AppendError),
}

/// The hash the first message of a chain links to.
pub open spec fn is_zero(hash: MessageHash) -> bool {
    forall|i: int| 0 <= i < 32 ==> #[trigger] hash.bytes@[i] == 0
}

/// The link after a chain's newest message; the first one links to nothing.
pub open spec fn follows(state: Option<ChainState>, link: Link) -> bool {
    match state {
        None => link.seq == 0 && is_zero(link.prev_hash),
        Some(s) => link.seq == s.seq + 1 && link.prev_hash == s.hash,
    }
}

/// The link `node`'s next message takes, from where its chain stands in the
/// log; an error exactly when its chain is full.
pub fn next_link(store: &TopicStore, node: NodeId) -> (link: Result<Link, LocalError>)
    requires
        store.wf(),
    ensures
        match link {
            Ok(link) => follows(chain(store.rows(), node), link),
            Err(e) => e == LocalError::Full && (chain(store.rows(), node) matches Some(s) && s.seq
                == u64::MAX),
        },
{
    match store.chain_state(node) {
        None => {
            let zero: [u8; 32] = [0u8; 32];
            Ok(Link { seq: 0, prev_hash: MessageHash { bytes: zero } })
        },
        Some(state) => {
            if state.seq == u64::MAX {
                Err(LocalError::Full)
            } else {
                Ok(Link { seq: state.seq + 1, prev_hash: state.hash })
            }
        },
    }
}

/// What becomes of a message of this node, given the rows before and after: it
/// is stored in a slot that was free, and else nothing changes and the error
/// says why.
pub open spec fn local_outcome(
    topic: TopicId,
    before: Seq<EnvelopeView>,
    e: EnvelopeView,
    after: Seq<EnvelopeView>,
    done: Result<(), LocalError>,
) -> bool {
    let there = held(before, slot_of(e));
    match done {
        Ok(_) => e.topic == topic && there is None && put_in(before, e, after),
        Err(LocalError::Full) => false,
        Err(LocalError::Raced { seq }) => {
            &&& e.topic == topic
            &&& there == Some(e.hash)
            &&& seq == e.seq
            &&& after == before
        },
        Err(LocalError::Refused(error)) => {
            &&& after == before
            &&& match error {
                AppendError::WrongTopic { envelope, log } => e.topic != topic && envelope == e.topic
                    && log == topic,
                AppendError::Fork { sender, seq, held: stands, offered } => e.topic == topic
                    && there == Some(stands) && stands != e.hash && (sender, seq) == slot_of(e)
                    && offered == e.hash,
            }
        },
    }
}

/// Store a message sealed for this node's next link. A duplicate here would
/// mean that two allocators raced, so it is an error.
pub fn append_local(store: &mut TopicStore, envelope: TopicEnvelope) -> (done: Result<
    (),
    LocalError,
>)
    requires
        old(store).wf(),
    ensures
        final(store).wf(),
        final(store).of_topic() == old(store).of_topic(),
        local_outcome(
            old(store).of_topic(),
            old(store).rows(),
            envelope@,
            final(store).rows(),
            done,
        ),
{
    let seq: u64 = envelope.seq;
    match store.append(envelope) {
        Ok(Appended::Inserted) => Ok(()),
        Ok(Appended::Duplicate) => Err(LocalError::Raced { seq }),
        Err(e) => Err(LocalError::Refused(e)),
    }
}

/// Messages stored one after the other make a dense chain: the one stored at
/// the next link becomes part of the chain, and when nothing was stored ahead
/// of it, it is the chain's newest and the next link follows it.
pub proof fn a_stored_link_extends_the_chain(
    before: Seq<EnvelopeView>,
    e: EnvelopeView,
    after: Seq<EnvelopeView>,
    link: Link,
    next: Link,
)
    requires
        put_in(before, e, after),
        rows_sorted(after),
        follows(chain(before, e.sender), link),
        e.seq == link.seq,
        follows(chain(after, e.sender), next),
    ensures
        next.seq > link.seq,
        run_end(before, e.sender, e.seq) == e.seq ==> next.seq == link.seq + 1 && next.prev_hash
            == e.hash,
{
    filling_a_hole_heals_the_run(before, e, after);
    crate::store::stored_is_held(before, e, after);
}

impl LocalError {
    /// What the error says.
    pub open spec fn said(self) -> Seq<char> {
        match self {
            LocalError::Full => "this node's chain on the topic is full (sequence u64::MAX)"@,
            LocalError::Raced { seq } => "sequence "@ + decimal(seq as nat)
                + " was already stored for this node: another process is allocating sequences on this topic"@,
            LocalError::Refused(e) => e.said(),
        }
    }

    /// What the error says.
    pub fn text(&self) -> (text: String)
        ensures
            text@ == self.said(),
    {
        match self {
            LocalError::Full => "this node's chain on the topic is full (sequence u64::MAX)".to_owned(),
            LocalError::Raced { seq } => {
                let mut text = "sequence ".to_owned();
                text.append(decimal_text(*seq).as_str());
                text.append(" was already stored for this node: another process is allocating sequences on this topic");
                text
            },
            LocalError::Refused(e) => e.text(),
        }
    }
}

/// Why there is no key to publish under.
#[derive(Clone, Copy, Debug, PartialEq, Eq, Structural)]
pub enum KeyError {
    /// The keyring is empty.
    NoKey,
    /// The newest key is older than the roster.
    Superseded { key: u64, head: u64 },
}

/// The version of the fabric key to publish under: the newest one, unless the
/// roster has moved past it. A message sealed under a superseded key is refused
/// by every peer that holds the current head, so it is refused at the source.
pub fn current_fabric_key(newest: Option<u64>, head: Option<u64>) -> (version: Result<u64, KeyError>)
    ensures
        match version {
            Ok(v) => newest == Some(v) && (head matches Some(h) ==> v >= h),
            Err(KeyError::NoKey) => newest is None,
            Err(KeyError::Superseded { key, head: h }) => newest == Some(key) && head == Some(h)
                && key < h,
        },
{
    match newest {
        None => Err(KeyError::NoKey),
        Some(key) => match head {
            Some(h) => if key < h {
                Err(KeyError::Superseded { key, head: h })
            } else {
                Ok(key)
            },
            None => Ok(key),
        },
    }
}

impl KeyError {
    /// What the error says: what is wrong, and the command that fixes it.
    pub open spec fn said(self) -> Seq<char> {
        match self {
            KeyError::NoKey => "no fabric key in the keyring; run `wires advanced import --fabric-key-file <node-id>.key`"@,
            KeyError::Superseded { key, head } => "this node's newest fabric key is for roster version "@
                + decimal(key as nat) + ", but the roster is at version "@ + decimal(head as nat)
                + ": a message sealed under a superseded key is refused by every peer that holds the current head — run `wires advanced import --fabric-key-file <node-id>.key` from the latest `wires advanced roster commit --out DIR`"@,
        }
    }

    /// What the error says: what is wrong, and the command that fixes it.
    pub fn text(&self) -> (text: String)
        ensures
            text@ == self.said(),
    {
        match self {
            KeyError::NoKey => "no fabric key in the keyring; run `wires advanced import --fabric-key-file <node-id>.key`".to_owned(),
            KeyError::Superseded { key, head } => {
                let mut text = "this node's newest fabric key is for roster version ".to_owned();
                text.append(decimal_text(*key).as_str());
                text.append(", but the roster is at version ");
                text.append(decimal_text(*head).as_str());
                text.append(": a message sealed under a superseded key is refused by every peer that holds the current head — run `wires advanced import --fabric-key-file <node-id>.key` from the latest `wires advanced roster commit --out DIR`");
                text
            },
        }
    }
}

/// Waiting for another process to let go of a topic's log.
#[derive(Clone, Copy, Debug)]
pub struct LockWait {
    pub until: u64,
    pub warned: bool,
}

impl LockWait {
    /// A wait of `wait` from `now` on.
    pub fn new(now: u64, wait: u64) -> (lock: LockWait)
        requires
            now + wait <= u64::MAX,
        ensures
            lock.until == now + wait,
            !lock.warned,
    {
        LockWait { until: now + wait, warned: false }
    }

    /// The log could not be opened: `None` when the wait is over and the error
    /// stands, else try again, and say so the first time (`Some(true)`).
    pub fn failed(&mut self, now: u64) -> (again: Option<bool>)
        ensures
            final(self).until == old(self).until,
            if now < old(self).until {
                again == Some(!old(self).warned) && final(self).warned
            } else {
                again is None && *final(self) == *old(self)
            },
    {
        if now < self.until {
            let first = !self.warned;
            self.warned = true;
            Some(first)
        } else {
            None
        }
    }
}

/// Why a message was not published.
#[derive(Clone, Copy, Debug, PartialEq, Eq)]
pub enum PublishError {
    /// There is no key to seal it under.
    Key(KeyError),
    /// It was not stored.
    Local(LocalError),
}

impl PublishError {
    /// What the error says.
    pub open spec fn said(self) -> Seq<char> {
        match self {
            PublishError::Key(e) => e.said(),
            PublishError::Local(e) => e.said(),
        }
    }

    /// What the error says.
    pub fn text(&self) -> (text: String)
        ensures
            text@ == self.said(),
    {
        match self {
            PublishError::Key(e) => e.text(),
            PublishError::Local(e) => e.text(),
        }
    }
}

/// What a publish needs before its message is sealed: the version of the key to
/// seal it under, and its link in this node's chain.
pub fn plan_publish(
    store: &TopicStore,
    node: NodeId,
    newest: Option<u64>,
    head: Option<u64>,
) -> (plan: Result<(u64, Link), PublishError>)
    requires
        store.wf(),
    ensures
        match plan {
            Ok((version, link)) => newest == Some(version) && (head matches Some(h) ==> version
                >= h) && follows(chain(store.rows(), node), link),
            Err(PublishError::Key(KeyError::NoKey)) => newest is None,
            Err(PublishError::Key(KeyError::Superseded { key, head: h })) => newest == Some(key)
                && head == Some(h) && key < h,
            Err(PublishError::Local(e)) => e == LocalError::Full && newest is Some && (
            head matches Some(h) ==> newest->0 >= h) && (chain(store.rows(), node) matches Some(s)
                && s.seq == u64::MAX),
        },
{
    let version: u64 = match current_fabric_key(newest, head) {
        Ok(version) => version,
        Err(e) => {
            return Err(PublishError::Key(e));
        },
    };
    match next_link(store, node) {
        Ok(link) => Ok((version, link)),
        Err(e) => Err(PublishError::Local(e)),
    }
}

/// Store a sealed message, and say what to broadcast: its bytes, where it is of
/// the sender's topic. A message that is not broadcast is in the log, and
/// replay carries it.
pub fn publish_from_tail(
    store: &mut TopicStore,
    sender: &TopicSender,
    envelope: TopicEnvelope,
) -> (done: Result<Option<Vec<u8>>, LocalError>)
    requires
        old(store).wf(),
    ensures
        final(store).wf(),
        final(store).of_topic() == old(store).of_topic(),
        local_outcome(
            old(store).of_topic(),
            old(store).rows(),
            envelope@,
            final(store).rows(),
            match done {
                Ok(_) => Ok(()),
                Err(e) => Err(e),
            },
        ),
        (done matches Ok(wire) ==> wire is Some == (envelope.topic == sender.topic)),
        (done matches Ok(Some(bytes)) ==> bytes@ == envelope.wire@),
{
    let wire = match sender.broadcast(&envelope) {
        Ok(bytes) => Some(bytes),
        Err(_) => None,
    };
    match append_local(store, envelope) {
        Ok(_) => Ok(wire),
        Err(e) => Err(e),
    }
}

/// The next link of a node's chain stands at the first number that is free from the
/// start on, and names the message before it, or nothing where it is the first.
pub proof fn the_next_link_follows_the_last(
    rows: Seq<EnvelopeView>,
    node: NodeId,
    link: Link,
    n: u64,
)
    requires
        crate::store::rows_sorted(rows),
        follows(chain(rows, node), link),
    ensures
        forall|i: int|
            0 <= i < rows.len() && (#[trigger] rows[i]).sender == node ==> rows[i].seq != link.seq,
        n < link.seq ==> exists|i: int|
            0 <= i < rows.len() && (#[trigger] rows[i]).sender == node && rows[i].seq == n,
        link.seq > 0 ==> exists|i: int|
            0 <= i < rows.len() && (#[trigger] rows[i]).sender == node && rows[i].seq + 1
                == link.seq && rows[i].hash == link.prev_hash,
        link.seq == 0 ==> forall|i: int| 0 <= i < 32 ==> #[trigger] link.prev_hash.bytes@[i] == 0,
{
    crate::store::a_mark_is_where_the_run_ends(rows, node, n);
    if let Some(mark) = chain(rows, node) {
        let i = choose|i: int|
            0 <= i < rows.len() && (#[trigger] rows[i]).sender == node && rows[i].seq == mark.seq
                && rows[i].hash == mark.hash;
        assert(rows[i].seq + 1 == link.seq);
    }
}

/// A message of this node is stored exactly where it is of the log's topic and
/// nothing stands at its number; where the same message stands there another process
/// was first, where another does it is a fork, and in none of these is the log
/// changed.
pub proof fn a_local_message_is_stored_once(
    topic: TopicId,
    before: Seq<EnvelopeView>,
    e: EnvelopeView,
    after: Seq<EnvelopeView>,
    done: Result<(), LocalError>,
    i: int,
    other: EnvelopeView,
)
    requires
        crate::store::rows_sorted(before),
        local_outcome(topic, before, e, after, done),
    ensures
        done is Ok ==> after.contains(e) && after.len() == before.len() + 1 && (after.contains(
            other,
        ) == (before.contains(other) || other == e)),
        done is Err ==> after == before,
        e.topic != topic ==> done == Err::<(), LocalError>(
            LocalError::Refused(AppendError::WrongTopic { envelope: e.topic, log: topic }),
        ),
        e.topic == topic && 0 <= i < before.len() && before[i].sender == e.sender && before[i].seq
            == e.seq ==> done == Err::<(), LocalError>(
            if before[i].hash == e.hash {
                LocalError::Raced { seq: e.seq }
            } else {
                LocalError::Refused(
                    AppendError::Fork {
                        sender: e.sender,
                        seq: e.seq,
                        held: before[i].hash,
                        offered: e.hash,
                    },
                )
            },
        ),
        e.topic == topic && (forall|k: int|
            0 <= k < before.len() ==> !((#[trigger] before[k]).sender == e.sender && before[k].seq
                == e.seq)) ==> done is Ok,
{
    crate::store::a_held_hash_is_a_rows_hash(before, e.sender, e.seq, i);
    if done is Ok {
        crate::store::storing_adds_one_message(before, e, after, other);
    }
}

/// What is said of a key that is behind names its version first and then the head's;
/// what is said of a raced number names the number.
pub proof fn a_stale_key_is_told_from_its_head(key: u64, head: u64, seq: u64)
    ensures
        ("this node's newest fabric key is for roster version "@ + decimal(key as nat)
            + ", but the roster is at version "@ + decimal(head as nat)).is_prefix_of(
            KeyError::Superseded { key, head }.said(),
        ),
        ("sequence "@ + decimal(seq as nat) + " was already stored"@).is_prefix_of(
            LocalError::Raced { seq }.said(),
        ),
{
    let said = KeyError::Superseded { key, head }.said();
    let start = "this node's newest fabric key is for roster version "@ + decimal(key as nat)
        + ", but the roster is at version "@ + decimal(head as nat);
    assert(said.take(start.len() as int) =~= start);
    reveal_strlit(" was already stored");
    reveal_strlit(
        " was already stored for this node: another process is allocating sequences on this topic",
    );
    let raced = LocalError::Raced { seq }.said();
    let first = "sequence "@ + decimal(seq as nat) + " was already stored"@;
    assert(raced.take(first.len() as int) =~= first);
}

/// An error is told in the words of what caused it.
pub proof fn an_error_is_told_by_its_cause(key: KeyError, local: LocalError, refused: AppendError)
    ensures
        PublishError::Key(key).said() == key.said(),
        PublishError::Local(local).said() == local.said(),
        LocalError::Refused(refused).said() == refused.said(),
{
}

} // verus!
