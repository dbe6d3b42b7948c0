//! The message log of one topic: every envelope a node has accepted for it,
//! and where each publisher's chain stands.
//!
//! The log is kept in the order of its keys (sender, then sequence number) and
//! the marks in the order of their senders, as the tables on disk are.

use vstd::prelude::*;

use crate::envelope::{views, views_push, ChainState, EnvelopeView, TopicEnvelope};
use crate::ids::{
    lex_lt_irreflexive, lex_lt_total, lex_lt_transitive, MessageHash, NodeId, TopicId,
};
use crate::nodes::rising_nodes_determined;

verus! {

/// What an append did. A message is shown only when its append reports
/// [`Appended::Inserted`], which makes deduplication structural across live
/// delivery, replay and a restart.
#[derive(Clone, Copy, Debug, PartialEq, Eq, Structural)]
pub enum Appended {
    /// The envelope was new; the log and the sender's mark advanced.
    Inserted,
    /// The exact envelope was already stored in its slot.
    Duplicate,
}

/// Why an append was refused.
#[derive(Clone, Copy, Debug, PartialEq, Eq)]
pub enum AppendError {
    /// The envelope is addressed to another topic.
    WrongTopic { envelope: TopicId, log: TopicId },
    /// Another envelope already stands in the slot.
    Fork { sender: NodeId, seq: u64, held: MessageHash, offered: MessageHash },
}

/// A slot of the log: a sender and a sequence number.
pub type Slot = (NodeId, u64);

/// The order of slots: by sender, then by sequence number.
pub open spec fn slot_lt(a: Slot, b: Slot) -> bool {
    a.0.precedes(b.0) || (a.0 == b.0 && a.1 < b.1)
}

/// The slot an envelope stands in.
pub open spec fn slot_of(e: EnvelopeView) -> Slot {
    (e.sender, e.seq)
}

/// The order of slots is total and strict.
pub proof fn slot_order(a: Slot, b: Slot, c: Slot)
    ensures
        !slot_lt(a, a),
        slot_lt(a, b) && slot_lt(b, c) ==> slot_lt(a, c),
        slot_lt(a, b) || slot_lt(b, a) || a == b,
{
    lex_lt_irreflexive(a.0.bytes@);
    lex_lt_irreflexive(b.0.bytes@);
    lex_lt_total(a.0.bytes@, b.0.bytes@);
    crate::ids::array_from_view(a.0.bytes, b.0.bytes);
    if slot_lt(a, b) && slot_lt(b, c) {
        if a.0.precedes(b.0) && b.0.precedes(c.0) {
            lex_lt_transitive(a.0.bytes@, b.0.bytes@, c.0.bytes@);
        }
    }
}

/// Rows in the strict order of their slots.
pub open spec fn rows_sorted(rows: Seq<EnvelopeView>) -> bool {
    forall|i: int, j: int|
        0 <= i < j < rows.len() ==> slot_lt(slot_of(#[trigger] rows[i]), slot_of(#[trigger] rows[j]))
}

/// Whether the log holds a message in this slot.
pub open spec fn holds(rows: Seq<EnvelopeView>, slot: Slot) -> bool {
    exists|i: int| 0 <= i < rows.len() && slot_of(#[trigger] rows[i]) == slot
}

/// The hash of the message in this slot, if there is one.
pub open spec fn held(rows: Seq<EnvelopeView>, slot: Slot) -> Option<MessageHash> {
    if holds(rows, slot) {
        Some(rows[choose|i: int| 0 <= i < rows.len() && slot_of(#[trigger] rows[i]) == slot].hash)
    } else {
        None
    }
}

/// Whether envelopes can stand in one log: all of its topic, and no two that
/// differ in one slot.
pub open spec fn one_log(topic: TopicId, list: Seq<EnvelopeView>) -> bool {
    &&& forall|i: int| 0 <= i < list.len() ==> (#[trigger] list[i]).topic == topic
    &&& forall|i: int, j: int|
        0 <= i < list.len() && 0 <= j < list.len() && slot_of(#[trigger] list[i]) == slot_of(
            #[trigger] list[j],
        ) ==> list[i].hash == list[j].hash
}

/// Whether a log holds every one of some envelopes, and nothing else.
pub open spec fn made_of(rows: Seq<EnvelopeView>, list: Seq<EnvelopeView>) -> bool {
    &&& forall|i: int|
        0 <= i < list.len() ==> held(rows, slot_of(#[trigger] list[i])) == Some(list[i].hash)
    &&& forall|k: int| 0 <= k < rows.len() ==> list.contains(#[trigger] rows[k])
}

/// The last sequence number that follows `n` without a hole.
pub open spec fn run_end(rows: Seq<EnvelopeView>, sender: NodeId, n: u64) -> u64
    decreases u64::MAX - n,
{
    if n < u64::MAX && holds(rows, (sender, (n + 1) as u64)) {
        run_end(rows, sender, (n + 1) as u64)
    } else {
        n
    }
}

/// Where a publisher's chain stands in the log: its newest message with no
/// hole before it, or nothing when its first message is not there.
pub open spec fn chain(rows: Seq<EnvelopeView>, sender: NodeId) -> Option<ChainState> {
    if holds(rows, (sender, 0)) {
        let top = run_end(rows, sender, 0);
        Some(ChainState { seq: top, hash: held(rows, (sender, top))->0 })
    } else {
        None
    }
}

/// In sorted rows a slot is held at one place only.
proof fn held_at(rows: Seq<EnvelopeView>, i: int)
    requires
        rows_sorted(rows),
        0 <= i < rows.len(),
    ensures
        holds(rows, slot_of(rows[i])),
        held(rows, slot_of(rows[i])) == Some(rows[i].hash),
{
    let slot = slot_of(rows[i]);
    let j = choose|j: int| 0 <= j < rows.len() && slot_of(#[trigger] rows[j]) == slot;
    slot_order(slot, slot, slot);
    if j < i {
        assert(slot_lt(slot_of(rows[j]), slot_of(rows[i])));
    } else if i < j {
        assert(slot_lt(slot_of(rows[i]), slot_of(rows[j])));
    }
}

/// A run that is held from `m` to `n` and stops there ends at `n`.
proof fn run_end_is(rows: Seq<EnvelopeView>, sender: NodeId, m: u64, n: u64)
    requires
        m <= n,
        forall|k: u64| m < k <= n ==> holds(rows, #[trigger] slot_at(sender, k)),
        n == u64::MAX || !holds(rows, (sender, (n + 1) as u64)),
    ensures
        run_end(rows, sender, m) == n,
    decreases n - m,
{
    if m < n {
        assert(holds(rows, slot_at(sender, (m + 1) as u64)));
        run_end_is(rows, sender, (m + 1) as u64, n);
    }
}

/// The slot of a sender's `k`-th message.
pub open spec fn slot_at(sender: NodeId, k: u64) -> Slot {
    (sender, k)
}

/// Every slot of a run up to its end is held.
pub proof fn run_is_held(rows: Seq<EnvelopeView>, sender: NodeId, n: u64, k: u64)
    requires
        holds(rows, (sender, n)),
        n <= k <= run_end(rows, sender, n),
    ensures
        holds(rows, (sender, k)),
        n <= run_end(rows, sender, n),
    decreases u64::MAX - n,
{
    if n < k {
        run_is_held(rows, sender, (n + 1) as u64, k);
    }
}

/// A run ends no sooner than it starts, and just before a hole.
pub proof fn run_end_stops(rows: Seq<EnvelopeView>, sender: NodeId, n: u64)
    ensures
        n <= run_end(rows, sender, n),
        run_end(rows, sender, n) == u64::MAX || !holds(
            rows,
            (sender, (run_end(rows, sender, n) + 1) as u64),
        ),
    decreases u64::MAX - n,
{
    if n < u64::MAX && holds(rows, (sender, (n + 1) as u64)) {
        run_end_stops(rows, sender, (n + 1) as u64);
    }
}

/// A chain depends on its own sender's slots alone.
proof fn run_end_same(a: Seq<EnvelopeView>, b: Seq<EnvelopeView>, sender: NodeId, n: u64)
    requires
        forall|k: u64|
            holds(a, #[trigger] slot_at(sender, k)) == holds(b, slot_at(sender, k)),
    ensures
        run_end(a, sender, n) == run_end(b, sender, n),
    decreases u64::MAX - n,
{
    if n < u64::MAX {
        assert(holds(a, slot_at(sender, (n + 1) as u64)) == holds(
            b,
            slot_at(sender, (n + 1) as u64),
        ));
        if holds(a, (sender, (n + 1) as u64)) {
            run_end_same(a, b, sender, (n + 1) as u64);
        }
    }
}

/// What inserting a row in its place does to what the log holds.
proof fn insert_row(rows: Seq<EnvelopeView>, at: int, e: EnvelopeView)
    requires
        rows_sorted(rows),
        0 <= at <= rows.len(),
        !holds(rows, slot_of(e)),
        forall|i: int| 0 <= i < at ==> slot_lt(slot_of(#[trigger] rows[i]), slot_of(e)),
        forall|i: int| at <= i < rows.len() ==> slot_lt(slot_of(e), slot_of(#[trigger] rows[i])),
    ensures
        rows_sorted(rows.insert(at, e)),
        forall|s: Slot| #[trigger]
            holds(rows.insert(at, e), s) == (holds(rows, s) || s == slot_of(e)),
        forall|s: Slot| #[trigger]
            held(rows.insert(at, e), s) == if s == slot_of(e) {
                Some(e.hash)
            } else {
                held(rows, s)
            },
{
    let now = rows.insert(at, e);
    assert forall|i: int, j: int| 0 <= i < j < now.len() implies slot_lt(
        slot_of(#[trigger] now[i]),
        slot_of(#[trigger] now[j]),
    ) by {
        let x = if i < at { i } else { i - 1 };
        let y = if j < at { j } else { j - 1 };
        if i != at && j != at {
            assert(now[i] == rows[x]);
            assert(now[j] == rows[y]);
        } else if i == at {
            assert(now[j] == rows[y]);
        } else {
            assert(now[i] == rows[x]);
        }
    }
    assert forall|s: Slot| #[trigger] holds(now, s) == (holds(rows, s) || s == slot_of(e)) by {
        if holds(rows, s) {
            let i = choose|i: int| 0 <= i < rows.len() && slot_of(#[trigger] rows[i]) == s;
            let k = if i < at { i } else { i + 1 };
            assert(now[k] == rows[i]);
        }
        if s == slot_of(e) {
            assert(slot_of(now[at]) == s);
        }
        if holds(now, s) && s != slot_of(e) {
            let k = choose|k: int| 0 <= k < now.len() && slot_of(#[trigger] now[k]) == s;
            let i = if k < at { k } else { k - 1 };
            assert(now[k] == rows[i]);
        }
    }
    assert forall|s: Slot| #[trigger] held(now, s) == if s == slot_of(e) {
        Some(e.hash)
    } else {
        held(rows, s)
    } by {
        if s == slot_of(e) {
            assert(slot_of(now[at]) == s);
            held_at(now, at);
        } else if holds(rows, s) {
            let i = choose|i: int| 0 <= i < rows.len() && slot_of(#[trigger] rows[i]) == s;
            let k = if i < at { i } else { i + 1 };
            assert(now[k] == rows[i]);
            held_at(now, k);
            held_at(rows, i);
        } else {
            assert(!holds(now, s));
        }
    }
}

/// The log of one topic.
#[derive(Debug)]
pub struct TopicStore {
    topic: TopicId,
    log: Vec<TopicEnvelope>,
    marks: Vec<(NodeId, ChainState)>,
}

impl TopicStore {
    /// The rows of the log, in the order of their keys.
    pub closed spec fn rows(&self) -> Seq<EnvelopeView> {
        views(self.log@)
    }

    /// The topic this log belongs to.
    pub closed spec fn of_topic(&self) -> TopicId {
        self.topic
    }

    /// The marks, in the order of their senders.
    pub closed spec fn mark_rows(&self) -> Seq<(NodeId, ChainState)> {
        self.marks@
    }

    /// The log holds this topic's envelopes only, in the order of their slots,
    /// and the marks are exactly the chains of the log.
    pub open spec fn wf(&self) -> bool {
        &&& rows_sorted(self.rows())
        &&& forall|i: int|
            0 <= i < self.rows().len() ==> (#[trigger] self.rows()[i]).topic == self.of_topic()
        &&& marks_match(self.rows(), self.mark_rows())
    }
}

/// The marks are exactly the chains of the log, in the order of their senders.
pub open spec fn marks_match(
    rows: Seq<EnvelopeView>,
    marks: Seq<(NodeId, ChainState)>,
) -> bool {
    &&& forall|i: int, j: int|
        0 <= i < j < marks.len() ==> (#[trigger] marks[i]).0.precedes((#[trigger] marks[j]).0)
    &&& forall|i: int|
        0 <= i < marks.len() ==> chain(rows, (#[trigger] marks[i]).0) == Some(marks[i].1)
    &&& forall|s: NodeId|
        (#[trigger] chain(rows, s)) is Some ==> exists|i: int|
            0 <= i < marks.len() && (#[trigger] marks[i]).0 == s
}

/// A chain is what it was when a row of another sender comes in.
proof fn chain_elsewhere(rows: Seq<EnvelopeView>, at: int, e: EnvelopeView, t: NodeId)
    requires
        rows_sorted(rows),
        0 <= at <= rows.len(),
        !holds(rows, slot_of(e)),
        forall|i: int| 0 <= i < at ==> slot_lt(slot_of(#[trigger] rows[i]), slot_of(e)),
        forall|i: int| at <= i < rows.len() ==> slot_lt(slot_of(e), slot_of(#[trigger] rows[i])),
        t != e.sender,
    ensures
        chain(rows.insert(at, e), t) == chain(rows, t),
{
    let now = rows.insert(at, e);
    insert_row(rows, at, e);
    assert forall|k: u64| holds(rows, #[trigger] slot_at(t, k)) == holds(now, slot_at(t, k)) by {
        assert(slot_at(t, k) != slot_of(e));
    }
    run_end_same(rows, now, t, 0);
    assert(holds(rows, slot_at(t, 0)) == holds(now, slot_at(t, 0)));
    assert(held(now, (t, run_end(now, t, 0))) == held(rows, (t, run_end(now, t, 0))));
}

/// One publisher's chain is at most one thing.
pub proof fn chain_of_run(rows: Seq<EnvelopeView>, sender: NodeId, state: ChainState)
    requires
        forall|k: u64| k <= state.seq ==> holds(rows, #[trigger] slot_at(sender, k)),
        held(rows, (sender, state.seq)) == Some(state.hash),
        state.seq == u64::MAX || !holds(rows, (sender, (state.seq + 1) as u64)),
    ensures
        chain(rows, sender) == Some(state),
{
    assert(holds(rows, slot_at(sender, 0)));
    run_end_is(rows, sender, 0, state.seq);
}

/// Whether slot `(a, m)` comes before slot `(b, n)`.
pub fn slot_less(a: &NodeId, m: u64, b: &NodeId, n: u64) -> (less: bool)
    ensures
        less == slot_lt((*a, m), (*b, n)),
{
    a.less(b) || (a.same(b) && m < n)
}

/// How many rows come before a slot, and whether the next one is that slot.
fn find(log: &Vec<TopicEnvelope>, sender: &NodeId, seq: u64) -> (place: (usize, bool))
    requires
        rows_sorted(views(log@)),
    ensures
        place.0 <= log@.len(),
        forall|i: int|
            0 <= i < place.0 ==> slot_lt(slot_of(#[trigger] views(log@)[i]), (*sender, seq)),
        place.1 ==> place.0 < log@.len() && slot_of(views(log@)[place.0 as int]) == (*sender, seq),
        place.1 == holds(views(log@), (*sender, seq)),
        forall|i: int|
            place.0 <= i < log@.len() ==> !slot_lt(
                slot_of(#[trigger] views(log@)[i]),
                (*sender, seq),
            ),
        forall|i: int|
            place.0 <= i < log@.len() && !place.1 ==> slot_lt(
                (*sender, seq),
                slot_of(#[trigger] views(log@)[i]),
            ),
{
    let ghost rows = views(log@);
    let ghost slot: Slot = (*sender, seq);
    let mut low: usize = 0;
    let mut high: usize = log.len();
    while low < high
        invariant
            low <= high <= log@.len(),
            rows == views(log@),
            slot == (*sender, seq),
            rows_sorted(rows),
            forall|i: int| 0 <= i < low ==> slot_lt(slot_of(#[trigger] rows[i]), slot),
            forall|i: int| high <= i < rows.len() ==> !slot_lt(slot_of(#[trigger] rows[i]), slot),
        decreases high - low,
    {
        let mid: usize = low + (high - low) / 2;
        assert(rows[mid as int] == log@[mid as int]@);
        if slot_less(&log[mid].sender, log[mid].seq, sender, seq) {
            proof {
                assert forall|i: int| 0 <= i < mid + 1 implies slot_lt(
                    slot_of(#[trigger] rows[i]),
                    slot,
                ) by {
                    if i < mid {
                        slot_order(slot_of(rows[i]), slot_of(rows[mid as int]), slot);
                    }
                }
            }
            low = mid + 1;
        } else {
            proof {
                assert forall|i: int| mid <= i < rows.len() implies !slot_lt(
                    slot_of(#[trigger] rows[i]),
                    slot,
                ) by {
                    if mid < i {
                        slot_order(slot_of(rows[mid as int]), slot_of(rows[i]), slot);
                    }
                }
            }
            high = mid;
        }
    }
    let found = low < log.len() && log[low].sender.same(sender) && log[low].seq == seq;
    proof {
        if low < rows.len() {
            assert(rows[low as int] == log@[low as int]@);
        }
        slot_order(slot, slot, slot);
        if holds(rows, slot) {
            let i = choose|i: int| 0 <= i < rows.len() && slot_of(#[trigger] rows[i]) == slot;
            assert(i >= low);
            if i > low {
                assert(slot_lt(slot_of(rows[low as int]), slot_of(rows[i])));
            }
        }
        assert forall|i: int| low <= i < rows.len() && !found implies slot_lt(
            slot,
            slot_of(#[trigger] rows[i]),
        ) by {
            slot_order(slot, slot_of(rows[i]), slot);
            if slot_of(rows[i]) == slot {
                assert(holds(rows, slot));
            }
        }
    }
    (low, found)
}

/// Walk a mark forward over whatever is contiguous in the log. In the ordinary
/// case that is one step; after a hole is filled it is the whole healed run.
fn walk(log: &Vec<TopicEnvelope>, start: Option<ChainState>, sender: &NodeId) -> (state: Option<
    ChainState,
>)
    requires
        rows_sorted(views(log@)),
        start matches Some(s) ==> held(views(log@), (*sender, s.seq)) == Some(s.hash) && forall|
            k: u64,
        |
            k <= s.seq ==> holds(views(log@), #[trigger] slot_at(*sender, k)),
    ensures
        state == chain(views(log@), *sender),
{
    let ghost rows = views(log@);
    let mut state: Option<ChainState> = start;
    loop
        invariant
            rows == views(log@),
            rows_sorted(rows),
            state matches Some(s) ==> held(rows, (*sender, s.seq)) == Some(s.hash) && forall|k: u64|
                k <= s.seq ==> holds(rows, #[trigger] slot_at(*sender, k)),
        ensures
            state == chain(rows, *sender),
        decreases
                match state {
                    None => u64::MAX + 1,
                    Some(s) => u64::MAX - s.seq,
                },
    {
        let next: u64 = match state {
            None => 0,
            Some(s) => {
                if s.seq == u64::MAX {
                    proof {
                        chain_of_run(rows, *sender, s);
                    }
                    break;
                }
                s.seq + 1
            },
        };
        let (at, found) = find(log, sender, next);
        if !found {
            proof {
                match state {
                    None => {},
                    Some(s) => {
                        chain_of_run(rows, *sender, s);
                    },
                }
            }
            break;
        }
        proof {
            assert(rows[at as int] == log@[at as int]@);
            held_at(rows, at as int);
            assert forall|k: u64| k <= next implies holds(
                rows,
                #[trigger] slot_at(*sender, k),
            ) by {
                if k == next {
                    assert(slot_at(*sender, k) == slot_of(rows[at as int]));
                }
            }
        }
        state = Some(ChainState { seq: next, hash: log[at].hash });
    }
    state
}

/// The marks still match when one sender's mark is replaced by its new chain.
proof fn marks_replaced(
    rows: Seq<EnvelopeView>,
    now: Seq<EnvelopeView>,
    marks: Seq<(NodeId, ChainState)>,
    place: int,
    sender: NodeId,
    state: ChainState,
)
    requires
        marks_match(rows, marks),
        0 <= place < marks.len(),
        marks[place].0 == sender,
        chain(now, sender) == Some(state),
        forall|t: NodeId| t != sender ==> #[trigger] chain(now, t) == chain(rows, t),
    ensures
        marks_match(now, marks.update(place, (sender, state))),
{
    let new = marks.update(place, (sender, state));
    lex_lt_irreflexive(sender.bytes@);
    assert forall|i: int, j: int| 0 <= i < j < new.len() implies (#[trigger] new[i]).0.precedes(
        (#[trigger] new[j]).0,
    ) by {
        assert(new[i].0 == marks[i].0);
        assert(new[j].0 == marks[j].0);
    }
    assert forall|i: int| 0 <= i < new.len() implies chain(now, (#[trigger] new[i]).0) == Some(
        new[i].1,
    ) by {
        if i != place {
            if i < place {
                assert(marks[i].0.precedes(marks[place].0));
            } else {
                assert(marks[place].0.precedes(marks[i].0));
            }
            assert(marks[i].0 != sender);
        }
    }
    assert forall|s: NodeId| (#[trigger] chain(now, s)) is Some implies exists|i: int|
        0 <= i < new.len() && (#[trigger] new[i]).0 == s by {
        if s == sender {
            assert(new[place].0 == s);
        } else {
            let i = choose|i: int| 0 <= i < marks.len() && (#[trigger] marks[i]).0 == s;
            assert(new[i].0 == s);
        }
    }
}

/// The marks still match when a sender's first mark is put in its place.
proof fn marks_inserted(
    rows: Seq<EnvelopeView>,
    now: Seq<EnvelopeView>,
    marks: Seq<(NodeId, ChainState)>,
    place: int,
    sender: NodeId,
    state: ChainState,
)
    requires
        marks_match(rows, marks),
        0 <= place <= marks.len(),
        forall|i: int| 0 <= i < place ==> (#[trigger] marks[i]).0.precedes(sender),
        forall|i: int| place <= i < marks.len() ==> sender.precedes((#[trigger] marks[i]).0),
        chain(now, sender) == Some(state),
        forall|t: NodeId| t != sender ==> #[trigger] chain(now, t) == chain(rows, t),
    ensures
        marks_match(now, marks.insert(place, (sender, state))),
{
    let new = marks.insert(place, (sender, state));
    lex_lt_irreflexive(sender.bytes@);
    assert forall|i: int, j: int| 0 <= i < j < new.len() implies (#[trigger] new[i]).0.precedes(
        (#[trigger] new[j]).0,
    ) by {
        let x = if i < place { i } else { i - 1 };
        let y = if j < place { j } else { j - 1 };
        if i != place && j != place {
            assert(new[i] == marks[x]);
            assert(new[j] == marks[y]);
        } else if i == place {
            assert(new[j] == marks[y]);
        } else {
            assert(new[i] == marks[x]);
        }
    }
    assert forall|i: int| 0 <= i < new.len() implies chain(now, (#[trigger] new[i]).0) == Some(
        new[i].1,
    ) by {
        if i != place {
            let x = if i < place { i } else { i - 1 };
            assert(new[i] == marks[x]);
            assert(marks[x].0 != sender);
        }
    }
    assert forall|s: NodeId| (#[trigger] chain(now, s)) is Some implies exists|i: int|
        0 <= i < new.len() && (#[trigger] new[i]).0 == s by {
        if s == sender {
            assert(new[place].0 == s);
        } else {
            let i = choose|i: int| 0 <= i < marks.len() && (#[trigger] marks[i]).0 == s;
            let k = if i < place { i } else { i + 1 };
            assert(new[k] == marks[i]);
        }
    }
}

/// One row put where it belongs among the others.
pub open spec fn put_in(
    before: Seq<EnvelopeView>,
    e: EnvelopeView,
    after: Seq<EnvelopeView>,
) -> bool {
    exists|at: int| 0 <= at <= before.len() && after == #[trigger] before.insert(at, e)
}

impl TopicStore {
    /// Where the log of `topic` is kept, from the wires home on.
    pub fn db_path(topic: TopicId) -> (path: String)
        ensures
            path@ == "topics/"@ + crate::text::hex(topic.bytes@) + ".db"@,
    {
        let mut path = "topics/".to_owned();
        path.append(topic.hex().as_str());
        path.append(".db");
        path
    }

    /// An empty log for `topic`.
    pub fn new(topic: TopicId) -> (store: TopicStore)
        ensures
            store.wf(),
            store.of_topic() == topic,
            store.rows() == Seq::<EnvelopeView>::empty(),
    {
        let store = TopicStore { topic, log: Vec::new(), marks: Vec::new() };
        assert(store.rows() =~= Seq::<EnvelopeView>::empty());
        store
    }

    /// The topic this log belongs to.
    pub fn topic(&self) -> (topic: TopicId)
        ensures
            topic == self.of_topic(),
    {
        self.topic
    }

    /// How many marks come before a sender's, and whether the next one is its.
    fn find_mark(&self, sender: &NodeId) -> (place: (usize, bool))
        requires
            self.wf(),
        ensures
            place.0 <= self.mark_rows().len(),
            forall|i: int|
                0 <= i < place.0 ==> (#[trigger] self.mark_rows()[i]).0.precedes(*sender),
            place.1 ==> place.0 < self.mark_rows().len() && self.mark_rows()[place.0 as int].0
                == *sender,
            forall|i: int|
                place.0 <= i < self.mark_rows().len() && !place.1 ==> sender.precedes(
                    (#[trigger] self.mark_rows()[i]).0,
                ),
            place.1 == (chain(self.rows(), *sender) is Some),
    {
        let ghost marks = self.mark_rows();
        let mut i: usize = 0;
        while i < self.marks.len() && self.marks[i].0.less(sender)
            invariant
                i <= self.marks@.len(),
                marks == self.mark_rows(),
                marks == self.marks@,
                forall|j: int| 0 <= j < i ==> (#[trigger] marks[j]).0.precedes(*sender),
            decreases self.marks@.len() - i,
        {
            i += 1;
        }
        let found = i < self.marks.len() && self.marks[i].0.same(sender);
        proof {
            assert forall|j: int| i <= j < marks.len() && !found implies sender.precedes(
                (#[trigger] marks[j]).0,
            ) by {
                let first = marks[i as int].0;
                lex_lt_total(first.bytes@, sender.bytes@);
                crate::ids::array_from_view(first.bytes, sender.bytes);
                if i < j {
                    assert(marks[i as int].0.precedes(marks[j].0));
                    lex_lt_transitive(sender.bytes@, first.bytes@, marks[j].0.bytes@);
                }
            }
            if chain(self.rows(), *sender) is Some {
                let j = choose|j: int| 0 <= j < marks.len() && (#[trigger] marks[j]).0 == *sender;
                lex_lt_irreflexive(sender.bytes@);
                assert(j >= i);
                if !found {
                    assert(sender.precedes(marks[j].0));
                }
            }
        }
        (i, found)
    }

    /// Where `sender`'s chain stands: its newest message with no hole before
    /// it, or `None` when nothing of it is stored from the start.
    pub fn chain_state(&self, sender: NodeId) -> (state: Option<ChainState>)
        requires
            self.wf(),
        ensures
            state == chain(self.rows(), sender),
    {
        let (at, found) = self.find_mark(&sender);
        if found {
            Some(self.marks[at].1)
        } else {
            None
        }
    }

    /// The hash of the message stored in a slot, or `None` if it is empty.
    pub fn hash_at(&self, sender: NodeId, seq: u64) -> (hash: Option<MessageHash>)
        requires
            self.wf(),
        ensures
            hash == held(self.rows(), (sender, seq)),
    {
        let (at, found) = find(&self.log, &sender, seq);
        if found {
            proof {
                assert(self.rows()[at as int] == self.log@[at as int]@);
                held_at(self.rows(), at as int);
            }
            Some(self.log[at].hash)
        } else {
            None
        }
    }

    /// Store `envelope` and advance its sender's mark over whatever is now
    /// contiguous.
    ///
    /// Storing the same envelope again is [`Appended::Duplicate`]. A different
    /// one in an occupied slot is a fork, and one for another topic is out of
    /// place: both are refused and change nothing. A message past a hole is
    /// stored, and the mark stays behind the hole, where the gap can be seen;
    /// filling the hole moves the mark over the whole run at once.
    pub fn append(&mut self, envelope: TopicEnvelope) -> (done: Result<Appended, AppendError>)
        requires
            old(self).wf(),
        ensures
            final(self).wf(),
            final(self).of_topic() == old(self).of_topic(),
            ({
                let slot = slot_of(envelope@);
                let there = held(old(self).rows(), slot);
                match done {
                    Err(AppendError::WrongTopic { envelope: to, log }) => {
                        &&& envelope.topic != old(self).of_topic()
                        &&& to == envelope.topic && log == old(self).of_topic()
                        &&& final(self).rows() == old(self).rows()
                    },
                    Err(AppendError::Fork { sender, seq, held, offered }) => {
                        &&& envelope.topic == old(self).of_topic()
                        &&& there == Some(held) && held != envelope.hash
                        &&& (sender, seq) == slot && offered == envelope.hash
                        &&& final(self).rows() == old(self).rows()
                    },
                    Ok(Appended::Duplicate) => {
                        &&& envelope.topic == old(self).of_topic()
                        &&& there == Some(envelope.hash)
                        &&& final(self).rows() == old(self).rows()
                    },
                    Ok(Appended::Inserted) => {
                        &&& envelope.topic == old(self).of_topic()
                        &&& there is None
                        &&& put_in(old(self).rows(), envelope@, final(self).rows())
                    },
                }
            }),
    {
        if !envelope.topic.same(&self.topic) {
            return Err(AppendError::WrongTopic { envelope: envelope.topic, log: self.topic });
        }
        let sender = envelope.sender;
        let seq: u64 = envelope.seq;
        let hash = envelope.hash;
        let (at, found) = find(&self.log, &sender, seq);
        if found {
            proof {
                assert(self.rows()[at as int] == self.log@[at as int]@);
                held_at(self.rows(), at as int);
            }
            let there = self.log[at].hash;
            if there.same(&hash) {
                return Ok(Appended::Duplicate);
            }
            return Err(AppendError::Fork { sender, seq, held: there, offered: hash });
        }
        let start = self.chain_state(sender);
        let (place, marked) = self.find_mark(&sender);
        let ghost rows = self.rows();
        let ghost marks = self.mark_rows();
        let ghost e = envelope@;
        self.log.insert(at, envelope);
        let ghost now = rows.insert(at as int, e);
        proof {
            assert(self.rows() =~= now);
            insert_row(rows, at as int, e);
            assert forall|i: int| 0 <= i < now.len() implies (#[trigger] now[i]).topic
                == self.topic by {
                if i != at {
                    let k = if i < at { i } else { i - 1 };
                    assert(now[i] == rows[k]);
                }
            }
        }
        proof {
            match start {
                Some(s) => {
                    assert forall|k: u64| k <= s.seq implies holds(
                        now,
                        #[trigger] slot_at(sender, k),
                    ) by {
                        run_is_held(rows, sender, 0, k);
                    }
                    run_is_held(rows, sender, 0, s.seq);
                    assert((sender, s.seq) != slot_of(e));
                },
                None => {},
            }
        }
        let state = walk(&self.log, start, &sender);
        match state {
            Some(state) => {
                if marked {
                    self.marks[place] = (sender, state);
                } else {
                    self.marks.insert(place, (sender, state));
                }
                proof {
                    let new_marks = self.mark_rows();
                    assert forall|t: NodeId| t != sender implies #[trigger] chain(now, t) == chain(
                        rows,
                        t,
                    ) by {
                        chain_elsewhere(rows, at as int, e, t);
                    }
                    if marked {
                        marks_replaced(rows, now, marks, place as int, sender, state);
                    } else {
                        marks_inserted(rows, now, marks, place as int, sender, state);
                    }
                }
            },
            None => {
                proof {
                    assert forall|t: NodeId| #[trigger] chain(now, t) == chain(rows, t) by {
                        if t != sender {
                            chain_elsewhere(rows, at as int, e, t);
                        }
                    }
                }
            },
        }
        Ok(Appended::Inserted)
    }
}

/// Where a predicate holds on one range and nowhere else, filtering by it
/// gives that range.
proof fn filter_is_range<T>(s: Seq<T>, p: spec_fn(T) -> bool, low: int, high: int)
    requires
        0 <= low <= high <= s.len(),
        forall|i: int| 0 <= i < s.len() ==> (#[trigger] p(s[i]) <==> low <= i < high),
    ensures
        s.filter(p) == s.subrange(low, high),
    decreases s.len(),
{
    reveal(Seq::filter);
    if s.len() > 0 {
        let rest = s.drop_last();
        let last = (s.len() - 1) as int;
        assert(p(s[last]) <==> low <= last < high);
        assert forall|i: int| 0 <= i < rest.len() implies (#[trigger] p(rest[i]) <==> low <= i
            < high) by {
            assert(rest[i] == s[i]);
            assert(p(s[i]) <==> low <= i < high);
        }
        if low < high && high == s.len() {
            assert forall|i: int| 0 <= i < rest.len() implies (#[trigger] p(rest[i]) <==> low <= i
                < high - 1) by {}
            filter_is_range(rest, p, low, high - 1);
            assert(s.subrange(low, high) =~= rest.subrange(low, high - 1).push(s.last()));
        } else if low < high {
            filter_is_range(rest, p, low, high);
            assert(s.subrange(low, high) =~= rest.subrange(low, high));
        } else {
            assert forall|i: int| 0 <= i < rest.len() implies (#[trigger] p(rest[i]) <==> 0 <= i
                < 0) by {}
            filter_is_range(rest, p, 0, 0);
            assert(s.subrange(low, high) =~= rest.subrange(0, 0));
        }
    } else {
        assert(s.filter(p) =~= s.subrange(low, high));
    }
}

/// Whether a sequence number comes after `after`; every one comes after none.
pub open spec fn comes_after(seq: u64, after: Option<u64>) -> bool {
    match after {
        None => true,
        Some(n) => seq > n,
    }
}

/// A sender's messages after `after`, in chain order.
pub open spec fn rows_after(
    rows: Seq<EnvelopeView>,
    sender: NodeId,
    after: Option<u64>,
) -> Seq<EnvelopeView> {
    rows.filter(|e: EnvelopeView| e.sender == sender && comes_after(e.seq, after))
}

/// The first `n` elements, or all of them when there are fewer.
pub open spec fn first_n<T>(s: Seq<T>, n: nat) -> Seq<T> {
    if s.len() <= n {
        s
    } else {
        s.take(n as int)
    }
}

/// The order messages are shown in: by the time their senders give, then by
/// slot.
pub open spec fn show_lt(a: EnvelopeView, b: EnvelopeView) -> bool {
    a.timestamp < b.timestamp || (a.timestamp == b.timestamp && slot_lt(slot_of(a), slot_of(b)))
}

/// `shown` is the newest `limit` of `rows`, oldest first.
pub open spec fn newest(rows: Seq<EnvelopeView>, limit: nat, shown: Seq<EnvelopeView>) -> bool {
    &&& shown.len() == if rows.len() <= limit {
        rows.len()
    } else {
        limit
    }
    &&& forall|i: int, j: int|
        0 <= i < j < shown.len() ==> show_lt(#[trigger] shown[i], #[trigger] shown[j])
    &&& forall|i: int| 0 <= i < shown.len() ==> rows.contains(#[trigger] shown[i])
    &&& rows.len() <= limit ==> forall|k: int|
        0 <= k < rows.len() ==> shown.contains(#[trigger] rows[k])
    &&& forall|k: int, i: int|
        0 <= k < rows.len() && 0 <= i < shown.len() && !shown.contains(rows[k]) ==> show_lt(
            #[trigger] rows[k],
            #[trigger] shown[i],
        )
}

/// The order of display is total and strict between different slots.
pub proof fn show_order(a: EnvelopeView, b: EnvelopeView, c: EnvelopeView)
    ensures
        !show_lt(a, a),
        show_lt(a, b) && show_lt(b, c) ==> show_lt(a, c),
        slot_of(a) != slot_of(b) ==> show_lt(a, b) || show_lt(b, a),
{
    slot_order(slot_of(a), slot_of(b), slot_of(c));
}

/// Taking one more row into the newest ones.
proof fn newest_step(
    rows: Seq<EnvelopeView>,
    limit: nat,
    shown: Seq<EnvelopeView>,
    e: EnvelopeView,
    p: int,
)
    requires
        limit >= 1,
        newest(rows, limit, shown),
        0 <= p <= shown.len(),
        !shown.contains(e),
        forall|j: int| 0 <= j < p ==> show_lt(#[trigger] shown[j], e),
        forall|j: int| p <= j < shown.len() ==> show_lt(e, #[trigger] shown[j]),
    ensures
        shown.len() < limit ==> newest(rows.push(e), limit, shown.insert(p, e)),
        shown.len() >= limit ==> newest(rows.push(e), limit, shown.insert(p, e).drop_first()),
{
    let all = rows.push(e);
    let next = shown.insert(p, e);
    assert forall|i: int, j: int| 0 <= i < j < next.len() implies show_lt(
        #[trigger] next[i],
        #[trigger] next[j],
    ) by {
        let x = if i < p { i } else { i - 1 };
        let y = if j < p { j } else { j - 1 };
        if i != p && j != p {
            assert(next[i] == shown[x] && next[j] == shown[y]);
        } else if i == p {
            assert(next[j] == shown[y]);
        } else {
            assert(next[i] == shown[x]);
        }
    }
    assert forall|i: int| 0 <= i < next.len() implies all.contains(#[trigger] next[i]) by {
        if i == p {
            assert(all[rows.len() as int] == e);
        } else {
            let x = if i < p { i } else { i - 1 };
            assert(next[i] == shown[x]);
            let k = choose|k: int| 0 <= k < rows.len() && rows[k] == shown[x];
            assert(all[k] == next[i]);
        }
    }
    assert forall|x: EnvelopeView| #[trigger]
        next.contains(x) == (shown.contains(x) || x == e) by {
        if shown.contains(x) {
            let i = choose|i: int| 0 <= i < shown.len() && shown[i] == x;
            let k = if i < p { i } else { i + 1 };
            assert(next[k] == x);
        }
        if x == e {
            assert(next[p] == x);
        }
        if next.contains(x) && x != e {
            let k = choose|k: int| 0 <= k < next.len() && next[k] == x;
            let i = if k < p { k } else { k - 1 };
            assert(shown[i] == x);
        }
    }
    if shown.len() < limit {
        assert forall|k: int| 0 <= k < all.len() implies next.contains(#[trigger] all[k]) by {
            if k < rows.len() {
                assert(all[k] == rows[k]);
                assert(shown.contains(rows[k]));
            }
        }
    } else {
        let kept = next.drop_first();
        let gone = next[0];
        assert forall|x: EnvelopeView| #[trigger]
            kept.contains(x) == (next.contains(x) && x != gone) by {
            show_order(gone, gone, gone);
            if next.contains(x) && x != gone {
                let k = choose|k: int| 0 <= k < next.len() && next[k] == x;
                assert(kept[k - 1] == x);
            }
            if kept.contains(x) {
                let k = choose|k: int| 0 <= k < kept.len() && kept[k] == x;
                assert(next[k + 1] == x);
                assert(show_lt(next[0], next[k + 1]));
            }
        }
        assert forall|i: int| 0 <= i < kept.len() implies all.contains(#[trigger] kept[i]) by {
            assert(kept[i] == next[i + 1]);
        }
        assert forall|i: int, j: int| 0 <= i < j < kept.len() implies show_lt(
            #[trigger] kept[i],
            #[trigger] kept[j],
        ) by {
            assert(kept[i] == next[i + 1]);
            assert(kept[j] == next[j + 1]);
        }
        // What is left out comes before everything that is shown.
        assert forall|k: int, i: int|
            0 <= k < all.len() && 0 <= i < kept.len() && !kept.contains(all[k]) implies show_lt(
            #[trigger] all[k],
            #[trigger] kept[i],
        ) by {
            assert(kept[i] == next[i + 1]);
            assert(show_lt(gone, next[i + 1]));
            if all[k] != gone {
                assert(!next.contains(all[k]));
                assert(k < rows.len() && all[k] == rows[k]);
                assert(!shown.contains(rows[k]));
                if p == 0 {
                    assert(kept[i] == shown[i]);
                } else {
                    assert(gone == shown[0]);
                    assert(show_lt(rows[k], shown[0]));
                    show_order(rows[k], gone, kept[i]);
                }
            }
        }
    }
}

impl TopicStore {
    /// Up to `limit` of `sender`'s messages in chain order, starting just after
    /// `after`, or from the first when `after` is `None`.
    pub fn read_after(&self, sender: NodeId, after: Option<u64>, limit: usize) -> (out: Vec<
        TopicEnvelope,
    >)
        requires
            self.wf(),
        ensures
            views(out@) == first_n(rows_after(self.rows(), sender, after), limit as nat),
    {
        let ghost rows = self.rows();
        let ghost p = |e: EnvelopeView| e.sender == sender && comes_after(e.seq, after);
        let mut out: Vec<TopicEnvelope> = Vec::new();
        assert(views(out@) =~= Seq::<EnvelopeView>::empty());
        let first: u64 = match after {
            None => 0,
            Some(n) => {
                if n == u64::MAX {
                    proof {
                        filter_is_range(rows, p, 0, 0);
                    }
                    return out;
                }
                n + 1
            },
        };
        let (low, _) = find(&self.log, &sender, first);
        let (last, full) = find(&self.log, &sender, u64::MAX);
        let held: usize = self.log.len();
        assert(full ==> last < held);
        let high: usize = if full { last + 1 } else { last };
        proof {
            let a: Slot = (sender, first);
            let b: Slot = (sender, u64::MAX);
            slot_order(a, b, a);
            assert(low <= high) by {
                if high < low {
                    assert(slot_lt(slot_of(rows[high as int]), a));
                    slot_order(slot_of(rows[high as int]), a, b);
                    if full {
                        slot_order(slot_of(rows[last as int]), slot_of(rows[high as int]), b);
                        slot_order(b, b, b);
                        assert(slot_lt(slot_of(rows[last as int]), slot_of(rows[high as int])));
                        slot_order(b, slot_of(rows[high as int]), b);
                    } else {
                        slot_order(b, slot_of(rows[high as int]), b);
                    }
                }
            }
            assert forall|i: int| 0 <= i < rows.len() implies (#[trigger] p(rows[i]) <==> low <= i
                < high) by {
                let s = slot_of(rows[i]);
                lex_lt_irreflexive(sender.bytes@);
                slot_order(s, a, b);
                slot_order(s, b, a);
                slot_order(b, s, b);
                slot_order(a, s, a);
                if i < low {
                    assert(slot_lt(s, a));
                } else if i < high {
                    assert(!slot_lt(s, a));
                    if i < last {
                        assert(slot_lt(s, b));
                    } else {
                        assert(s == b);
                    }
                    lex_lt_total(s.0.bytes@, sender.bytes@);
                    crate::ids::array_from_view(s.0.bytes, sender.bytes);
                    if s.0.precedes(sender) {
                        assert(slot_lt(s, a));
                    }
                    if sender.precedes(s.0) {
                        assert(slot_lt(b, s));
                    }
                } else {
                    if full {
                        assert(slot_lt(slot_of(rows[last as int]), s));
                    }
                    assert(slot_lt(b, s));
                }
            }
            filter_is_range(rows, p, low as int, high as int);
        }
        let ghost found = rows.subrange(low as int, high as int);
        let mut i: usize = low;
        while i < high && i - low < limit
            invariant
                low <= i <= high <= self.log@.len(),
                i - low <= limit,
                found == views(self.log@).subrange(low as int, high as int),
                views(out@) == found.take(i - low),
            decreases high - i,
        {
            let ghost before = out@;
            let next = self.log[i].copy();
            out.push(next);
            proof {
                views_push(before, next);
            }
            assert(found.take(i + 1 - low) =~= found.take(i - low).push(found[i - low]));
            i += 1;
        }
        assert(found.take(found.len() as int) =~= found);
        out
    }
}

/// Whether `a` is shown before `b`.
pub fn shown_before(a: &TopicEnvelope, b: &TopicEnvelope) -> (before: bool)
    ensures
        before == show_lt(a@, b@),
{
    a.timestamp < b.timestamp || (a.timestamp == b.timestamp && slot_less(
        &a.sender,
        a.seq,
        &b.sender,
        b.seq,
    ))
}

impl TopicStore {
    /// The newest `limit` messages of all senders, in the order they are shown:
    /// by the time their senders give, then by sender and sequence number, so
    /// that two nodes with the same messages show the same transcript.
    pub fn read_backfill(&self, limit: usize) -> (out: Vec<TopicEnvelope>)
        requires
            self.wf(),
        ensures
            newest(self.rows(), limit as nat, views(out@)),
    {
        let ghost rows = self.rows();
        let mut out: Vec<TopicEnvelope> = Vec::new();
        assert(views(out@) =~= Seq::<EnvelopeView>::empty());
        if limit == 0 {
            return out;
        }
        let mut i: usize = 0;
        assert(rows.take(0) =~= Seq::<EnvelopeView>::empty());
        while i < self.log.len()
            invariant
                self.wf(),
                rows == self.rows(),
                rows == views(self.log@),
                limit >= 1,
                i <= self.log@.len(),
                newest(rows.take(i as int), limit as nat, views(out@)),
            decreases self.log@.len() - i,
        {
            let ghost shown = views(out@);
            let ghost e = rows[i as int];
            let mut p: usize = 0;
            while p < out.len() && shown_before(&out[p], &self.log[i])
                invariant
                    i < self.log@.len(),
                    p <= out@.len(),
                    shown == views(out@),
                    e == self.log@[i as int]@,
                    forall|j: int| 0 <= j < p ==> show_lt(#[trigger] shown[j], e),
                decreases out@.len() - p,
            {
                p += 1;
            }
            proof {
                assert forall|j: int| 0 <= j < shown.len() implies slot_of(#[trigger] shown[j])
                    != slot_of(e) by {
                    assert(rows.take(i as int).contains(shown[j]));
                    let k = choose|k: int|
                        0 <= k < rows.take(i as int).len() && rows.take(i as int)[k] == shown[j];
                    assert(rows[k] == shown[j]);
                    assert(slot_lt(slot_of(rows[k]), slot_of(rows[i as int])));
                    slot_order(slot_of(e), slot_of(e), slot_of(e));
                }
                assert(!shown.contains(e));
                assert forall|j: int| p <= j < shown.len() implies show_lt(
                    e,
                    #[trigger] shown[j],
                ) by {
                    show_order(e, shown[p as int], shown[j]);
                    show_order(shown[p as int], e, e);
                    if p < j {
                        assert(show_lt(shown[p as int], shown[j]));
                    }
                }
                newest_step(rows.take(i as int), limit as nat, shown, e, p as int);
                assert(rows.take(i as int).push(e) =~= rows.take(i + 1));
            }
            let next = self.log[i].copy();
            out.insert(p, next);
            assert(views(out@) =~= shown.insert(p as int, e));
            if out.len() > limit {
                let ghost full = out@;
                let _ = out.remove(0);
                assert(views(out@) =~= views(full).drop_first());
            }
            i += 1;
        }
        assert(rows.take(rows.len() as int) =~= rows);
        out
    }

    /// The mark of every sender with a chain, in the order of their ids.
    pub fn hwm_all(&self) -> (marks: Vec<(NodeId, ChainState)>)
        requires
            self.wf(),
        ensures
            marks@ == self.mark_rows(),
            marks_match(self.rows(), marks@),
    {
        let mut out: Vec<(NodeId, ChainState)> = Vec::new();
        let mut i: usize = 0;
        while i < self.marks.len()
            invariant
                i <= self.marks@.len(),
                out@ == self.marks@.take(i as int),
            decreases self.marks@.len() - i,
        {
            out.push((self.marks[i].0, self.marks[i].1));
            assert(self.marks@.take(i as int).push(self.marks@[i as int]) =~= self.marks@.take(
                i + 1,
            ));
            i += 1;
        }
        assert(self.marks@.take(self.marks@.len() as int) =~= self.marks@);
        out
    }

    /// Every sender with a chain, in the order of their ids.
    pub fn senders(&self) -> (senders: Vec<NodeId>)
        requires
            self.wf(),
        ensures
            senders@ == self.mark_rows().map_values(|m: (NodeId, ChainState)| m.0),
            forall|s: NodeId| #[trigger] senders@.contains(s) == (chain(self.rows(), s) is Some),
    {
        let ghost all = self.mark_rows().map_values(|m: (NodeId, ChainState)| m.0);
        let mut out: Vec<NodeId> = Vec::new();
        let mut i: usize = 0;
        while i < self.marks.len()
            invariant
                i <= self.marks@.len(),
                all == self.marks@.map_values(|m: (NodeId, ChainState)| m.0),
                out@ == all.take(i as int),
            decreases self.marks@.len() - i,
        {
            out.push(self.marks[i].0);
            assert(all.take(i as int).push(all[i as int]) =~= all.take(i + 1));
            i += 1;
        }
        assert(all.take(all.len() as int) =~= all);
        proof {
            assert forall|s: NodeId| #[trigger]
                out@.contains(s) == (chain(self.rows(), s) is Some) by {
                if out@.contains(s) {
                    let j = choose|j: int| 0 <= j < out@.len() && out@[j] == s;
                    assert(self.mark_rows()[j].0 == s);
                }
                if chain(self.rows(), s) is Some {
                    let j = choose|j: int|
                        0 <= j < self.mark_rows().len() && (#[trigger] self.mark_rows()[j]).0 == s;
                    assert(out@[j] == s);
                }
            }
        }
        out
    }

    /// Open the log that stored envelopes make up, or say why the first that cannot
    /// be in it cannot: it belongs to another topic, or forks a slot another one
    /// holds.
    pub fn open(topic: TopicId, list: Vec<TopicEnvelope>) -> (opened: Result<
        TopicStore,
        AppendError,
    >)
        ensures
            opened is Ok == one_log(topic, views(list@)),
            match opened {
                Ok(store) => {
                    &&& store.wf()
                    &&& store.of_topic() == topic
                    &&& one_log(topic, views(list@))
                    &&& made_of(store.rows(), views(list@))
                },
                Err(AppendError::WrongTopic { envelope, log }) => log == topic && envelope != topic
                    && exists|j: int|
                    0 <= j < list@.len() && one_log(topic, views(list@).take(j)) && (
                    #[trigger] views(list@)[j]).topic == envelope,
                Err(AppendError::Fork { sender, seq, held, offered }) => held != offered && exists|
                    i: int,
                    j: int,
                |
                    0 <= i < j < list@.len() && one_log(topic, views(list@).take(j))
                        && views(list@)[j].topic == topic && slot_of(#[trigger] views(list@)[i]) == (
                        sender,
                        seq,
                    ) && slot_of(#[trigger] views(list@)[j]) == (sender, seq)
                        && views(list@)[i].hash == held && views(list@)[j].hash == offered,
            },
    {
        let ghost all = views(list@);
        let mut store = TopicStore::new(topic);
        let mut i: usize = 0;
        while i < list.len()
            invariant
                all == views(list@),
                store.wf(),
                store.of_topic() == topic,
                i <= list@.len(),
                one_log(topic, all.take(i as int)),
                forall|j: int|
                    0 <= j < i ==> held(store.rows(), slot_of(#[trigger] all[j])) == Some(
                        all[j].hash,
                    ),
                forall|k: int|
                    0 <= k < store.rows().len() ==> exists|j: int|
                        0 <= j < i && #[trigger] all[j] == #[trigger] store.rows()[k],
            decreases list@.len() - i,
        {
            let ghost before = store.rows();
            let next = list[i].copy();
            assert(all[i as int] == next@);
            match store.append(next) {
                Err(e) => {
                    proof {
                        if e is Fork {
                            let slot = slot_of(all[i as int]);
                            let k = choose|k: int|
                                0 <= k < before.len() && slot_of(#[trigger] before[k]) == slot;
                            held_at(before, k);
                            let j = choose|j: int|
                                0 <= j < i && #[trigger] all[j] == before[k];
                            assert(slot_of(all[j]) == slot);
                        }
                    }
                    return Err(e);
                },
                Ok(Appended::Duplicate) => {},
                Ok(Appended::Inserted) => {
                    proof {
                        let now = store.rows();
                        let e = all[i as int];
                        let at = choose|at: int|
                            0 <= at <= before.len() && now == #[trigger] before.insert(at, e);
                        put_in_facts(before, e, at);
                        assert forall|k: int| 0 <= k < now.len() implies exists|j: int|
                            0 <= j <= i && #[trigger] all[j] == #[trigger] now[k] by {
                            if k != at {
                                let x = if k < at { k } else { k - 1 };
                                assert(now[k] == before[x]);
                            }
                        }
                    }
                },
            }
            proof {
                let read = all.take(i + 1);
                assert forall|a: int, b: int|
                    0 <= a < read.len() && 0 <= b < read.len() && slot_of(#[trigger] read[a])
                        == slot_of(#[trigger] read[b]) implies read[a].hash == read[b].hash by {
                    assert(read[a] == all[a] && read[b] == all[b]);
                }
                assert forall|a: int| 0 <= a < read.len() implies (#[trigger] read[a]).topic
                    == topic by {
                    if a < i {
                        assert(all.take(i as int)[a] == read[a]);
                    }
                }
            }
            i += 1;
        }
        assert(all.take(i as int) =~= all);
        Ok(store)
    }
}

/// What a row put in its place changes: its own slot, and no other.
pub proof fn put_in_facts(before: Seq<EnvelopeView>, e: EnvelopeView, at: int)
    requires
        0 <= at <= before.len(),
        rows_sorted(before.insert(at, e)),
    ensures
        rows_sorted(before),
        !holds(before, slot_of(e)),
        forall|i: int| 0 <= i < at ==> slot_lt(slot_of(#[trigger] before[i]), slot_of(e)),
        forall|i: int| at <= i < before.len() ==> slot_lt(slot_of(e), slot_of(#[trigger] before[i])),
        forall|s: Slot| #[trigger]
            holds(before.insert(at, e), s) == (holds(before, s) || s == slot_of(e)),
        forall|s: Slot| #[trigger]
            held(before.insert(at, e), s) == if s == slot_of(e) {
                Some(e.hash)
            } else {
                held(before, s)
            },
{
    let now = before.insert(at, e);
    assert forall|i: int, j: int| 0 <= i < j < before.len() implies slot_lt(
        slot_of(#[trigger] before[i]),
        slot_of(#[trigger] before[j]),
    ) by {
        let x = if i < at { i } else { i + 1 };
        let y = if j < at { j } else { j + 1 };
        assert(now[x] == before[i]);
        assert(now[y] == before[j]);
    }
    assert forall|i: int| 0 <= i < at implies slot_lt(
        slot_of(#[trigger] before[i]),
        slot_of(e),
    ) by {
        assert(now[i] == before[i]);
        assert(now[at] == e);
    }
    assert forall|i: int| at <= i < before.len() implies slot_lt(
        slot_of(e),
        slot_of(#[trigger] before[i]),
    ) by {
        assert(now[i + 1] == before[i]);
        assert(now[at] == e);
    }
    if holds(before, slot_of(e)) {
        let i = choose|i: int|
            0 <= i < before.len() && slot_of(#[trigger] before[i]) == slot_of(e);
        slot_order(slot_of(e), slot_of(e), slot_of(e));
        if i < at {
            assert(slot_lt(slot_of(before[i]), slot_of(e)));
        } else {
            assert(slot_lt(slot_of(e), slot_of(before[i])));
        }
    }
    insert_row(before, at, e);
}

/// Appending is idempotent: once an envelope is stored, its slot holds its
/// hash, so that storing it again is a duplicate and another one a fork.
pub proof fn stored_is_held(before: Seq<EnvelopeView>, e: EnvelopeView, after: Seq<EnvelopeView>)
    requires
        put_in(before, e, after),
        rows_sorted(after),
    ensures
        held(after, slot_of(e)) == Some(e.hash),
        forall|s: Slot| s != slot_of(e) ==> #[trigger] held(after, s) == held(before, s),
{
    let at = choose|at: int| 0 <= at <= before.len() && after == #[trigger] before.insert(at, e);
    put_in_facts(before, e, at);
}

/// A hole stays visible: a message further on than the next one leaves the
/// sender's mark where it was.
pub proof fn mark_stays_behind_a_hole(
    before: Seq<EnvelopeView>,
    e: EnvelopeView,
    after: Seq<EnvelopeView>,
)
    requires
        put_in(before, e, after),
        rows_sorted(after),
        match chain(before, e.sender) {
            Some(mark) => e.seq > mark.seq + 1,
            None => e.seq > 0,
        },
    ensures
        chain(after, e.sender) == chain(before, e.sender),
{
    stored_is_held(before, e, after);
    let at = choose|at: int| 0 <= at <= before.len() && after == #[trigger] before.insert(at, e);
    put_in_facts(before, e, at);
    let s = e.sender;
    assert(holds(after, (s, 0)) == holds(before, (s, 0)));
    match chain(before, s) {
        Some(mark) => {
            assert forall|k: u64| k <= mark.seq implies holds(after, #[trigger] slot_at(s, k)) by {
                run_is_held(before, s, 0, k);
            }
            run_end_stops(before, s, 0);
            if mark.seq < u64::MAX {
                assert(holds(after, (s, (mark.seq + 1) as u64)) == holds(
                    before,
                    (s, (mark.seq + 1) as u64),
                ));
            }
            run_is_held(before, s, 0, mark.seq);
            assert(held(after, (s, mark.seq)) == held(before, (s, mark.seq)));
            chain_of_run(after, s, mark);
        },
        None => {},
    }
}

/// Filling a hole heals the whole run at once: when the next message comes in,
/// the mark moves to the end of everything stored without a hole after it.
pub proof fn filling_a_hole_heals_the_run(
    before: Seq<EnvelopeView>,
    e: EnvelopeView,
    after: Seq<EnvelopeView>,
)
    requires
        put_in(before, e, after),
        rows_sorted(after),
        match chain(before, e.sender) {
            Some(mark) => e.seq == mark.seq + 1,
            None => e.seq == 0,
        },
    ensures
        chain(after, e.sender) matches Some(mark) && mark.seq == run_end(before, e.sender, e.seq)
            && mark.seq >= e.seq,
{
    let at = choose|at: int| 0 <= at <= before.len() && after == #[trigger] before.insert(at, e);
    put_in_facts(before, e, at);
    let s = e.sender;
    let end = run_end(before, s, e.seq);
    run_end_stops(before, s, e.seq);
    assert forall|k: u64| k <= end implies holds(after, #[trigger] slot_at(s, k)) by {
        if k < e.seq {
            run_is_held(before, s, 0, k);
        } else if k > e.seq {
            run_after_held(before, s, e.seq, k);
        }
    }
    if end < u64::MAX {
        assert(holds(after, (s, (end + 1) as u64)) == holds(before, (s, (end + 1) as u64)));
    }
    assert(holds(after, slot_at(s, 0)));
    run_end_is(after, s, 0, end);
}

/// Every slot after the start of a run, up to its end, is held.
proof fn run_after_held(rows: Seq<EnvelopeView>, sender: NodeId, n: u64, k: u64)
    requires
        n < k <= run_end(rows, sender, n),
    ensures
        holds(rows, (sender, k)),
    decreases u64::MAX - n,
{
    if k > n + 1 {
        run_after_held(rows, sender, (n + 1) as u64, k);
    }
}

/// A mark never moves back: whatever is stored, no sender's chain gets shorter
/// and no other sender's chain changes.
pub proof fn marks_never_move_back(
    before: Seq<EnvelopeView>,
    e: EnvelopeView,
    after: Seq<EnvelopeView>,
    sender: NodeId,
)
    requires
        put_in(before, e, after),
        rows_sorted(after),
    ensures
        chain(before, sender) matches Some(old_mark) ==> (chain(after, sender) matches Some(mark)
            && mark.seq >= old_mark.seq),
        sender != e.sender ==> chain(after, sender) == chain(before, sender),
{
    let at = choose|at: int| 0 <= at <= before.len() && after == #[trigger] before.insert(at, e);
    put_in_facts(before, e, at);
    if sender != e.sender {
        chain_elsewhere(before, at, e, sender);
    } else {
        match chain(before, sender) {
            Some(mark) => {
                run_end_stops(before, sender, 0);
                assert(holds(after, (sender, 0)));
                if e.seq == mark.seq + 1 {
                    filling_a_hole_heals_the_run(before, e, after);
                } else if e.seq > mark.seq + 1 {
                    mark_stays_behind_a_hole(before, e, after);
                } else {
                    run_is_held(before, sender, 0, e.seq);
                }
            },
            None => {},
        }
    }
}

/// The log depends on what was accepted, not on the order it came in.
pub proof fn same_messages_same_log(a: Seq<EnvelopeView>, b: Seq<EnvelopeView>)
    requires
        rows_sorted(a),
        rows_sorted(b),
        forall|e: EnvelopeView| #[trigger] a.contains(e) == b.contains(e),
    ensures
        a == b,
    decreases a.len(),
{
    if a.len() == 0 {
        if b.len() > 0 {
            assert(b.contains(b[0]));
            assert(a.contains(b[0]));
        }
        assert(a =~= b);
    } else {
        assert(a.contains(a[0]));
        assert(b.contains(a[0]));
        let i = choose|i: int| 0 <= i < b.len() && b[i] == a[0];
        assert(b.contains(b[0]));
        assert(a.contains(b[0]));
        let j = choose|j: int| 0 <= j < a.len() && a[j] == b[0];
        slot_order(slot_of(a[0]), slot_of(b[0]), slot_of(a[0]));
        if i > 0 {
            assert(slot_lt(slot_of(b[0]), slot_of(b[i])));
            if j > 0 {
                assert(slot_lt(slot_of(a[0]), slot_of(a[j])));
            }
        }
        assert(a[0] == b[0]);
        let x = a.drop_first();
        let y = b.drop_first();
        assert forall|e: EnvelopeView| #[trigger] x.contains(e) == y.contains(e) by {
            drop_first_contains(a, e);
            drop_first_contains(b, e);
            assert(a.contains(e) == b.contains(e));
        }
        assert forall|i: int, j: int| 0 <= i < j < x.len() implies slot_lt(
            slot_of(#[trigger] x[i]),
            slot_of(#[trigger] x[j]),
        ) by {
            assert(x[i] == a[i + 1] && x[j] == a[j + 1]);
        }
        assert forall|i: int, j: int| 0 <= i < j < y.len() implies slot_lt(
            slot_of(#[trigger] y[i]),
            slot_of(#[trigger] y[j]),
        ) by {
            assert(y[i] == b[i + 1] && y[j] == b[j + 1]);
        }
        same_messages_same_log(x, y);
        assert(a =~= seq![a[0]] + x);
        assert(b =~= seq![b[0]] + y);
    }
}

/// Without its first row, a sorted log holds everything but that row.
proof fn drop_first_contains(a: Seq<EnvelopeView>, e: EnvelopeView)
    requires
        rows_sorted(a),
        a.len() > 0,
    ensures
        a.drop_first().contains(e) == (a.contains(e) && e != a[0]),
{
    let x = a.drop_first();
    slot_order(slot_of(a[0]), slot_of(a[0]), slot_of(a[0]));
    if x.contains(e) {
        let i = choose|i: int| 0 <= i < x.len() && x[i] == e;
        assert(a[i + 1] == e);
        assert(slot_lt(slot_of(a[0]), slot_of(a[i + 1])));
    }
    if a.contains(e) && e != a[0] {
        let i = choose|i: int| 0 <= i < a.len() && a[i] == e;
        assert(x[i - 1] == e);
    }
}

/// Two nodes with the same log show the same transcript: what a backfill of a
/// given length shows is determined by the log.
pub proof fn backfill_is_determined(
    rows: Seq<EnvelopeView>,
    limit: nat,
    a: Seq<EnvelopeView>,
    b: Seq<EnvelopeView>,
)
    requires
        newest(rows, limit, a),
        newest(rows, limit, b),
    ensures
        a == b,
{
    shown_once(a);
    shown_once(b);
    assert forall|e: EnvelopeView| #[trigger] a.contains(e) == b.contains(e) by {
        if a.contains(e) {
            newest_subset(rows, limit, a, b, e);
        }
        if b.contains(e) {
            newest_subset(rows, limit, b, a, e);
        }
    }
    shown_same(a, b);
}

/// A strictly ordered list shows nothing twice.
proof fn shown_once(a: Seq<EnvelopeView>)
    requires
        forall|i: int, j: int| 0 <= i < j < a.len() ==> show_lt(#[trigger] a[i], #[trigger] a[j]),
    ensures
        a.no_duplicates(),
{
    assert forall|i: int, j: int| 0 <= i < a.len() && 0 <= j < a.len() && i != j implies a[i]
        != a[j] by {
        show_order(a[i], a[i], a[i]);
        if i < j {
            assert(show_lt(a[i], a[j]));
        } else {
            assert(show_lt(a[j], a[i]));
        }
    }
}

/// Of two lists of the newest messages, neither shows one the other leaves out.
proof fn newest_subset(
    rows: Seq<EnvelopeView>,
    limit: nat,
    a: Seq<EnvelopeView>,
    b: Seq<EnvelopeView>,
    e: EnvelopeView,
)
    requires
        newest(rows, limit, a),
        newest(rows, limit, b),
        a.no_duplicates(),
        b.no_duplicates(),
        a.contains(e),
    ensures
        b.contains(e),
{
    if !b.contains(e) {
        // As many are shown in both, so `b` shows one that `a` leaves out.
        a.unique_seq_to_set();
        b.unique_seq_to_set();
        if forall|x: EnvelopeView| b.contains(x) ==> a.contains(x) {
            assert(b.to_set().subset_of(a.to_set()));
            vstd::set_lib::lemma_len_subset(b.to_set(), a.to_set().remove(e));
            assert(false);
        }
        let f = choose|f: EnvelopeView| b.contains(f) && !a.contains(f);
        let i = choose|i: int| 0 <= i < a.len() && a[i] == e;
        let j = choose|j: int| 0 <= j < b.len() && b[j] == f;
        assert(rows.contains(a[i]));
        assert(rows.contains(b[j]));
        let m = choose|m: int| 0 <= m < rows.len() && rows[m] == e;
        let n = choose|n: int| 0 <= n < rows.len() && rows[n] == f;
        assert(show_lt(rows[m], b[j]));
        assert(show_lt(rows[n], a[i]));
        show_order(e, f, e);
    }
}

/// Strictly ordered lists of the same messages are the same list.
proof fn shown_same(a: Seq<EnvelopeView>, b: Seq<EnvelopeView>)
    requires
        forall|i: int, j: int| 0 <= i < j < a.len() ==> show_lt(#[trigger] a[i], #[trigger] a[j]),
        forall|i: int, j: int| 0 <= i < j < b.len() ==> show_lt(#[trigger] b[i], #[trigger] b[j]),
        forall|e: EnvelopeView| #[trigger] a.contains(e) == b.contains(e),
    ensures
        a == b,
    decreases a.len(),
{
    if a.len() == 0 {
        if b.len() > 0 {
            assert(b.contains(b[0]));
            assert(a.contains(b[0]));
        }
        assert(a =~= b);
    } else {
        assert(a.contains(a[0]));
        assert(b.contains(a[0]));
        let i = choose|i: int| 0 <= i < b.len() && b[i] == a[0];
        assert(b.contains(b[0]));
        assert(a.contains(b[0]));
        let j = choose|j: int| 0 <= j < a.len() && a[j] == b[0];
        show_order(a[0], b[0], a[0]);
        if i > 0 {
            assert(show_lt(b[0], b[i]));
            if j > 0 {
                assert(show_lt(a[0], a[j]));
            }
        }
        assert(a[0] == b[0]);
        let x = a.drop_first();
        let y = b.drop_first();
        assert forall|e: EnvelopeView| #[trigger] x.contains(e) == y.contains(e) by {
            show_order(a[0], a[0], a[0]);
            assert(a.contains(e) == b.contains(e));
            if x.contains(e) {
                let k = choose|k: int| 0 <= k < x.len() && x[k] == e;
                assert(a[k + 1] == e);
                assert(show_lt(a[0], a[k + 1]));
                let l = choose|l: int| 0 <= l < b.len() && b[l] == e;
                assert(y[l - 1] == e);
            }
            if y.contains(e) {
                let k = choose|k: int| 0 <= k < y.len() && y[k] == e;
                assert(b[k + 1] == e);
                assert(show_lt(b[0], b[k + 1]));
                let l = choose|l: int| 0 <= l < a.len() && a[l] == e;
                assert(x[l - 1] == e);
            }
        }
        assert forall|i: int, j: int| 0 <= i < j < x.len() implies show_lt(
            #[trigger] x[i],
            #[trigger] x[j],
        ) by {
            assert(x[i] == a[i + 1] && x[j] == a[j + 1]);
        }
        assert forall|i: int, j: int| 0 <= i < j < y.len() implies show_lt(
            #[trigger] y[i],
            #[trigger] y[j],
        ) by {
            assert(y[i] == b[i + 1] && y[j] == b[j + 1]);
        }
        shown_same(x, y);
        assert(a =~= seq![a[0]] + x);
        assert(b =~= seq![b[0]] + y);
    }
}

/// A sender's messages come in strict chain order.
pub proof fn rows_after_in_chain_order(
    rows: Seq<EnvelopeView>,
    sender: NodeId,
    after: Option<u64>,
)
    requires
        rows_sorted(rows),
    ensures
        ({
            let all = rows_after(rows, sender, after);
            &&& forall|i: int, j: int|
                0 <= i < j < all.len() ==> (#[trigger] all[i]).seq < (#[trigger] all[j]).seq
            &&& forall|i: int|
                0 <= i < all.len() ==> (#[trigger] all[i]).sender == sender && comes_after(
                    all[i].seq,
                    after,
                ) && rows.contains(all[i])
        }),
    decreases rows.len(),
{
    reveal(Seq::filter);
    if rows.len() > 0 {
        let rest = rows.drop_last();
        assert forall|i: int, j: int| 0 <= i < j < rest.len() implies slot_lt(
            slot_of(#[trigger] rest[i]),
            slot_of(#[trigger] rest[j]),
        ) by {
            assert(rest[i] == rows[i] && rest[j] == rows[j]);
        }
        rows_after_in_chain_order(rest, sender, after);
        let before = rows_after(rest, sender, after);
        let all = rows_after(rows, sender, after);
        let last = rows.last();
        assert forall|i: int| 0 <= i < before.len() implies rows.contains(#[trigger] before[i])
            && (last.sender == sender ==> before[i].seq < last.seq) by {
            let k = choose|k: int| 0 <= k < rest.len() && rest[k] == before[i];
            assert(rows[k] == before[i]);
            assert(slot_lt(slot_of(rows[k]), slot_of(rows[rows.len() - 1])));
            lex_lt_irreflexive(sender.bytes@);
        }
        assert(rows.contains(rows[rows.len() - 1]));
    }
}

/// Reading on from the last message of a page gives the rest: the pages of a
/// chain follow each other with nothing missing and nothing twice.
pub proof fn pages_follow_each_other(
    rows: Seq<EnvelopeView>,
    sender: NodeId,
    after: Option<u64>,
    limit: nat,
)
    requires
        rows_sorted(rows),
        limit >= 1,
        rows_after(rows, sender, after).len() > 0,
    ensures
        ({
            let all = rows_after(rows, sender, after);
            let page = first_n(all, limit);
            page + rows_after(rows, sender, Some(page.last().seq)) == all
        }),
{
    let all = rows_after(rows, sender, after);
    let page = first_n(all, limit);
    let n = page.last().seq;
    rows_after_in_chain_order(rows, sender, after);
    refilter(rows, sender, after, n);
    let p = |e: EnvelopeView| e.seq > n;
    assert forall|i: int| 0 <= i < all.len() implies (#[trigger] p(all[i]) <==> page.len() <= i
        < all.len()) by {
        let last = page.len() - 1;
        assert(page[last] == all[last]);
        if i < last {
            assert(all[i].seq < all[last].seq);
        } else if i > last {
            assert(all[last].seq < all[i].seq);
        }
    }
    filter_is_range(all, p, page.len() as int, all.len() as int);
    assert(page + all.subrange(page.len() as int, all.len() as int) =~= all);
}

/// Narrowing the messages after `after` to those after a later `n` gives those
/// after `n`.
proof fn refilter(rows: Seq<EnvelopeView>, sender: NodeId, after: Option<u64>, n: u64)
    requires
        comes_after(n, after),
    ensures
        rows_after(rows, sender, after).filter(|e: EnvelopeView| e.seq > n) == rows_after(
            rows,
            sender,
            Some(n),
        ),
    decreases rows.len(),
{
    reveal(Seq::filter);
    if rows.len() > 0 {
        refilter(rows.drop_last(), sender, after, n);
        let before = rows_after(rows.drop_last(), sender, after);
        let last = rows.last();
        if last.sender == sender && comes_after(last.seq, after) {
            let all = before.push(last);
            assert(rows_after(rows, sender, after) == all);
            assert(all.drop_last() =~= before);
            assert(all.last() == last);
        }
    }
}

impl AppendError {
    /// What the error says.
    pub open spec fn said(self) -> Seq<char> {
        match self {
            AppendError::WrongTopic { envelope, log } => "envelope is addressed to topic "@
                + crate::text::hex(envelope.bytes@) + " but this log holds topic "@
                + crate::text::hex(log.bytes@),
            AppendError::Fork { sender, seq, held, offered } => "fork at sender "@
                + crate::text::hex(sender.bytes@) + " seq "@ + crate::text::decimal(seq as nat)
                + ": already holding message "@ + crate::text::hex(held.bytes@)
                + ", refusing to replace it with "@ + crate::text::hex(offered.bytes@)
                + " (forks are detected and refused, never resolved)"@,
        }
    }

    /// What the error says.
    pub fn text(&self) -> (text: String)
        ensures
            text@ == self.said(),
    {
        match self {
            AppendError::WrongTopic { envelope, log } => {
                let mut text = "envelope is addressed to topic ".to_owned();
                text.append(envelope.hex().as_str());
                text.append(" but this log holds topic ");
                text.append(log.hex().as_str());
                text
            },
            AppendError::Fork { sender, seq, held, offered } => {
                let mut text = "fork at sender ".to_owned();
                text.append(sender.hex().as_str());
                text.append(" seq ");
                text.append(crate::text::decimal_text(*seq).as_str());
                text.append(": already holding message ");
                text.append(crate::text::hex_text(held.bytes.as_slice()).as_str());
                text.append(", refusing to replace it with ");
                text.append(crate::text::hex_text(offered.bytes.as_slice()).as_str());
                text.append(" (forks are detected and refused, never resolved)");
                text
            },
        }
    }
}

/// The marks of a log are determined by it.
proof fn marks_determined(
    rows: Seq<EnvelopeView>,
    a: Seq<(NodeId, ChainState)>,
    b: Seq<(NodeId, ChainState)>,
)
    requires
        marks_match(rows, a),
        marks_match(rows, b),
    ensures
        a == b,
{
    let x = a.map_values(|m: (NodeId, ChainState)| m.0);
    let y = b.map_values(|m: (NodeId, ChainState)| m.0);
    assert forall|n: NodeId| #[trigger] x.contains(n) == y.contains(n) by {
        if x.contains(n) {
            let i = choose|i: int| 0 <= i < x.len() && x[i] == n;
            assert(chain(rows, a[i].0) is Some);
            let j = choose|j: int| 0 <= j < b.len() && (#[trigger] b[j]).0 == n;
            assert(y[j] == n);
        }
        if y.contains(n) {
            let i = choose|i: int| 0 <= i < y.len() && y[i] == n;
            assert(chain(rows, b[i].0) is Some);
            let j = choose|j: int| 0 <= j < a.len() && (#[trigger] a[j]).0 == n;
            assert(x[j] == n);
        }
    }
    rising_nodes_determined(x, y);
    assert(x.len() == y.len());
    assert forall|i: int| 0 <= i < a.len() implies a[i] == b[i] by {
        assert(x[i] == y[i]);
        assert(a[i].0 == b[i].0);
    }
    assert(a =~= b);
}

/// A log that is closed and opened again on the rows it was kept in opens, and
/// gives on every read what it gave before: its rows are the same, and so are its
/// marks.
pub proof fn a_reopened_log_reads_the_same(store: TopicStore, reopened: TopicStore)
    requires
        store.wf(),
        reopened.wf(),
        made_of(reopened.rows(), store.rows()),
    ensures
        one_log(store.of_topic(), store.rows()),
        reopened.rows() == store.rows(),
        reopened.mark_rows() == store.mark_rows(),
        forall|sender: NodeId| #[trigger]
            chain(reopened.rows(), sender) == chain(store.rows(), sender),
        forall|slot: Slot| #[trigger] held(reopened.rows(), slot) == held(store.rows(), slot),
        forall|limit: nat, before: Seq<EnvelopeView>, now: Seq<EnvelopeView>| #[trigger]
            newest(store.rows(), limit, before) && #[trigger] newest(reopened.rows(), limit, now)
                ==> now == before,
{
    let a = store.rows();
    let b = reopened.rows();
    assert forall|i: int, j: int|
        0 <= i < a.len() && 0 <= j < a.len() && slot_of(#[trigger] a[i]) == slot_of(
            #[trigger] a[j],
        ) implies a[i].hash == a[j].hash by {
        held_at(a, i);
        held_at(a, j);
    }
    assert forall|e: EnvelopeView| #[trigger] a.contains(e) == b.contains(e) by {
        if a.contains(e) {
            let i = choose|i: int| 0 <= i < a.len() && a[i] == e;
            assert(held(b, slot_of(a[i])) is Some);
            let k = choose|k: int| 0 <= k < b.len() && slot_of(#[trigger] b[k]) == slot_of(e);
            assert(a.contains(b[k]));
            let j = choose|j: int| 0 <= j < a.len() && a[j] == b[k];
            slot_order(slot_of(a[i]), slot_of(a[j]), slot_of(a[i]));
            if i < j {
                assert(slot_lt(slot_of(a[i]), slot_of(a[j])));
            } else if j < i {
                assert(slot_lt(slot_of(a[j]), slot_of(a[i])));
            }
            assert(b[k] == e);
        }
        if b.contains(e) {
            let k = choose|k: int| 0 <= k < b.len() && b[k] == e;
            assert(a.contains(b[k]));
        }
    }
    same_messages_same_log(a, b);
    marks_determined(a, store.mark_rows(), reopened.mark_rows());
    assert forall|limit: nat, before: Seq<EnvelopeView>, now: Seq<EnvelopeView>| #[trigger]
        newest(store.rows(), limit, before) && #[trigger] newest(
            reopened.rows(),
            limit,
            now,
        ) implies now == before by {
        backfill_is_determined(a, limit, before, now);
    }
}

/// What a log holds at a sender's sequence number is the hash of the row there, and
/// nothing where there is no such row.
pub proof fn a_held_hash_is_a_rows_hash(rows: Seq<EnvelopeView>, sender: NodeId, seq: u64, i: int)
    requires
        rows_sorted(rows),
    ensures
        0 <= i < rows.len() && rows[i].sender == sender && rows[i].seq == seq ==> held(
            rows,
            (sender, seq),
        ) == Some(rows[i].hash),
        (forall|k: int|
            0 <= k < rows.len() ==> !((#[trigger] rows[k]).sender == sender && rows[k].seq == seq))
            ==> held(rows, (sender, seq)) is None,
{
    if 0 <= i < rows.len() && rows[i].sender == sender && rows[i].seq == seq {
        assert(slot_of(rows[i]) == (sender, seq));
        let k = choose|k: int| 0 <= k < rows.len() && slot_of(#[trigger] rows[k]) == (sender, seq);
        slot_order((sender, seq), (sender, seq), (sender, seq));
        if k < i {
            assert(slot_lt(slot_of(rows[k]), slot_of(rows[i])));
        } else if i < k {
            assert(slot_lt(slot_of(rows[i]), slot_of(rows[k])));
        }
    }
}

/// A sender's mark is where its run from the first message ends: every number up to
/// it is there, the next is not, and its hash is that of the row at its number. There
/// is no mark exactly where the first message is missing.
pub proof fn a_mark_is_where_the_run_ends(rows: Seq<EnvelopeView>, sender: NodeId, n: u64)
    requires
        rows_sorted(rows),
    ensures
        match chain(rows, sender) {
            Some(mark) => {
                &&& n <= mark.seq ==> exists|i: int|
                    0 <= i < rows.len() && (#[trigger] rows[i]).sender == sender && rows[i].seq == n
                &&& forall|i: int|
                    0 <= i < rows.len() && (#[trigger] rows[i]).sender == sender ==> rows[i].seq
                        != mark.seq + 1
                &&& exists|i: int|
                    0 <= i < rows.len() && (#[trigger] rows[i]).sender == sender && rows[i].seq
                        == mark.seq && rows[i].hash == mark.hash
            },
            None => forall|i: int|
                0 <= i < rows.len() && (#[trigger] rows[i]).sender == sender ==> rows[i].seq != 0,
        },
{
    if let Some(mark) = chain(rows, sender) {
        run_end_stops(rows, sender, 0);
        if n <= mark.seq {
            run_is_held(rows, sender, 0, n);
            let i = choose|i: int| 0 <= i < rows.len() && slot_of(#[trigger] rows[i]) == (sender, n);
            assert(rows[i].sender == sender && rows[i].seq == n);
        }
        assert forall|i: int|
            0 <= i < rows.len() && (#[trigger] rows[i]).sender == sender implies rows[i].seq
            != mark.seq + 1 by {
            if rows[i].seq == mark.seq + 1 {
                assert(slot_of(rows[i]) == (sender, (mark.seq + 1) as u64));
            }
        }
        run_is_held(rows, sender, 0, mark.seq);
        let i = choose|i: int|
            0 <= i < rows.len() && slot_of(#[trigger] rows[i]) == (sender, mark.seq);
        a_held_hash_is_a_rows_hash(rows, sender, mark.seq, i);
        assert(rows[i].sender == sender && rows[i].seq == mark.seq && rows[i].hash == mark.hash);
    } else {
        assert forall|i: int|
            0 <= i < rows.len() && (#[trigger] rows[i]).sender == sender implies rows[i].seq
            != 0 by {
            if rows[i].seq == 0 {
                assert(slot_of(rows[i]) == (sender, 0u64));
            }
        }
    }
}

/// Storing a message adds that message and changes nothing else.
pub proof fn storing_adds_one_message(
    before: Seq<EnvelopeView>,
    e: EnvelopeView,
    after: Seq<EnvelopeView>,
    other: EnvelopeView,
)
    requires
        put_in(before, e, after),
    ensures
        after.len() == before.len() + 1,
        after.contains(e),
        after.contains(other) == (before.contains(other) || other == e),
{
    let at = choose|at: int| 0 <= at <= before.len() && after == #[trigger] before.insert(at, e);
    assert(after[at] == e);
    if before.contains(other) {
        let i = before.index_of(other);
        assert(after[if i < at { i } else { i + 1 }] == other);
    }
    if after.contains(other) && other != e {
        let i = after.index_of(other);
        assert(before[if i < at { i } else { i - 1 }] == other);
    }
}

/// What a reader of one sender's messages is given: all of that sender's behind the
/// number it has, nothing else, and no more than it asked for, from the first on.
pub proof fn a_reader_gets_what_comes_after(
    rows: Seq<EnvelopeView>,
    sender: NodeId,
    after: Option<u64>,
    limit: nat,
    e: EnvelopeView,
)
    ensures
        ({
            let all = rows_after(rows, sender, after);
            let page = first_n(all, limit);
            &&& all.contains(e) == (rows.contains(e) && e.sender == sender && (after matches Some(n)
                ==> e.seq > n))
            &&& page.len() == if all.len() < limit {
                all.len()
            } else {
                limit
            }
            &&& forall|i: int| 0 <= i < page.len() ==> #[trigger] page[i] == all[i]
        }),
{
    broadcast use Seq::lemma_filter_contains_rev;

    let keep = |x: EnvelopeView| x.sender == sender && comes_after(x.seq, after);
    let all = rows.filter(keep);
    if all.contains(e) {
        let k = all.index_of(e);
        rows.lemma_filter_pred(keep, k);
    }
    if rows.contains(e) && keep(e) {
        rows.lemma_filter_contains(keep, rows.index_of(e));
    }
}

/// What is shown to start with is the newest by time: in the order of time, and no
/// message that is left out is later than one that is shown. Nothing is left out
/// below the limit.
pub proof fn the_latest_are_shown(
    rows: Seq<EnvelopeView>,
    limit: nat,
    shown: Seq<EnvelopeView>,
    i: int,
    j: int,
    e: EnvelopeView,
)
    requires
        newest(rows, limit, shown),
        0 <= i < shown.len(),
        0 <= j < shown.len(),
    ensures
        i < j ==> shown[i].timestamp <= shown[j].timestamp,
        i < j && shown[i].timestamp == shown[j].timestamp && shown[i].sender == shown[j].sender
            ==> shown[i].seq < shown[j].seq,
        i < j && shown[i].timestamp == shown[j].timestamp && shown[i].sender != shown[j].sender
            ==> crate::ids::lex_lt(shown[i].sender.bytes@, shown[j].sender.bytes@),
        shown.len() <= limit,
        shown.len() < limit ==> shown.len() == rows.len(),
        rows.contains(shown[i]),
        rows.contains(e) && !shown.contains(e) ==> e.timestamp <= shown[i].timestamp,
{
    crate::ids::lex_lt_irreflexive(shown[i].sender.bytes@);
    if rows.contains(e) && !shown.contains(e) {
        let k = rows.index_of(e);
        assert(show_lt(rows[k], shown[i]));
    }
}

/// The list of marks names every sender that has a run from the start, once, in the
/// order of their ids, and no other; and each with where its run ends.
pub proof fn every_run_has_its_mark(
    rows: Seq<EnvelopeView>,
    marks: Seq<(NodeId, ChainState)>,
    i: int,
    j: int,
    sender: NodeId,
)
    requires
        rows_sorted(rows),
        marks_match(rows, marks),
    ensures
        0 <= i < j < marks.len() ==> crate::ids::lex_lt(marks[i].0.bytes@, marks[j].0.bytes@),
        0 <= i < marks.len() ==> chain(rows, marks[i].0) == Some(marks[i].1),
        (exists|k: int| 0 <= k < marks.len() && (#[trigger] marks[k]).0 == sender) <==> exists|k: int|
            0 <= k < rows.len() && (#[trigger] rows[k]).sender == sender && rows[k].seq == 0,
{
    a_mark_is_where_the_run_ends(rows, sender, 0);
    if exists|k: int| 0 <= k < marks.len() && (#[trigger] marks[k]).0 == sender {
        let k = choose|k: int| 0 <= k < marks.len() && (#[trigger] marks[k]).0 == sender;
        assert(chain(rows, marks[k].0) is Some);
    }
}

/// What is said of a refused message names what it is about: both topics, or the
/// sender, the number, which reads back, and both hashes.
pub proof fn a_refused_message_is_named(error: AppendError) -> (seq: Seq<char>)
    ensures
        match error {
            AppendError::WrongTopic { envelope, log } => error.said()
                == "envelope is addressed to topic "@ + crate::text::hex(envelope.bytes@)
                + " but this log holds topic "@ + crate::text::hex(log.bytes@),
            AppendError::Fork { sender, seq: at, held: stands, offered } => error.said()
                == "fork at sender "@ + crate::text::hex(sender.bytes@) + " seq "@ + seq
                + ": already holding message "@ + crate::text::hex(stands.bytes@)
                + ", refusing to replace it with "@ + crate::text::hex(offered.bytes@)
                + " (forks are detected and refused, never resolved)"@ && crate::text::number_read(
                seq,
                10,
            ) == at,
        },
{
    match error {
        AppendError::Fork { seq: at, .. } => {
            crate::text::a_decimal_reads_back(at as nat);
            crate::text::decimal(at as nat)
        },
        _ => Seq::empty(),
    }
}

} // verus!
