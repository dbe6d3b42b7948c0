//! Stable orders of a list of messages.

use vstd::prelude::*;

use crate::envelope::{views, EnvelopeView, TopicEnvelope};
use crate::store::{show_lt, show_order, shown_before, slot_of, slot_order};

verus! {

/// An order messages may be put in.
#[derive(Clone, Copy, Debug, PartialEq, Eq, Structural)]
pub enum Order {
    /// The order they are shown in: by time, then by sender and sequence number.
    Display,
    /// The order re-keys are adopted in: by key version, then by time, then by
    /// sequence number.
    Rekey,
}

/// Whether `a` comes before `b` in an order.
pub open spec fn precedes(order: Order, a: EnvelopeView, b: EnvelopeView) -> bool {
    match order {
        Order::Display => show_lt(a, b),
        Order::Rekey => a.key_version < b.key_version || (a.key_version == b.key_version && (
        a.timestamp < b.timestamp || (a.timestamp == b.timestamp && a.seq < b.seq))),
    }
}

/// How many messages from the front stay before `e` when it is put in its
/// place: those that do not come after it.
pub open spec fn place(order: Order, list: Seq<EnvelopeView>, e: EnvelopeView) -> int
    decreases list.len(),
{
    if list.len() == 0 || !precedes(order, e, list.last()) {
        list.len() as int
    } else {
        place(order, list.drop_last(), e)
    }
}

/// Messages in an order; of two that tie, the earlier one in the list stays
/// first.
pub open spec fn ordered(order: Order, list: Seq<EnvelopeView>) -> Seq<EnvelopeView>
    decreases list.len(),
{
    if list.len() == 0 {
        Seq::empty()
    } else {
        let before = ordered(order, list.drop_last());
        before.insert(place(order, before, list.last()), list.last())
    }
}

/// No later message of the list comes before an earlier one.
pub open spec fn in_turn(order: Order, list: Seq<EnvelopeView>) -> bool {
    forall|i: int, j: int|
        0 <= i < j < list.len() ==> !precedes(order, #[trigger] list[j], #[trigger] list[i])
}

/// What comes before a message comes before whatever that one does not follow.
proof fn precedes_weakly(order: Order, a: EnvelopeView, b: EnvelopeView, e: EnvelopeView)
    ensures
        !precedes(order, a, a),
        precedes(order, a, b) ==> !precedes(order, b, a),
        !precedes(order, b, a) && precedes(order, e, a) ==> precedes(order, e, b),
{
    if order == Order::Display {
        show_order(a, b, a);
        show_order(a, b, e);
        show_order(e, a, b);
        slot_order(slot_of(e), slot_of(a), slot_of(b));
    }
}

/// The place of a message is between those not after it and those after it.
proof fn place_parts(order: Order, list: Seq<EnvelopeView>, e: EnvelopeView)
    requires
        in_turn(order, list),
    ensures
        0 <= place(order, list, e) <= list.len(),
        forall|i: int|
            place(order, list, e) <= i < list.len() ==> precedes(order, e, #[trigger] list[i]),
        forall|i: int|
            0 <= i < place(order, list, e) ==> !precedes(order, e, #[trigger] list[i]),
    decreases list.len(),
{
    if list.len() > 0 {
        let rest = list.drop_last();
        assert forall|i: int, j: int| 0 <= i < j < rest.len() implies !precedes(
            order,
            #[trigger] rest[j],
            #[trigger] rest[i],
        ) by {
            assert(rest[i] == list[i] && rest[j] == list[j]);
        }
        if precedes(order, e, list.last()) {
            place_parts(order, rest, e);
            assert forall|i: int| place(order, list, e) <= i < list.len() implies precedes(
                order,
                e,
                #[trigger] list[i],
            ) by {
                if i < rest.len() {
                    assert(rest[i] == list[i]);
                }
            }
            assert forall|i: int| 0 <= i < place(order, list, e) implies !precedes(
                order,
                e,
                #[trigger] list[i],
            ) by {
                assert(rest[i] == list[i]);
            }
        } else {
            assert forall|i: int| 0 <= i < list.len() implies !precedes(
                order,
                e,
                #[trigger] list[i],
            ) by {
                if i < list.len() - 1 {
                    assert(!precedes(order, list[list.len() - 1], list[i]));
                    precedes_weakly(order, list[i], list.last(), e);
                }
            }
        }
    }
}

/// What is put in order is in turn, and nothing is lost or added.
pub proof fn ordering_sorts(order: Order, list: Seq<EnvelopeView>)
    ensures
        ordered(order, list).to_multiset() == list.to_multiset(),
        ordered(order, list).len() == list.len(),
        in_turn(order, ordered(order, list)),
    decreases list.len(),
{
    broadcast use vstd::seq_lib::group_to_multiset_ensures;

    if list.len() > 0 {
        let rest = list.drop_last();
        let e = list.last();
        ordering_sorts(order, rest);
        let before = ordered(order, rest);
        let at = place(order, before, e);
        place_parts(order, before, e);
        let now = before.insert(at, e);
        assert(list =~= rest.push(e));
        assert(now.remove(at) =~= before);
        assert(now[at] == e);
        assert(now.to_multiset().count(e) > 0);
        assert(now.to_multiset() =~= before.to_multiset().insert(e));
        assert forall|i: int, j: int| 0 <= i < j < now.len() implies !precedes(
            order,
            #[trigger] now[j],
            #[trigger] now[i],
        ) by {
            let x = if i < at { i } else { i - 1 };
            let y = if j < at { j } else { j - 1 };
            if i != at && j != at {
                assert(now[i] == before[x] && now[j] == before[y]);
            } else if i == at {
                assert(now[j] == before[y]);
                precedes_weakly(order, e, before[y], e);
            } else {
                assert(now[i] == before[x]);
            }
        }
    } else {
        assert(ordered(order, list) =~= list);
    }
}

/// Whether `a` comes before `b`.
fn before(order: Order, a: &TopicEnvelope, b: &TopicEnvelope) -> (yes: bool)
    ensures
        yes == precedes(order, a@, b@),
{
    match order {
        Order::Display => shown_before(a, b),
        Order::Rekey => a.key_version < b.key_version || (a.key_version == b.key_version && (
        a.timestamp < b.timestamp || (a.timestamp == b.timestamp && a.seq < b.seq))),
    }
}

/// The messages of a list, put in order.
pub fn put_in_order(order: Order, list: &Vec<TopicEnvelope>) -> (out: Vec<TopicEnvelope>)
    ensures
        views(out@) == ordered(order, views(list@)),
{
    let mut out: Vec<TopicEnvelope> = Vec::new();
    let ghost all = views(list@);
    let mut i: usize = 0;
    assert(views(out@) =~= Seq::<EnvelopeView>::empty());
    while i < list.len()
        invariant
            i <= list@.len(),
            all == views(list@),
            views(out@) == ordered(order, all.take(i as int)),
        decreases list@.len() - i,
    {
        let ghost done = views(out@);
        let ghost e = all[i as int];
        assert(all.take(i + 1).drop_last() =~= all.take(i as int));
        let mut p: usize = out.len();
        assert(done.take(p as int) =~= done);
        while p > 0 && before(order, &list[i], &out[p - 1])
            invariant
                p <= out@.len(),
                i < list@.len(),
                done == views(out@),
                e == list@[i as int]@,
                place(order, done, e) == place(order, done.take(p as int), e),
            decreases p,
        {
            assert(done.take(p as int).drop_last() =~= done.take(p - 1));
            assert(done.take(p as int).last() == out@[p - 1]@);
            p -= 1;
        }
        proof {
            if p > 0 {
                assert(done.take(p as int).last() == out@[p - 1]@);
            }
            assert(place(order, done, e) == p);
        }
        let next = list[i].copy();
        out.insert(p, next);
        assert(views(out@) =~= done.insert(p as int, e));
        i += 1;
    }
    assert(all.take(all.len() as int) =~= all);
    out
}

/// In the order for re-keys the key versions never fall; within one version the times
/// never fall, and at one time the sequence numbers never do.
pub proof fn rekeys_come_by_version_and_time(list: Seq<EnvelopeView>, i: int, j: int)
    requires
        0 <= i < j < list.len(),
    ensures
        ({
            let a = ordered(Order::Rekey, list)[i];
            let b = ordered(Order::Rekey, list)[j];
            &&& a.key_version <= b.key_version
            &&& a.key_version == b.key_version ==> a.timestamp <= b.timestamp
            &&& a.key_version == b.key_version && a.timestamp == b.timestamp ==> a.seq <= b.seq
        }),
{
    ordering_sorts(Order::Rekey, list);
}

/// In the order for display the times never fall; at one time the senders come in the
/// order of their ids, and one sender's messages by their sequence numbers.
pub proof fn messages_come_by_time(list: Seq<EnvelopeView>, i: int, j: int)
    requires
        0 <= i < j < list.len(),
    ensures
        ({
            let a = ordered(Order::Display, list)[i];
            let b = ordered(Order::Display, list)[j];
            &&& a.timestamp <= b.timestamp
            &&& a.timestamp == b.timestamp ==> !crate::ids::lex_lt(
                b.sender.bytes@,
                a.sender.bytes@,
            )
            &&& a.timestamp == b.timestamp && a.sender == b.sender ==> a.seq <= b.seq
        }),
{
    ordering_sorts(Order::Display, list);
}

/// Messages that are in their turn stay where they are.
pub proof fn what_is_in_turn_stays(order: Order, list: Seq<EnvelopeView>)
    requires
        forall|i: int, j: int|
            0 <= i < j < list.len() ==> !precedes(order, #[trigger] list[j], #[trigger] list[i]),
    ensures
        ordered(order, list) == list,
    decreases list.len(),
{
    if list.len() > 0 {
        let before = list.drop_last();
        assert forall|i: int, j: int| 0 <= i < j < before.len() implies !precedes(
            order,
            #[trigger] before[j],
            #[trigger] before[i],
        ) by {
            assert(before[i] == list[i] && before[j] == list[j]);
        }
        what_is_in_turn_stays(order, before);
        if before.len() > 0 {
            assert(before.last() == list[list.len() - 2]);
            assert(!precedes(order, list[list.len() - 1], list[list.len() - 2]));
        }
        assert(place(order, before, list.last()) == before.len());
        assert(before.insert(before.len() as int, list.last()) =~= list);
    }
}

} // verus!
