//! Sets of nodes.

use vstd::prelude::*;

use crate::ids::{lex_lt_irreflexive, lex_lt_transitive, NodeId};

verus! {

/// A set of nodes.
#[derive(Debug)]
pub struct NodeSet {
    items: Vec<NodeId>,
}

impl View for NodeSet {
    type V = Set<NodeId>;

    closed spec fn view(&self) -> Set<NodeId> {
        self.items@.to_set()
    }
}

impl NodeSet {
    /// Each node once.
    pub closed spec fn wf(&self) -> bool {
        self.items@.no_duplicates()
    }

    /// The empty set.
    pub fn new() -> (set: NodeSet)
        ensures
            set.wf(),
            set@ == Set::<NodeId>::empty(),
    {
        let set = NodeSet { items: Vec::new() };
        assert(set@ =~= Set::<NodeId>::empty());
        set
    }

    /// Where a node stands among the items, or their number.
    fn position(&self, node: &NodeId) -> (at: usize)
        ensures
            at <= self.items@.len(),
            at < self.items@.len() ==> self.items@[at as int] == *node,
            self@.contains(*node) == (at < self.items@.len()),
    {
        let mut i: usize = 0;
        while i < self.items.len()
            invariant
                i <= self.items@.len(),
                forall|j: int| 0 <= j < i ==> self.items@[j] != *node,
            decreases self.items@.len() - i,
        {
            if self.items[i].same(node) {
                return i;
            }
            i += 1;
        }
        i
    }

    /// Whether the set has `node`.
    pub fn contains(&self, node: &NodeId) -> (has: bool)
        ensures
            has == self@.contains(*node),
    {
        self.position(node) < self.items.len()
    }

    /// Put `node` in; whether it was not there.
    pub fn insert(&mut self, node: NodeId) -> (new: bool)
        requires
            old(self).wf(),
        ensures
            final(self).wf(),
            final(self)@ == old(self)@.insert(node),
            new == !old(self)@.contains(node),
    {
        if self.contains(&node) {
            assert(self@ =~= old(self)@.insert(node));
            return false;
        }
        let ghost before = self.items@;
        self.items.push(node);
        proof {
            assert(!before.contains(node));
            assert forall|n: NodeId| #[trigger] self.items@.contains(n) == (before.contains(n) || n
                == node) by {
                if before.contains(n) {
                    let i = choose|i: int| 0 <= i < before.len() && before[i] == n;
                    assert(self.items@[i] == n);
                }
                if n == node {
                    assert(self.items@[before.len() as int] == n);
                }
            }
            assert(self@ =~= old(self)@.insert(node));
        }
        true
    }

    /// Take `node` out; whether it was there.
    pub fn remove(&mut self, node: &NodeId) -> (had: bool)
        requires
            old(self).wf(),
        ensures
            final(self).wf(),
            final(self)@ == old(self)@.remove(*node),
            had == old(self)@.contains(*node),
    {
        let at: usize = self.position(node);
        if at == self.items.len() {
            assert(self@ =~= old(self)@.remove(*node));
            return false;
        }
        let ghost before = self.items@;
        let _ = self.items.remove(at);
        proof {
            let now = self.items@;
            assert(now =~= before.remove(at as int));
            assert forall|n: NodeId| #[trigger] now.contains(n) == (before.contains(n) && n
                != *node) by {
                if now.contains(n) {
                    let i = choose|i: int| 0 <= i < now.len() && now[i] == n;
                    let k = if i < at { i } else { i + 1 };
                    assert(before[k] == n);
                    assert(before[k] != before[at as int]);
                }
                if before.contains(n) && n != *node {
                    let k = choose|k: int| 0 <= k < before.len() && before[k] == n;
                    let i = if k < at { k } else { k - 1 };
                    assert(now[i] == n);
                }
            }
            assert(now.no_duplicates());
            assert(self@ =~= old(self)@.remove(*node));
        }
        true
    }

    /// A copy of this set.
    pub fn copy(&self) -> (copy: NodeSet)
        requires
            self.wf(),
        ensures
            copy.wf(),
            copy@ == self@,
    {
        let mut out = NodeSet::new();
        let _ = out.insert_all(&self.items);
        assert(Set::<NodeId>::empty() + self.items@.to_set() =~= self@);
        out
    }

    /// Put every node of a list in; whether any was not there.
    pub fn insert_all(&mut self, list: &Vec<NodeId>) -> (added: bool)
        requires
            old(self).wf(),
        ensures
            final(self).wf(),
            final(self)@ == old(self)@ + list@.to_set(),
            added == !list@.to_set().subset_of(old(self)@),
    {
        let ghost start = self@;
        let mut added = false;
        let mut i: usize = 0;
        assert(self@ =~= start + list@.take(0).to_set());
        while i < list.len()
            invariant
                self.wf(),
                i <= list@.len(),
                self@ == start + list@.take(i as int).to_set(),
                added == !list@.take(i as int).to_set().subset_of(start),
            decreases list@.len() - i,
        {
            proof {
                let before = list@.take(i as int);
                let now = list@.take(i + 1);
                let node = list@[i as int];
                assert(now =~= before.push(node));
                assert(now.to_set() =~= before.to_set().insert(node)) by {
                    assert forall|n: NodeId| #[trigger]
                        now.contains(n) == (before.contains(n) || n == node) by {
                        if before.contains(n) {
                            let k = choose|k: int| 0 <= k < before.len() && before[k] == n;
                            assert(now[k] == n);
                        }
                        assert(now[before.len() as int] == node);
                    }
                }
                assert(start + now.to_set() =~= (start + before.to_set()).insert(node));
                assert(now.to_set().subset_of(start) == (before.to_set().subset_of(start)
                    && start.contains(node))) by {
                    if now.to_set().subset_of(start) {
                        assert(now.to_set().contains(node));
                        assert forall|n: NodeId| before.to_set().contains(n) implies start.contains(
                            n,
                        ) by {
                            assert(now.to_set().contains(n));
                        }
                    }
                }
                if !added && self@.contains(node) && !start.contains(node) {
                    assert(before.to_set().contains(node));
                }
            }
            if self.insert(list[i]) {
                added = true;
            }
            i += 1;
        }
        assert(list@.take(list@.len() as int) =~= list@);
        added
    }

    /// Take every node out.
    pub fn clear(&mut self)
        ensures
            final(self).wf(),
            final(self)@ == Set::<NodeId>::empty(),
    {
        self.items.clear();
        assert(self@ =~= Set::<NodeId>::empty());
    }

    /// Whether the set has no node.
    pub fn is_empty(&self) -> (empty: bool)
        ensures
            empty == (self@ == Set::<NodeId>::empty()),
    {
        let empty = self.items.len() == 0;
        proof {
            if empty {
                assert(self@ =~= Set::<NodeId>::empty());
            } else {
                assert(self@.contains(self.items@[0]));
            }
        }
        empty
    }
}

/// Whether node ids stand in their order, each once.
pub open spec fn nodes_rise(nodes: Seq<NodeId>) -> bool {
    forall|i: int, j: int|
        0 <= i < j < nodes.len() ==> (#[trigger] nodes[i]).precedes(#[trigger] nodes[j])
}

/// What is left without the last of nodes in their order: all but that one.
proof fn all_but_the_last(nodes: Seq<NodeId>, n: NodeId)
    requires
        nodes_rise(nodes),
        nodes.len() > 0,
    ensures
        nodes.drop_last().contains(n) == (nodes.contains(n) && n != nodes.last()),
{
    let rest = nodes.drop_last();
    lex_lt_irreflexive(n.bytes@);
    if rest.contains(n) {
        let i = choose|i: int| 0 <= i < rest.len() && rest[i] == n;
        assert(nodes[i] == n);
        assert(nodes[i].precedes(nodes[nodes.len() - 1]));
    }
    if nodes.contains(n) && n != nodes.last() {
        let i = choose|i: int| 0 <= i < nodes.len() && nodes[i] == n;
        assert(rest[i] == n);
    }
}

/// Node ids in their order are determined by which they are.
pub proof fn rising_nodes_determined(a: Seq<NodeId>, b: Seq<NodeId>)
    requires
        nodes_rise(a),
        nodes_rise(b),
        forall|n: NodeId| #[trigger] a.contains(n) == b.contains(n),
    ensures
        a == b,
    decreases a.len(),
{
    if a.len() == 0 {
        if b.len() > 0 {
            assert(b.contains(b[0]));
            assert(a.contains(b[0]));
        }
        assert(a =~= b);
    } else {
        assert(a.contains(a.last()));
        assert(b.contains(a.last()));
        let i = choose|i: int| 0 <= i < b.len() && b[i] == a.last();
        assert(b.contains(b.last()));
        assert(a.contains(b.last()));
        let j = choose|j: int| 0 <= j < a.len() && a[j] == b.last();
        lex_lt_irreflexive(a.last().bytes@);
        if i < b.len() - 1 {
            assert(b[i].precedes(b[b.len() - 1]));
            if j < a.len() - 1 {
                assert(a[j].precedes(a[a.len() - 1]));
                lex_lt_transitive(a.last().bytes@, b.last().bytes@, a.last().bytes@);
            }
        }
        let x = a.drop_last();
        let y = b.drop_last();
        assert forall|n: NodeId| #[trigger] x.contains(n) == y.contains(n) by {
            all_but_the_last(a, n);
            all_but_the_last(b, n);
            assert(a.contains(n) == b.contains(n));
        }
        rising_nodes_determined(x, y);
        assert(a =~= x.push(a.last()));
        assert(b =~= y.push(b.last()));
    }
}

} // verus!
