//! The fixed-width identifiers a network is built from, their order and their
//! hexadecimal form.

use vstd::prelude::*;

verus! {

/// A node's public key.
#[derive(Clone, Copy, Debug, PartialEq, Eq, PartialOrd, Ord, Hash)]
pub struct NodeId {
    pub bytes: [u8; 32],
}

/// A topic: derived from a fabric root and a name.
#[derive(Clone, Copy, Debug, PartialEq, Eq, PartialOrd, Ord, Hash)]
pub struct TopicId {
    pub bytes: [u8; 32],
}

/// The hash that identifies one envelope.
#[derive(Clone, Copy, Debug, PartialEq, Eq, PartialOrd, Ord, Hash)]
pub struct MessageHash {
    pub bytes: [u8; 32],
}

/// Byte strings in lexicographic order, a proper prefix first.
pub open spec fn lex_lt(a: Seq<u8>, b: Seq<u8>) -> bool
    decreases a.len(),
{
    if b.len() == 0 {
        false
    } else if a.len() == 0 {
        true
    } else if a[0] != b[0] {
        a[0] < b[0]
    } else {
        lex_lt(a.drop_first(), b.drop_first())
    }
}

/// No byte string precedes itself.
pub proof fn lex_lt_irreflexive(a: Seq<u8>)
    ensures
        !lex_lt(a, a),
    decreases a.len(),
{
    if a.len() > 0 {
        lex_lt_irreflexive(a.drop_first());
    }
}

/// The order chains.
pub proof fn lex_lt_transitive(a: Seq<u8>, b: Seq<u8>, c: Seq<u8>)
    requires
        lex_lt(a, b),
        lex_lt(b, c),
    ensures
        lex_lt(a, c),
    decreases a.len(),
{
    if a.len() > 0 && b.len() > 0 && c.len() > 0 && a[0] == b[0] && b[0] == c[0] {
        lex_lt_transitive(a.drop_first(), b.drop_first(), c.drop_first());
    }
}

/// Two different byte strings are ordered one way or the other.
pub proof fn lex_lt_total(a: Seq<u8>, b: Seq<u8>)
    ensures
        lex_lt(a, b) || lex_lt(b, a) || a == b,
    decreases a.len(),
{
    if a.len() > 0 && b.len() > 0 {
        if a[0] == b[0] {
            lex_lt_total(a.drop_first(), b.drop_first());
            if a.drop_first() == b.drop_first() {
                assert(a =~= seq![a[0]] + a.drop_first());
                assert(b =~= seq![b[0]] + b.drop_first());
            }
        }
    } else if a.len() == 0 && b.len() == 0 {
        assert(a =~= b);
    }
}

/// Prefixing both sides with the same bytes keeps their order.
pub proof fn lex_lt_common_prefix(p: Seq<u8>, a: Seq<u8>, b: Seq<u8>)
    ensures
        lex_lt(p + a, p + b) == lex_lt(a, b),
    decreases p.len(),
{
    if p.len() == 0 {
        assert(p + a =~= a);
        assert(p + b =~= b);
    } else {
        assert((p + a).drop_first() =~= p.drop_first() + a);
        assert((p + b).drop_first() =~= p.drop_first() + b);
        lex_lt_common_prefix(p.drop_first(), a, b);
    }
}

/// Where two equally long strings differ, what follows them does not matter.
pub proof fn lex_lt_decided_by_head(a: Seq<u8>, b: Seq<u8>, s: Seq<u8>, t: Seq<u8>)
    requires
        a.len() == b.len(),
        a != b,
    ensures
        lex_lt(a + s, b + t) == lex_lt(a, b),
    decreases a.len(),
{
    if a.len() == 0 {
        assert(a =~= b);
    } else if a[0] == b[0] {
        assert((a + s).drop_first() =~= a.drop_first() + s);
        assert((b + t).drop_first() =~= b.drop_first() + t);
        if a.drop_first() == b.drop_first() {
            assert(a =~= seq![a[0]] + a.drop_first());
            assert(b =~= seq![b[0]] + b.drop_first());
        }
        lex_lt_decided_by_head(a.drop_first(), b.drop_first(), s, t);
    }
}

/// Whether `a` precedes `b` byte by byte.
pub fn bytes_less(a: &[u8], b: &[u8]) -> (less: bool)
    ensures
        less == lex_lt(a@, b@),
{
    let mut i: usize = 0;
    assert(a@.skip(0) =~= a@);
    assert(b@.skip(0) =~= b@);
    while i < a.len() && i < b.len()
        invariant
            i <= a@.len(),
            i <= b@.len(),
            lex_lt(a@, b@) == lex_lt(a@.skip(i as int), b@.skip(i as int)),
        decreases a@.len() - i,
    {
        if a[i] != b[i] {
            return a[i] < b[i];
        }
        assert(a@.skip(i as int).drop_first() =~= a@.skip(i + 1));
        assert(b@.skip(i as int).drop_first() =~= b@.skip(i + 1));
        i += 1;
    }
    i < b.len()
}

/// Whether two byte strings are the same.
pub fn bytes_same(a: &[u8], b: &[u8]) -> (same: bool)
    ensures
        same == (a@ == b@),
{
    if a.len() != b.len() {
        return false;
    }
    let mut i: usize = 0;
    while i < a.len()
        invariant
            i <= a@.len(),
            a@.len() == b@.len(),
            forall|j: int| 0 <= j < i ==> a@[j] == b@[j],
        decreases a@.len() - i,
    {
        if a[i] != b[i] {
            return false;
        }
        i += 1;
    }
    assert(a@ =~= b@);
    true
}

/// Two arrays with the same elements are the same array.
pub proof fn array_from_view(a: [u8; 32], b: [u8; 32])
    ensures
        (a@ == b@) == (a == b),
{
    if a@ == b@ {
        assert forall|i: int| 0 <= i < 32 implies a[i] == b[i] by {
            assert(a@[i] == b@[i]);
        }
        assert(a =~= b);
    }
}

impl NodeId {
    /// The order of node ids: their bytes, first byte first.
    pub open spec fn precedes(self, other: NodeId) -> bool {
        lex_lt(self.bytes@, other.bytes@)
    }

    /// Whether this is the same node.
    pub fn same(&self, other: &NodeId) -> (same: bool)
        ensures
            same == (*self == *other),
    {
        proof {
            array_from_view(self.bytes, other.bytes);
        }
        bytes_same(self.bytes.as_slice(), other.bytes.as_slice())
    }

    /// Whether this node id comes before `other`.
    pub fn less(&self, other: &NodeId) -> (less: bool)
        ensures
            less == self.precedes(*other),
    {
        bytes_less(self.bytes.as_slice(), other.bytes.as_slice())
    }

    /// The 64 hexadecimal characters of this id.
    pub fn hex(&self) -> (text: String)
        ensures
            text@ == crate::text::hex(self.bytes@),
    {
        crate::text::hex_text(self.bytes.as_slice())
    }
}

impl TopicId {
    /// Whether this is the same topic.
    pub fn same(&self, other: &TopicId) -> (same: bool)
        ensures
            same == (*self == *other),
    {
        proof {
            array_from_view(self.bytes, other.bytes);
        }
        bytes_same(self.bytes.as_slice(), other.bytes.as_slice())
    }

    /// The 64 hexadecimal characters of this id.
    pub fn hex(&self) -> (text: String)
        ensures
            text@ == crate::text::hex(self.bytes@),
    {
        crate::text::hex_text(self.bytes.as_slice())
    }
}

impl MessageHash {
    /// Whether this is the same hash.
    pub fn same(&self, other: &MessageHash) -> (same: bool)
        ensures
            same == (*self == *other),
    {
        proof {
            array_from_view(self.bytes, other.bytes);
        }
        bytes_same(self.bytes.as_slice(), other.bytes.as_slice())
    }
}

/// Rows of bytes are compared at the first place where they differ: the one with the
/// smaller byte there comes first, and so does one that the other only goes on from.
pub proof fn bytes_are_compared_at_the_first_difference(a: Seq<u8>, b: Seq<u8>, k: int)
    requires
        0 <= k <= a.len(),
        k <= b.len(),
        a.take(k) == b.take(k),
        k == a.len() || k == b.len() || a[k] != b[k],
    ensures
        lex_lt(a, b) == (k < b.len() && (k == a.len() || a[k] < b[k])),
    decreases k,
{
    if k > 0 {
        assert(a[0] == a.take(k)[0] && b[0] == b.take(k)[0]);
        assert(a.drop_first().take(k - 1) =~= a.take(k).drop_first());
        assert(b.drop_first().take(k - 1) =~= b.take(k).drop_first());
        bytes_are_compared_at_the_first_difference(a.drop_first(), b.drop_first(), k - 1);
    }
}

} // verus!
