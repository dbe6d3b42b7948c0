//! Topic envelopes and the fixed-width records a topic log is kept in.

use vstd::prelude::*;

use crate::ids::{
    lex_lt, lex_lt_common_prefix, lex_lt_decided_by_head, lex_lt_irreflexive, MessageHash,
    NodeId, TopicId,
};

verus! {

/// One signed, sealed message of a publisher's chain.
#[derive(Debug, PartialEq, Eq)]
pub struct TopicEnvelope {
    pub topic: TopicId,
    pub sender: NodeId,
    /// The message's place in its sender's chain, from zero.
    pub seq: u64,
    /// The hash of the message before it in the chain.
    pub prev_hash: MessageHash,
    /// The roster version of the key it is sealed under.
    pub key_version: u64,
    /// When the sender says it was written, in seconds.
    pub timestamp: i64,
    /// The message hash of this envelope.
    pub hash: MessageHash,
    /// The envelope's encoding.
    pub wire: Vec<u8>,
}

/// An envelope, as values.
#[verifier::ext_equal]
pub ghost struct EnvelopeView {
    pub topic: TopicId,
    pub sender: NodeId,
    pub seq: u64,
    pub prev_hash: MessageHash,
    pub key_version: u64,
    pub timestamp: i64,
    pub hash: MessageHash,
    pub wire: Seq<u8>,
}

impl View for TopicEnvelope {
    type V = EnvelopeView;

    open spec fn view(&self) -> EnvelopeView {
        EnvelopeView {
            topic: self.topic,
            sender: self.sender,
            seq: self.seq,
            prev_hash: self.prev_hash,
            key_version: self.key_version,
            timestamp: self.timestamp,
            hash: self.hash,
            wire: self.wire@,
        }
    }
}

/// The envelopes of a list, as values.
pub open spec fn views(list: Seq<TopicEnvelope>) -> Seq<EnvelopeView> {
    list.map_values(|e: TopicEnvelope| e@)
}

/// Appending an envelope appends its value.
pub proof fn views_push(list: Seq<TopicEnvelope>, e: TopicEnvelope)
    ensures
        views(list.push(e)) == views(list).push(e@),
{
    assert(views(list.push(e)) =~= views(list).push(e@));
}

/// A copy of a byte string.
pub fn copy_bytes(bytes: &Vec<u8>) -> (copy: Vec<u8>)
    ensures
        copy@ == bytes@,
{
    let mut out: Vec<u8> = Vec::new();
    let mut i: usize = 0;
    while i < bytes.len()
        invariant
            i <= bytes@.len(),
            out@ == bytes@.take(i as int),
        decreases bytes@.len() - i,
    {
        out.push(bytes[i]);
        assert(bytes@.take(i as int).push(bytes@[i as int]) =~= bytes@.take(i + 1));
        i += 1;
    }
    assert(bytes@.take(bytes@.len() as int) =~= bytes@);
    out
}

impl TopicEnvelope {
    /// A copy of this envelope.
    pub fn copy(&self) -> (copy: TopicEnvelope)
        ensures
            copy@ == self@,
    {
        TopicEnvelope {
            topic: self.topic,
            sender: self.sender,
            seq: self.seq,
            prev_hash: self.prev_hash,
            key_version: self.key_version,
            timestamp: self.timestamp,
            hash: self.hash,
            wire: copy_bytes(&self.wire),
        }
    }
}

/// Where a publisher's chain stands: its newest contiguous message.
#[derive(Clone, Copy, Debug, PartialEq, Eq)]
pub struct ChainState {
    pub seq: u64,
    pub hash: MessageHash,
}

/// Bytes in a log key: a sender id and a big-endian sequence number.
pub const LOG_KEY_LEN: usize = 40;

/// Bytes in a mark: a big-endian sequence number and a hash.
pub const HWM_VALUE_LEN: usize = 40;

/// A stored record that is not as wide as its kind is.
#[derive(Clone, Copy, Debug, PartialEq, Eq)]
pub struct Malformed {
    /// The bytes it has.
    pub len: usize,
    /// The bytes it should have.
    pub expected: usize,
}

/// The `width` lowest bytes of `n`, highest first.
pub open spec fn be(n: nat, width: nat) -> Seq<u8>
    decreases width,
{
    if width == 0 {
        Seq::empty()
    } else {
        be(n / 256, (width - 1) as nat).push((n % 256) as u8)
    }
}

/// The number that big-endian bytes write.
pub open spec fn from_be(bytes: Seq<u8>) -> nat
    decreases bytes.len(),
{
    if bytes.len() == 0 {
        0
    } else {
        from_be(bytes.drop_last()) * 256 + bytes.last() as nat
    }
}

/// 256 to the power of `width`.
pub open spec fn base(width: nat) -> nat
    decreases width,
{
    if width == 0 {
        1
    } else {
        256 * base((width - 1) as nat)
    }
}

/// A big-endian encoding is as wide as asked for.
pub proof fn be_len(n: nat, width: nat)
    ensures
        be(n, width).len() == width,
    decreases width,
{
    if width > 0 {
        be_len(n / 256, (width - 1) as nat);
    }
}

/// A number that fits is read back from its encoding.
pub proof fn be_round_trip(n: nat, width: nat)
    requires
        n < base(width),
    ensures
        from_be(be(n, width)) == n,
    decreases width,
{
    if width > 0 {
        let rest = be(n / 256, (width - 1) as nat);
        assert(be(n, width).drop_last() =~= rest);
        be_round_trip(n / 256, (width - 1) as nat);
    }
}

/// Every byte string is the encoding of the number it writes.
pub proof fn from_be_round_trip(bytes: Seq<u8>)
    ensures
        be(from_be(bytes), bytes.len()) == bytes,
        from_be(bytes) < base(bytes.len()),
    decreases bytes.len(),
{
    if bytes.len() > 0 {
        let rest = bytes.drop_last();
        from_be_round_trip(rest);
        let n = from_be(bytes);
        assert(n / 256 == from_be(rest));
        assert(n % 256 == bytes.last());
        assert(be(n, bytes.len()) =~= bytes);
    } else {
        assert(be(from_be(bytes), bytes.len()) =~= bytes);
    }
}

/// Appending one byte to two equally long strings: the longer strings are
/// ordered as the shorter ones, and by the last byte where those are equal.
proof fn lex_lt_push(p: Seq<u8>, x: u8, q: Seq<u8>, y: u8)
    requires
        p.len() == q.len(),
    ensures
        lex_lt(p.push(x), q.push(y)) == (lex_lt(p, q) || (p == q && x < y)),
{
    let s = seq![x];
    let t = seq![y];
    assert(p.push(x) =~= p + s);
    assert(q.push(y) =~= q + t);
    if p == q {
        lex_lt_common_prefix(p, s, t);
        lex_lt_irreflexive(p);
        assert(s.drop_first() =~= Seq::<u8>::empty());
        assert(t.drop_first() =~= Seq::<u8>::empty());
        assert(lex_lt(s, t) == (x < y)) by {
            reveal_with_fuel(lex_lt, 2);
        }
    } else {
        lex_lt_decided_by_head(p, q, s, t);
    }
}

/// Encodings of one width order as the numbers do.
pub proof fn be_orders(a: nat, b: nat, width: nat)
    requires
        a < base(width),
        b < base(width),
    ensures
        lex_lt(be(a, width), be(b, width)) == (a < b),
    decreases width,
{
    if width > 0 {
        let w = (width - 1) as nat;
        be_orders(a / 256, b / 256, w);
        be_len(a / 256, w);
        be_len(b / 256, w);
        lex_lt_push(be(a / 256, w), (a % 256) as u8, be(b / 256, w), (b % 256) as u8);
        if be(a / 256, w) == be(b / 256, w) {
            be_round_trip(a / 256, w);
            be_round_trip(b / 256, w);
        }
        if a / 256 == b / 256 {
            lex_lt_irreflexive(be(a / 256, w));
        }
    }
}

/// Every `u64` fits in eight bytes.
pub proof fn u64_fits()
    ensures
        base(8) == 0x1_0000_0000_0000_0000,
{
    reveal_with_fuel(base, 9);
}

/// The key of a log row.
pub open spec fn log_key_of(sender: NodeId, seq: u64) -> Seq<u8> {
    sender.bytes@ + be(seq as nat, 8)
}

/// The value of a mark.
pub open spec fn hwm_value_of(state: ChainState) -> Seq<u8> {
    be(state.seq as nat, 8) + state.hash.bytes@
}

/// Append the eight big-endian bytes of `n`.
fn push_be(out: &mut Vec<u8>, n: u64)
    ensures
        final(out)@ == old(out)@ + be(n as nat, 8),
{
    let ghost start = out@;
    let mut i: usize = 0;
    let mut shift: u64 = 56;
    proof {
        assert((n >> 56) / 256 == 0) by (bit_vector);
    }
    assert(start + be((n >> 64) as nat, 0) =~= start);
    while i < 8
        invariant
            i <= 8,
            i < 8 ==> shift == 56 - 8 * i,
            i < 8 ==> out@ == start + be(((n >> shift) / 256) as nat, i as nat),
            i == 8 ==> out@ == start + be(n as nat, 8),
        decreases 8 - i,
    {
        let part: u64 = n >> shift;
        let byte: u8 = (part % 256) as u8;
        out.push(byte);
        assert(out@ =~= start + be(part as nat, (i + 1) as nat));
        if i < 7 {
            let next: u64 = shift - 8;
            proof {
                assert((n >> next) / 256 == n >> shift) by (bit_vector)
                    requires
                        next + 8 == shift,
                        shift <= 56,
                ;
            }
            shift = next;
        } else {
            proof {
                assert(n >> 0 == n) by (bit_vector);
            }
        }
        i += 1;
    }
}

/// The number that eight big-endian bytes, from `at` on, write.
fn read_be(bytes: &[u8], at: usize) -> (n: u64)
    requires
        at + 8 <= bytes@.len(),
    ensures
        n as nat == from_be(bytes@.subrange(at as int, at + 8)),
{
    let len: usize = bytes.len();
    let mut n: u64 = 0;
    let mut i: usize = 0;
    assert(base(0) == 1);
    while i < 8
        invariant
            i <= 8,
            at + 8 <= len == bytes@.len(),
            n as nat == from_be(bytes@.subrange(at as int, at + i)),
            (n as nat) < base(i as nat),
        decreases 8 - i,
    {
        let ghost now = bytes@.subrange(at as int, at + i + 1);
        assert(now.drop_last() =~= bytes@.subrange(at as int, at + i));
        proof {
            bases_grow((i + 1) as nat, 8);
            u64_fits();
        }
        n = n * 256 + bytes[at + i] as u64;
        i += 1;
    }
    n
}

/// Wider encodings hold more.
proof fn bases_grow(a: nat, b: nat)
    requires
        a <= b,
    ensures
        base(a) <= base(b),
    decreases b,
{
    if a < b {
        bases_grow(a, (b - 1) as nat);
    }
}

/// The thirty-two bytes from `at` on.
fn read_32(bytes: &[u8], at: usize) -> (out: [u8; 32])
    requires
        at + 32 <= bytes@.len(),
    ensures
        out@ == bytes@.subrange(at as int, at + 32),
{
    let len: usize = bytes.len();
    let mut out: [u8; 32] = [0u8; 32];
    let mut i: usize = 0;
    while i < 32
        invariant
            i <= 32,
            at + 32 <= len == bytes@.len(),
            forall|j: int| 0 <= j < i ==> out@[j] == bytes@[at + j],
        decreases 32 - i,
    {
        out[i] = bytes[at + i];
        i += 1;
    }
    assert(out@ =~= bytes@.subrange(at as int, at + 32));
    out
}

/// Append thirty-two bytes.
fn push_32(out: &mut Vec<u8>, bytes: &[u8; 32])
    ensures
        final(out)@ == old(out)@ + bytes@,
{
    let ghost start = out@;
    let mut i: usize = 0;
    while i < 32
        invariant
            i <= 32,
            out@ == start + bytes@.take(i as int),
        decreases 32 - i,
    {
        out.push(bytes[i]);
        assert(out@ =~= start + bytes@.take(i + 1));
        i += 1;
    }
    assert(bytes@.take(32) =~= bytes@);
}

/// The key of a log row: the sender, then its sequence number big-endian, so
/// that one sender's rows come out in chain order.
pub fn log_key(sender: NodeId, seq: u64) -> (key: Vec<u8>)
    ensures
        key@ == log_key_of(sender, seq),
        key@.len() == LOG_KEY_LEN,
{
    let mut key: Vec<u8> = Vec::new();
    push_32(&mut key, &sender.bytes);
    assert(key@ =~= sender.bytes@);
    push_be(&mut key, seq);
    proof {
        be_len(seq as nat, 8);
    }
    key
}

/// The sender and sequence number of a log key; an error exactly on a key that
/// is not [`LOG_KEY_LEN`] bytes wide.
pub fn parse_log_key(bytes: &[u8]) -> (parsed: Result<(NodeId, u64), Malformed>)
    ensures
        match parsed {
            Ok((sender, seq)) => bytes@.len() == LOG_KEY_LEN && bytes@ == log_key_of(sender, seq),
            Err(e) => bytes@.len() != LOG_KEY_LEN && e == (Malformed {
                len: bytes@.len() as usize,
                expected: LOG_KEY_LEN,
            }),
        },
{
    if bytes.len() != LOG_KEY_LEN {
        return Err(Malformed { len: bytes.len(), expected: LOG_KEY_LEN });
    }
    let sender = NodeId { bytes: read_32(bytes, 0) };
    let seq: u64 = read_be(bytes, 32);
    proof {
        from_be_round_trip(bytes@.subrange(32, 40));
        assert(bytes@ =~= bytes@.subrange(0, 32) + bytes@.subrange(32, 40));
    }
    Ok((sender, seq))
}

/// The sender a mark's key names; an error exactly on a key that is not 32
/// bytes wide.
pub fn parse_sender_key(bytes: &[u8]) -> (parsed: Result<NodeId, Malformed>)
    ensures
        match parsed {
            Ok(sender) => bytes@ == sender.bytes@,
            Err(e) => bytes@.len() != 32 && e == (Malformed {
                len: bytes@.len() as usize,
                expected: 32,
            }),
        },
{
    if bytes.len() != 32 {
        return Err(Malformed { len: bytes.len(), expected: 32 });
    }
    let sender = NodeId { bytes: read_32(bytes, 0) };
    assert(bytes@.subrange(0, 32) =~= bytes@);
    Ok(sender)
}

/// The value of a mark: the sequence number big-endian, then the hash.
pub fn hwm_value(state: &ChainState) -> (value: Vec<u8>)
    ensures
        value@ == hwm_value_of(*state),
        value@.len() == HWM_VALUE_LEN,
{
    let mut value: Vec<u8> = Vec::new();
    push_be(&mut value, state.seq);
    assert(value@ =~= be(state.seq as nat, 8));
    push_32(&mut value, &state.hash.bytes);
    proof {
        be_len(state.seq as nat, 8);
    }
    value
}

/// The chain state of a mark; an error exactly on a value that is not
/// [`HWM_VALUE_LEN`] bytes wide.
pub fn parse_hwm_value(bytes: &[u8]) -> (parsed: Result<ChainState, Malformed>)
    ensures
        match parsed {
            Ok(state) => bytes@.len() == HWM_VALUE_LEN && bytes@ == hwm_value_of(state),
            Err(e) => bytes@.len() != HWM_VALUE_LEN && e == (Malformed {
                len: bytes@.len() as usize,
                expected: HWM_VALUE_LEN,
            }),
        },
{
    if bytes.len() != HWM_VALUE_LEN {
        return Err(Malformed { len: bytes.len(), expected: HWM_VALUE_LEN });
    }
    let seq: u64 = read_be(bytes, 0);
    let hash = MessageHash { bytes: read_32(bytes, 8) };
    proof {
        from_be_round_trip(bytes@.subrange(0, 8));
        assert(bytes@ =~= bytes@.subrange(0, 8) + bytes@.subrange(8, 40));
    }
    Ok(ChainState { seq, hash })
}

/// Two log rows have the same key only when they are the same slot.
pub proof fn log_key_injective(s: NodeId, m: u64, t: NodeId, n: u64)
    requires
        log_key_of(s, m) == log_key_of(t, n),
    ensures
        s == t,
        m == n,
{
    be_len(m as nat, 8);
    be_len(n as nat, 8);
    u64_fits();
    let a = log_key_of(s, m);
    let b = log_key_of(t, n);
    assert(s.bytes@ =~= a.subrange(0, 32));
    assert(t.bytes@ =~= b.subrange(0, 32));
    crate::ids::array_from_view(s.bytes, t.bytes);
    assert(be(m as nat, 8) =~= a.subrange(32, 40));
    assert(be(n as nat, 8) =~= b.subrange(32, 40));
    be_round_trip(m as nat, 8);
    be_round_trip(n as nat, 8);
}

/// A mark is read back as it was written.
pub proof fn hwm_value_injective(a: ChainState, b: ChainState)
    requires
        hwm_value_of(a) == hwm_value_of(b),
    ensures
        a == b,
{
    be_len(a.seq as nat, 8);
    be_len(b.seq as nat, 8);
    u64_fits();
    let x = hwm_value_of(a);
    let y = hwm_value_of(b);
    assert(be(a.seq as nat, 8) =~= x.subrange(0, 8));
    assert(be(b.seq as nat, 8) =~= y.subrange(0, 8));
    be_round_trip(a.seq as nat, 8);
    be_round_trip(b.seq as nat, 8);
    assert(a.hash.bytes@ =~= x.subrange(8, 40));
    assert(b.hash.bytes@ =~= y.subrange(8, 40));
    crate::ids::array_from_view(a.hash.bytes, b.hash.bytes);
}

/// Log keys, compared byte by byte, come in the order of their senders and,
/// within one sender, in chain order.
pub proof fn log_keys_order(s: NodeId, m: u64, t: NodeId, n: u64)
    ensures
        lex_lt(log_key_of(s, m), log_key_of(t, n)) == (s.precedes(t) || (s == t && m < n)),
{
    u64_fits();
    be_len(m as nat, 8);
    be_len(n as nat, 8);
    crate::ids::array_from_view(s.bytes, t.bytes);
    if s.bytes@ == t.bytes@ {
        lex_lt_common_prefix(s.bytes@, be(m as nat, 8), be(n as nat, 8));
        be_orders(m as nat, n as nat, 8);
        lex_lt_irreflexive(s.bytes@);
    } else {
        lex_lt_decided_by_head(s.bytes@, t.bytes@, be(m as nat, 8), be(n as nat, 8));
    }
}

/// A row's key is the sender and then the sequence number, the most significant byte
/// first; a mark's value is the number in the same form and then the hash.
pub proof fn keys_are_laid_out(sender: NodeId, seq: u64, state: ChainState)
    ensures
        log_key_of(sender, seq).len() == 40,
        log_key_of(sender, seq).take(32) == sender.bytes@,
        from_be(log_key_of(sender, seq).skip(32)) == seq,
        hwm_value_of(state).len() == 40,
        from_be(hwm_value_of(state).take(8)) == state.seq,
        hwm_value_of(state).skip(8) == state.hash.bytes@,
{
    u64_fits();
    be_len(seq as nat, 8);
    be_len(state.seq as nat, 8);
    be_round_trip(seq as nat, 8);
    be_round_trip(state.seq as nat, 8);
    assert(log_key_of(sender, seq).take(32) =~= sender.bytes@);
    assert(log_key_of(sender, seq).skip(32) =~= be(seq as nat, 8));
    assert(hwm_value_of(state).take(8) =~= be(state.seq as nat, 8));
    assert(hwm_value_of(state).skip(8) =~= state.hash.bytes@);
}

/// Of a number's bytes the last counts for itself and each other for two hundred and
/// fifty-six times as much as the same byte one place on.
pub proof fn the_last_byte_counts_least(bytes: Seq<u8>, last: u8)
    ensures
        from_be(Seq::empty()) == 0,
        from_be(bytes.push(last)) == 256 * from_be(bytes) + last,
{
    assert(bytes.push(last).drop_last() =~= bytes);
}

} // verus!
