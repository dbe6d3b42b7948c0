//! How a reader shows a topic: the keyring that opens envelopes, and the line a
//! message is printed as.

use vstd::prelude::*;

use crate::envelope::{EnvelopeView, TopicEnvelope};
use crate::idp_view::{short8, Verdict};
use crate::ids::NodeId;
use crate::records::ChannelRecord;
use crate::rekey::keys_of;
use crate::render::{record_line, record_text};
use crate::text::{
    a_decimal_reads_back, a_digit_stands_for_its_number, a_signed_decimal_reads_back, chars_of,
    decimal, decimal_printable, decimal_text, digit, digit_value, hex, hex_printable, json_quoted,
    json_quoted_one_line, json_string, number_read, one_line, one_line_concat,
    printable_is_one_line, signed_decimal, signed_decimal_printable, signed_read, signed_text,
    string_of,
};

verus! {

/// The keys a reader opens messages with. An unknown version is no error: the
/// message is in the log, and shows once its key is there. The warning comes
/// once for each version.
#[derive(Debug)]
pub struct Keyring {
    keys: Vec<(u64, [u8; 32])>,
    warned: Vec<u64>,
}

/// A keyring, as values.
#[verifier::ext_equal]
pub ghost struct KeyringView {
    pub keys: Map<u64, [u8; 32]>,
    pub warned: Set<u64>,
}

impl View for Keyring {
    type V = KeyringView;

    closed spec fn view(&self) -> KeyringView {
        KeyringView { keys: keys_of(self.keys@), warned: self.warned@.to_set() }
    }
}

/// What there is to open a message with.
#[derive(Clone, Copy, Debug, PartialEq, Eq)]
pub enum Opening {
    /// This key.
    Key([u8; 32]),
    /// No key, and this version was not complained about before.
    Warn,
    /// No key, and that was said already.
    Silent,
}

/// The key of a version, if there is one.
pub open spec fn key_of(keys: Map<u64, [u8; 32]>, version: u64) -> Option<[u8; 32]> {
    if keys.dom().contains(version) {
        Some(keys[version])
    } else {
        None
    }
}

/// The keyring after it was asked for a version: re-read if the version was
/// missing and the keyring could be read, and the version complained about if
/// it is still missing.
pub open spec fn asked(
    ring: KeyringView,
    version: u64,
    reread: Option<Map<u64, [u8; 32]>>,
) -> KeyringView {
    let keys = if ring.keys.dom().contains(version) {
        ring.keys
    } else {
        match reread {
            Some(keys) => keys,
            None => ring.keys,
        }
    };
    KeyringView {
        keys,
        warned: if keys.dom().contains(version) {
            ring.warned
        } else {
            ring.warned.insert(version)
        },
    }
}

/// The last entry of a list for a version.
fn lookup(keys: &Vec<(u64, [u8; 32])>, version: u64) -> (key: Option<[u8; 32]>)
    ensures
        key == key_of(keys_of(keys@), version),
{
    let mut i: usize = keys.len();
    assert(keys@.take(i as int) =~= keys@);
    while i > 0
        invariant
            i <= keys@.len(),
            key_of(keys_of(keys@), version) == key_of(keys_of(keys@.take(i as int)), version),
        decreases i,
    {
        assert(keys@.take(i as int).drop_last() =~= keys@.take(i - 1));
        assert(keys@.take(i as int).last() == keys@[i - 1]);
        if keys[i - 1].0 == version {
            return Some(keys[i - 1].1);
        }
        i -= 1;
    }
    None
}

impl Keyring {
    /// The keyring with these keys.
    pub fn load(keys: Vec<(u64, [u8; 32])>) -> (ring: Keyring)
        ensures
            ring@.keys == keys_of(keys@),
            ring@.warned == Set::<u64>::empty(),
    {
        let ring = Keyring { keys, warned: Vec::new() };
        assert(ring@.warned =~= Set::<u64>::empty());
        ring
    }

    /// Whether there is a key of this version, so that nothing needs reading.
    pub fn holds(&self, version: u64) -> (yes: bool)
        ensures
            yes == self@.keys.dom().contains(version),
    {
        lookup(&self.keys, version).is_some()
    }

    /// What there is to open a message of this version with. `reread` is the
    /// stored keyring, read anew because the version was missing, or `None` when
    /// it was not read or could not be.
    pub fn open(&mut self, version: u64, reread: Option<Vec<(u64, [u8; 32])>>) -> (opening: Opening)
        ensures
            final(self)@ == asked(
                old(self)@,
                version,
                match reread {
                    Some(keys) => Some(keys_of(keys@)),
                    None => None,
                },
            ),
            match key_of(final(self)@.keys, version) {
                Some(key) => opening == Opening::Key(key),
                None => opening == if old(self)@.warned.contains(version) {
                    Opening::Silent
                } else {
                    Opening::Warn
                },
            },
    {
        if !self.holds(version) {
            match reread {
                Some(keys) => {
                    self.keys = keys;
                },
                None => {},
            }
        }
        match lookup(&self.keys, version) {
            Some(key) => Opening::Key(key),
            None => {
                let ghost before = self.warned@;
                let mut i: usize = 0;
                while i < self.warned.len()
                    invariant
                        i <= self.warned@.len(),
                        before == self.warned@,
                        forall|j: int| 0 <= j < i ==> self.warned@[j] != version,
                        self@.keys == keys_of(self.keys@),
                        !self@.keys.dom().contains(version),
                        before == old(self).warned@,
                        self@.keys == asked(
                            old(self)@,
                            version,
                            match reread {
                                Some(keys) => Some(keys_of(keys@)),
                                None => None,
                            },
                        ).keys,
                    decreases self.warned@.len() - i,
                {
                    if self.warned[i] == version {
                        assert(before.to_set().insert(version) =~= before.to_set());
                        assert(old(self)@.warned.contains(version));
                        return Opening::Silent;
                    }
                    i += 1;
                }
                self.warned.push(version);
                proof {
                    assert forall|v: u64| #[trigger]
                        self.warned@.contains(v) == (before.contains(v) || v == version) by {
                        if before.contains(v) {
                            let k = choose|k: int| 0 <= k < before.len() && before[k] == v;
                            assert(self.warned@[k] == v);
                        }
                        assert(self.warned@[before.len() as int] == version);
                    }
                    assert(self.warned@.to_set() =~= before.to_set().insert(version));
                    assert(!old(self)@.warned.contains(version));
                }
                Opening::Warn
            },
        }
    }
}

/// A missing version is complained about once: after it was asked for, asking
/// again without the key is silent, and the key heals it.
pub proof fn warns_once_and_heals_on_import(
    ring: KeyringView,
    version: u64,
    key: [u8; 32],
    import: Map<u64, [u8; 32]>,
)
    requires
        !ring.keys.dom().contains(version),
        import.dom().contains(version) && import[version] == key,
    ensures
        ({
            let once = asked(ring, version, Some(ring.keys));
            &&& once.warned.contains(version)
            &&& asked(once, version, Some(ring.keys)) == once
            &&& key_of(asked(once, version, Some(import)).keys, version) == Some(key)
        }),
{
    let once = asked(ring, version, Some(ring.keys));
    assert(asked(once, version, Some(ring.keys)) =~= once);
}

/// Two decimal digits.
pub open spec fn two_digits(n: nat) -> Seq<char> {
    seq![digit(n / 10), digit(n % 10)]
}

/// `HH:MM:SS` in UTC for a unix timestamp, dateless.
pub open spec fn clock_text(ts: int) -> Seq<char> {
    let secs = (ts % 86_400) as nat;
    two_digits(secs / 3600) + seq![':'] + two_digits((secs % 3600) / 60) + seq![':']
        + two_digits(secs % 60)
}

/// Append two decimal digits.
fn push_two(out: &mut String, n: u64)
    requires
        n < 100,
    ensures
        final(out)@ == old(out)@ + two_digits(n as nat),
{
    let ghost start = out@;
    let tens = decimal_text(n / 10);
    let ones = decimal_text(n % 10);
    out.append(tens.as_str());
    out.append(ones.as_str());
    assert(tens@ == seq![digit((n / 10) as nat)]);
    assert(ones@ == seq![digit((n % 10) as nat)]);
    assert(out@ =~= start + two_digits(n as nat));
}

/// `HH:MM:SS` in UTC for a unix timestamp. UTC because the timestamp is chosen
/// by its sender: two members reading the same transcript see the same clock.
pub fn format_clock(ts: i64) -> (text: String)
    ensures
        text@ == clock_text(ts as int),
{
    let secs: u64 = match ts.checked_rem_euclid(86_400) {
        Some(secs) => secs as u64,
        None => 0,
    };
    assert(secs == (ts as int) % 86_400);
    let mut out = String::new();
    push_two(&mut out, secs / 3600);
    assert(out@ =~= two_digits((secs / 3600) as nat));
    out.push(':');
    assert(out@ =~= two_digits((secs / 3600) as nat) + seq![':']);
    push_two(&mut out, (secs % 3600) / 60);
    let ghost so_far = out@;
    out.push(':');
    assert(out@ =~= so_far + seq![':']);
    push_two(&mut out, secs % 60);
    out
}

/// The first eight hexadecimal characters of a node id.
pub fn short_id(node: NodeId) -> (text: String)
    ensures
        text@ == short8(node),
{
    let full = node.hex();
    let chars = chars_of(full.as_str());
    assert(chars@.len() == 64);
    assert(chars@.subrange(0, 8) =~= chars@.take(8));
    string_of(&chars, 0, 8)
}

/// How a reader prints messages.
#[derive(Clone, Copy, Debug)]
pub struct Printer {
    /// One JSON object for each message instead of the human line.
    pub json: bool,
}

/// A message whose text is a record: the record, and its JSON.
#[derive(Debug)]
pub struct Parsed {
    pub record: ChannelRecord,
    pub json: String,
}

/// The human line of a message.
pub open spec fn human_line(
    e: EnvelopeView,
    text: Seq<char>,
    parsed: Option<Parsed>,
    identity: Option<Verdict>,
) -> Seq<char> {
    clock_text(e.timestamp as int) + " "@ + short8(e.sender) + " "@ + match parsed {
        Some(p) => record_text(p.record, identity),
        None => text,
    }
}

/// The JSON line of a message: the record takes the place of the text.
pub open spec fn json_line(e: EnvelopeView, text: Seq<char>, parsed: Option<Parsed>) -> Seq<char> {
    "{\"ts\":"@ + signed_decimal(e.timestamp as int) + ",\"sender\":\""@ + hex(e.sender.bytes@)
        + "\",\"seq\":"@ + decimal(e.seq as nat) + match parsed {
        Some(p) => ",\"record\":"@ + p.json@,
        None => ",\"text\":"@ + json_quoted(text),
    } + "}"@
}

impl Printer {
    /// Whether a message's identity claim is checked before its line is printed:
    /// only for the human line, and only by a reader that checks claims.
    pub fn checks(&self, checks_claims: bool, parsed: &Option<Parsed>) -> (yes: bool)
        ensures
            yes == (checks_claims && !self.json && (parsed matches Some(p) && p.record is Identity)),
    {
        if !checks_claims || self.json {
            return false;
        }
        match parsed {
            Some(p) => match &p.record {
                ChannelRecord::Identity(_) => true,
                _ => false,
            },
            None => false,
        }
    }

    /// The exact text of one output line. A message whose text is a record
    /// renders as its record line, or as the record's JSON, with `identity`, this
    /// reader's verdict on it, when it is an identity claim that was checked.
    pub fn render_checked(
        &self,
        envelope: &TopicEnvelope,
        text: &str,
        parsed: &Option<Parsed>,
        identity: Option<&Verdict>,
    ) -> (line: String)
        ensures
            line@ == if self.json {
                json_line(envelope@, text@, *parsed)
            } else {
                human_line(
                    envelope@,
                    text@,
                    *parsed,
                    match identity {
                        Some(v) => Some(*v),
                        None => None,
                    },
                )
            },
    {
        if self.json {
            let mut line = "{\"ts\":".to_owned();
            line.append(signed_text(envelope.timestamp).as_str());
            line.append(",\"sender\":\"");
            line.append(envelope.sender.hex().as_str());
            line.append("\",\"seq\":");
            line.append(decimal_text(envelope.seq).as_str());
            let mut rest = String::new();
            match parsed {
                Some(p) => {
                    rest.append(",\"record\":");
                    rest.append(p.json.as_str());
                    assert(rest@ =~= ",\"record\":"@ + p.json@);
                },
                None => {
                    rest.append(",\"text\":");
                    let quoted = json_string(text);
                    rest.append(quoted.as_str());
                    assert(rest@ =~= ",\"text\":"@ + json_quoted(text@));
                },
            }
            line.append(rest.as_str());
            line.append("}");
            line
        } else {
            let mut line = format_clock(envelope.timestamp);
            line.append(" ");
            line.append(short_id(envelope.sender).as_str());
            line.append(" ");
            match parsed {
                Some(p) => {
                    let shown = record_line(&p.record, identity);
                    line.append(shown.as_str());
                },
                None => {
                    line.append(text);
                },
            }
            line
        }
    }

    /// The line of a message that was not checked for an identity.
    pub fn render(&self, envelope: &TopicEnvelope, text: &str, parsed: &Option<Parsed>) -> (
        line: String)
        ensures
            line@ == if self.json {
                json_line(envelope@, text@, *parsed)
            } else {
                human_line(envelope@, text@, *parsed, None)
            },
    {
        self.render_checked(envelope, text, parsed, None)
    }
}

/// One JSON object is one line, whatever the message holds.
pub proof fn a_json_line_is_one_line(e: EnvelopeView, text: Seq<char>, parsed: Option<Parsed>)
    requires
        parsed matches Some(p) ==> one_line(p.json@),
    ensures
        one_line(json_line(e, text, parsed)),
{
    broadcast use one_line_concat;

    reveal_strlit("{\"ts\":");
    reveal_strlit(",\"sender\":\"");
    reveal_strlit("\",\"seq\":");
    reveal_strlit(",\"record\":");
    reveal_strlit(",\"text\":");
    reveal_strlit("}");
    signed_decimal_printable(e.timestamp as int);
    printable_is_one_line(signed_decimal(e.timestamp as int));
    hex_printable(e.sender.bytes@);
    printable_is_one_line(hex(e.sender.bytes@));
    decimal_printable(e.seq as nat);
    printable_is_one_line(decimal(e.seq as nat));
    json_quoted_one_line(text);
}

/// The clock shows the time of day: hours, minutes and seconds of two digits each,
/// which read back as the seconds since midnight.
pub proof fn a_clock_reads_back(ts: int)
    ensures
        ({
            let t = clock_text(ts);
            let hours = 10 * digit_value(t[0]) + digit_value(t[1]);
            let minutes = 10 * digit_value(t[3]) + digit_value(t[4]);
            let seconds = 10 * digit_value(t[6]) + digit_value(t[7]);
            &&& t.len() == 8
            &&& t[2] == ':' && t[5] == ':'
            &&& 0 <= hours < 24 && 0 <= minutes < 60 && 0 <= seconds < 60
            &&& 3600 * hours + 60 * minutes + seconds == ts % 86_400
        }),
{
    let secs = (ts % 86_400) as nat;
    two_digits_read_back(secs / 3600);
    two_digits_read_back((secs % 3600) / 60);
    two_digits_read_back(secs % 60);
    let t = clock_text(ts);
    assert(t[0] == two_digits(secs / 3600)[0] && t[1] == two_digits(secs / 3600)[1]);
    assert(t[3] == two_digits((secs % 3600) / 60)[0] && t[4] == two_digits(
        (secs % 3600) / 60,
    )[1]);
    assert(t[6] == two_digits(secs % 60)[0] && t[7] == two_digits(secs % 60)[1]);
}

proof fn two_digits_read_back(n: nat)
    requires
        n < 100,
    ensures
        two_digits(n).len() == 2,
        10 * digit_value(two_digits(n)[0]) + digit_value(two_digits(n)[1]) == n,
{
    a_digit_stands_for_its_number(n / 10);
    a_digit_stands_for_its_number(n % 10);
}

/// A line for a human shows the time of day, the first eight hex digits of the
/// sender, and the text, or the record where the text is one.
pub proof fn a_human_line_shows_its_message(
    e: EnvelopeView,
    text: Seq<char>,
    parsed: Option<Parsed>,
    identity: Option<Verdict>,
)
    ensures
        human_line(e, text, parsed, identity) == clock_text(e.timestamp as int) + seq![' '] + hex(
            e.sender.bytes@,
        ).take(8) + seq![' '] + (if parsed is Some {
            record_text(parsed->0.record, identity)
        } else {
            text
        }),
{
    reveal_strlit(" ");
    assert(" "@ =~= seq![' ']);
}

/// A line in JSON holds the time, the sender in hex and the sequence number, which
/// all read back, and the record as it stands or else the text as a string.
pub proof fn a_json_line_shows_its_message(
    e: EnvelopeView,
    text: Seq<char>,
    parsed: Option<Parsed>,
) -> (parts: (Seq<char>, Seq<char>))
    ensures
        json_line(e, text, parsed) == "{\"ts\":"@ + parts.0 + ",\"sender\":\""@ + hex(e.sender.bytes@)
            + "\",\"seq\":"@ + parts.1 + (if parsed is Some {
            ",\"record\":"@ + parsed->0.json@
        } else {
            ",\"text\":"@ + json_quoted(text)
        }) + "}"@,
        signed_read(parts.0) == e.timestamp,
        number_read(parts.1, 10) == e.seq,
{
    a_signed_decimal_reads_back(e.timestamp as int);
    a_decimal_reads_back(e.seq as nat);
    (signed_decimal(e.timestamp as int), decimal(e.seq as nat))
}

/// Asking for a key: a key that is held is left as it is; the keyring is read anew
/// only where it is missing, and then stands as it was read; and a version is noted
/// as warned of exactly where it is still missing.
pub proof fn a_missing_key_is_looked_for(
    ring: KeyringView,
    version: u64,
    reread: Option<Map<u64, [u8; 32]>>,
    other: u64,
)
    ensures
        ({
            let after = asked(ring, version, reread);
            let had = ring.keys.dom().contains(version);
            &&& had || reread is None ==> after.keys == ring.keys
            &&& !had && reread is Some ==> after.keys == reread->0
            &&& after.warned.contains(other) == (ring.warned.contains(other) || (other == version
                && !after.keys.dom().contains(version)))
            &&& key_of(after.keys, version) == if after.keys.dom().contains(version) {
                Some(after.keys[version])
            } else {
                None
            }
        }),
{
}

} // verus!
