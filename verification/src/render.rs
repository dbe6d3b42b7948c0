//! How a watcher shows a channel record to a human: one line each.
//!
//! A record is written by a channel member, and a member must not be able to
//! put a newline (a forged second line) or an escape sequence on an observer's
//! screen: every string that came off the wire is escaped, and no line holds a
//! control character.

use vstd::prelude::*;

use crate::idp_view::{describe_identity, identity_text, trimmed_end, Verdict};
use crate::ids::NodeId;
use crate::records::{
    AuditRecord, ChannelRecord, HostAnnouncement, HostListing, IdentityClaim, ListedTool,
    ListingView, Principal, RekeyNotice,
};
use crate::text::{
    a_decimal_reads_back, a_signed_decimal_reads_back, char_is_whitespace, chars_of,
    debug_quoted, debug_text, decimal, decimal_printable, decimal_text, digit, digit_value,
    escape, escaped, escaped_printable, hex, hex_printable, hex_reads_back, hex_text, is_plain,
    is_whitespace, join, joined, joined_printable, number_read, printable, printable_concat,
    printable_push, quote_arg, quoted, signed_decimal, signed_decimal_printable, signed_read,
    signed_text, string_of, texts, texts_push,
};

verus! {

/// How many hexadecimal characters of an id or digest a record line shows.
pub const SHORT_HEX: usize = 4;

/// How many characters of a call's input a line quotes.
pub const STDIN_PREVIEW_CHARS: usize = 80;

/// The leading [`SHORT_HEX`] characters of a hexadecimal string.
pub open spec fn shortened(text: Seq<char>) -> Seq<char> {
    if text.len() <= SHORT_HEX {
        text
    } else {
        text.take(SHORT_HEX as int)
    }
}

/// The leading [`SHORT_HEX`] characters of a hexadecimal string.
pub fn short_hex(text: &str) -> (short: String)
    ensures
        short@ == shortened(text@),
{
    let chars = chars_of(text);
    if chars.len() <= SHORT_HEX {
        text.to_owned()
    } else {
        assert(chars@.subrange(0, SHORT_HEX as int) =~= chars@.take(SHORT_HEX as int));
        string_of(&chars, 0, SHORT_HEX)
    }
}

/// A shortened node id with its ellipsis.
pub open spec fn node_text(node: NodeId) -> Seq<char> {
    shortened(hex(node.bytes@)) + "…"@
}

/// The first [`SHORT_HEX`] hexadecimal characters of a node id, with an
/// ellipsis.
pub fn short_node(node: NodeId) -> (text: String)
    ensures
        text@ == node_text(node),
{
    let full = node.hex();
    let mut text = short_hex(full.as_str());
    text.append("…");
    text
}

/// The first hexadecimal characters of a byte string.
fn short_bytes(bytes: &[u8]) -> (text: String)
    ensures
        text@ == shortened(hex(bytes@)),
{
    let full = hex_text(bytes);
    short_hex(full.as_str())
}

/// A caller as a record line names it.
pub open spec fn caller_text(caller: NodeId, principal: Option<Principal>) -> Seq<char> {
    match principal {
        Some(Principal { email: Some(email), .. }) => escaped(email@) + " ("@ + node_text(caller)
            + ")"@,
        _ => node_text(caller),
    }
}

/// A caller as a record line names it: `alice@corp (a1b2…)` when the host
/// verified a principal with an email, else just `a1b2…`.
pub fn caller_label(caller: NodeId, principal: &Option<Principal>) -> (text: String)
    ensures
        text@ == caller_text(caller, *principal),
{
    let node = short_node(caller);
    match principal {
        Some(p) => match &p.email {
            Some(email) => {
                let mut text = escape(email.as_str());
                text.append(" (");
                text.append(node.as_str());
                text.append(")");
                text
            },
            None => node,
        },
        None => node,
    }
}

/// `n / d` rounded to the nearest integer, a half to the even one.
pub open spec fn rounded(n: nat, d: nat) -> nat {
    let whole = n / d;
    let rest = n % d;
    if 2 * rest < d {
        whole
    } else if 2 * rest > d {
        whole + 1
    } else {
        whole + whole % 2
    }
}

/// The spacing of the numbers that 53 significant bits can hold at `n`.
pub open spec fn spacing(n: nat) -> nat
    decreases n,
{
    if n < 0x20_0000_0000_0000 {
        1
    } else {
        2 * spacing(n / 2)
    }
}

/// `n` to 53 significant bits.
pub open spec fn to_53_bits(n: nat) -> nat {
    rounded(n, spacing(n)) * spacing(n)
}

/// The largest unit that a byte count is shown in, as a power of 1024.
pub open spec fn unit_power(n: nat) -> nat {
    if n < 0x10_0000 {
        1
    } else if n < 0x4000_0000 {
        2
    } else if n < 0x100_0000_0000 {
        3
    } else {
        4
    }
}

/// 1024 to the power of `k`, for the units there are.
pub open spec fn unit_size(k: nat) -> nat {
    if k == 1 {
        0x400
    } else if k == 2 {
        0x10_0000
    } else if k == 3 {
        0x4000_0000
    } else {
        0x100_0000_0000
    }
}

/// The name of a unit.
pub open spec fn unit_name(k: nat) -> Seq<char> {
    if k == 1 {
        " KiB"@
    } else if k == 2 {
        " MiB"@
    } else if k == 3 {
        " GiB"@
    } else {
        " TiB"@
    }
}

/// A byte count for humans: whole bytes below 1024, else one decimal of the
/// largest binary unit, rounded to nearest (a half to even).
pub open spec fn bytes_text(bytes: nat) -> Seq<char> {
    if bytes < 1024 {
        decimal(bytes) + " B"@
    } else {
        let held = to_53_bits(bytes);
        let k = unit_power(held);
        let tenths = rounded(10 * held, unit_size(k));
        decimal(tenths / 10).push('.').push(digit(tenths % 10)) + unit_name(k)
    }
}

/// `n / d` rounded to the nearest integer, a half to the even one.
fn round_div(n: u128, d: u128) -> (q: u128)
    requires
        0 < d < 0x1_0000_0000_0000_0000_0000,
        n < 0x1_0000_0000_0000_0000_0000,
    ensures
        q == rounded(n as nat, d as nat),
        q <= n + 1,
{
    let whole: u128 = n / d;
    let rest: u128 = n % d;
    assert(whole <= n) by (nonlinear_arith)
        requires
            whole == n / d,
            d > 0,
    ;
    assert(rest < d) by (nonlinear_arith)
        requires
            rest == n % d,
            d > 0,
    ;
    if 2 * rest < d {
        whole
    } else if 2 * rest > d {
        whole + 1
    } else {
        whole + whole % 2
    }
}

/// `n` to 53 significant bits.
fn round_to_53_bits(n: u64) -> (held: u128)
    ensures
        held == to_53_bits(n as nat),
        held <= 2 * u64::MAX,
{
    let mut step: u128 = 1;
    let mut left: u64 = n;
    while left >= 0x20_0000_0000_0000
        invariant
            1 <= step <= u64::MAX,
            step * left <= n,
            step == 1 || left >= 0x10_0000_0000_0000,
            spacing(n as nat) == step * spacing(left as nat),
        decreases left,
    {
        let half: u64 = left / 2;
        assert(2 * step * half <= n) by (nonlinear_arith)
            requires
                half == left / 2,
                step * left <= n,
                1 <= step,
        ;
        assert(spacing(n as nat) == 2 * step * spacing(half as nat)) by (nonlinear_arith)
            requires
                spacing(n as nat) == step * spacing(left as nat),
                spacing(left as nat) == 2 * spacing(half as nat),
        ;
        assert(2 * step <= n) by (nonlinear_arith)
            requires
                2 * step * half <= n,
                half >= 1,
                step >= 1,
        ;
        step = 2 * step;
        left = half;
    }
    assert(spacing(left as nat) == 1);
    assert(spacing(n as nat) == step);
    assert(step == 1 || step <= n) by (nonlinear_arith)
        requires
            step * left <= n,
            step == 1 || left >= 0x10_0000_0000_0000,
            1 <= step,
    ;
    let q: u128 = round_div(n as u128, step);
    assert(q * step <= n + step && (step == 1 ==> q == n)) by {
        let whole = (n as nat) / (step as nat);
        let rest = (n as nat) % (step as nat);
        assert(whole * step + rest == n && rest < step) by (nonlinear_arith)
            requires
                whole == (n as nat) / (step as nat),
                rest == (n as nat) % (step as nat),
                step >= 1,
        ;
        assert(q <= whole + 1);
        assert(q * step <= (whole + 1) * step) by (nonlinear_arith)
            requires
                q <= whole + 1,
                step >= 1,
        ;
        assert((whole + 1) * step == whole * step + step) by (nonlinear_arith);
        if step == 1 {
            assert(whole * step == whole);
        }
    }
    q * step
}

/// A byte count for humans: `512 B`, `3.1 KiB`, `2.0 MiB`, `1.5 GiB`.
pub fn human_bytes(bytes: u64) -> (text: String)
    ensures
        text@ == bytes_text(bytes as nat),
{
    if bytes < 1024 {
        let mut text = decimal_text(bytes);
        text.append(" B");
        return text;
    }
    let held: u128 = round_to_53_bits(bytes);
    let (size, name): (u128, &str) = if held < 0x10_0000 {
        (0x400, " KiB")
    } else if held < 0x4000_0000 {
        (0x10_0000, " MiB")
    } else if held < 0x100_0000_0000 {
        (0x4000_0000, " GiB")
    } else {
        (0x100_0000_0000, " TiB")
    };
    let tenths: u128 = round_div(10 * held, size);
    let mut text = decimal_text((tenths / 10) as u64);
    text.push('.');
    let last = decimal_text((tenths % 10) as u64);
    assert(last@ == seq![digit((tenths % 10) as nat)]);
    let ghost before = text@;
    text.append(last.as_str());
    assert(text@ =~= before.push(digit((tenths % 10) as nat)));
    text.append(name);
    text
}

/// `s` with each run of white space as one space, and none at its ends: each
/// character of a word follows what came before it, with one space in front
/// when white space parts it from an earlier word.
pub open spec fn collapsed(s: Seq<char>) -> Seq<char>
    decreases s.len(),
{
    if s.len() == 0 {
        Seq::empty()
    } else {
        let before = collapsed(s.drop_last());
        if is_whitespace(s.last()) {
            before
        } else if s.len() >= 2 && is_whitespace(s[s.len() - 2]) && before.len() > 0 {
            before.push(' ').push(s.last())
        } else {
            before.push(s.last())
        }
    }
}

/// What a line quotes of a call's input, before it is quoted.
pub open spec fn preview(head: Seq<char>, stdin_bytes: nat) -> Seq<char> {
    let whole = collapsed(head);
    let shown = if whole.len() <= STDIN_PREVIEW_CHARS {
        whole
    } else {
        whole.take(STDIN_PREVIEW_CHARS as int)
    };
    if shown.len() < whole.len() || stdin_bytes > vstd::utf8::encode_utf8(head).len() {
        trimmed_end(shown) + " …"@
    } else {
        shown
    }
}

/// `s` with each run of white space as one space, and none at its ends.
fn collapse(s: &str) -> (out: Vec<char>)
    ensures
        out@ == collapsed(s@),
{
    let chars = chars_of(s);
    let mut out: Vec<char> = Vec::new();
    let mut i: usize = 0;
    while i < chars.len()
        invariant
            i <= chars@.len(),
            out@ == collapsed(chars@.take(i as int)),
        decreases chars@.len() - i,
    {
        let c: char = chars[i];
        assert(chars@.take(i + 1).drop_last() =~= chars@.take(i as int));
        assert(chars@.take(i + 1).last() == c);
        if !char_is_whitespace(c) {
            if i >= 1 && out.len() > 0 && char_is_whitespace(chars[i - 1]) {
                out.push(' ');
            }
            out.push(c);
        }
        i += 1;
    }
    assert(chars@.take(chars@.len() as int) =~= chars@);
    out
}

/// A call's input as a line quotes it: white space runs collapsed to one
/// space, at most [`STDIN_PREVIEW_CHARS`] characters, ` …` when anything was
/// left out (by this cut, or because `stdin_bytes` is more than the head
/// holds), and double-quoted with escapes so it stays on one line.
pub fn stdin_preview(head: &str, stdin_bytes: u64) -> (text: String)
    ensures
        text@ == debug_text(preview(head@, stdin_bytes as nat)),
        printable(text@),
{
    let whole = collapse(head);
    let mut end: usize = whole.len();
    if end > STDIN_PREVIEW_CHARS {
        end = STDIN_PREVIEW_CHARS;
    }
    let cut = end < whole.len() || stdin_bytes > head.as_bytes().len() as u64;
    let ghost shown = whole@.subrange(0, end as int);
    assert(end == whole@.len() ==> shown =~= whole@);
    assert(shown =~= whole@.take(end as int));
    if cut {
        while end > 0 && char_is_whitespace(whole[end - 1])
            invariant
                end <= whole@.len(),
                trimmed_end(shown) == trimmed_end(whole@.subrange(0, end as int)),
            decreases end,
        {
            assert(whole@.subrange(0, end as int).drop_last() =~= whole@.subrange(0, end - 1));
            end -= 1;
        }
    }
    let mut text = string_of(&whole, 0, end);
    if cut {
        text.append(" …");
    }
    debug_quoted(text.as_str())
}

/// Every fixed piece of a line is printable.
proof fn fixed_pieces_printable()
    ensures
        printable("…"@),
        printable(" ("@),
        printable(")"@),
        printable(" B"@),
        printable(" KiB"@),
        printable(" MiB"@),
        printable(" GiB"@),
        printable(" TiB"@),
        printable(" ["@),
        printable("]"@),
        printable(" "@),
        printable("▶ "@),
        printable("■ "@),
        printable(" exit "@),
        printable(" · "@),
        printable(" ms · "@),
        printable("stdin "@),
        printable(" out · blake3 "@),
        printable("⇢ "@),
        printable(" → "@),
        printable(": "@),
        printable(" · body "@),
        printable("✗ "@),
        printable(" denied: "@),
        printable("🪪 "@),
        printable(" claims identity (not checked)"@),
        printable("🔑 re-key to roster version "@),
        printable(" member)"@),
        printable(" members)"@),
        printable("none open"@),
        printable("open: "@),
        printable(", "@),
        printable("📣 announces tools ("@),
        printable("; "@),
        printable(" sealed entry)"@),
        printable(" sealed entries)"@),
        printable("queued"@),
        printable("delivered"@),
        printable("fetched"@),
        printable("expired"@),
        printable("dropped"@),
        printable("denied"@),
{
    reveal_strlit("…");
    reveal_strlit(" (");
    reveal_strlit(")");
    reveal_strlit(" B");
    reveal_strlit(" KiB");
    reveal_strlit(" MiB");
    reveal_strlit(" GiB");
    reveal_strlit(" TiB");
    reveal_strlit(" [");
    reveal_strlit("]");
    reveal_strlit(" ");
    reveal_strlit("▶ ");
    reveal_strlit("■ ");
    reveal_strlit(" exit ");
    reveal_strlit(" · ");
    reveal_strlit(" ms · ");
    reveal_strlit("stdin ");
    reveal_strlit(" out · blake3 ");
    reveal_strlit("⇢ ");
    reveal_strlit(" → ");
    reveal_strlit(": ");
    reveal_strlit(" · body ");
    reveal_strlit("✗ ");
    reveal_strlit(" denied: ");
    reveal_strlit("🪪 ");
    reveal_strlit(" claims identity (not checked)");
    reveal_strlit("🔑 re-key to roster version ");
    reveal_strlit(" member)");
    reveal_strlit(" members)");
    reveal_strlit("none open");
    reveal_strlit("open: ");
    reveal_strlit(", ");
    reveal_strlit("📣 announces tools (");
    reveal_strlit("; ");
    reveal_strlit(" sealed entry)");
    reveal_strlit(" sealed entries)");
    reveal_strlit("queued");
    reveal_strlit("delivered");
    reveal_strlit("fetched");
    reveal_strlit("expired");
    reveal_strlit("dropped");
    reveal_strlit("denied");
}

/// A shortened hexadecimal string is printable.
proof fn shortened_printable(bytes: Seq<u8>)
    ensures
        printable(shortened(hex(bytes))),
{
    hex_printable(bytes);
}

/// A byte count is printable.
proof fn bytes_text_printable(bytes: nat)
    ensures
        printable(bytes_text(bytes)),
{
    broadcast use printable_concat, printable_push;

    fixed_pieces_printable();
    if bytes < 1024 {
        decimal_printable(bytes);
    } else {
        let held = to_53_bits(bytes);
        let tenths = rounded(10 * held, unit_size(unit_power(held)));
        decimal_printable(tenths / 10);
    }
}

/// A caller's label is printable, whatever its email holds.
proof fn caller_text_printable(caller: NodeId, principal: Option<Principal>)
    ensures
        printable(node_text(caller)),
        printable(caller_text(caller, principal)),
{
    broadcast use printable_concat;

    fixed_pieces_printable();
    shortened_printable(caller.bytes@);
    match principal {
        Some(Principal { email: Some(email), .. }) => {
            escaped_printable(email@);
        },
        _ => {},
    }
}

/// The role part of a line, if there is a role.
pub open spec fn with_role(line: Seq<char>, role: Option<String>) -> Seq<char> {
    match role {
        Some(role) => line + " ["@ + escaped(role@) + "]"@,
        None => line,
    }
}

/// Append the role part of a line, if there is a role.
fn push_role(line: &mut String, role: &Option<String>)
    ensures
        final(line)@ == with_role(old(line)@, *role),
        printable(old(line)@) ==> printable(final(line)@),
{
    broadcast use printable_concat;

    proof {
        fixed_pieces_printable();
    }
    match role {
        Some(role) => {
            line.append(" [");
            let shown = escape(role.as_str());
            line.append(shown.as_str());
            line.append("]");
        },
        None => {},
    }
}

/// A line with each argument after a space.
pub open spec fn with_args(line: Seq<char>, argv: Seq<Seq<char>>) -> Seq<char>
    decreases argv.len(),
{
    if argv.len() == 0 {
        line
    } else {
        with_args(line, argv.drop_last()) + " "@ + quoted(argv.last())
    }
}

/// Append each argument after a space.
fn push_args(line: &mut String, argv: &Vec<String>)
    ensures
        final(line)@ == with_args(old(line)@, texts(argv@)),
        printable(old(line)@) ==> printable(final(line)@),
{
    let ghost start = line@;
    let mut i: usize = 0;
    while i < argv.len()
        invariant
            i <= argv@.len(),
            line@ == with_args(start, texts(argv@).take(i as int)),
            printable(start) ==> printable(line@),
        decreases argv@.len() - i,
    {
        broadcast use printable_concat;

        proof {
            fixed_pieces_printable();
        }
        let ghost next = texts(argv@).take(i + 1);
        assert(next.drop_last() =~= texts(argv@).take(i as int));
        assert(next.last() == argv@[i as int]@);
        line.append(" ");
        let arg = quote_arg(argv[i].as_str());
        line.append(arg.as_str());
        i += 1;
    }
    assert(texts(argv@).take(argv@.len() as int) =~= texts(argv@));
}

/// The line of a call-log entry.
pub open spec fn audit_text(record: AuditRecord) -> Seq<char> {
    match record {
        AuditRecord::Started { call, caller, principal, tool, argv, role } => {
            let who = "▶ "@ + shortened(hex(call@)) + " "@ + caller_text(caller, principal);
            with_args(with_role(who, role) + " "@ + tool@, texts(argv@))
        },
        AuditRecord::Finished {
            call,
            exit,
            duration_ms,
            stdout_bytes,
            stdout_digest,
            stdin_bytes,
            stdin_head,
        } => {
            let timed = "■ "@ + shortened(hex(call@)) + " exit "@ + signed_decimal(exit as int)
                + " · "@ + decimal(duration_ms as nat) + " ms · "@;
            let fed = match stdin_head {
                Some(head) => timed + "stdin "@ + debug_text(preview(head@, stdin_bytes as nat))
                    + " · "@,
                None => timed,
            };
            fed + bytes_text(stdout_bytes as nat) + " out · blake3 "@ + shortened(
                hex(stdout_digest@),
            ) + "…"@
        },
        AuditRecord::Push { id, to, principal, role, subject, outcome, reason, body } => {
            let who = "⇢ "@ + shortened(hex(id@)) + " → "@ + caller_text(to, principal);
            let what = with_role(who, role) + " "@ + debug_text(subject@) + " "@ + outcome.word();
            let why = match reason {
                Some(reason) => what + ": "@ + escaped(reason@),
                None => what,
            };
            match body {
                Some(body) => why + " · body "@ + debug_text(preview(body@, 0)),
                None => why,
            }
        },
        AuditRecord::Denied { caller, tool, reason } => {
            let who = "✗ "@ + node_text(caller);
            let what = match tool {
                Some(tool) => who + " "@ + tool@,
                None => who,
            };
            what + " denied: "@ + escaped(reason@)
        },
    }
}

/// The tool a record names is printable, as every valid tool name is.
pub open spec fn names_valid_tool(record: AuditRecord) -> bool {
    match record {
        AuditRecord::Started { tool, .. } => printable(tool@),
        AuditRecord::Denied { tool: Some(tool), .. } => printable(tool@),
        _ => true,
    }
}

/// One line for a call-log entry: no control character can come out of it,
/// whatever the arguments, emails, roles, reasons and input hold.
pub fn audit_line(record: &AuditRecord) -> (line: String)
    ensures
        line@ == audit_text(*record),
        names_valid_tool(*record) ==> printable(line@),
{
    broadcast use printable_concat;

    proof {
        fixed_pieces_printable();
    }
    match record {
        AuditRecord::Started { call, caller, principal, tool, argv, role } => {
            proof {
                shortened_printable(call@);
                caller_text_printable(*caller, *principal);
            }
            let mut line = "▶ ".to_owned();
            let id = short_bytes(call.as_slice());
            line.append(id.as_str());
            line.append(" ");
            let who = caller_label(*caller, principal);
            line.append(who.as_str());
            push_role(&mut line, role);
            line.append(" ");
            line.append(tool.as_str());
            push_args(&mut line, argv);
            line
        },
        AuditRecord::Finished {
            call,
            exit,
            duration_ms,
            stdout_bytes,
            stdout_digest,
            stdin_bytes,
            stdin_head,
        } => {
            proof {
                shortened_printable(call@);
                shortened_printable(stdout_digest@);
                signed_decimal_printable(*exit as int);
                decimal_printable(*duration_ms as nat);
                bytes_text_printable(*stdout_bytes as nat);
            }
            let mut line = "■ ".to_owned();
            let id = short_bytes(call.as_slice());
            line.append(id.as_str());
            line.append(" exit ");
            let code = signed_text(*exit as i64);
            line.append(code.as_str());
            line.append(" · ");
            let took = decimal_text(*duration_ms);
            line.append(took.as_str());
            line.append(" ms · ");
            match stdin_head {
                Some(head) => {
                    line.append("stdin ");
                    let fed = stdin_preview(head.as_str(), *stdin_bytes);
                    line.append(fed.as_str());
                    line.append(" · ");
                },
                None => {},
            }
            let size = human_bytes(*stdout_bytes);
            line.append(size.as_str());
            line.append(" out · blake3 ");
            let digest = short_bytes(stdout_digest.as_slice());
            line.append(digest.as_str());
            line.append("…");
            line
        },
        AuditRecord::Push { id, to, principal, role, subject, outcome, reason, body } => {
            proof {
                shortened_printable(id@);
                caller_text_printable(*to, *principal);
            }
            let mut line = "⇢ ".to_owned();
            let id = short_bytes(id.as_slice());
            line.append(id.as_str());
            line.append(" → ");
            let who = caller_label(*to, principal);
            line.append(who.as_str());
            push_role(&mut line, role);
            line.append(" ");
            let about = debug_quoted(subject.as_str());
            line.append(about.as_str());
            line.append(" ");
            line.append(outcome.as_str());
            match reason {
                Some(reason) => {
                    line.append(": ");
                    let why = escape(reason.as_str());
                    line.append(why.as_str());
                },
                None => {},
            }
            match body {
                Some(body) => {
                    line.append(" · body ");
                    let text = stdin_preview(body.as_str(), 0);
                    line.append(text.as_str());
                },
                None => {},
            }
            line
        },
        AuditRecord::Denied { caller, tool, reason } => {
            proof {
                caller_text_printable(*caller, None);
            }
            let mut line = "✗ ".to_owned();
            let who = short_node(*caller);
            line.append(who.as_str());
            match tool {
                Some(tool) => {
                    line.append(" ");
                    line.append(tool.as_str());
                },
                None => {},
            }
            line.append(" denied: ");
            let why = escape(reason.as_str());
            line.append(why.as_str());
            line
        },
    }
}

/// The line of an identity claim, given this reader's verdict on it.
pub open spec fn claim_text(claim: IdentityClaim, verdict: Option<Verdict>) -> Seq<char> {
    match verdict {
        Some(verdict) => "🪪 "@ + escaped(identity_text(claim, verdict)),
        None => "🪪 "@ + node_text(claim.node) + " claims identity (not checked)"@,
    }
}

/// One line for an identity claim, given this reader's verdict on it, or
/// `(not checked)` when it has none. Every string off the wire is escaped.
pub fn identity_line(claim: &IdentityClaim, verdict: Option<&Verdict>) -> (line: String)
    ensures
        line@ == claim_text(
            *claim,
            match verdict {
                Some(v) => Some(*v),
                None => None,
            },
        ),
        printable(line@),
{
    broadcast use printable_concat;

    proof {
        fixed_pieces_printable();
        caller_text_printable(claim.node, None);
    }
    let mut line = "🪪 ".to_owned();
    match verdict {
        Some(verdict) => {
            let text = describe_identity(claim, verdict);
            let shown = escape(text.as_str());
            line.append(shown.as_str());
        },
        None => {
            let who = short_node(claim.node);
            line.append(who.as_str());
            line.append(" claims identity (not checked)");
        },
    }
    line
}

/// The line of a re-key.
pub open spec fn rekey_text(rekey: RekeyNotice) -> Seq<char> {
    "🔑 re-key to roster version "@ + decimal(rekey.version as nat) + " ("@ + decimal(
        rekey.members as nat,
    ) + if rekey.members == 1 {
        " member)"@
    } else {
        " members)"@
    }
}

/// One line for an admin's re-key: the roster version it moves to and how many
/// members' credentials it carries.
pub fn rekey_line(rekey: &RekeyNotice) -> (line: String)
    ensures
        line@ == rekey_text(*rekey),
        printable(line@),
{
    broadcast use printable_concat;

    proof {
        fixed_pieces_printable();
        decimal_printable(rekey.version as nat);
        decimal_printable(rekey.members as nat);
    }
    let mut line = "🔑 re-key to roster version ".to_owned();
    let version = decimal_text(rekey.version);
    line.append(version.as_str());
    line.append(" (");
    let members = decimal_text(rekey.members);
    line.append(members.as_str());
    if rekey.members == 1 {
        line.append(" member)");
    } else {
        line.append(" members)");
    }
    line
}

/// The names of the tools in a listing, escaped.
pub open spec fn open_names(tools: Seq<ListedTool>) -> Seq<Seq<char>> {
    tools.map_values(|t: ListedTool| escaped(t.name@))
}

/// The tools that every member may see.
pub open spec fn open_tools(open: Option<HostListing>) -> Seq<Seq<char>> {
    match open {
        Some(listing) => open_names(listing.tools@),
        None => Seq::empty(),
    }
}

/// Every name shown of an open tool is printable.
proof fn open_tools_printable(open: Option<HostListing>)
    ensures
        printable(joined(open_tools(open), ", "@)),
{
    let names = open_tools(open);
    fixed_pieces_printable();
    assert forall|i: int| 0 <= i < names.len() implies printable(#[trigger] names[i]) by {
        escaped_printable(open->0.tools@[i].name@);
    }
    joined_printable(names, ", "@);
}

/// The line of a host announcement.
pub open spec fn host_text(ann: HostAnnouncement) -> Seq<char> {
    let names = open_tools(ann.open);
    let open = if names.len() == 0 {
        "none open"@
    } else {
        "open: "@ + joined(names, ", "@)
    };
    "📣 announces tools ("@ + open + "; "@ + decimal(ann.sealed@.len()) + if ann.sealed@.len() == 1 {
        " sealed entry)"@
    } else {
        " sealed entries)"@
    }
}

/// The escaped names of the open tools.
fn name_tools(open: &Option<HostListing>) -> (names: Vec<String>)
    ensures
        texts(names@) == open_tools(*open),
{
    let mut names: Vec<String> = Vec::new();
    match open {
        Some(listing) => {
            let ghost all = open_names(listing.tools@);
            let mut i: usize = 0;
            assert(texts(names@) =~= all.take(0));
            while i < listing.tools.len()
                invariant
                    i <= listing.tools@.len(),
                    all == open_names(listing.tools@),
                    texts(names@) == all.take(i as int),
                decreases listing.tools@.len() - i,
            {
                let ghost before = names@;
                let next = escape(listing.tools[i].name.as_str());
                names.push(next);
                proof {
                    texts_push(before, next);
                }
                assert(all.take(i + 1) =~= all.take(i as int).push(next@));
                i += 1;
            }
            assert(all.take(all.len() as int) =~= all);
        },
        None => {
            assert(texts(names@) =~= Seq::<Seq<char>>::empty());
        },
    }
    names
}

/// One line for a host announcement: the tools every member may see, and how
/// many sealed entries it carries. Who the entries are for, and what they say,
/// is not on the line.
pub fn host_line(ann: &HostAnnouncement) -> (line: String)
    ensures
        line@ == host_text(*ann),
        printable(line@),
{
    broadcast use printable_concat;

    proof {
        fixed_pieces_printable();
        decimal_printable(ann.sealed@.len());
        open_tools_printable(ann.open);
    }
    let names = name_tools(&ann.open);
    assert(texts(names@).len() == names@.len());
    let mut line = "📣 announces tools (".to_owned();
    if names.len() == 0 {
        line.append("none open");
    } else {
        let mut open = "open: ".to_owned();
        let list = join(&names, ", ");
        open.append(list.as_str());
        line.append(open.as_str());
    }
    line.append("; ");
    let sealed = decimal_text(ann.sealed.len() as u64);
    line.append(sealed.as_str());
    if ann.sealed.len() == 1 {
        line.append(" sealed entry)");
    } else {
        line.append(" sealed entries)");
    }
    line
}

/// The line of a record; the verdict counts only for an identity claim.
pub open spec fn record_text(record: ChannelRecord, identity: Option<Verdict>) -> Seq<char> {
    match record {
        ChannelRecord::Audit(audit) => audit_text(audit),
        ChannelRecord::Identity(claim) => claim_text(claim, identity),
        ChannelRecord::Rekey(rekey) => rekey_text(rekey),
        ChannelRecord::Host(ann) => host_text(ann),
    }
}

/// One line for `record`, without the clock and sender in front of it.
///
/// `identity` is the verdict on an identity claim, when the reader checked it;
/// it is ignored for every other record.
pub fn record_line(record: &ChannelRecord, identity: Option<&Verdict>) -> (line: String)
    ensures
        line@ == record_text(
            *record,
            match identity {
                Some(v) => Some(*v),
                None => None,
            },
        ),
        (*record matches ChannelRecord::Audit(audit) ==> names_valid_tool(audit)) ==> printable(
            line@,
        ),
{
    match record {
        ChannelRecord::Audit(audit) => audit_line(audit),
        ChannelRecord::Identity(claim) => identity_line(claim, identity),
        ChannelRecord::Rekey(rekey) => rekey_line(rekey),
        ChannelRecord::Host(ann) => host_line(ann),
    }
}

/// What an announcement's line is about, as values: its content, without what
/// every heartbeat changes anyway (its time, and fresh ciphertext in each
/// sealed entry).
#[verifier::ext_equal]
pub ghost struct SummaryView {
    pub open: Option<ListingView>,
    pub sealed: nat,
    pub heartbeat_ms: u64,
}

/// What an announcement's line is about. Two announcements with the same
/// summary render the same line.
#[derive(Debug, PartialEq, Eq)]
pub struct HostSummary {
    /// The open listing: tools, descriptions, dial hints.
    open: Option<HostListing>,
    /// How many sealed entries (about how many members may use more).
    sealed: usize,
    /// The heartbeat it promises.
    heartbeat_ms: u64,
}

impl View for HostSummary {
    type V = SummaryView;

    closed spec fn view(&self) -> SummaryView {
        SummaryView {
            open: match self.open {
                Some(listing) => Some(listing@),
                None => None,
            },
            sealed: self.sealed as nat,
            heartbeat_ms: self.heartbeat_ms,
        }
    }
}

/// The summary of an announcement.
pub open spec fn summary_of(ann: HostAnnouncement) -> SummaryView {
    SummaryView {
        open: match ann.open {
            Some(listing) => Some(listing@),
            None => None,
        },
        sealed: ann.sealed@.len(),
        heartbeat_ms: ann.heartbeat_ms,
    }
}

impl HostSummary {
    /// The summary of `ann`.
    pub fn of(ann: &HostAnnouncement) -> (summary: HostSummary)
        ensures
            summary@ == summary_of(*ann),
    {
        let open = match &ann.open {
            Some(listing) => Some(listing.copy()),
            None => None,
        };
        HostSummary { open, sealed: ann.sealed.len(), heartbeat_ms: ann.heartbeat_ms }
    }

    /// Whether `other` summarizes the same content.
    pub fn same(&self, other: &HostSummary) -> (same: bool)
        ensures
            same == (self@ == other@),
    {
        let open = match (&self.open, &other.open) {
            (Some(a), Some(b)) => a.same(b),
            (None, None) => true,
            _ => false,
        };
        open && self.sealed == other.sealed && self.heartbeat_ms == other.heartbeat_ms
    }
}

/// Announcements with the same summary render the same line.
pub proof fn same_summary_same_line(a: HostAnnouncement, b: HostAnnouncement)
    requires
        summary_of(a) == summary_of(b),
    ensures
        host_text(a) == host_text(b),
{
    assert(open_tools(a.open) =~= open_tools(b.open)) by {
        match (a.open, b.open) {
            (Some(x), Some(y)) => {
                assert(x@.tools =~= y@.tools);
                assert forall|i: int| 0 <= i < x.tools@.len() implies #[trigger] open_names(
                    x.tools@,
                )[i] == open_names(y.tools@)[i] by {
                    assert(x@.tools[i] == x.tools@[i]@);
                    assert(y@.tools[i] == y.tools@[i]@);
                }
            },
            _ => {},
        }
    }
}

/// The last summary shown per host, so that an unchanged heartbeat does not
/// print another line.
#[derive(Debug)]
pub struct ShownHosts {
    hosts: Vec<NodeId>,
    last: Vec<HostSummary>,
}

impl View for ShownHosts {
    type V = Map<NodeId, SummaryView>;

    closed spec fn view(&self) -> Map<NodeId, SummaryView> {
        Map::new(
            |h: NodeId| self.hosts@.contains(h),
            |h: NodeId| self.last@[self.hosts@.index_of(h)]@,
        )
    }
}

impl ShownHosts {
    /// Each host once, each with one summary.
    pub closed spec fn wf(&self) -> bool {
        &&& self.hosts@.len() == self.last@.len()
        &&& self.hosts@.no_duplicates()
    }

    /// Nothing shown yet.
    pub fn new() -> (shown: ShownHosts)
        ensures
            shown.wf(),
            shown@ == Map::<NodeId, SummaryView>::empty(),
    {
        let shown = ShownHosts { hosts: Vec::new(), last: Vec::new() };
        assert(shown@ =~= Map::<NodeId, SummaryView>::empty());
        shown
    }

    /// Whether `ann` from `host` says something the last one shown did not
    /// (always, for a host's first). Remembers it either way.
    pub fn is_news(&mut self, host: NodeId, ann: &HostAnnouncement) -> (news: bool)
        requires
            old(self).wf(),
        ensures
            final(self).wf(),
            final(self)@ == old(self)@.insert(host, summary_of(*ann)),
            news == !(old(self)@.dom().contains(host) && old(self)@[host] == summary_of(*ann)),
    {
        let summary = HostSummary::of(ann);
        let ghost start = *self;
        let mut i: usize = 0;
        while i < self.hosts.len()
            invariant
                *self == start,
                start == *old(self),
                start.wf(),
                summary@ == summary_of(*ann),
                i <= self.hosts@.len(),
                forall|j: int| 0 <= j < i ==> self.hosts@[j] != host,
            decreases self.hosts@.len() - i,
        {
            if self.hosts[i].same(&host) {
                let same = self.last[i].same(&summary);
                self.last[i] = summary;
                proof {
                    assert(self.hosts@ == start.hosts@);
                    assert(self.last@ == start.last@.update(i as int, summary));
                    assert(start.hosts@[i as int] == host);
                    assert(start.hosts@.index_of(host) == i);
                    assert forall|h: NodeId| self.hosts@.contains(h) implies #[trigger] self@[h]
                        == start@.insert(host, summary_of(*ann))[h] by {
                        let k = self.hosts@.index_of(h);
                        assert(self.hosts@[k] == h);
                        if h == host {
                            assert(k == i);
                        } else {
                            assert(self.last@[k] == start.last@[k]);
                            assert(start@.dom().contains(h));
                        }
                    }
                    assert(self@ =~= start@.insert(host, summary_of(*ann)));
                }
                return !same;
            }
            i += 1;
        }
        self.hosts.push(host);
        self.last.push(summary);
        proof {
            assert(!start.hosts@.contains(host));
            assert(self.hosts@[start.hosts@.len() as int] == host);
            assert(self.hosts@.no_duplicates());
            assert forall|h: NodeId| #[trigger]
                self.hosts@.contains(h) == (start.hosts@.contains(h) || h == host) by {
                if start.hosts@.contains(h) {
                    let k = start.hosts@.index_of(h);
                    assert(self.hosts@[k] == h);
                }
            }
            assert forall|h: NodeId| self.hosts@.contains(h) implies #[trigger] self@[h]
                == start@.insert(host, summary_of(*ann))[h] by {
                let k = self.hosts@.index_of(h);
                assert(self.hosts@[k] == h);
                if h != host {
                    let j = start.hosts@.index_of(h);
                    assert(start.hosts@[j] == h);
                    assert(self.hosts@[j] == h);
                    assert(j == k);
                }
            }
            assert(self@ =~= start@.insert(host, summary_of(*ann)));
        }
        true
    }
}

/// Only a changed announcement is news: after one was shown, the next from
/// that host is news exactly when its summary differs, and another host's
/// announcements do not matter.
pub proof fn news_is_change(
    before: Map<NodeId, SummaryView>,
    host: NodeId,
    first: SummaryView,
    other: NodeId,
    between: SummaryView,
    next: SummaryView,
)
    requires
        other != host,
    ensures
        ({
            let shown = before.insert(host, first).insert(other, between);
            (!(shown.dom().contains(host) && shown[host] == next)) == (first != next)
        }),
{
}

/// The first sixteen bits of a row of bytes, in hex.
proof fn short_reads_back(bytes: Seq<u8>)
    requires
        bytes.len() >= 2,
    ensures
        shortened(hex(bytes)).len() == 4,
        number_read(shortened(hex(bytes)), 16) == 256 * bytes[0] + bytes[1],
        forall|i: int| 0 <= i < 4 ==> (#[trigger] shortened(hex(bytes))[i]) != ' ',
{
    hex_reads_back(bytes, 0);
    hex_reads_back(bytes, 1);
    let h = hex(bytes);
    assert(16 * digit_value(h[0]) + digit_value(h[1]) == bytes[0]);
    assert(16 * digit_value(h[2]) + digit_value(h[3]) == bytes[1]);
    assert(shortened(h) =~= seq![h[0], h[1], h[2], h[3]]);
    four_digits_read(h[0], h[1], h[2], h[3]);
}

proof fn four_digits_read(a: char, b: char, c: char, d: char)
    ensures
        number_read(seq![a, b, c, d], 16) == 4096 * digit_value(a) + 256 * digit_value(b) + 16
            * digit_value(c) + digit_value(d),
{
    let s = seq![a, b, c, d];
    assert(s.drop_last() =~= seq![a, b, c]);
    assert(seq![a, b, c].drop_last() =~= seq![a, b]);
    assert(seq![a, b].drop_last() =~= seq![a]);
    assert(seq![a].drop_last() =~= Seq::<char>::empty());
    assert(number_read(Seq::<char>::empty(), 16) == 0);
    assert(number_read(seq![a], 16) == digit_value(a));
    assert(number_read(seq![a, b], 16) == 16 * digit_value(a) + digit_value(b));
    assert(number_read(seq![a, b, c], 16) == 256 * digit_value(a) + 16 * digit_value(b)
        + digit_value(c));
}

/// Two texts that are one, cut after as many characters, are one in both parts.
proof fn cut_alike(a: Seq<char>, x: Seq<char>, b: Seq<char>, y: Seq<char>)
    requires
        a + x == b + y,
        a.len() == b.len(),
    ensures
        a == b,
        x == y,
{
    let n = a.len() as int;
    assert((a + x).take(n) =~= a);
    assert((b + y).take(n) =~= b);
    assert((a + x).skip(n) =~= x);
    assert((b + y).skip(n) =~= y);
}

/// What stands before the first space is told by the whole.
proof fn parted_at_the_space(a: Seq<char>, x: Seq<char>, b: Seq<char>, y: Seq<char>)
    requires
        a + x == b + y,
        x.len() > 0,
        y.len() > 0,
        x[0] == ' ',
        y[0] == ' ',
        !a.contains(' '),
        !b.contains(' '),
    ensures
        a == b,
        x == y,
{
    let whole = a + x;
    assert(whole[a.len() as int] == ' ');
    assert((b + y)[b.len() as int] == ' ');
    if a.len() < b.len() {
        assert((b + y)[a.len() as int] == b[a.len() as int]);
        assert(b.contains(' '));
    } else if b.len() < a.len() {
        assert(whole[b.len() as int] == a[b.len() as int]);
        assert(a.contains(' '));
    } else {
        assert(whole.take(a.len() as int) =~= a);
        assert((b + y).take(a.len() as int) =~= b);
        assert(whole.skip(a.len() as int) =~= x);
        assert((b + y).skip(a.len() as int) =~= y);
    }
}

/// A node is shown by the first sixteen bits of its id, in hex, and an ellipsis.
pub proof fn a_node_is_shown_by_its_first_bytes(node: NodeId)
    ensures
        node_text(node).len() == 5,
        number_read(node_text(node).take(4), 16) == 256 * node.bytes@[0] + node.bytes@[1],
        node_text(node)[4] == '…',
{
    reveal_strlit("…");
    short_reads_back(node.bytes@);
    assert(node_text(node).take(4) =~= shortened(hex(node.bytes@)));
}

/// A caller is shown by the mail address that its identity provider verified, with
/// its node in brackets, and by its node alone without one.
pub proof fn a_caller_is_shown_by_its_mail(caller: NodeId, principal: Option<Principal>)
    ensures
        ({
            let text = caller_text(caller, principal);
            match principal {
                Some(p) => match p.email {
                    Some(email) => text == escaped(email@) + seq![' ', '('] + node_text(caller)
                        + seq![')'],
                    None => text == node_text(caller),
                },
                None => text == node_text(caller),
            }
        }),
{
    reveal_strlit(" (");
    reveal_strlit(")");
    assert(" ("@ =~= seq![' ', '(']);
    assert(")"@ =~= seq![')']);
}

/// What the line of a call that ended shows: behind its mark the call, the exit code
/// in decimal behind ` exit `, and how long it ran; the standard input where any was
/// kept; and how much it wrote, with the start of its digest. The numbers read back.
pub proof fn a_finished_line_shows_its_record(record: AuditRecord) -> (parts: (
    Seq<char>,
    Seq<char>,
    Seq<char>,
    Seq<char>,
    Seq<char>,
    Seq<char>,
))
    requires
        record is Finished,
    ensures
        ({
            let (id, code, ms, fed, size, digest) = parts;
            &&& audit_text(record) == "■ "@ + id + " exit "@ + code + " · "@ + ms + " ms · "@ + fed
                + size + " out · blake3 "@ + digest + "…"@
            &&& record matches AuditRecord::Finished {
                call,
                exit,
                duration_ms,
                stdout_bytes,
                stdout_digest,
                stdin_bytes,
                stdin_head,
            }
            &&& id.len() == 4
            &&& number_read(id, 16) == 256 * call@[0] + call@[1]
            &&& signed_read(code) == exit
            &&& !code.contains(' ')
            &&& number_read(ms, 10) == duration_ms
            &&& !ms.contains(' ')
            &&& ms.len() > 0
            &&& match stdin_head {
                Some(head) => fed == "stdin "@ + debug_text(preview(head@, stdin_bytes as nat))
                    + " · "@,
                None => fed == Seq::<char>::empty(),
            }
            &&& size == bytes_text(stdout_bytes as nat)
            &&& digest.len() == 4
            &&& number_read(digest, 16) == 256 * stdout_digest@[0] + stdout_digest@[1]
        }),
{
    match record {
        AuditRecord::Finished {
            call,
            exit,
            duration_ms,
            stdout_bytes,
            stdout_digest,
            stdin_bytes,
            stdin_head,
        } => {
            short_reads_back(call@);
            short_reads_back(stdout_digest@);
            a_signed_decimal_reads_back(exit as int);
            a_decimal_reads_back(duration_ms as nat);
            let fed = match stdin_head {
                Some(head) => "stdin "@ + debug_text(preview(head@, stdin_bytes as nat)) + " · "@,
                None => Seq::<char>::empty(),
            };
            let parts = (
                shortened(hex(call@)),
                signed_decimal(exit as int),
                decimal(duration_ms as nat),
                fed,
                bytes_text(stdout_bytes as nat),
                shortened(hex(stdout_digest@)),
            );
            assert(audit_text(record) =~= "■ "@ + parts.0 + " exit "@ + parts.1 + " · "@ + parts.2
                + " ms · "@ + parts.3 + parts.4 + " out · blake3 "@ + parts.5 + "…"@);
            parts
        },
        _ => (
            Seq::empty(),
            Seq::empty(),
            Seq::empty(),
            Seq::empty(),
            Seq::empty(),
            Seq::empty(),
        ),
    }
}

/// Two calls that ended have one line only if they ended with one exit code, after
/// the same time, and agree in the start of their ids and digests, in whether
/// standard input was kept, and, where it was not, in the size shown.
pub proof fn finished_lines_are_apart(a: AuditRecord, b: AuditRecord)
    requires
        a is Finished,
        b is Finished,
        audit_text(a) == audit_text(b),
    ensures
        a->exit == b->exit,
        a->duration_ms == b->duration_ms,
        a->Finished_call@[0] == b->Finished_call@[0],
        a->Finished_call@[1] == b->Finished_call@[1],
        a->stdout_digest@[0] == b->stdout_digest@[0],
        a->stdout_digest@[1] == b->stdout_digest@[1],
        (a->stdin_head is Some) == (b->stdin_head is Some),
        a->stdin_head is None ==> bytes_text(a->stdout_bytes as nat) == bytes_text(
            b->stdout_bytes as nat,
        ),
{
    reveal_strlit(" out · blake3 ");
    reveal_strlit("…");
    reveal_strlit("stdin ");
    let p = a_finished_line_shows_its_record(a);
    let q = a_finished_line_shows_its_record(b);
    let end_p = finished_heads_are_apart(p.0, p.1, p.2, p.3, p.4, p.5);
    let end_q = finished_heads_are_apart(q.0, q.1, q.2, q.3, q.4, q.5);
    finished_parts_are_apart(p.0, p.1, p.2, end_p, q.0, q.1, q.2, end_q);
    let tail_p = " out · blake3 "@ + p.5 + "…"@;
    let tail_q = " out · blake3 "@ + q.5 + "…"@;
    assert(end_p =~= (p.3 + p.4) + tail_p);
    assert(end_q =~= (q.3 + q.4) + tail_q);
    cut_alike(p.3 + p.4, tail_p, q.3 + q.4, tail_q);
    assert(tail_p =~= " out · blake3 "@ + (p.5 + "…"@));
    assert(tail_q =~= " out · blake3 "@ + (q.5 + "…"@));
    cut_alike(" out · blake3 "@, p.5 + "…"@, " out · blake3 "@, q.5 + "…"@);
    cut_alike(p.5, "…"@, q.5, "…"@);
    size_starts_with_a_digit(a->stdout_bytes as nat);
    size_starts_with_a_digit(b->stdout_bytes as nat);
    assert(a->stdin_head is None ==> p.3 + p.4 =~= p.4);
    assert(b->stdin_head is None ==> q.3 + q.4 =~= q.4);
    assert(a->stdin_head is Some ==> (p.3 + p.4)[0] == 's');
    assert(b->stdin_head is Some ==> (q.3 + q.4)[0] == 's');
    assert(digits_alike(a->Finished_call@, b->Finished_call@));
    assert(digits_alike(a->stdout_digest@, b->stdout_digest@));
}

proof fn finished_heads_are_apart(
    id: Seq<char>,
    code: Seq<char>,
    ms: Seq<char>,
    fed: Seq<char>,
    size: Seq<char>,
    digest: Seq<char>,
) -> (end: Seq<char>)
    ensures
        end == fed + size + " out · blake3 "@ + digest + "…"@,
        "■ "@ + id + " exit "@ + code + " · "@ + ms + " ms · "@ + fed + size + " out · blake3 "@
            + digest + "…"@ == ("■ "@ + id + " exit "@) + (code + (" · "@ + (ms + (" ms · "@
            + end)))),
{
    let end = fed + size + " out · blake3 "@ + digest + "…"@;
    assert("■ "@ + id + " exit "@ + code + " · "@ + ms + " ms · "@ + fed + size
        + " out · blake3 "@ + digest + "…"@ =~= ("■ "@ + id + " exit "@) + (code + (" · "@ + (ms
        + (" ms · "@ + end)))));
    end
}

proof fn finished_parts_are_apart(
    id: Seq<char>,
    code: Seq<char>,
    ms: Seq<char>,
    end: Seq<char>,
    other_id: Seq<char>,
    other_code: Seq<char>,
    other_ms: Seq<char>,
    other_end: Seq<char>,
)
    requires
        ("■ "@ + id + " exit "@) + (code + (" · "@ + (ms + (" ms · "@ + end)))) == ("■ "@ + other_id
            + " exit "@) + (other_code + (" · "@ + (other_ms + (" ms · "@ + other_end)))),
        id.len() == other_id.len(),
        !code.contains(' '),
        !other_code.contains(' '),
        !ms.contains(' '),
        !other_ms.contains(' '),
    ensures
        id == other_id,
        code == other_code,
        ms == other_ms,
        end == other_end,
{
    reveal_strlit("■ ");
    reveal_strlit(" exit ");
    reveal_strlit(" · ");
    reveal_strlit(" ms · ");
    let x = " ms · "@ + end;
    let y = " ms · "@ + other_end;
    let u = " · "@ + (ms + x);
    let v = " · "@ + (other_ms + y);
    cut_alike("■ "@ + id + " exit "@, code + u, "■ "@ + other_id + " exit "@, other_code + v);
    cut_alike("■ "@ + id, " exit "@, "■ "@ + other_id, " exit "@);
    cut_alike("■ "@, id, "■ "@, other_id);
    parted_at_the_space(code, u, other_code, v);
    cut_alike(" · "@, ms + x, " · "@, other_ms + y);
    parted_at_the_space(ms, x, other_ms, y);
    cut_alike(" ms · "@, end, " ms · "@, other_end);
}

/// Two rows of bytes whose first sixteen bits are one number.
spec fn digits_alike(a: Seq<u8>, b: Seq<u8>) -> bool {
    256 * a[0] + a[1] == 256 * b[0] + b[1]
}

proof fn size_starts_with_a_digit(bytes: nat)
    ensures
        bytes_text(bytes).len() > 0,
        48 <= bytes_text(bytes)[0] as int <= 57,
{
    a_decimal_reads_back(bytes);
    if bytes >= 1024 {
        let held = to_53_bits(bytes);
        a_decimal_reads_back(rounded(10 * held, unit_size(unit_power(held))) / 10);
    }
}

/// What the line of a call that started shows: behind its mark the call, who called,
/// the role in square brackets where there is one, the tool, and the arguments.
pub proof fn a_started_line_shows_its_record(record: AuditRecord) -> (parts: (
    Seq<char>,
    Seq<char>,
    Seq<char>,
))
    requires
        record is Started,
    ensures
        ({
            let (id, role_part, args) = parts;
            &&& record matches AuditRecord::Started { call, caller, principal, tool, argv, role }
            &&& audit_text(record) == "▶ "@ + id + " "@ + caller_text(caller, principal)
                + role_part + " "@ + tool@ + args
            &&& id.len() == 4
            &&& number_read(id, 16) == 256 * call@[0] + call@[1]
            &&& match role {
                Some(role) => role_part == seq![' ', '['] + escaped(role@) + seq![']'],
                None => role_part == Seq::<char>::empty(),
            }
            &&& args == with_args(Seq::empty(), texts(argv@))
        }),
{
    reveal_strlit(" [");
    reveal_strlit("]");
    assert(" ["@ =~= seq![' ', '[']);
    assert("]"@ =~= seq![']']);
    match record {
        AuditRecord::Started { call, caller, principal, tool, argv, role } => {
            short_reads_back(call@);
            let role_part = match role {
                Some(role) => " ["@ + escaped(role@) + "]"@,
                None => Seq::<char>::empty(),
            };
            let who = "▶ "@ + shortened(hex(call@)) + " "@ + caller_text(caller, principal);
            let head = with_role(who, role) + " "@ + tool@;
            arguments_follow(head, Seq::empty(), texts(argv@));
            assert(head + Seq::<char>::empty() =~= head);
            assert(with_role(who, role) =~= who + role_part);
            (shortened(hex(call@)), role_part, with_args(Seq::empty(), texts(argv@)))
        },
        _ => (Seq::empty(), Seq::empty(), Seq::empty()),
    }
}

proof fn arguments_follow(a: Seq<char>, b: Seq<char>, argv: Seq<Seq<char>>)
    ensures
        with_args(a + b, argv) == a + with_args(b, argv),
    decreases argv.len(),
{
    if argv.len() > 0 {
        arguments_follow(a, b, argv.drop_last());
        assert(with_args(a + b, argv) =~= a + with_args(b, argv));
    }
}

/// Every argument is shown, in its order, behind a space: as it is where it is plain,
/// and quoted where it is not.
pub proof fn every_argument_is_shown(
    line: Seq<char>,
    argv: Seq<Seq<char>>,
    arg: Seq<char>,
    more: Seq<Seq<char>>,
)
    ensures
        with_args(line, Seq::empty()) == line,
        with_args(line, argv.push(arg)) == with_args(line, argv) + seq![' '] + (if is_plain(arg) {
            arg
        } else {
            debug_text(arg)
        }),
        with_args(line, argv + more) == with_args(with_args(line, argv), more),
    decreases more.len(),
{
    reveal_strlit(" ");
    assert(" "@ =~= seq![' ']);
    assert(argv.push(arg).drop_last() =~= argv);
    if more.len() == 0 {
        assert(argv + more =~= argv);
    } else {
        every_argument_is_shown(line, argv, arg, more.drop_last());
        assert((argv + more).drop_last() =~= argv + more.drop_last());
        assert((argv + more).last() == more.last());
    }
}

/// What the line of a push shows: behind its mark the push, whom it is for, the role
/// in square brackets where there is one, the subject quoted, and the outcome's word;
/// then the reason and the start of the body, each where there is one.
pub proof fn a_push_line_shows_its_record(record: AuditRecord) -> (parts: (
    Seq<char>,
    Seq<char>,
    Seq<char>,
    Seq<char>,
))
    requires
        record is Push,
    ensures
        ({
            let (push, role_part, why, text) = parts;
            &&& record matches AuditRecord::Push {
                id,
                to,
                principal,
                role,
                subject,
                outcome,
                reason,
                body,
            }
            &&& audit_text(record) == "⇢ "@ + push + " → "@ + caller_text(to, principal)
                + role_part + " "@ + debug_text(subject@) + " "@ + outcome.word() + why + text
            &&& push.len() == 4
            &&& number_read(push, 16) == 256 * id@[0] + id@[1]
            &&& match role {
                Some(role) => role_part == seq![' ', '['] + escaped(role@) + seq![']'],
                None => role_part == Seq::<char>::empty(),
            }
            &&& match reason {
                Some(reason) => why == seq![':', ' '] + escaped(reason@),
                None => why == Seq::<char>::empty(),
            }
            &&& match body {
                Some(body) => text == " · body "@ + debug_text(preview(body@, 0)),
                None => text == Seq::<char>::empty(),
            }
        }),
{
    reveal_strlit(" [");
    reveal_strlit("]");
    reveal_strlit(": ");
    assert(" ["@ =~= seq![' ', '[']);
    assert("]"@ =~= seq![']']);
    assert(": "@ =~= seq![':', ' ']);
    match record {
        AuditRecord::Push { id, to, principal, role, subject, outcome, reason, body } => {
            short_reads_back(id@);
            let role_part = match role {
                Some(role) => " ["@ + escaped(role@) + "]"@,
                None => Seq::<char>::empty(),
            };
            let why = match reason {
                Some(reason) => ": "@ + escaped(reason@),
                None => Seq::<char>::empty(),
            };
            let text = match body {
                Some(body) => " · body "@ + debug_text(preview(body@, 0)),
                None => Seq::<char>::empty(),
            };
            let who = "⇢ "@ + shortened(hex(id@)) + " → "@ + caller_text(to, principal);
            assert(with_role(who, role) =~= who + role_part);
            assert(audit_text(record) =~= who + role_part + " "@ + debug_text(subject@) + " "@
                + outcome.word() + why + text);
            (shortened(hex(id@)), role_part, why, text)
        },
        _ => (Seq::empty(), Seq::empty(), Seq::empty(), Seq::empty()),
    }
}

/// What the line of a refused call shows: behind its mark the caller's node, the tool
/// where one was named, and the reason.
pub proof fn a_denied_line_shows_its_record(record: AuditRecord)
    requires
        record is Denied,
    ensures
        record matches AuditRecord::Denied { caller, tool, reason } && audit_text(record)
            == seq!['✗', ' '] + node_text(caller) + (match tool {
            Some(tool) => seq![' '] + tool@,
            None => Seq::<char>::empty(),
        }) + " denied: "@ + escaped(reason@),
{
    reveal_strlit("✗ ");
    reveal_strlit(" ");
    assert("✗ "@ =~= seq!['✗', ' ']);
    assert(" "@ =~= seq![' ']);
    match record {
        AuditRecord::Denied { caller, tool, reason } => {
            assert(audit_text(record) =~= seq!['✗', ' '] + node_text(caller) + (match tool {
                Some(tool) => seq![' '] + tool@,
                None => Seq::<char>::empty(),
            }) + " denied: "@ + escaped(reason@));
        },
        _ => {},
    }
}

/// Rounding is to the nearest, and halfway to the even one.
proof fn rounded_is_nearest(n: nat, d: nat)
    requires
        d > 0,
    ensures
        -(d as int) <= 2 * (n - rounded(n, d) * d) <= d,
        2 * (n - rounded(n, d) * d) == d || 2 * (n - rounded(n, d) * d) == -(d as int)
            ==> rounded(n, d) % 2 == 0,
{
    let whole = n / d;
    let rest = n % d;
    assert(n == whole * d + rest && 0 <= rest < d) by (nonlinear_arith)
        requires
            d > 0,
            whole == n / d,
            rest == n % d,
    ;
    assert((whole + 1) * d == whole * d + d) by (nonlinear_arith);
    if 2 * rest == d {
        assert((whole + whole % 2) % 2 == 0);
        assert(rounded(n, d) == whole || rounded(n, d) == whole + 1);
    }
}

proof fn spacing_is_small(n: nat)
    ensures
        spacing(n) >= 1,
        n < 0x20_0000_0000_0000 ==> spacing(n) == 1,
        n >= 0x20_0000_0000_0000 ==> spacing(n) * 0x10_0000_0000_0000 <= n,
    decreases n,
{
    if n >= 0x20_0000_0000_0000 {
        spacing_is_small(n / 2);
    }
}

proof fn held_is_near(n: nat)
    ensures
        n < 0x20_0000_0000_0000 ==> to_53_bits(n) == n,
        -(n as int) <= 0x20_0000_0000_0000 * (to_53_bits(n) - n) <= n,
{
    spacing_is_small(n);
    let d = spacing(n);
    rounded_is_nearest(n, d);
    if n < 0x20_0000_0000_0000 {
        assert(n / 1 == n && n % 1 == 0);
        assert(rounded(n, 1) == n);
        assert(to_53_bits(n) == n * 1) by {
            assert(rounded(n, d) * d == n * 1);
        }
    }
}

/// How a size is shown: in bytes below a kibibyte, and else in the largest unit that
/// it reaches, up to tebibytes, with one digit behind the point. The number shown is
/// the nearest there is, the even one of two that are as near, for all sizes that a
/// double-precision number holds, and off by no more than the part of it that such a
/// number leaves out for others.
pub proof fn a_size_is_shown_to_a_tenth(bytes: nat) -> (shown: (nat, nat))
    ensures
        bytes < 1024 ==> bytes_text(bytes) == decimal(bytes) + seq![' ', 'B'],
        bytes >= 1024 ==> {
            let (tenths, unit) = shown;
            &&& unit <= bytes
            &&& unit == 0x400 || unit == 0x10_0000 || unit == 0x4000_0000 || unit
                == 0x100_0000_0000
            &&& unit == 0x100_0000_0000 || bytes < 1024 * unit
            &&& bytes_text(bytes) == decimal(tenths / 10) + seq!['.', digit(tenths % 10)] + seq![
                ' ',
                if unit == 0x400 {
                    'K'
                } else if unit == 0x10_0000 {
                    'M'
                } else if unit == 0x4000_0000 {
                    'G'
                } else {
                    'T'
                },
                'i',
                'B',
            ]
            &&& bytes < 0x20_0000_0000_0000 ==> {
                let off = 2 * (10 * bytes - tenths * unit);
                &&& -(unit as int) <= off <= unit
                &&& off == unit || off == -(unit as int) ==> tenths % 2 == 0
            }
            &&& bytes >= 0x20_0000_0000_0000 ==> {
                let off = 2 * (10 * bytes - tenths * unit);
                let lost = bytes as int / 0x4_0000_0000_0000 + 1;
                -(unit + 4 * lost) <= off <= unit + 4 * lost
            }
        },
{
    reveal_strlit(" B");
    reveal_strlit(" KiB");
    reveal_strlit(" MiB");
    reveal_strlit(" GiB");
    reveal_strlit(" TiB");
    assert(" B"@ =~= seq![' ', 'B']);
    let held = to_53_bits(bytes);
    let k = unit_power(held);
    let unit = unit_size(k);
    let tenths = rounded(10 * held, unit);
    held_is_near(bytes);
    rounded_is_nearest(10 * held, unit);
    if bytes >= 1024 {
        assert(bytes_text(bytes) =~= decimal(tenths / 10) + seq!['.', digit(tenths % 10)] + seq![
            ' ',
            if unit == 0x400 {
                'K'
            } else if unit == 0x10_0000 {
                'M'
            } else if unit == 0x4000_0000 {
                'G'
            } else {
                'T'
            },
            'i',
            'B',
        ]);
    }
    (tenths, unit)
}

/// Collapsing leaves words with one space between: no other white space, none at
/// either end, and no two spaces together.
pub proof fn collapsed_text_is_words(s: Seq<char>, i: int)
    requires
        0 <= i < collapsed(s).len(),
        is_whitespace(collapsed(s)[i]),
    ensures
        collapsed(s)[i] == ' ',
        0 < i < collapsed(s).len() - 1,
        !is_whitespace(collapsed(s)[i - 1]),
        !is_whitespace(collapsed(s)[i + 1]),
    decreases s.len(),
{
    let before = collapsed(s.drop_last());
    if i < before.len() {
        collapsed_text_is_words(s.drop_last(), i);
    } else {
        assert(collapsed(s) == before.push(' ').push(s.last()));
        assert(i == before.len());
        if is_whitespace(before.last()) {
            collapsed_text_is_words(s.drop_last(), before.len() - 1);
        }
    }
}

/// What collapsing keeps: a text without white space is kept as it is, white space
/// alone leaves nothing, and texts that white space parts are collapsed each for
/// itself, with one space between where both leave something.
pub proof fn collapsing_keeps_the_words(a: Seq<char>, gap: Seq<char>, b: Seq<char>)
    requires
        gap.len() > 0,
        forall|i: int| 0 <= i < gap.len() ==> is_whitespace(#[trigger] gap[i]),
    ensures
        (forall|i: int| 0 <= i < a.len() ==> !is_whitespace(#[trigger] a[i])) ==> collapsed(a) == a,
        collapsed(gap) == Seq::<char>::empty(),
        collapsed(a + gap + b) == if collapsed(a).len() == 0 || collapsed(b).len() == 0 {
            collapsed(a) + collapsed(b)
        } else {
            collapsed(a) + seq![' '] + collapsed(b)
        },
    decreases b.len(),
{
    if forall|i: int| 0 <= i < a.len() ==> !is_whitespace(#[trigger] a[i]) {
        a_word_is_kept(a);
    }
    a_gap_adds_nothing(Seq::empty(), gap);
    assert(Seq::<char>::empty() + gap =~= gap);
    assert(collapsed(Seq::<char>::empty()) =~= Seq::<char>::empty());
    let whole = a + gap + b;
    if b.len() == 0 {
        a_gap_adds_nothing(a, gap);
        assert(whole =~= a + gap);
        assert(collapsed(a) + collapsed(b) =~= collapsed(a));
    } else {
        collapsing_keeps_the_words(a, gap, b.drop_last());
        assert(whole.drop_last() =~= a + gap + b.drop_last());
        assert(whole.last() == b.last());
        if b.len() >= 2 {
            assert(whole[whole.len() - 2] == b[b.len() - 2]);
        } else {
            assert(whole[whole.len() - 2] == gap.last());
        }
        if !is_whitespace(b.last()) && b.len() >= 2 && !is_whitespace(b[b.len() - 2]) {
            a_word_leaves_something(b.drop_last());
        }
        assert(collapsed(whole) =~= if collapsed(a).len() == 0 || collapsed(b).len() == 0 {
            collapsed(a) + collapsed(b)
        } else {
            collapsed(a) + seq![' '] + collapsed(b)
        });
    }
}

proof fn a_word_is_kept(s: Seq<char>)
    requires
        forall|i: int| 0 <= i < s.len() ==> !is_whitespace(#[trigger] s[i]),
    ensures
        collapsed(s) == s,
    decreases s.len(),
{
    if s.len() > 0 {
        assert forall|i: int| 0 <= i < s.drop_last().len() implies !is_whitespace(
            #[trigger] s.drop_last()[i],
        ) by {
            assert(s.drop_last()[i] == s[i]);
        }
        a_word_is_kept(s.drop_last());
        assert(collapsed(s) =~= s);
    }
}

proof fn a_word_leaves_something(s: Seq<char>)
    requires
        s.len() > 0,
        !is_whitespace(s.last()),
    ensures
        collapsed(s).len() > 0,
{
}

proof fn a_gap_adds_nothing(a: Seq<char>, gap: Seq<char>)
    requires
        forall|i: int| 0 <= i < gap.len() ==> is_whitespace(#[trigger] gap[i]),
    ensures
        collapsed(a + gap) == collapsed(a),
    decreases gap.len(),
{
    if gap.len() == 0 {
        assert(a + gap =~= a);
    } else {
        assert forall|i: int| 0 <= i < gap.drop_last().len() implies is_whitespace(
            #[trigger] gap.drop_last()[i],
        ) by {
            assert(gap.drop_last()[i] == gap[i]);
        }
        a_gap_adds_nothing(a, gap.drop_last());
        assert((a + gap).drop_last() =~= a + gap.drop_last());
        assert((a + gap).last() == gap.last());
    }
}

/// What is quoted of an input: all of it, with its white space collapsed, where that
/// is short and nothing was left out; else its first eighty characters at most, but
/// for a space they would end in, and an ellipsis.
pub proof fn a_preview_is_the_start(head: Seq<char>, stdin_bytes: nat)
    ensures
        ({
            let whole = collapsed(head);
            let text = preview(head, stdin_bytes);
            let all = whole.len() <= 80 && stdin_bytes <= vstd::utf8::encode_utf8(head).len();
            let first = if whole.len() <= 80 {
                whole
            } else {
                whole.take(80)
            };
            &&& all ==> text == whole
            &&& !all ==> {
                let kept = text.take(text.len() - 2);
                &&& text.len() >= 2
                &&& text.skip(text.len() - 2) == seq![' ', '…']
                &&& kept == first || kept.push(' ') == first
                &&& kept.len() > 0 ==> !is_whitespace(kept.last())
            }
        }),
{
    reveal_strlit(" …");
    assert(" …"@ =~= seq![' ', '…']);
    let whole = collapsed(head);
    let first = if whole.len() <= 80 {
        whole
    } else {
        whole.take(80)
    };
    let all = whole.len() <= 80 && stdin_bytes <= vstd::utf8::encode_utf8(head).len();
    if !all {
        let kept = trimmed_end(first);
        let text = preview(head, stdin_bytes);
        assert(text == kept + " …"@);
        assert(text.take(text.len() - 2) =~= kept);
        assert(text.skip(text.len() - 2) =~= seq![' ', '…']);
        if first.len() > 0 && is_whitespace(first.last()) {
            let n = first.len() - 1;
            assert(whole[n] == first[n]);
            collapsed_text_is_words(head, n);
            assert(first.drop_last().last() == whole[n - 1]);
            assert(kept == trimmed_end(first.drop_last()));
            assert(kept == first.drop_last());
            assert(kept.push(' ') =~= first);
        } else {
            assert(kept == first);
        }
    }
}

/// The line of a re-key shows the version and the number of members, which both read
/// back, and one member is one member.
pub proof fn a_rekey_line_shows_its_record(rekey: RekeyNotice) -> (parts: (Seq<char>, Seq<char>))
    ensures
        ({
            let (version, members) = parts;
            &&& rekey_text(rekey) == "🔑 re-key to roster version "@ + version + " ("@ + members + (
            if rekey.members == 1 {
                " member)"@
            } else {
                " members)"@
            })
            &&& number_read(version, 10) == rekey.version
            &&& number_read(members, 10) == rekey.members
        }),
{
    a_decimal_reads_back(rekey.version as nat);
    a_decimal_reads_back(rekey.members as nat);
    (decimal(rekey.version as nat), decimal(rekey.members as nat))
}

/// The line of an announcement shows the names of the open tools, escaped and parted
/// by commas, or that none is open; and how many sealed entries there are, which
/// reads back.
pub proof fn a_host_line_shows_its_record(ann: HostAnnouncement) -> (parts: (
    Seq<Seq<char>>,
    Seq<char>,
))
    ensures
        ({
            let (names, sealed) = parts;
            &&& host_text(ann) == "📣 announces tools ("@ + (if names.len() == 0 {
                "none open"@
            } else {
                "open: "@ + joined(names, ", "@)
            }) + "; "@ + sealed + (if ann.sealed@.len() == 1 {
                " sealed entry)"@
            } else {
                " sealed entries)"@
            })
            &&& number_read(sealed, 10) == ann.sealed@.len()
            &&& match ann.open {
                Some(listing) => {
                    &&& names.len() == listing.tools@.len()
                    &&& forall|i: int|
                        0 <= i < names.len() ==> #[trigger] names[i] == escaped(
                            listing.tools@[i].name@,
                        )
                },
                None => names.len() == 0,
            }
        }),
{
    a_decimal_reads_back(ann.sealed@.len());
    (open_tools(ann.open), decimal(ann.sealed@.len()))
}

/// A record's line begins with the mark of its kind.
pub proof fn a_mark_tells_the_kind(record: ChannelRecord, identity: Option<Verdict>)
    ensures
        record_text(record, identity).len() > 1,
        record_text(record, identity)[1] == ' ',
        record_text(record, identity)[0] == match record {
            ChannelRecord::Audit(AuditRecord::Started { .. }) => '▶',
            ChannelRecord::Audit(AuditRecord::Finished { .. }) => '■',
            ChannelRecord::Audit(AuditRecord::Push { .. }) => '⇢',
            ChannelRecord::Audit(AuditRecord::Denied { .. }) => '✗',
            ChannelRecord::Identity(_) => '🪪',
            ChannelRecord::Rekey(_) => '🔑',
            ChannelRecord::Host(_) => '📣',
        },
{
    match record {
        ChannelRecord::Audit(audit) => {
            if audit is Started {
                reveal_strlit("▶ ");
                let parts = a_started_line_shows_its_record(audit);
            } else if audit is Finished {
                reveal_strlit("■ ");
                let parts = a_finished_line_shows_its_record(audit);
            } else if audit is Push {
                reveal_strlit("⇢ ");
                let parts = a_push_line_shows_its_record(audit);
            } else {
                a_denied_line_shows_its_record(audit);
            }
        },
        ChannelRecord::Identity(claim) => {
            reveal_strlit("🪪 ");
        },
        ChannelRecord::Rekey(rekey) => {
            reveal_strlit("🔑 re-key to roster version ");
        },
        ChannelRecord::Host(ann) => {
            reveal_strlit("📣 announces tools (");
        },
    }
}

/// A claim's line shows what was made of it, escaped, and without that only that it
/// was not checked.
pub proof fn an_unchecked_claim_says_so(claim: IdentityClaim, verdict: Option<Verdict>)
    ensures
        verdict is None ==> claim_text(claim, verdict) == "🪪 "@ + node_text(claim.node)
            + " claims identity (not checked)"@,
        verdict matches Some(v) ==> claim_text(claim, verdict) == "🪪 "@ + escaped(
            identity_text(claim, v),
        ),
{
}

/// What a reader remembers of an announcement is its open listing, the number of its
/// sealed entries and its heartbeat: two announcements are alike to it exactly where
/// these are, whenever and by whomever they were made.
pub proof fn a_summary_leaves_out_the_time(a: HostAnnouncement, b: HostAnnouncement)
    ensures
        summary_of(a) == summary_of(b) <==> {
            &&& (a.open is Some) == (b.open is Some)
            &&& a.open is Some ==> a.open->0@ == b.open->0@
            &&& a.sealed@.len() == b.sealed@.len()
            &&& a.heartbeat_ms == b.heartbeat_ms
        },
{
}

} // verus!
