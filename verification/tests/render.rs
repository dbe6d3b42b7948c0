//! The lines a reader shows for the records of a channel.

use wires::idp_view::{
    describe_identity, principal_name, split_list, IdpTrust, Verdict, DEFAULT_ISSUER,
};
use wires::ids::NodeId;
use wires::records::{
    AuditRecord, ChannelRecord, HostAnnouncement, HostListing, IdentityClaim, ListedTool,
    Principal, PushOutcome, RekeyNotice, VerifyError,
};
use wires::render::{
    audit_line, caller_label, host_line, human_bytes, identity_line, record_line, rekey_line,
    short_hex, short_node, stdin_preview, HostSummary, ShownHosts, STDIN_PREVIEW_CHARS,
};

fn node(seed: u8) -> NodeId {
    let mut bytes = [seed; 32];
    bytes[1] = seed.wrapping_mul(7);
    NodeId { bytes }
}

fn call() -> [u8; 16] {
    let mut id = [0u8; 16];
    id[0] = 0x3f;
    id[1] = 0xa2;
    id
}

fn principal(email: Option<&str>) -> Principal {
    Principal {
        issuer: "https://accounts.google.com".into(),
        subject: "1234".into(),
        email: email.map(str::to_string),
        org: Some("corp".into()),
    }
}

fn listing(tool: &str) -> HostListing {
    HostListing {
        tools: vec![ListedTool { name: tool.into(), description: String::new() }],
        addrs: vec![],
        relay_url: None,
    }
}

fn finished(head: Option<String>, stdin_bytes: u64) -> AuditRecord {
    AuditRecord::Finished {
        call: call(),
        exit: 0,
        duration_ms: 0,
        stdout_bytes: 0,
        stdout_digest: [0; 32],
        stdin_bytes,
        stdin_head: head,
    }
}

#[test]
fn a_push_line_says_who_what_and_how_it_went() {
    let mut id = [0u8; 16];
    id[0] = 0x9c;
    id[1] = 0x1e;
    let push = |outcome, reason: Option<&str>, body: Option<&str>| AuditRecord::Push {
        id,
        to: node(2),
        principal: Some(principal(Some("alice@corp"))),
        role: Some("analyst".into()),
        subject: "build-41".into(),
        outcome,
        reason: reason.map(str::to_string),
        body: body.map(str::to_string),
    };
    let to = short_node(node(2));
    assert_eq!(
        audit_line(&push(PushOutcome::Delivered, None, None)),
        format!("⇢ 9c1e → alice@corp ({to}) [analyst] \"build-41\" delivered")
    );
    assert_eq!(
        audit_line(&push(PushOutcome::Denied, Some("not in\nthe roster"), None)),
        format!("⇢ 9c1e → alice@corp ({to}) [analyst] \"build-41\" denied: not in\\nthe roster")
    );
    let with_body = audit_line(&push(PushOutcome::Queued, None, Some("failed:\n test")));
    assert!(with_body.ends_with(" queued · body \"failed: test\""), "{with_body}");
}

#[test]
fn a_host_line_names_open_tools_and_counts_sealed_entries() {
    let host = node(1);
    let entry = vec![1u8, 2, 3];
    let ann = HostAnnouncement {
        host,
        at_ms: 1,
        heartbeat_ms: 0,
        open: None,
        sealed: vec![entry.clone()],
    };
    assert_eq!(host_line(&ann), "📣 announces tools (none open; 1 sealed entry)");
    let ann = HostAnnouncement {
        host,
        at_ms: 1,
        heartbeat_ms: 0,
        open: Some(listing("status")),
        sealed: vec![entry.clone(), entry],
    };
    let line = record_line(&ChannelRecord::Host(ann), None);
    assert_eq!(line, "📣 announces tools (open: status; 2 sealed entries)");
    assert!(!line.contains("db_query"));
}

#[test]
fn only_a_changed_announcement_is_news() {
    let host = node(1);
    let ann = |at, sealed: Vec<Vec<u8>>, addrs: Vec<String>| HostAnnouncement {
        host,
        at_ms: at,
        heartbeat_ms: 600_000,
        open: Some(HostListing { addrs, ..listing("status") }),
        sealed,
    };
    let entry = |at: u8| vec![at; 8];
    let mut shown = ShownHosts::new();
    assert!(shown.is_news(host, &ann(1, vec![entry(1)], vec![])), "first");
    // A heartbeat: new time, freshly sealed entry, same content.
    assert!(!shown.is_news(host, &ann(2, vec![entry(2)], vec![])));
    // Another host's first announcement is news of its own.
    assert!(shown.is_news(node(9), &ann(2, vec![entry(2)], vec![])));
    // One entry fewer (a member removed or expired).
    assert!(shown.is_news(host, &ann(3, vec![], vec![])));
    assert!(!shown.is_news(host, &ann(4, vec![], vec![])));
    // The host moved.
    assert!(shown.is_news(host, &ann(5, vec![], vec!["127.0.0.1:9".into()])));
}

#[test]
fn started_with_a_principal_names_the_email_and_the_node() {
    let caller = node(7);
    let line = audit_line(&AuditRecord::Started {
        call: call(),
        caller,
        principal: Some(principal(Some("alice@corp"))),
        tool: "db_query".into(),
        argv: vec!["select count(*) from orders".into()],
        role: Some("analyst".into()),
    });
    assert_eq!(
        line,
        format!(
            "▶ 3fa2 alice@corp ({}…) [analyst] db_query \"select count(*) from orders\"",
            &caller.hex()[..4]
        )
    );
}

#[test]
fn started_without_a_principal_names_the_node() {
    let caller = node(7);
    let line = audit_line(&AuditRecord::Started {
        call: call(),
        caller,
        principal: None,
        tool: "stdio".into(),
        argv: vec!["-n".into(), "".into(), "a b".into()],
        role: None,
    });
    assert_eq!(line, format!("▶ 3fa2 {}… stdio -n \"\" \"a b\"", &caller.hex()[..4]));
}

#[test]
fn a_principal_without_an_email_falls_back_to_the_node() {
    assert_eq!(caller_label(node(1), &Some(principal(None))), short_node(node(1)));
}

#[test]
fn finished_line_has_exit_time_size_and_digest() {
    let out = vec![b'x'; 3174];
    let digest = blake3::hash(&out);
    let line = audit_line(&AuditRecord::Finished {
        call: call(),
        exit: 0,
        duration_ms: 41,
        stdout_bytes: out.len() as u64,
        stdout_digest: *digest.as_bytes(),
        stdin_bytes: 0,
        stdin_head: None,
    });
    assert_eq!(
        line,
        format!(
            "■ 3fa2 exit 0 · 41 ms · 3.1 KiB out · blake3 {}…",
            &digest.to_hex().to_string()[..4]
        )
    );
}

#[test]
fn finished_line_quotes_the_head_of_stdin() {
    let sql = "select customer,\n       sum(total)\n  from orders\n group by customer\n order by 2 desc\n limit 10;\n";
    let digest = blake3::hash(b"");
    let line = audit_line(&AuditRecord::Finished {
        call: call(),
        exit: 0,
        duration_ms: 8,
        stdout_bytes: 92,
        stdout_digest: *digest.as_bytes(),
        stdin_bytes: sql.len() as u64,
        stdin_head: Some(sql.into()),
    });
    assert_eq!(
        line,
        format!(
            "■ 3fa2 exit 0 · 8 ms · stdin \"select customer, sum(total) from orders group by customer order by 2 desc limit …\" · 92 B out · blake3 {}…",
            &digest.to_hex().to_string()[..4]
        )
    );
}

#[test]
fn stdin_preview_cuts_long_and_partial_input() {
    let long = "word ".repeat(40);
    let preview = stdin_preview(&long, long.len() as u64);
    assert!(preview.ends_with(" …\""), "{preview}");
    assert!(preview.chars().count() <= STDIN_PREVIEW_CHARS + 4, "{preview}");
    // A short head, but the call sent more than the head holds.
    assert_eq!(stdin_preview("abc", 10_000), "\"abc …\"");
    assert_eq!(stdin_preview("abc", 3), "\"abc\"");
    // Quotes and control characters are escaped, never raw.
    assert_eq!(stdin_preview("a\"b\u{1b}c", 5), "\"a\\\"b\\u{1b}c\"");
}

#[test]
fn denied_line_with_and_without_a_tool() {
    let caller = node(9);
    let short = format!("{}…", &caller.hex()[..4]);
    let with = audit_line(&AuditRecord::Denied {
        caller,
        tool: Some("db_query".into()),
        reason: "membership rejected: revoked".into(),
    });
    assert_eq!(with, format!("✗ {short} db_query denied: membership rejected: revoked"));
    let without = audit_line(&AuditRecord::Denied {
        caller,
        tool: None,
        reason: "roster inclusion rejected".into(),
    });
    assert_eq!(without, format!("✗ {short} denied: roster inclusion rejected"));
}

#[test]
fn identity_line_shows_the_verdict() {
    let claim = || IdentityClaim { node: node(3), issuer: None };
    let short8 = &node(3).hex()[..8];
    let record = ChannelRecord::Identity(claim());
    assert_eq!(
        record_line(&record, None),
        format!("🪪 {}… claims identity (not checked)", &node(3).hex()[..4])
    );
    let p = || Principal { org: None, ..principal(Some("alice@corp")) };
    assert_eq!(
        record_line(&record, Some(&Ok(p()))),
        format!("🪪 identity {short8} is alice@corp (verified by https://accounts.google.com)")
    );
    assert_eq!(
        record_line(&record, Some(&Err(VerifyError::Expired(p())))),
        format!("🪪 identity {short8} is alice@corp (expired)")
    );
    let line = record_line(&record, Some(&Err(VerifyError::Unavailable("down".into()))));
    assert!(line.contains("UNVERIFIED: issuer keys unavailable: down"), "{line}");
}

#[test]
fn a_hostile_email_cannot_break_the_identity_line() {
    let claim = IdentityClaim { node: node(3), issuer: None };
    let line = identity_line(
        &claim,
        Some(&Ok(principal(Some("a@b\n12:00:00 forged\u{1b}[2J")))),
    );
    assert!(!line.chars().any(char::is_control), "{line:?}");
}

#[test]
fn a_hostile_reason_cannot_break_the_line() {
    let line = audit_line(&AuditRecord::Denied {
        caller: node(2),
        tool: None,
        reason: "ok\n12:00:00 deadbeef ▶ forged\u{1b}[2J".into(),
    });
    assert!(!line.contains('\n'));
    assert!(!line.contains('\u{1b}'));
}

#[test]
fn human_bytes_examples() {
    assert_eq!(human_bytes(0), "0 B");
    assert_eq!(human_bytes(1023), "1023 B");
    assert_eq!(human_bytes(1024), "1.0 KiB");
    assert_eq!(human_bytes(3174), "3.1 KiB");
    assert_eq!(human_bytes(2 * 1024 * 1024), "2.0 MiB");
}

/// The floating-point rendering that the integer one stands for.
fn float_bytes(bytes: u64) -> String {
    const UNITS: [&str; 5] = ["B", "KiB", "MiB", "GiB", "TiB"];
    if bytes < 1024 {
        return format!("{bytes} B");
    }
    let mut value = bytes as f64;
    let mut unit = 0;
    while value >= 1024.0 && unit < UNITS.len() - 1 {
        value /= 1024.0;
        unit += 1;
    }
    format!("{value:.1} {}", UNITS[unit])
}

#[test]
fn human_bytes_rounds_as_a_float_does() {
    let mut seen = 0u32;
    for exponent in 0..64u32 {
        let base = 1u64 << exponent;
        for part in [0u64, 1, 51, 52, 99, 100, 153, 154, 511, 512, 513, 1000, 1023] {
            for n in [
                base.saturating_add(part),
                base.saturating_sub(part),
                base.saturating_add(base / 1024 * part),
                base.saturating_add(base / 20 * (part % 20)),
            ] {
                assert_eq!(human_bytes(n), float_bytes(n), "{n}");
                seen += 1;
            }
        }
    }
    let mut x = 0x9e37_79b9_7f4a_7c15u64;
    for _ in 0..20_000 {
        x ^= x << 13;
        x ^= x >> 7;
        x ^= x << 17;
        let n = x >> (x % 60);
        assert_eq!(human_bytes(n), float_bytes(n), "{n}");
    }
    assert_eq!(human_bytes(u64::MAX), float_bytes(u64::MAX));
    assert!(seen > 3000);
}

#[test]
fn any_stdin_renders_on_one_line() {
    for head in ["", "a\tb", "\u{0}", "\r\n\r\n", "\u{7f}\u{85}\u{9b}", "x\u{2028}y", "日本\n語"] {
        for extra in [0u64, 9] {
            let n = head.len() as u64 + extra;
            let line = audit_line(&finished(Some(head.into()), n));
            assert!(!line.chars().any(char::is_control), "{line:?}");
        }
    }
}

#[test]
fn any_argv_renders_on_one_line() {
    for role in [None, Some("a\nb".to_string())] {
        let line = audit_line(&AuditRecord::Started {
            call: call(),
            caller: node(4),
            principal: None,
            tool: "t".into(),
            argv: vec!["\n".into(), "\u{1b}[31m".into(), "plain".into(), "é\u{9f}".into()],
            role,
        });
        assert!(!line.chars().any(char::is_control), "{line:?}");
    }
}

#[test]
fn a_rekey_line_counts_its_members() {
    assert_eq!(
        rekey_line(&RekeyNotice { version: 3, members: 2 }),
        record_line(&ChannelRecord::Rekey(RekeyNotice { version: 3, members: 2 }), None)
    );
    assert_eq!(
        rekey_line(&RekeyNotice { version: 3, members: 1 }),
        "🔑 re-key to roster version 3 (1 member)"
    );
    assert_eq!(
        rekey_line(&RekeyNotice { version: 3, members: 2 }),
        "🔑 re-key to roster version 3 (2 members)"
    );
}

#[test]
fn short_forms_keep_four_characters() {
    assert_eq!(short_hex("3fa20000"), "3fa2");
    assert_eq!(short_hex("3f"), "3f");
    assert_eq!(short_node(NodeId { bytes: [0xab; 32] }), "abab…");
}

#[test]
fn summaries_ignore_what_a_heartbeat_changes() {
    let ann = |at, sealed: Vec<Vec<u8>>| HostAnnouncement {
        host: node(1),
        at_ms: at,
        heartbeat_ms: 5,
        open: Some(listing("status")),
        sealed,
    };
    let a = HostSummary::of(&ann(1, vec![vec![1]]));
    assert!(a.same(&HostSummary::of(&ann(2, vec![vec![2]]))));
    assert!(!a.same(&HostSummary::of(&ann(2, vec![]))));
}

#[test]
fn every_outcome_has_its_word() {
    for (outcome, word) in [
        (PushOutcome::Queued, "queued"),
        (PushOutcome::Delivered, "delivered"),
        (PushOutcome::Fetched, "fetched"),
        (PushOutcome::Expired, "expired"),
        (PushOutcome::Dropped, "dropped"),
        (PushOutcome::Denied, "denied"),
    ] {
        assert_eq!(outcome.as_str(), word);
    }
}

fn claim() -> IdentityClaim {
    IdentityClaim { node: NodeId { bytes: [5; 32] }, issuer: None }
}

fn alice() -> Principal {
    Principal {
        issuer: "https://accounts.google.com".into(),
        subject: "42".into(),
        email: Some("alice@example.com".into()),
        org: None,
    }
}

#[test]
fn each_verdict_renders_its_own_line() {
    let c = claim();
    let short = c.node.hex()[..8].to_string();
    assert_eq!(
        describe_identity(&c, &Ok(alice())),
        format!("identity {short} is alice@example.com (verified by https://accounts.google.com)")
    );
    let mut corp = alice();
    corp.org = Some("example.com".into());
    assert!(describe_identity(&c, &Ok(corp)).ends_with(", org example.com)"));
    let mut anon = alice();
    anon.email = None;
    assert!(describe_identity(&c, &Ok(anon)).contains("is 42 at https://accounts.google.com"));
    assert_eq!(
        describe_identity(&c, &Err(VerifyError::Expired(alice()))),
        format!("identity {short} is alice@example.com (expired)")
    );
    let bad: Verdict = Err(VerifyError::Rejected(format!("nonce does not bind {}", c.node.hex())));
    assert!(describe_identity(&c, &bad).starts_with(&format!("identity {short} UNVERIFIED: nonce")));
    let untrusted = describe_identity(
        &c,
        &Err(VerifyError::Untrusted("issuer https://x is not trusted".into())),
    );
    assert!(untrusted.contains("not trusted"));
}

#[test]
fn trust_defaults_to_google_and_splits_lists() {
    let t = IdpTrust::from_vars(None, Some("a, b,,"));
    assert_eq!(t.issuers, vec![DEFAULT_ISSUER.to_string()]);
    assert_eq!(t.audiences, vec!["a".to_string(), "b".to_string()]);
    let t = IdpTrust::from_vars(Some("https://one, https://two"), None);
    assert_eq!(t.issuers.len(), 2);
    assert!(t.audiences.is_empty());
    // Whatever the environment holds, there is always an issuer.
    assert!(!IdpTrust::from_vars(Some(" ,"), None).issuers.is_empty());
}

#[test]
fn per_issuer_audiences_do_not_leak_across_issuers() {
    let t = IdpTrust::per_issuer(vec![
        ("https://a".to_string(), vec!["x".to_string()]),
        ("https://b".to_string(), vec!["y".to_string()]),
    ]);
    assert_eq!(t.issuers, vec!["https://a".to_string(), "https://b".to_string()]);
    assert_eq!(t.audiences_for("https://a"), &vec!["x".to_string()]);
    assert_eq!(t.audiences_for("https://b"), &vec!["y".to_string()]);
    assert!(t.audiences_for("https://c").is_empty());
    // A token that doesn't even parse gets no audience at all.
    assert!(t.audiences_for_claim(&claim()).is_empty());
    // The environment form keeps one flat list for every issuer.
    let env = IdpTrust::from_vars(Some("https://a"), Some("z"));
    assert_eq!(env.audiences_for("https://a"), &vec!["z".to_string()]);
}

#[test]
fn lists_are_split_at_commas_and_trimmed() {
    assert_eq!(split_list(" a ,, b\t,"), vec!["a".to_string(), "b".to_string()]);
    assert!(split_list("").is_empty());
    assert_eq!(principal_name(&alice()), "alice@example.com");
}
