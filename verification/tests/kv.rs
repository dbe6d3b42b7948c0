//! The key-value service.

use wires::kv::{Kv, Output, Person, Reply, MAX_VALUE};

fn person(subject: &str) -> Person {
    Person { issuer: "https://idp".into(), subject: subject.into() }
}

fn call(kv: &mut Kv, who: &str, args: &[&str], stdin: Option<&[u8]>) -> Reply {
    let args = args.iter().map(|a| a.to_string()).collect();
    kv.call(&person(who), &args, stdin.map(<[u8]>::to_vec))
}

fn bytes(reply: Reply) -> Vec<u8> {
    assert_eq!((reply.exit, reply.stderr.as_str()), (0, ""));
    match reply.stdout {
        Output::Bytes(b) => b,
        Output::Text(t) => t.into_bytes(),
        Output::Nothing => vec![],
    }
}

#[test]
fn a_value_is_read_back_by_its_owner_alone() {
    let mut kv = Kv::new();
    assert_eq!(bytes(call(&mut kv, "alice", &["set", "greeting"], Some(b"hello\n"))), b"");
    assert_eq!(bytes(call(&mut kv, "alice", &["get", "greeting"], None)), b"hello\n");
    let other = call(&mut kv, "bob", &["get", "greeting"], None);
    assert_eq!((other.exit, other.stderr.as_str()), (1, "kv: no such key\n"));
    assert_eq!(bytes(call(&mut kv, "bob", &["keys"], None)), b"");
    // The same subject at another issuer is another person.
    let stranger = Person { issuer: "https://other".into(), subject: "alice".into() };
    assert_eq!(kv.call(&stranger, &vec!["get".into(), "greeting".into()], None).exit, 1);
}

#[test]
fn each_verified_person_gets_their_own_kv() {
    let mut kv = Kv::new();
    for (who, value) in [("alice", "alice's"), ("bob", "bob's")] {
        let set = call(&mut kv, who, &["set", "k"], Some(value.as_bytes()));
        assert_eq!(bytes(set), b"");
    }
    assert_eq!(bytes(call(&mut kv, "alice", &["get", "k"], None)), b"alice's");
    assert_eq!(bytes(call(&mut kv, "bob", &["get", "k"], None)), b"bob's");
}

#[test]
fn keys_are_listed_in_order() {
    let mut kv = Kv::new();
    for key in ["b", "a", "ab", "é", "Z"] {
        call(&mut kv, "alice", &["set", key], Some(b"1"));
    }
    call(&mut kv, "alice", &["set", "a"], Some(b"2"));
    let mut want: Vec<&str> = vec!["b", "a", "ab", "é", "Z"];
    want.sort();
    let listing: String = want.iter().map(|k| format!("{k}\n")).collect();
    assert_eq!(bytes(call(&mut kv, "alice", &["keys"], None)), listing.into_bytes());
    assert_eq!(bytes(call(&mut kv, "alice", &["get", "a"], None)), b"2");
}

#[test]
fn a_value_over_the_limit_is_refused() {
    let mut kv = Kv::new();
    let full = vec![7u8; MAX_VALUE];
    assert_eq!(call(&mut kv, "alice", &["set", "k"], Some(&full)).exit, 0);
    for read in [Some(vec![7u8; MAX_VALUE + 1]), None] {
        let reply = kv.call(&person("alice"), &vec!["set".into(), "k".into()], read);
        assert_eq!(reply.exit, 1);
        assert_eq!(reply.stderr, "kv: value unreadable or over 1 MiB\n");
    }
    assert_eq!(bytes(call(&mut kv, "alice", &["get", "k"], None)).len(), MAX_VALUE);
}

#[test]
fn anything_else_is_a_usage_error() {
    let mut kv = Kv::new();
    for args in [&[][..], &["set"], &["get"], &["keys", "x"], &["del", "k"], &["set", "k", "v"]] {
        let reply = call(&mut kv, "alice", args, Some(b"v"));
        assert_eq!(reply.exit, 2);
        assert_eq!(reply.stderr, "usage: kv set KEY (value on stdin) | get KEY | keys\n");
        assert!(matches!(reply.stdout, Output::Nothing));
    }
}
