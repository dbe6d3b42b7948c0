//! A key-value service with one namespace for each verified person, so that
//! each caller sees only their own keys.

use vstd::prelude::*;

use crate::envelope::copy_bytes;
use crate::table::{mapping, rising, Table};
use crate::text::{same_text, texts};

verus! {

/// The largest value `set` keeps, in bytes.
pub const MAX_VALUE: usize = 1048576;

/// Whom a call is from: the issuer that verified them, and their subject there.
#[derive(Debug)]
pub struct Person {
    pub issuer: String,
    pub subject: String,
}

impl View for Person {
    type V = (Seq<char>, Seq<char>);

    open spec fn view(&self) -> (Seq<char>, Seq<char>) {
        (self.issuer@, self.subject@)
    }
}

impl Person {
    /// Whether this is the same person.
    pub fn same(&self, other: &Person) -> (same: bool)
        ensures
            same == (self@ == other@),
    {
        same_text(self.issuer.as_str(), other.issuer.as_str()) && same_text(
            self.subject.as_str(),
            other.subject.as_str(),
        )
    }

    /// A copy of this person.
    pub fn copy(&self) -> (copy: Person)
        ensures
            copy@ == self@,
    {
        Person { issuer: self.issuer.clone(), subject: self.subject.clone() }
    }
}

/// One person's keys and values.
pub type Keys = Map<Seq<char>, Seq<u8>>;

/// The store: each person's own keys.
#[derive(Debug)]
pub struct Kv {
    people: Vec<(Person, Table<Vec<u8>>)>,
}

/// What `call` writes to its standard output.
#[derive(Debug)]
pub enum Output {
    Nothing,
    Bytes(Vec<u8>),
    Text(String),
}

/// What a call leaves its caller with.
#[derive(Debug)]
pub struct Reply {
    pub stdout: Output,
    pub stderr: String,
    pub exit: i32,
}

/// What a call asks for.
pub ghost enum Asked {
    Put(Seq<char>),
    Get(Seq<char>),
    Keys,
    Other,
}

/// What a call's arguments ask for.
pub open spec fn asked(args: Seq<Seq<char>>) -> Asked {
    if args.len() == 2 && args[0] == "set"@ {
        Asked::Put(args[1])
    } else if args.len() == 2 && args[0] == "get"@ {
        Asked::Get(args[1])
    } else if args.len() == 1 && args[0] == "keys"@ {
        Asked::Keys
    } else {
        Asked::Other
    }
}

/// A person's keys; none before their first `set`.
pub open spec fn keys_of(
    store: Map<(Seq<char>, Seq<char>), Keys>,
    person: (Seq<char>, Seq<char>),
) -> Keys {
    if store.dom().contains(person) {
        store[person]
    } else {
        Map::empty()
    }
}

/// Whether `set` keeps what was read: all of it, and not over the limit.
pub open spec fn keeps(read: Option<Vec<u8>>) -> bool {
    read is Some && read->0@.len() <= MAX_VALUE
}

/// A store after a call: only a `set` whose value is kept changes it, and only
/// the caller's own keys.
pub open spec fn after_call(
    store: Map<(Seq<char>, Seq<char>), Keys>,
    person: (Seq<char>, Seq<char>),
    args: Seq<Seq<char>>,
    read: Option<Vec<u8>>,
) -> Map<(Seq<char>, Seq<char>), Keys> {
    match asked(args) {
        Asked::Put(key) => if keeps(read) {
            store.insert(person, keys_of(store, person).insert(key, read->0@))
        } else {
            store
        },
        _ => store,
    }
}

/// Each key on a line of its own.
pub open spec fn key_lines(rows: Seq<(Seq<char>, Seq<u8>)>) -> Seq<char>
    decreases rows.len(),
{
    if rows.len() == 0 {
        Seq::empty()
    } else {
        key_lines(rows.drop_last()) + rows.last().0 + "\n"@
    }
}

/// Whether `text` lists the keys, in their order.
pub open spec fn lists(keys: Keys, text: Seq<char>) -> bool {
    exists|rows: Seq<(Seq<char>, Seq<u8>)>|
        rising(rows) && mapping(rows) == keys && text == #[trigger] key_lines(rows)
}

/// What a call replies, given the caller's own keys.
pub open spec fn replies(
    keys: Keys,
    args: Seq<Seq<char>>,
    read: Option<Vec<u8>>,
    reply: Reply,
) -> bool {
    match asked(args) {
        Asked::Put(_) => {
            &&& reply.stdout is Nothing
            &&& reply.exit == if keeps(read) { 0i32 } else { 1i32 }
            &&& reply.stderr@ == if keeps(read) {
                ""@
            } else {
                "kv: value unreadable or over 1 MiB\n"@
            }
        },
        Asked::Get(key) => if keys.dom().contains(key) {
            &&& reply.stdout matches Output::Bytes(value) && value@ == keys[key]
            &&& reply.exit == 0
            &&& reply.stderr@ == ""@
        } else {
            &&& reply.stdout is Nothing
            &&& reply.exit == 1
            &&& reply.stderr@ == "kv: no such key\n"@
        },
        Asked::Keys => {
            &&& reply.stdout matches Output::Text(text) && lists(keys, text@)
            &&& reply.exit == 0
            &&& reply.stderr@ == ""@
        },
        Asked::Other => {
            &&& reply.stdout is Nothing
            &&& reply.exit == 2
            &&& reply.stderr@ == "usage: kv set KEY (value on stdin) | get KEY | keys\n"@
        },
    }
}

impl View for Kv {
    type V = Map<(Seq<char>, Seq<char>), Keys>;

    closed spec fn view(&self) -> Map<(Seq<char>, Seq<char>), Keys> {
        Map::new(
            |person: (Seq<char>, Seq<char>)| exists|i: int| self.is_at(person, i),
            |person: (Seq<char>, Seq<char>)|
                self.people@[choose|i: int| self.is_at(person, i)].1@,
        )
    }
}

impl Kv {
    /// The person stands at place `i`.
    spec fn is_at(&self, person: (Seq<char>, Seq<char>), i: int) -> bool {
        0 <= i < self.people@.len() && self.people@[i].0@ == person
    }

    /// Each person once, each with a table in order.
    pub closed spec fn wf(&self) -> bool {
        &&& forall|i: int| 0 <= i < self.people@.len() ==> (#[trigger] self.people@[i]).1.wf()
        &&& forall|i: int, j: int|
            0 <= i < j < self.people@.len() ==> (#[trigger] self.people@[i]).0@ != (
            #[trigger] self.people@[j]).0@
    }

    /// What a person's place says of the view.
    proof fn at_place(&self, person: (Seq<char>, Seq<char>), i: int)
        requires
            self.wf(),
            self.is_at(person, i),
        ensures
            self@.dom().contains(person),
            self@[person] == self.people@[i].1@,
    {
        let k = choose|k: int| self.is_at(person, k);
        assert(self.is_at(person, k));
        assert(self.people@[k].0@ == self.people@[i].0@);
    }

    /// A store without a key.
    pub fn new() -> (kv: Kv)
        ensures
            kv.wf(),
            kv@ == Map::<(Seq<char>, Seq<char>), Keys>::empty(),
    {
        let kv = Kv { people: Vec::new() };
        assert(kv@ =~= Map::<(Seq<char>, Seq<char>), Keys>::empty());
        kv
    }

    /// Where a person stands, or the number of people.
    fn position(&self, person: &Person) -> (at: usize)
        ensures
            at <= self.people@.len(),
            at < self.people@.len() ==> self.is_at(person@, at as int),
            at == self.people@.len() ==> !self@.dom().contains(person@),
    {
        let mut i: usize = 0;
        while i < self.people.len()
            invariant
                i <= self.people@.len(),
                forall|j: int| 0 <= j < i ==> (#[trigger] self.people@[j]).0@ != person@,
            decreases self.people@.len() - i,
        {
            if self.people[i].0.same(person) {
                return i;
            }
            i += 1;
        }
        proof {
            if self@.dom().contains(person@) {
                let k = choose|k: int| self.is_at(person@, k);
                assert(self.people@[k].0@ == person@);
            }
        }
        i
    }

    /// Put a value under a key of a person.
    fn set(&mut self, person: &Person, key: &String, value: Vec<u8>)
        requires
            old(self).wf(),
        ensures
            final(self).wf(),
            final(self)@ == old(self)@.insert(
                person@,
                keys_of(old(self)@, person@).insert(key@, value@),
            ),
    {
        let at: usize = self.position(person);
        let ghost before = *self;
        let ghost keys = keys_of(self@, person@).insert(key@, value@);
        if at < self.people.len() {
            proof {
                self.at_place(person@, at as int);
            }
            let (who, mut table) = self.people.remove(at);
            table.insert(key.clone(), value);
            self.people.insert(at, (who, table));
            proof {
                assert(self.people@ =~= before.people@.update(at as int, (who, table)));
                self.only_changed(&before, person@, at as int, keys);
            }
        } else {
            let mut table: Table<Vec<u8>> = Table::new();
            table.insert(key.clone(), value);
            let who = person.copy();
            proof {
                assert forall|i: int| 0 <= i < before.people@.len() implies (
                #[trigger] before.people@[i]).0@ != person@ by {
                    if before.people@[i].0@ == person@ {
                        assert(before.is_at(person@, i));
                    }
                }
            }
            self.people.push((who, table));
            proof {
                self.only_changed(&before, person@, at as int, keys);
            }
        }
    }

    /// A store whose one changed place is a person's is the store with that
    /// person's keys changed.
    proof fn only_changed(
        &self,
        before: &Kv,
        person: (Seq<char>, Seq<char>),
        at: int,
        keys: Keys,
    )
        requires
            before.wf(),
            self.wf(),
            self.is_at(person, at),
            self.people@[at].1@ == keys,
            self.people@.len() >= before.people@.len(),
            self.people@.len() <= before.people@.len() || at == before.people@.len(),
            self.people@.len() <= before.people@.len() + 1,
            at < before.people@.len() ==> before.is_at(person, at),
            forall|i: int|
                0 <= i < before.people@.len() && i != at ==> #[trigger] self.people@[i]
                    == before.people@[i],
        ensures
            self@ == before@.insert(person, keys),
    {
        let want = before@.insert(person, keys);
        assert forall|p: (Seq<char>, Seq<char>)|
            #![trigger self@.dom().contains(p)]
            self@.dom().contains(p) == want.dom().contains(p) && (want.dom().contains(p)
                ==> self@[p] == want[p]) by {
            if p == person {
                self.at_place(person, at);
            } else {
                if self@.dom().contains(p) {
                    let i = choose|i: int| self.is_at(p, i);
                    assert(i != at);
                    assert(self.people@[i] == before.people@[i]);
                    assert(before.is_at(p, i));
                    self.at_place(p, i);
                    before.at_place(p, i);
                }
                if before@.dom().contains(p) {
                    let i = choose|i: int| before.is_at(p, i);
                    assert(i != at);
                    assert(self.people@[i] == before.people@[i]);
                    assert(self.is_at(p, i));
                    self.at_place(p, i);
                    before.at_place(p, i);
                }
            }
        }
        assert(self@ =~= want);
    }

    /// The value under a key of a person.
    fn get(&self, person: &Person, key: &str) -> (found: Option<Vec<u8>>)
        requires
            self.wf(),
        ensures
            (found matches Some(value) ==> keys_of(self@, person@).dom().contains(key@) && value@
                == keys_of(self@, person@)[key@]),
            found is None ==> !keys_of(self@, person@).dom().contains(key@),
    {
        let at: usize = self.position(person);
        if at == self.people.len() {
            return None;
        }
        proof {
            self.at_place(person@, at as int);
        }
        match self.people[at].1.get(key) {
            Some(value) => Some(copy_bytes(value)),
            None => None,
        }
    }

    /// A person's keys, each on a line.
    fn listing(&self, person: &Person) -> (text: String)
        requires
            self.wf(),
        ensures
            lists(keys_of(self@, person@), text@),
    {
        let mut text = String::new();
        let at: usize = self.position(person);
        if at == self.people.len() {
            proof {
                let none = Seq::<(Seq<char>, Seq<u8>)>::empty();
                assert(mapping(none) =~= Map::<Seq<char>, Seq<u8>>::empty());
                assert(text@ =~= key_lines(none));
                assert(rising(none));
            }
            return text;
        }
        proof {
            self.at_place(person@, at as int);
        }
        let table = &self.people[at].1;
        let ghost rows = table.rows();
        let n: usize = table.len();
        let mut i: usize = 0;
        assert(rows.take(0) =~= Seq::<(Seq<char>, Seq<u8>)>::empty());
        assert(text@ =~= key_lines(rows.take(0)));
        while i < n
            invariant
                i <= n,
                n == rows.len(),
                rows == table.rows(),
                text@ == key_lines(rows.take(i as int)),
            decreases n - i,
        {
            text.append(table.key_at(i).as_str());
            text.append("\n");
            assert(rows.take(i + 1).drop_last() =~= rows.take(i as int));
            i += 1;
        }
        proof {
            assert(rows.take(rows.len() as int) =~= rows);
            table.rows_rise();
            table.view_is_mapping();
        }
        text
    }

    /// Answer a call of `person`; `read` is what came on its standard input,
    /// which is read for a `set` alone, up to one byte over the limit.
    pub fn call(&mut self, person: &Person, args: &Vec<String>, read: Option<Vec<u8>>) -> (reply:
        Reply)
        requires
            old(self).wf(),
        ensures
            final(self).wf(),
            final(self)@ == after_call(old(self)@, person@, texts(args@), read),
            replies(keys_of(old(self)@, person@), texts(args@), read, reply),
    {
        let ghost words = texts(args@);
        if args.len() == 2 && same_text(args[0].as_str(), "set") {
            assert(words[0] == args@[0]@ && words[1] == args@[1]@);
            return match read {
                Some(value) => {
                    if value.len() > MAX_VALUE {
                        over_limit()
                    } else {
                        self.set(person, &args[1], value);
                        done(Output::Nothing)
                    }
                },
                None => over_limit(),
            };
        }
        if args.len() == 2 && same_text(args[0].as_str(), "get") {
            assert(words[0] == args@[0]@ && words[1] == args@[1]@);
            proof {
                reveal_strlit("set");
                reveal_strlit("get");
            }
            return match self.get(person, args[1].as_str()) {
                Some(value) => done(Output::Bytes(value)),
                None => failed("kv: no such key\n", 1),
            };
        }
        if args.len() == 1 && same_text(args[0].as_str(), "keys") {
            assert(words[0] == args@[0]@);
            return done(Output::Text(self.listing(person)));
        }
        proof {
            if args@.len() > 0 {
                assert(words[0] == args@[0]@);
            }
        }
        failed("usage: kv set KEY (value on stdin) | get KEY | keys\n", 2)
    }
}

/// A call that went well.
fn done(stdout: Output) -> (reply: Reply)
    ensures
        reply.stdout == stdout,
        reply.stderr@ == ""@,
        reply.exit == 0,
{
    Reply { stdout, stderr: "".to_owned(), exit: 0 }
}

/// A call that went wrong.
fn failed(stderr: &str, exit: i32) -> (reply: Reply)
    ensures
        reply.stdout is Nothing,
        reply.stderr@ == stderr@,
        reply.exit == exit,
{
    Reply { stdout: Output::Nothing, stderr: stderr.to_owned(), exit }
}

/// A value that could not be read, or is over the limit.
fn over_limit() -> (reply: Reply)
    ensures
        reply.stdout is Nothing,
        reply.stderr@ == "kv: value unreadable or over 1 MiB\n"@,
        reply.exit == 1,
{
    failed("kv: value unreadable or over 1 MiB\n", 1)
}

/// A value that was set is what the same person gets under its key.
pub proof fn a_set_value_is_read_back(
    store: Map<(Seq<char>, Seq<char>), Keys>,
    person: (Seq<char>, Seq<char>),
    key: Seq<char>,
    read: Option<Vec<u8>>,
    reply: Reply,
)
    requires
        keeps(read),
        replies(
            keys_of(after_call(store, person, seq!["set"@, key], read), person),
            seq!["get"@, key],
            None,
            reply,
        ),
    ensures
        reply.stdout matches Output::Bytes(value) && value@ == read->0@,
        reply.exit == 0,
{
    reveal_strlit("set");
    reveal_strlit("get");
    assert("set"@[0] == 's' && "get"@[0] == 'g');
}

/// Nobody sees or changes another person's keys: a call leaves the keys of
/// everyone else as they were.
pub proof fn nobody_touches_anothers_keys(
    store: Map<(Seq<char>, Seq<char>), Keys>,
    person: (Seq<char>, Seq<char>),
    other: (Seq<char>, Seq<char>),
    args: Seq<Seq<char>>,
    read: Option<Vec<u8>>,
)
    requires
        person != other,
    ensures
        keys_of(after_call(store, person, args, read), other) == keys_of(store, other),
{
}

/// What a call changes: a value of at most the limit that is set stands under its key
/// for its person, and every other key of theirs is as it was; a value that is
/// missing or too long changes nothing, and neither does a call that sets nothing.
pub proof fn only_a_kept_value_changes_the_store(
    store: Map<(Seq<char>, Seq<char>), Keys>,
    person: (Seq<char>, Seq<char>),
    args: Seq<Seq<char>>,
    read: Option<Vec<u8>>,
    other: Seq<char>,
)
    ensures
        ({
            let after = after_call(store, person, args, read);
            let sets = args.len() == 2 && args[0] == seq!['s', 'e', 't'];
            let fits = read is Some && read->0@.len() <= 1048576;
            &&& !sets || !fits ==> after == store
            &&& sets && fits ==> {
                &&& keys_of(after, person).dom().contains(args[1])
                &&& keys_of(after, person)[args[1]] == read->0@
                &&& other != args[1] ==> keys_of(after, person).dom().contains(other) == keys_of(
                    store,
                    person,
                ).dom().contains(other) && keys_of(after, person)[other] == keys_of(
                    store,
                    person,
                )[other]
            }
        }),
{
    words_of_a_call();
}

proof fn words_of_a_call()
    ensures
        "set"@ == seq!['s', 'e', 't'],
        "get"@ == seq!['g', 'e', 't'],
        "keys"@ == seq!['k', 'e', 'y', 's'],
{
    reveal_strlit("set");
    reveal_strlit("get");
    reveal_strlit("keys");
    assert("set"@ =~= seq!['s', 'e', 't']);
    assert("get"@ =~= seq!['g', 'e', 't']);
    assert("keys"@ =~= seq!['k', 'e', 'y', 's']);
}

/// What a call is answered: nothing, with success, for a value that was kept, and a
/// failure for one that was not; the very value of a key, and a failure for a key
/// that is not there; the list of keys; and a usage error for anything else.
pub proof fn a_call_is_answered(
    keys: Keys,
    args: Seq<Seq<char>>,
    read: Option<Vec<u8>>,
    reply: Reply,
)
    requires
        replies(keys, args, read, reply),
    ensures
        ({
            let sets = args.len() == 2 && args[0] == seq!['s', 'e', 't'];
            let gets = args.len() == 2 && args[0] == seq!['g', 'e', 't'];
            let asks = args.len() == 1 && args[0] == seq!['k', 'e', 'y', 's'];
            let fits = read is Some && read->0@.len() <= 1048576;
            let there = gets && keys.dom().contains(args[1]);
            &&& reply.exit == if (sets && fits) || there || asks {
                0
            } else if sets || gets {
                1int
            } else {
                2
            }
            &&& there ==> (reply.stdout matches Output::Bytes(value) && value@ == keys[args[1]])
            &&& asks ==> (reply.stdout matches Output::Text(text) && lists(keys, text@))
            &&& !there && !asks ==> reply.stdout is Nothing
            &&& (reply.exit == 0) == (reply.stderr@.len() == 0)
        }),
{
    words_of_a_call();
    reveal_strlit("");
    reveal_strlit("kv: value unreadable or over 1 MiB\n");
    reveal_strlit("kv: no such key\n");
    reveal_strlit("usage: kv set KEY (value on stdin) | get KEY | keys\n");
}

/// Keys are listed one a line, in the order of their rows.
pub proof fn keys_are_listed_one_a_line(
    rows: Seq<(Seq<char>, Seq<u8>)>,
    key: Seq<char>,
    value: Seq<u8>,
)
    ensures
        key_lines(Seq::empty()) == Seq::<char>::empty(),
        key_lines(rows.push((key, value))) == key_lines(rows) + key + seq!['\n'],
{
    reveal_strlit("\n");
    assert("\n"@ =~= seq!['\n']);
    assert(rows.push((key, value)).drop_last() =~= rows);
}

} // verus!
