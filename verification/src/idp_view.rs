//! Which identity providers a reader trusts, and how it shows a claim.

use vstd::prelude::*;

use crate::ids::NodeId;
use crate::records::{IdentityClaim, Principal, VerifyError};
use crate::text::{
    char_is_whitespace, chars_of, hex, is_whitespace, same_text, string_of, texts,
};

verus! {

/// The issuer trusted when none is named.
pub const DEFAULT_ISSUER: &'static str = "https://accounts.google.com";

/// Which issuers and audiences a reader accepts identity claims from.
#[derive(Debug, PartialEq, Eq)]
pub struct IdpTrust {
    /// Issuers whose keys this reader will fetch and trust.
    pub issuers: Vec<String>,
    /// Accepted audiences from any issuer without an entry in `by_issuer`.
    pub audiences: Vec<String>,
    /// Accepted audiences per issuer, which replace `audiences` for it.
    pub by_issuer: Vec<(String, Vec<String>)>,
}

/// The verdict a reader reached on an identity claim.
pub type Verdict = Result<Principal, VerifyError>;

/// `s` without white space at its start.
pub open spec fn trimmed_start(s: Seq<char>) -> Seq<char>
    decreases s.len(),
{
    if s.len() > 0 && is_whitespace(s[0]) {
        trimmed_start(s.drop_first())
    } else {
        s
    }
}

/// `s` without white space at its end.
pub open spec fn trimmed_end(s: Seq<char>) -> Seq<char>
    decreases s.len(),
{
    if s.len() > 0 && is_whitespace(s.last()) {
        trimmed_end(s.drop_last())
    } else {
        s
    }
}

/// The pieces of `s` between commas: always at least one.
pub open spec fn comma_parts(s: Seq<char>) -> Seq<Seq<char>>
    decreases s.len(),
{
    if s.len() == 0 {
        seq![Seq::empty()]
    } else {
        let before = comma_parts(s.drop_last());
        if s.last() == ',' {
            before.push(Seq::empty())
        } else {
            before.drop_last().push(before.last().push(s.last()))
        }
    }
}

/// The pieces that are left of a list once each is trimmed and the empty ones
/// are dropped.
pub open spec fn kept_parts(parts: Seq<Seq<char>>) -> Seq<Seq<char>>
    decreases parts.len(),
{
    if parts.len() == 0 {
        Seq::empty()
    } else {
        let piece = trimmed_end(trimmed_start(parts.last()));
        let before = kept_parts(parts.drop_last());
        if piece.len() == 0 {
            before
        } else {
            before.push(piece)
        }
    }
}

/// The entries of a comma-separated setting; an absent one has none.
pub open spec fn entries(setting: Option<Seq<char>>) -> Seq<Seq<char>> {
    match setting {
        Some(s) => kept_parts(comma_parts(s)),
        None => Seq::empty(),
    }
}

/// The pieces of a text always include the one after the last comma.
proof fn comma_parts_nonempty(s: Seq<char>)
    ensures
        comma_parts(s).len() >= 1,
    decreases s.len(),
{
    if s.len() > 0 {
        comma_parts_nonempty(s.drop_last());
    }
}

/// The characters of `chars[from..to]`, without white space at either end.
fn trim(chars: &Vec<char>, from: usize, to: usize) -> (piece: String)
    requires
        from <= to <= chars@.len(),
    ensures
        piece@ == trimmed_end(trimmed_start(chars@.subrange(from as int, to as int))),
{
    let ghost whole = chars@.subrange(from as int, to as int);
    let mut a: usize = from;
    while a < to && char_is_whitespace(chars[a])
        invariant
            from <= a <= to <= chars@.len(),
            trimmed_start(whole) == trimmed_start(chars@.subrange(a as int, to as int)),
        decreases to - a,
    {
        assert(chars@.subrange(a as int, to as int).drop_first() =~= chars@.subrange(
            a + 1,
            to as int,
        ));
        a += 1;
    }
    assert(trimmed_start(whole) == chars@.subrange(a as int, to as int));
    let mut b: usize = to;
    while a < b && char_is_whitespace(chars[b - 1])
        invariant
            from <= a <= b <= to <= chars@.len(),
            trimmed_end(trimmed_start(whole)) == trimmed_end(
                chars@.subrange(a as int, b as int),
            ),
        decreases b - a,
    {
        assert(chars@.subrange(a as int, b as int).drop_last() =~= chars@.subrange(
            a as int,
            b - 1,
        ));
        b -= 1;
    }
    string_of(chars, a, b)
}

/// The entries of a comma-separated list, trimmed, without empty ones.
pub fn split_list(s: &str) -> (list: Vec<String>)
    ensures
        texts(list@) == entries(Some(s@)),
{
    let chars = chars_of(s);
    let mut out: Vec<String> = Vec::new();
    let mut start: usize = 0;
    let mut i: usize = 0;
    assert(comma_parts(chars@.take(0)).drop_last() =~= Seq::<Seq<char>>::empty());
    assert(texts(out@) =~= Seq::<Seq<char>>::empty());
    assert(chars@.subrange(0, 0) =~= Seq::<char>::empty());
    while i < chars.len()
        invariant
            start <= i <= chars@.len(),
            comma_parts(chars@.take(i as int)).len() >= 1,
            comma_parts(chars@.take(i as int)).last() == chars@.subrange(start as int, i as int),
            texts(out@) == kept_parts(comma_parts(chars@.take(i as int)).drop_last()),
        decreases chars@.len() - i,
    {
        let ghost before = comma_parts(chars@.take(i as int));
        assert(chars@.take(i + 1).drop_last() =~= chars@.take(i as int));
        assert(chars@.take(i + 1).last() == chars@[i as int]);
        if chars[i] == ',' {
            let piece = trim(&chars, start, i);
            let ghost now = comma_parts(chars@.take(i + 1));
            assert(now.drop_last() =~= before);
            if !piece.as_str().is_empty() {
                let ghost kept = out@;
                out.push(piece);
                assert(texts(out@) =~= texts(kept).push(piece@));
            }
            start = i + 1;
            assert(chars@.subrange(start as int, i + 1) =~= Seq::<char>::empty());
        } else {
            assert(chars@.subrange(start as int, i as int).push(chars@[i as int])
                =~= chars@.subrange(start as int, i + 1));
            assert(comma_parts(chars@.take(i + 1)).drop_last() =~= before.drop_last());
        }
        i += 1;
    }
    assert(chars@.take(chars@.len() as int) =~= chars@);
    let piece = trim(&chars, start, i);
    if !piece.as_str().is_empty() {
        let ghost kept = out@;
        out.push(piece);
        assert(texts(out@) =~= texts(kept).push(piece@));
    }
    out
}

/// The entry of the first issuer in `list` named `issuer`, if any.
pub open spec fn first_entry(list: Seq<(String, Vec<String>)>, issuer: Seq<char>) -> Option<
    Seq<Seq<char>>,
>
    decreases list.len(),
{
    if list.len() == 0 {
        None
    } else if list[0].0@ == issuer {
        Some(texts(list[0].1@))
    } else {
        first_entry(list.drop_first(), issuer)
    }
}

impl IdpTrust {
    /// The audiences accepted from `issuer`: its own list if it has one, else
    /// the common one.
    pub open spec fn accepted_from(&self, issuer: Seq<char>) -> Seq<Seq<char>> {
        match first_entry(self.by_issuer@, issuer) {
            Some(list) => list,
            None => texts(self.audiences@),
        }
    }

    /// Exactly these issuers, each with its own accepted audiences. An
    /// audience accepted from one issuer is not accepted from another.
    pub fn per_issuer(issuers: Vec<(String, Vec<String>)>) -> (trust: IdpTrust)
        ensures
            trust.by_issuer == issuers,
            trust.audiences@.len() == 0,
            texts(trust.issuers@) == issuers@.map_values(|e: (String, Vec<String>)| e.0@),
    {
        let mut names: Vec<String> = Vec::new();
        let mut i: usize = 0;
        let ghost all = issuers@.map_values(|e: (String, Vec<String>)| e.0@);
        while i < issuers.len()
            invariant
                i <= issuers@.len(),
                all == issuers@.map_values(|e: (String, Vec<String>)| e.0@),
                texts(names@) == all.take(i as int),
            decreases issuers@.len() - i,
        {
            let ghost before = names@;
            let next = issuers[i].0.clone();
            names.push(next);
            proof {
                crate::text::texts_push(before, next);
            }
            assert(all.take(i + 1) =~= all.take(i as int).push(issuers@[i as int].0@));
            i += 1;
        }
        assert(all.take(issuers@.len() as int) =~= all);
        IdpTrust { issuers: names, audiences: Vec::new(), by_issuer: issuers }
    }

    /// The audiences accepted from `issuer`.
    pub fn audiences_for(&self, issuer: &str) -> (accepted: &Vec<String>)
        ensures
            texts(accepted@) == self.accepted_from(issuer@),
    {
        let mut i: usize = 0;
        assert(self.by_issuer@.skip(0) =~= self.by_issuer@);
        while i < self.by_issuer.len()
            invariant
                i <= self.by_issuer@.len(),
                first_entry(self.by_issuer@, issuer@) == first_entry(
                    self.by_issuer@.skip(i as int),
                    issuer@,
                ),
            decreases self.by_issuer@.len() - i,
        {
            if same_text(self.by_issuer[i].0.as_str(), issuer) {
                return &self.by_issuer[i].1;
            }
            assert(self.by_issuer@.skip(i as int).drop_first() =~= self.by_issuer@.skip(i + 1));
            i += 1;
        }
        &self.audiences
    }

    /// The audiences to verify `claim` against: those of the issuer it names
    /// (verification then checks that very issuer), or the common ones when it
    /// names none.
    pub fn audiences_for_claim(&self, claim: &IdentityClaim) -> (accepted: &Vec<String>)
        ensures
            texts(accepted@) == match claim.issuer {
                Some(issuer) => self.accepted_from(issuer@),
                None => texts(self.audiences@),
            },
    {
        match &claim.issuer {
            Some(issuer) => self.audiences_for(issuer.as_str()),
            None => &self.audiences,
        }
    }

    /// The trust that two comma-separated settings describe: the issuers
    /// ([`DEFAULT_ISSUER`] when none is named) and the audiences.
    pub fn from_vars(issuers: Option<&str>, audiences: Option<&str>) -> (trust: IdpTrust)
        ensures
            ({
                let named = entries(
                    match issuers {
                        Some(s) => Some(s@),
                        None => None,
                    },
                );
                texts(trust.issuers@) == if named.len() == 0 {
                    seq![DEFAULT_ISSUER@]
                } else {
                    named
                }
            }),
            texts(trust.audiences@) == entries(
                match audiences {
                    Some(s) => Some(s@),
                    None => None,
                },
            ),
            trust.by_issuer@.len() == 0,
    {
        let mut iss: Vec<String> = match issuers {
            Some(s) => split_list(s),
            None => Vec::new(),
        };
        assert(issuers is None ==> texts(iss@) =~= Seq::<Seq<char>>::empty());
        if iss.len() == 0 {
            iss.push(DEFAULT_ISSUER.to_owned());
            assert(texts(iss@) =~= seq![DEFAULT_ISSUER@]);
        }
        let auds: Vec<String> = match audiences {
            Some(s) => split_list(s),
            None => Vec::new(),
        };
        assert(audiences is None ==> texts(auds@) =~= Seq::<Seq<char>>::empty());
        IdpTrust { issuers: iss, audiences: auds, by_issuer: Vec::new() }
    }
}

/// What one issuer's list holds decides nothing for another issuer: with
/// per-issuer lists, an issuer is accepted exactly the audiences of its own
/// entry, and an issuer without an entry none.
pub proof fn per_issuer_audiences_do_not_leak(
    trust: IdpTrust,
    list: Seq<(String, Vec<String>)>,
    issuer: Seq<char>,
)
    requires
        trust.by_issuer@ == list,
        trust.audiences@.len() == 0,
    ensures
        trust.accepted_from(issuer) == match first_entry(list, issuer) {
            Some(own) => own,
            None => Seq::<Seq<char>>::empty(),
        },
        (forall|i: int| 0 <= i < list.len() ==> (#[trigger] list[i]).0@ != issuer)
            ==> trust.accepted_from(issuer).len() == 0,
{
    assert(texts(trust.audiences@) =~= Seq::<Seq<char>>::empty());
    if forall|i: int| 0 <= i < list.len() ==> (#[trigger] list[i]).0@ != issuer {
        no_entry(list, issuer);
    }
}

/// A list without the issuer has no entry for it.
proof fn no_entry(list: Seq<(String, Vec<String>)>, issuer: Seq<char>)
    requires
        forall|i: int| 0 <= i < list.len() ==> (#[trigger] list[i]).0@ != issuer,
    ensures
        first_entry(list, issuer) is None,
    decreases list.len(),
{
    if list.len() > 0 {
        assert forall|i: int| 0 <= i < list.drop_first().len() implies (
        #[trigger] list.drop_first()[i]).0@ != issuer by {
            assert(list.drop_first()[i] == list[i + 1]);
        }
        no_entry(list.drop_first(), issuer);
    }
}

/// The name of a principal: the verified email, else `sub` at the issuer.
pub open spec fn name_of(p: Principal) -> Seq<char> {
    match p.email {
        Some(email) => email@,
        None => p.subject@ + " at "@ + p.issuer@,
    }
}

/// The name of a principal: the verified email, else `sub` at the issuer.
pub fn principal_name(p: &Principal) -> (name: String)
    ensures
        name@ == name_of(*p),
{
    match &p.email {
        Some(email) => email.clone(),
        None => {
            let mut name = p.subject.clone();
            name.append(" at ");
            name.append(p.issuer.as_str());
            name
        },
    }
}

/// The first eight hexadecimal characters of a node id.
pub open spec fn short8(node: NodeId) -> Seq<char> {
    hex(node.bytes@).take(8)
}

/// The first eight hexadecimal characters of the claiming node.
fn short(claim: &IdentityClaim) -> (text: String)
    ensures
        text@ == short8(claim.node),
{
    crate::printer::short_id(claim.node)
}

/// The line a reader prints for an identity claim, given its verdict.
pub open spec fn identity_text(claim: IdentityClaim, verdict: Verdict) -> Seq<char> {
    let who = "identity "@ + short8(claim.node);
    match verdict {
        Ok(p) => {
            let named = who + " is "@ + name_of(p) + " (verified by "@ + p.issuer@;
            match p.org {
                Some(org) => named + ", org "@ + org@ + ")"@,
                None => named + ")"@,
            }
        },
        Err(VerifyError::Expired(p)) => who + " is "@ + name_of(p) + " (expired)"@,
        Err(VerifyError::Unavailable(why)) => who + " UNVERIFIED: "@ + (
        "issuer keys unavailable: "@ + why@),
        Err(VerifyError::Rejected(reason)) => who + " UNVERIFIED: "@ + reason@,
        Err(VerifyError::Untrusted(reason)) => who + " UNVERIFIED: "@ + reason@,
    }
}

/// The line that shows an identity claim: the verified principal, `(expired)`,
/// or why it did not verify.
pub fn describe_identity(claim: &IdentityClaim, verdict: &Verdict) -> (line: String)
    ensures
        line@ == identity_text(*claim, *verdict),
{
    let mut line = "identity ".to_owned();
    let who = short(claim);
    line.append(who.as_str());
    match verdict {
        Ok(p) => {
            line.append(" is ");
            let name = principal_name(p);
            line.append(name.as_str());
            line.append(" (verified by ");
            line.append(p.issuer.as_str());
            match &p.org {
                Some(org) => {
                    line.append(", org ");
                    line.append(org.as_str());
                },
                None => {},
            }
            line.append(")");
        },
        Err(VerifyError::Expired(p)) => {
            line.append(" is ");
            let name = principal_name(p);
            line.append(name.as_str());
            line.append(" (expired)");
        },
        Err(VerifyError::Unavailable(why)) => {
            line.append(" UNVERIFIED: ");
            let mut reason = "issuer keys unavailable: ".to_owned();
            reason.append(why.as_str());
            line.append(reason.as_str());
        },
        Err(VerifyError::Rejected(reason)) => {
            line.append(" UNVERIFIED: ");
            line.append(reason.as_str());
        },
        Err(VerifyError::Untrusted(reason)) => {
            line.append(" UNVERIFIED: ");
            line.append(reason.as_str());
        },
    }
    line
}

/// Trimming drops white space at both ends and nothing else.
pub proof fn trimming_drops_only_white_space(s: Seq<char>) -> (span: (int, int))
    ensures
        ({
            let t = trimmed_end(trimmed_start(s));
            let (from, to) = span;
            &&& 0 <= from <= to <= s.len()
            &&& t == s.subrange(from, to)
            &&& forall|i: int|
                0 <= i < s.len() && (i < from || i >= to) ==> is_whitespace(#[trigger] s[i])
            &&& t.len() > 0 ==> !is_whitespace(t[0]) && !is_whitespace(t.last())
        }),
{
    let from = start_drops(s);
    let front = trimmed_start(s);
    let kept = end_drops(front);
    let t = trimmed_end(front);
    assert(t =~= s.subrange(from, from + kept));
    assert forall|i: int| 0 <= i < s.len() && (i < from || i >= from + kept) implies is_whitespace(
        #[trigger] s[i],
    ) by {
        if i >= from {
            assert(front[i - from] == s[i]);
        }
    }
    if t.len() > 0 {
        assert(t[0] == front[0]);
    }
    (from, from + kept)
}

proof fn start_drops(s: Seq<char>) -> (from: int)
    ensures
        0 <= from <= s.len(),
        trimmed_start(s) == s.skip(from),
        forall|i: int| 0 <= i < from ==> is_whitespace(#[trigger] s[i]),
        from < s.len() ==> !is_whitespace(s[from]),
    decreases s.len(),
{
    if s.len() > 0 && is_whitespace(s[0]) {
        let rest = s.drop_first();
        let from = start_drops(rest);
        assert(rest.skip(from) =~= s.skip(from + 1));
        assert forall|i: int| 0 <= i < from + 1 implies is_whitespace(#[trigger] s[i]) by {
            if i > 0 {
                assert(rest[i - 1] == s[i]);
            }
        }
        from + 1
    } else {
        assert(s.skip(0) =~= s);
        0
    }
}

proof fn end_drops(s: Seq<char>) -> (kept: int)
    ensures
        0 <= kept <= s.len(),
        trimmed_end(s) == s.take(kept),
        forall|i: int| kept <= i < s.len() ==> is_whitespace(#[trigger] s[i]),
        kept > 0 ==> !is_whitespace(s[kept - 1]),
    decreases s.len(),
{
    if s.len() > 0 && is_whitespace(s.last()) {
        let rest = s.drop_last();
        let kept = end_drops(rest);
        assert(rest.take(kept) =~= s.take(kept));
        assert forall|i: int| kept <= i < s.len() implies is_whitespace(#[trigger] s[i]) by {
            if i < rest.len() {
                assert(rest[i] == s[i]);
            }
        }
        kept
    } else {
        assert(s.take(s.len() as int) =~= s);
        s.len() as int
    }
}

/// A list is parted at its commas: no part has one, and joined by commas the parts
/// are the list again.
pub proof fn a_list_is_parted_at_its_commas(s: Seq<char>, i: int)
    ensures
        comma_parts(s).len() > 0,
        crate::text::joined(comma_parts(s), seq![',']) == s,
        0 <= i < comma_parts(s).len() ==> !comma_parts(s)[i].contains(','),
    decreases s.len(),
{
    let sep = seq![','];
    if s.len() == 0 {
        assert(comma_parts(s)[0] =~= s);
    } else {
        let before = comma_parts(s.drop_last());
        let parts = comma_parts(s);
        a_list_is_parted_at_its_commas(s.drop_last(), i);
        a_list_is_parted_at_its_commas(s.drop_last(), before.len() - 1);
        assert(s =~= s.drop_last().push(s.last()));
        if s.last() == ',' {
            assert(parts.drop_last() =~= before);
            assert(crate::text::joined(parts, sep) =~= s);
        } else {
            assert(parts.drop_last() =~= before.drop_last());
            assert(parts.last() == before.last().push(s.last()));
            assert(crate::text::joined(parts, sep) =~= s);
            if i == parts.len() - 1 {
                assert forall|k: int| 0 <= k < parts[i].len() implies parts[i][k] != ',' by {
                    if k < before.last().len() {
                        assert(before.last().contains(before.last()[k]));
                    }
                }
            }
        }
    }
}

/// The entries of a list are its parts, trimmed, without the empty ones, in their
/// order.
pub proof fn entries_are_the_parts_that_say_something(
    a: Seq<Seq<char>>,
    b: Seq<Seq<char>>,
    part: Seq<char>,
)
    ensures
        kept_parts(a + b) == kept_parts(a) + kept_parts(b),
        kept_parts(seq![part]) == if trimmed_end(trimmed_start(part)).len() == 0 {
            Seq::empty()
        } else {
            seq![trimmed_end(trimmed_start(part))]
        },
        entries(None) == Seq::<Seq<char>>::empty(),
        entries(Some(part)) == kept_parts(comma_parts(part)),
    decreases b.len(),
{
    let none = Seq::<Seq<char>>::empty();
    assert(seq![part].drop_last() =~= none);
    assert(kept_parts(seq![part].drop_last()) =~= none);
    assert(none.push(trimmed_end(trimmed_start(part))) =~= seq![trimmed_end(trimmed_start(part))]);
    if b.len() == 0 {
        assert(a + b =~= a);
        assert(kept_parts(a) + kept_parts(b) =~= kept_parts(a));
    } else {
        entries_are_the_parts_that_say_something(a, b.drop_last(), part);
        assert((a + b).drop_last() =~= a + b.drop_last());
        assert((a + b).last() == b.last());
        assert(kept_parts(a + b) =~= kept_parts(a) + kept_parts(b));
    }
}

/// The audiences of an issuer are those of the first entry that names it.
pub proof fn the_first_entry_of_an_issuer_counts(
    list: Seq<(String, Vec<String>)>,
    issuer: Seq<char>,
    i: int,
)
    ensures
        0 <= i < list.len() && list[i].0@ == issuer && (forall|k: int|
            0 <= k < i ==> (#[trigger] list[k]).0@ != issuer) ==> first_entry(list, issuer) == Some(
            texts(list[i].1@),
        ),
        (forall|k: int| 0 <= k < list.len() ==> (#[trigger] list[k]).0@ != issuer) ==> first_entry(
            list,
            issuer,
        ) is None,
    decreases list.len(),
{
    if list.len() > 0 && list[0].0@ != issuer {
        let rest = list.drop_first();
        the_first_entry_of_an_issuer_counts(rest, issuer, i - 1);
        if 0 <= i < list.len() && list[i].0@ == issuer && (forall|k: int|
            0 <= k < i ==> (#[trigger] list[k]).0@ != issuer) {
            assert(rest[i - 1] == list[i]);
            assert forall|k: int| 0 <= k < i - 1 implies (#[trigger] rest[k]).0@ != issuer by {
                assert(list[k + 1].0@ != issuer);
            }
        }
        if forall|k: int| 0 <= k < list.len() ==> (#[trigger] list[k]).0@ != issuer {
            assert forall|k: int| 0 <= k < rest.len() implies (#[trigger] rest[k]).0@ != issuer by {
                assert(list[k + 1].0@ != issuer);
            }
        }
    }
}

/// What is said of a claim: a verified one names the person, who verified it and the
/// organisation where there is one; an expired one names the person and says so; and
/// any other is unverified, with the reason.
pub proof fn only_a_verified_claim_reads_so(claim: IdentityClaim, verdict: Verdict) -> (rest: Seq<
    char,
>)
    ensures
        identity_text(claim, verdict) == "identity "@ + hex(claim.node.bytes@).take(8) + rest,
        ({
            let name = |p: Principal|
                match p.email {
                    Some(email) => email@,
                    None => p.subject@ + " at "@ + p.issuer@,
                };
            match verdict {
                Ok(p) => rest == " is "@ + name(p) + " (verified by "@ + p.issuer@ + (match p.org {
                    Some(org) => ", org "@ + org@,
                    None => Seq::<char>::empty(),
                }) + ")"@,
                Err(VerifyError::Expired(p)) => rest == " is "@ + name(p) + " (expired)"@,
                Err(VerifyError::Unavailable(why)) => rest == " UNVERIFIED: "@
                    + "issuer keys unavailable: "@ + why@,
                Err(VerifyError::Rejected(reason)) => rest == " UNVERIFIED: "@ + reason@,
                Err(VerifyError::Untrusted(reason)) => rest == " UNVERIFIED: "@ + reason@,
            }
        }),
{
    let who = "identity "@ + hex(claim.node.bytes@).take(8);
    let rest = identity_text(claim, verdict).skip(who.len() as int);
    match verdict {
        Ok(p) => {
            let told = " is "@ + name_of(p) + " (verified by "@ + p.issuer@ + (match p.org {
                Some(org) => ", org "@ + org@,
                None => Seq::<char>::empty(),
            }) + ")"@;
            assert(identity_text(claim, verdict) =~= who + told);
            assert(rest =~= told);
        },
        Err(VerifyError::Expired(p)) => {
            let told = " is "@ + name_of(p) + " (expired)"@;
            assert(identity_text(claim, verdict) =~= who + told);
            assert(rest =~= told);
        },
        Err(VerifyError::Unavailable(why)) => {
            let told = " UNVERIFIED: "@ + "issuer keys unavailable: "@ + why@;
            assert(identity_text(claim, verdict) =~= who + told);
            assert(rest =~= told);
        },
        Err(VerifyError::Rejected(reason)) => {
            let told = " UNVERIFIED: "@ + reason@;
            assert(identity_text(claim, verdict) =~= who + told);
            assert(rest =~= told);
        },
        Err(VerifyError::Untrusted(reason)) => {
            let told = " UNVERIFIED: "@ + reason@;
            assert(identity_text(claim, verdict) =~= who + told);
            assert(rest =~= told);
        },
    }
    rest
}

} // verus!
