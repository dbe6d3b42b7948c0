//! What a channel carries beside conversation: call-log records, identity
//! claims, re-keys and host announcements, as plain values.

use vstd::prelude::*;

use crate::ids::NodeId;
use crate::text::{copy_maybe, copy_texts, maybe_text, same_maybe, same_text, same_texts, texts};

verus! {

/// A person an identity provider verified.
#[derive(Debug, PartialEq, Eq)]
pub struct Principal {
    pub issuer: String,
    pub subject: String,
    pub email: Option<String>,
    pub org: Option<String>,
}

/// A node's claim to be a person.
#[derive(Debug, PartialEq, Eq)]
pub struct IdentityClaim {
    pub node: NodeId,
    /// The issuer the claim's token names, before anything is verified;
    /// `None` when the token does not parse.
    pub issuer: Option<String>,
}

/// Why an identity claim did not verify.
#[derive(Debug, PartialEq, Eq)]
pub enum VerifyError {
    /// The token verified, and is out of date.
    Expired(Principal),
    /// The issuer's keys could not be had; holds why.
    Unavailable(String),
    /// The token does not verify; holds the reason.
    Rejected(String),
    /// The issuer is not one this reader trusts; holds the reason.
    Untrusted(String),
}

/// What became of a push.
#[derive(Clone, Copy, Debug, PartialEq, Eq)]
pub enum PushOutcome {
    Queued,
    Delivered,
    Fetched,
    Expired,
    Dropped,
    Denied,
}

/// One entry of a host's call log.
#[allow(inconsistent_fields)]
#[derive(Debug, PartialEq, Eq)]
pub enum AuditRecord {
    /// A call started.
    Started {
        call: [u8; 16],
        caller: NodeId,
        principal: Option<Principal>,
        tool: String,
        argv: Vec<String>,
        role: Option<String>,
    },
    /// A call ended.
    Finished {
        call: [u8; 16],
        exit: i32,
        duration_ms: u64,
        stdout_bytes: u64,
        stdout_digest: [u8; 32],
        stdin_bytes: u64,
        stdin_head: Option<String>,
    },
    /// A milestone of a push to a caller.
    Push {
        id: [u8; 16],
        to: NodeId,
        principal: Option<Principal>,
        role: Option<String>,
        subject: String,
        outcome: PushOutcome,
        reason: Option<String>,
        body: Option<String>,
    },
    /// A refused call.
    Denied { caller: NodeId, tool: Option<String>, reason: String },
}

/// A tool a host lists.
#[derive(Debug, PartialEq, Eq)]
pub struct ListedTool {
    pub name: String,
    pub description: String,
}

/// A host's tools and where to dial it.
#[derive(Debug, PartialEq, Eq)]
pub struct HostListing {
    pub tools: Vec<ListedTool>,
    pub addrs: Vec<String>,
    pub relay_url: Option<String>,
}

/// A host's announcement: what every member may see, and one sealed listing
/// for each member that may use more.
#[derive(Debug, PartialEq, Eq)]
pub struct HostAnnouncement {
    pub host: NodeId,
    pub at_ms: u64,
    pub heartbeat_ms: u64,
    pub open: Option<HostListing>,
    pub sealed: Vec<Vec<u8>>,
}

/// What a reader sees of a re-key: the roster version it moves to, and how
/// many members' credentials it carries.
#[derive(Clone, Copy, Debug, PartialEq, Eq)]
pub struct RekeyNotice {
    pub version: u64,
    pub members: u64,
}

/// A machine-written channel message.
#[derive(Debug, PartialEq, Eq)]
pub enum ChannelRecord {
    Audit(AuditRecord),
    Identity(IdentityClaim),
    Rekey(RekeyNotice),
    Host(HostAnnouncement),
}

/// A listed tool, as values.
pub ghost struct ToolView {
    pub name: Seq<char>,
    pub description: Seq<char>,
}

/// A host listing, as values.
#[verifier::ext_equal]
pub ghost struct ListingView {
    pub tools: Seq<ToolView>,
    pub addrs: Seq<Seq<char>>,
    pub relay_url: Option<Seq<char>>,
}

impl View for ListedTool {
    type V = ToolView;

    open spec fn view(&self) -> ToolView {
        ToolView { name: self.name@, description: self.description@ }
    }
}

impl View for HostListing {
    type V = ListingView;

    open spec fn view(&self) -> ListingView {
        ListingView {
            tools: self.tools@.map_values(|t: ListedTool| t@),
            addrs: texts(self.addrs@),
            relay_url: maybe_text(self.relay_url),
        }
    }
}

impl HostListing {
    /// A copy of this listing.
    pub fn copy(&self) -> (copy: HostListing)
        ensures
            copy@ == self@,
    {
        let mut tools: Vec<ListedTool> = Vec::new();
        let mut i: usize = 0;
        while i < self.tools.len()
            invariant
                i <= self.tools@.len(),
                tools@.map_values(|t: ListedTool| t@) == self@.tools.take(i as int),
            decreases self.tools@.len() - i,
        {
            let ghost before = tools@.map_values(|t: ListedTool| t@);
            let next = ListedTool {
                name: self.tools[i].name.clone(),
                description: self.tools[i].description.clone(),
            };
            tools.push(next);
            assert(tools@.map_values(|t: ListedTool| t@) =~= before.push(next@));
            assert(self@.tools.take(i + 1) =~= self@.tools.take(i as int).push(
                self.tools@[i as int]@,
            ));
            i += 1;
        }
        assert(self@.tools.take(self.tools@.len() as int) =~= self@.tools);
        HostListing {
            tools,
            addrs: copy_texts(&self.addrs),
            relay_url: copy_maybe(&self.relay_url),
        }
    }

    /// Whether `other` lists the same tools and the same ways to dial.
    pub fn same(&self, other: &HostListing) -> (same: bool)
        ensures
            same == (self@ == other@),
    {
        if self.tools.len() != other.tools.len() {
            assert(self@.tools.len() != other@.tools.len());
            return false;
        }
        let mut i: usize = 0;
        while i < self.tools.len()
            invariant
                i <= self.tools@.len(),
                self.tools@.len() == other.tools@.len(),
                forall|j: int| 0 <= j < i ==> self@.tools[j] == other@.tools[j],
            decreases self.tools@.len() - i,
        {
            if !(same_text(self.tools[i].name.as_str(), other.tools[i].name.as_str()) && same_text(
                self.tools[i].description.as_str(),
                other.tools[i].description.as_str(),
            )) {
                assert(self@.tools[i as int] != other@.tools[i as int]);
                return false;
            }
            i += 1;
        }
        assert(self@.tools =~= other@.tools);
        same_texts(&self.addrs, &other.addrs) && same_maybe(&self.relay_url, &other.relay_url)
    }
}

impl PushOutcome {
    /// The word a record line shows for this outcome.
    pub open spec fn word(self) -> Seq<char> {
        match self {
            PushOutcome::Queued => "queued"@,
            PushOutcome::Delivered => "delivered"@,
            PushOutcome::Fetched => "fetched"@,
            PushOutcome::Expired => "expired"@,
            PushOutcome::Dropped => "dropped"@,
            PushOutcome::Denied => "denied"@,
        }
    }

    /// The word a record line shows for this outcome.
    pub fn as_str(&self) -> (word: &'static str)
        ensures
            word@ == self.word(),
    {
        match self {
            PushOutcome::Queued => "queued",
            PushOutcome::Delivered => "delivered",
            PushOutcome::Fetched => "fetched",
            PushOutcome::Expired => "expired",
            PushOutcome::Dropped => "dropped",
            PushOutcome::Denied => "denied",
        }
    }
}

/// Each outcome of a push has a word of its own.
pub proof fn outcomes_have_words_of_their_own(a: PushOutcome, b: PushOutcome)
    requires
        a.word() == b.word(),
    ensures
        a == b,
{
    reveal_strlit("queued");
    reveal_strlit("delivered");
    reveal_strlit("fetched");
    reveal_strlit("expired");
    reveal_strlit("dropped");
    reveal_strlit("denied");
    assert("queued"@[0] == 'q' && "queued"@.len() == 6);
    assert("delivered"@[0] == 'd' && "delivered"@.len() == 9);
    assert("fetched"@[0] == 'f' && "fetched"@.len() == 7);
    assert("expired"@[0] == 'e' && "expired"@.len() == 7);
    assert("dropped"@[0] == 'd' && "dropped"@.len() == 7);
    assert("denied"@[0] == 'd' && "denied"@.len() == 6);
}

} // verus!
