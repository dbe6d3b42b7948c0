//! Adopting the admin's re-keys: every member's half of an invite or a removal.
//!
//! A commit invalidates every member's credentials at once. A member that reads
//! the re-key installs its own part (the new fabric key and inclusion proof),
//! the proof directory and the head, in an order that no reader can catch with
//! the new head and the old credentials.

use vstd::prelude::*;

use crate::envelope::{views, EnvelopeView, TopicEnvelope};
use crate::ids::{bytes_same, NodeId};
use crate::nodes::NodeSet;
use crate::order::{ordered, put_in_order, Order};

verus! {

/// A signed roster head: its version and the digest that identifies it.
#[derive(Clone, Copy, Debug, PartialEq, Eq)]
pub struct RosterHead {
    pub version: u64,
    pub digest: [u8; 32],
}

impl RosterHead {
    /// Whether this is the same head.
    pub fn same(&self, other: &RosterHead) -> (same: bool)
        ensures
            same == (*self == *other),
    {
        proof {
            crate::ids::array_from_view(self.digest, other.digest);
        }
        self.version == other.version && bytes_same(
            self.digest.as_slice(),
            other.digest.as_slice(),
        )
    }
}

/// A member's proof that it is in the roster of one version.
#[derive(Clone, Copy, Debug, PartialEq, Eq)]
pub struct InclusionProof {
    pub member: NodeId,
    pub version: u64,
}

/// The proofs of one head that a node can look members up in.
#[derive(Debug)]
pub struct ProofDirectory {
    pub head: RosterHead,
    pub members: NodeSet,
}

/// A proof directory, as values.
#[verifier::ext_equal]
pub ghost struct DirectoryView {
    pub head: RosterHead,
    pub members: Set<NodeId>,
}

impl View for ProofDirectory {
    type V = DirectoryView;

    open spec fn view(&self) -> DirectoryView {
        DirectoryView { head: self.head, members: self.members@ }
    }
}

/// A re-key that verified against the fabric root: its head, and the members
/// whose credentials it carries.
#[derive(Debug)]
pub struct Rekey {
    pub head: RosterHead,
    pub members: Vec<NodeId>,
}

/// This node's part of a re-key.
#[derive(Clone, Copy, Debug, PartialEq, Eq)]
pub struct OwnPart {
    pub inclusion: InclusionProof,
    /// The fabric key of the re-key's version.
    pub key: [u8; 32],
}

/// The credentials a node holds.
#[derive(Debug)]
pub struct Vault {
    pub head: Option<RosterHead>,
    pub inclusion: Option<InclusionProof>,
    pub directory: Option<ProofDirectory>,
    /// The fabric keys, by version.
    pub keys: Vec<(u64, [u8; 32])>,
}

/// The credentials a node holds, as values.
#[verifier::ext_equal]
pub ghost struct VaultView {
    pub head: Option<RosterHead>,
    pub inclusion: Option<InclusionProof>,
    pub directory: Option<DirectoryView>,
    pub keys: Map<u64, [u8; 32]>,
}

/// The keys of a list, by version; where one is listed twice the later stands.
pub open spec fn keys_of(list: Seq<(u64, [u8; 32])>) -> Map<u64, [u8; 32]>
    decreases list.len(),
{
    if list.len() == 0 {
        Map::empty()
    } else {
        keys_of(list.drop_last()).insert(list.last().0, list.last().1)
    }
}

impl View for Vault {
    type V = VaultView;

    open spec fn view(&self) -> VaultView {
        VaultView {
            head: self.head,
            inclusion: self.inclusion,
            directory: match self.directory {
                Some(d) => Some(d@),
                None => None,
            },
            keys: keys_of(self.keys@),
        }
    }
}

/// What adopting one re-key changed on this node.
#[derive(Clone, Copy, Debug, PartialEq, Eq, Structural)]
pub struct Adoption {
    /// The record's roster version.
    pub version: u64,
    /// The stored head moved forward to it.
    pub head_advanced: bool,
    /// This node's own proof and key were in the record and installed.
    pub own: bool,
    /// The record was for an older head than the stored one; only this node's
    /// key (for reading history) was taken from it.
    pub superseded: bool,
}

/// What is left of an adoption once its writes are done: the head to persist, if
/// it is to be, and what there is to report.
#[derive(Clone, Copy, Debug, PartialEq, Eq)]
pub struct Plan {
    /// The record's roster version.
    pub version: u64,
    /// This node's own proof and key were in the record.
    pub own: bool,
    /// The record is for an older head than the stored one.
    pub superseded: bool,
    /// The head to hand to whoever moves the stored one, which it only ever does
    /// forward.
    pub persist: Option<RosterHead>,
}

/// One thing to write to the keystore.
#[derive(Debug)]
pub enum Write {
    Key { version: u64, key: [u8; 32] },
    Inclusion(InclusionProof),
    Directory(ProofDirectory),
    Head(RosterHead),
}

/// One thing to write, as values.
pub ghost enum WriteView {
    Key { version: u64, key: [u8; 32] },
    Inclusion(InclusionProof),
    Directory(DirectoryView),
    Head(RosterHead),
}

impl View for Write {
    type V = WriteView;

    open spec fn view(&self) -> WriteView {
        match self {
            Write::Key { version, key } => WriteView::Key { version: *version, key: *key },
            Write::Inclusion(p) => WriteView::Inclusion(*p),
            Write::Directory(d) => WriteView::Directory(d@),
            Write::Head(h) => WriteView::Head(*h),
        }
    }
}

/// A vault after one write.
pub open spec fn written(v: VaultView, w: WriteView) -> VaultView {
    match w {
        WriteView::Key { version, key } => VaultView { keys: v.keys.insert(version, key), ..v },
        WriteView::Inclusion(p) => VaultView { inclusion: Some(p), ..v },
        WriteView::Directory(d) => VaultView { directory: Some(d), ..v },
        WriteView::Head(h) => VaultView { head: Some(h), ..v },
    }
}

/// A vault after a run of writes.
pub open spec fn all_written(v: VaultView, writes: Seq<WriteView>) -> VaultView
    decreases writes.len(),
{
    if writes.len() == 0 {
        v
    } else {
        written(all_written(v, writes.drop_last()), writes.last())
    }
}

/// The stored head is newer than the record's.
pub open spec fn is_superseded(v: VaultView, head: RosterHead) -> bool {
    v.head matches Some(h) && h.version > head.version
}

/// The stored head is older than the record's, or there is none.
pub open spec fn advances(v: VaultView, head: RosterHead) -> bool {
    match v.head {
        Some(h) => h.version < head.version,
        None => true,
    }
}

/// The stored proof is worth replacing by the record's.
pub open spec fn proof_moves(v: VaultView, me: NodeId, inclusion: InclusionProof) -> bool {
    match v.inclusion {
        Some(p) => p.version < inclusion.version || p.member != me,
        None => true,
    }
}

/// The directory to store: the record's proofs added to a directory of the same
/// head, a fresh one in place of an older one, and none where nothing is added
/// or a newer one is there.
pub open spec fn directory_after(v: VaultView, rekey: Rekey) -> Option<DirectoryView> {
    let fresh = DirectoryView { head: rekey.head, members: rekey.members@.to_set() };
    match v.directory {
        Some(d) => if d.head == rekey.head {
            if rekey.members@.to_set().subset_of(d.members) {
                None
            } else {
                Some(
                    DirectoryView { head: d.head, members: d.members + rekey.members@.to_set() },
                )
            }
        } else if d.head.version > rekey.head.version {
            None
        } else {
            Some(fresh)
        },
        None => Some(fresh),
    }
}

/// What adopting a re-key writes before the head is persisted, in order: this
/// node's key (even an old commit's key reads old history), its proof, and the
/// directory.
pub open spec fn writes_of(
    v: VaultView,
    rekey: Rekey,
    me: NodeId,
    own: Option<OwnPart>,
) -> Seq<WriteView> {
    let key = match own {
        Some(own) => seq![WriteView::Key { version: rekey.head.version, key: own.key }],
        None => Seq::empty(),
    };
    if is_superseded(v, rekey.head) {
        key
    } else {
        let inclusion = match own {
            Some(own) => if proof_moves(v, me, own.inclusion) {
                key.push(WriteView::Inclusion(own.inclusion))
            } else {
                key
            },
            None => key,
        };
        match directory_after(v, rekey) {
            Some(d) => inclusion.push(WriteView::Directory(d)),
            None => inclusion,
        }
    }
}

/// What is left of an adoption once its writes are done: the head is to be
/// persisted unless the stored one is newer, also where it is the same, and also
/// for a node without a part in the record.
pub open spec fn plan_of(v: VaultView, rekey: Rekey, own: Option<OwnPart>) -> Plan {
    Plan {
        version: rekey.head.version,
        own: own is Some && !is_superseded(v, rekey.head),
        superseded: is_superseded(v, rekey.head),
        persist: if is_superseded(v, rekey.head) {
            None
        } else {
            Some(rekey.head)
        },
    }
}

/// What an adoption changed, given what persisting its head answered: the head
/// the stored one was moved to, or nothing.
pub open spec fn concluded(plan: Plan, persisted: Option<RosterHead>) -> Adoption {
    Adoption {
        version: plan.version,
        head_advanced: plan.persist is Some && persisted is Some,
        own: plan.own,
        superseded: plan.superseded,
    }
}

/// A vault after a re-key was adopted on a node that moves its own head.
pub open spec fn installed(
    v: VaultView,
    rekey: Rekey,
    me: NodeId,
    own: Option<OwnPart>,
) -> VaultView {
    let ready = all_written(v, writes_of(v, rekey, me, own));
    if advances(v, rekey.head) {
        written(ready, WriteView::Head(rekey.head))
    } else {
        ready
    }
}

impl Write {
    /// A directory to be written lists each member once.
    pub open spec fn wf(self) -> bool {
        self matches Write::Directory(d) ==> d.members.wf()
    }
}

impl Vault {
    /// The directory lists each member once.
    pub open spec fn wf(&self) -> bool {
        self.directory matches Some(d) ==> d.members.wf()
    }
}

/// The writes of a list, as values.
pub open spec fn write_views(list: Seq<Write>) -> Seq<WriteView> {
    list.map_values(|w: Write| w@)
}

/// Appending a write appends its value.
proof fn write_views_push(list: Seq<Write>, w: Write)
    ensures
        write_views(list.push(w)) == write_views(list).push(w@),
{
    assert(write_views(list.push(w)) =~= write_views(list).push(w@));
}

/// The directory to store after a re-key, if any.
fn next_directory(stored: &Option<ProofDirectory>, rekey: &Rekey) -> (next: Option<ProofDirectory>)
    requires
        stored matches Some(d) ==> d.members.wf(),
    ensures
        ({
            let v = VaultView {
                head: None,
                inclusion: None,
                directory: match *stored {
                    Some(d) => Some(d@),
                    None => None,
                },
                keys: Map::empty(),
            };
            match next {
                Some(d) => directory_after(v, *rekey) == Some(d@) && d.members.wf(),
                None => directory_after(v, *rekey) is None,
            }
        }),
{
    match stored {
        Some(d) => {
            if d.head.same(&rekey.head) {
                let mut members = d.members.copy();
                let added = members.insert_all(&rekey.members);
                if added {
                    return Some(ProofDirectory { head: d.head, members });
                }
                return None;
            }
            if d.head.version > rekey.head.version {
                return None;
            }
        },
        None => {},
    }
    let mut members = NodeSet::new();
    let _ = members.insert_all(&rekey.members);
    assert(Set::<NodeId>::empty() + rekey.members@.to_set() =~= rekey.members@.to_set());
    Some(ProofDirectory { head: rekey.head, members })
}

/// What a verified re-key writes on node `me`, in order, and what is left to do
/// then. `own` is this node's part, if the record carries one.
///
/// A record for an older head than the stored one changes nothing but the
/// keyring. Any other asks for its head to be persisted once everything else is
/// written, with or without an entry for `me`: a node the commit removed must
/// learn that it is out.
pub fn adopt(vault: &Vault, rekey: &Rekey, me: NodeId, own: Option<OwnPart>) -> (done: (
    Plan,
    Vec<Write>,
))
    requires
        vault.wf(),
    ensures
        forall|i: int| 0 <= i < done.1@.len() ==> (#[trigger] done.1@[i]).wf(),
        write_views(done.1@) == writes_of(vault@, *rekey, me, own),
        done.0 == plan_of(vault@, *rekey, own),
{
    let version: u64 = rekey.head.version;
    let mut writes: Vec<Write> = Vec::new();
    match own {
        Some(own) => {
            writes.push(Write::Key { version, key: own.key });
            assert(write_views(writes@) =~= seq![WriteView::Key { version, key: own.key }]);
        },
        None => {
            assert(write_views(writes@) =~= Seq::<WriteView>::empty());
        },
    }
    let superseded = match vault.head {
        Some(h) => h.version > version,
        None => false,
    };
    if superseded {
        return (Plan { version, own: false, superseded: true, persist: None }, writes);
    }
    match own {
        Some(own) => {
            let moves = match vault.inclusion {
                Some(p) => p.version < own.inclusion.version || !p.member.same(&me),
                None => true,
            };
            if moves {
                let ghost before = writes@;
                let w = Write::Inclusion(own.inclusion);
                writes.push(w);
                proof {
                    write_views_push(before, w);
                }
            }
        },
        None => {},
    }
    match next_directory(&vault.directory, rekey) {
        Some(d) => {
            let ghost before = writes@;
            let w = Write::Directory(d);
            writes.push(w);
            proof {
                write_views_push(before, w);
            }
        },
        None => {},
    }
    (
        Plan { version, own: own.is_some(), superseded: false, persist: Some(rekey.head) },
        writes,
    )
}

/// End an adoption with what persisting its head answered: the head that is
/// stored now if it was moved, nothing if it was not, or why it could not be
/// tried. An adoption that has no head to persist heeds none of these.
pub fn conclude(
    vault: &mut Vault,
    plan: Plan,
    persisted: Result<Option<RosterHead>, String>,
) -> (done: Result<Adoption, String>)
    requires
        old(vault).wf(),
    ensures
        final(vault).wf(),
        done is Err == (plan.persist is Some && persisted is Err),
        (done matches Err(why) ==> why@ == persisted->Err_0@ && final(vault)@ == old(vault)@),
        (done matches Ok(adoption) ==> if plan.persist is Some {
            &&& adoption == concluded(plan, persisted->Ok_0)
            &&& final(vault)@ == match persisted->Ok_0 {
                Some(head) => written(old(vault)@, WriteView::Head(head)),
                None => old(vault)@,
            }
        } else {
            &&& adoption == concluded(plan, None)
            &&& final(vault)@ == old(vault)@
        }),
{
    let Plan { version, own, superseded, persist } = plan;
    if persist.is_none() {
        return Ok(Adoption { version, head_advanced: false, own, superseded });
    }
    match persisted {
        Err(why) => Err(why),
        Ok(None) => Ok(Adoption { version, head_advanced: false, own, superseded }),
        Ok(Some(head)) => {
            write(vault, Write::Head(head));
            Ok(Adoption { version, head_advanced: true, own, superseded })
        },
    }
}

/// Do one write.
pub fn write(vault: &mut Vault, w: Write)
    requires
        old(vault).wf(),
        w.wf(),
    ensures
        final(vault).wf(),
        final(vault)@ == written(old(vault)@, w@),
{
    match w {
        Write::Key { version, key } => {
            let ghost before = vault.keys@;
            vault.keys.push((version, key));
            assert(vault.keys@.drop_last() =~= before);
        },
        Write::Inclusion(p) => {
            vault.inclusion = Some(p);
        },
        Write::Directory(d) => {
            vault.directory = Some(d);
        },
        Write::Head(h) => {
            vault.head = Some(h);
        },
    }
    assert(vault@ =~= written(old(vault)@, w@));
}

/// A re-key as it came in: what checking it against the fabric root found, and
/// what opening this node's part of it gave.
#[derive(Debug)]
pub struct Offered {
    pub rekey: Rekey,
    pub verified: Result<(), String>,
    pub own: Result<Option<OwnPart>, String>,
}

impl Offered {
    /// Why the re-key is refused, if it is.
    pub open spec fn refusal(&self) -> Option<Seq<char>> {
        match (self.verified, self.own) {
            (Err(why), _) => Some("verifying the re-key against the fabric root: "@ + why@),
            (_, Err(why)) => Some("opening this node's part of the re-key: "@ + why@),
            _ => None,
        }
    }
}

/// Do what a re-key asks for before its head is persisted, and what is left then;
/// why it is refused, if it does not verify or does not open. One that is refused
/// changes nothing.
pub fn prepare(vault: &mut Vault, offered: &Offered, me: NodeId) -> (done: Result<Plan, String>)
    requires
        old(vault).wf(),
    ensures
        final(vault).wf(),
        done is Err == offered.refusal() is Some,
        (done matches Err(why) ==> offered.refusal() == Some(why@) && final(vault)@ == old(
            vault,
        )@),
        (done matches Ok(plan) ==> {
            let own = offered.own->Ok_0;
            &&& plan == plan_of(old(vault)@, offered.rekey, own)
            &&& final(vault)@ == all_written(
                old(vault)@,
                writes_of(old(vault)@, offered.rekey, me, own),
            )
        }),
{
    if let Err(why) = &offered.verified {
        let mut text = "verifying the re-key against the fabric root: ".to_owned();
        text.append(why.as_str());
        return Err(text);
    }
    match &offered.own {
        Err(why) => {
            let mut text = "opening this node's part of the re-key: ".to_owned();
            text.append(why.as_str());
            Err(text)
        },
        Ok(own) => {
            let (plan, writes) = adopt(vault, &offered.rekey, me, *own);
            write_all(vault, writes);
            Ok(plan)
        },
    }
}

/// Adopt a re-key on a node with no one else writing its keystore, which moves
/// its own head, forward only; why it is refused, if it does not verify or does
/// not open. One that is refused changes nothing.
pub fn install(vault: &mut Vault, offered: &Offered, me: NodeId) -> (done: Result<Adoption, String>)
    requires
        old(vault).wf(),
    ensures
        final(vault).wf(),
        done is Err == offered.refusal() is Some,
        (done matches Err(why) ==> offered.refusal() == Some(why@) && final(vault)@ == old(
            vault,
        )@),
        (done matches Ok(adoption) ==> {
            let own = offered.own->Ok_0;
            &&& adoption == concluded(
                plan_of(old(vault)@, offered.rekey, own),
                if advances(old(vault)@, offered.rekey.head) {
                    Some(offered.rekey.head)
                } else {
                    None
                },
            )
            &&& final(vault)@ == installed(old(vault)@, offered.rekey, me, own)
        }),
{
    let head = offered.rekey.head;
    let moves = match vault.head {
        Some(h) => h.version < head.version,
        None => true,
    };
    match prepare(vault, offered, me) {
        Err(why) => Err(why),
        Ok(plan) => {
            let persisted: Option<RosterHead> = if moves {
                Some(head)
            } else {
                None
            };
            conclude(vault, plan, Ok(persisted))
        },
    }
}

/// Look at a message on a running node, whose own handler moves its head. What a
/// re-key that verifies asks for before its head is persisted is done, and what
/// is left is handed back, for [`conclude`]. Every message is looked at, whatever
/// became of it: one that is no re-key, or is refused, changes nothing.
pub fn observe(vault: &mut Vault, carried: &Option<Offered>, me: NodeId) -> (left: Option<Plan>)
    requires
        old(vault).wf(),
    ensures
        final(vault).wf(),
        match *carried {
            Some(offered) => if offered.refusal() is Some {
                left is None && final(vault)@ == old(vault)@
            } else {
                let own = offered.own->Ok_0;
                &&& left == Some(plan_of(old(vault)@, offered.rekey, own))
                &&& final(vault)@ == all_written(
                    old(vault)@,
                    writes_of(old(vault)@, offered.rekey, me, own),
                )
            },
            None => left is None && final(vault)@ == old(vault)@,
        },
{
    match carried {
        None => None,
        Some(offered) => match prepare(vault, offered, me) {
            Ok(plan) => Some(plan),
            Err(_) => None,
        },
    }
}

/// Do a run of writes, in order.
fn write_all(vault: &mut Vault, writes: Vec<Write>)
    requires
        old(vault).wf(),
        forall|i: int| 0 <= i < writes@.len() ==> (#[trigger] writes@[i]).wf(),
    ensures
        final(vault).wf(),
        final(vault)@ == all_written(old(vault)@, write_views(writes@)),
    decreases writes@.len(),
{
    let mut rest: Vec<Write> = writes;
    let ghost all = write_views(rest@);
    match rest.pop() {
        None => {
            assert(all =~= Seq::<WriteView>::empty());
        },
        Some(last) => {
            assert(write_views(rest@) =~= all.drop_last());
            write_all(vault, rest);
            write(vault, last);
        },
    }
}

/// No reader ever pairs the new head with the old credentials: however far the
/// writes of a re-key have got, the head is as it was, and when it is handed over
/// to be persisted, this node's key and proof and the directory are in place.
pub proof fn the_head_is_written_last(
    v: VaultView,
    rekey: Rekey,
    me: NodeId,
    own: OwnPart,
    n: int,
)
    requires
        0 <= n <= writes_of(v, rekey, me, Some(own)).len(),
        own.inclusion.version == rekey.head.version,
        own.inclusion.member == me,
    ensures
        all_written(v, writes_of(v, rekey, me, Some(own)).take(n)).head == v.head,
        plan_of(v, rekey, Some(own)).persist matches Some(head) ==> {
            let ready = all_written(v, writes_of(v, rekey, me, Some(own)));
            &&& head == rekey.head
            &&& ready.keys.dom().contains(head.version)
            &&& ready.keys[head.version] == own.key
            &&& ready.inclusion matches Some(p) && p.version >= head.version && p.member == me
            &&& ready.directory matches Some(d) && (d.head.version > head.version || (d.head == head
                && rekey.members@.to_set().subset_of(d.members)))
        },
{
    let writes = writes_of(v, rekey, me, Some(own));
    assert(writes.len() <= 4);
    prefixes(v, writes, n);
    prefixes(v, writes, writes.len() as int);
    whole_run(v, writes);
}

/// The states a short run of writes goes through.
proof fn prefixes(v: VaultView, writes: Seq<WriteView>, n: int)
    requires
        0 <= n <= writes.len() <= 4,
    ensures
        n >= 1 ==> all_written(v, writes.take(n)) == written(
            all_written(v, writes.take(n - 1)),
            writes[n - 1],
        ),
        n >= 2 ==> all_written(v, writes.take(n - 1)) == written(
            all_written(v, writes.take(n - 2)),
            writes[n - 2],
        ),
        n >= 3 ==> all_written(v, writes.take(n - 2)) == written(
            all_written(v, writes.take(n - 3)),
            writes[n - 3],
        ),
        n >= 4 ==> all_written(v, writes.take(n - 3)) == written(
            all_written(v, writes.take(n - 4)),
            writes[n - 4],
        ),
        all_written(v, writes.take(0)) == v,
    decreases n,
{
    assert(writes.take(0) =~= Seq::<WriteView>::empty());
    if n >= 1 {
        assert(writes.take(n).drop_last() =~= writes.take(n - 1));
        assert(writes.take(n).last() == writes[n - 1]);
        prefixes(v, writes, n - 1);
    }
}

/// The whole run of writes is its last prefix.
proof fn whole_run(v: VaultView, writes: Seq<WriteView>)
    requires
        writes.len() <= 4,
    ensures
        all_written(v, writes) == all_written(v, writes.take(writes.len() as int)),
{
    assert(writes.take(writes.len() as int) =~= writes);
}

/// A re-key never moves a node backwards: whatever it is, the head does not get
/// older, and one for an older head leaves the head, the proof and the
/// directory as they are.
pub proof fn a_rekey_moves_nothing_backwards(
    v: VaultView,
    rekey: Rekey,
    me: NodeId,
    own: Option<OwnPart>,
)
    ensures
        ({
            let after = installed(v, rekey, me, own);
            &&& v.head matches Some(h) ==> (after.head matches Some(g) && g.version >= h.version)
            &&& is_superseded(v, rekey.head) ==> after.head == v.head && after.inclusion
                == v.inclusion && after.directory == v.directory
        }),
{
    let writes = writes_of(v, rekey, me, own);
    assert(writes.len() <= 4);
    whole_run(v, writes);
    prefixes(v, writes, writes.len() as int);
}

/// A removed member learns the head and gets nothing else: a newer re-key
/// without an entry for this node moves its head and leaves its keys and its
/// proof.
pub proof fn a_removed_member_learns_the_head(v: VaultView, rekey: Rekey, me: NodeId)
    requires
        advances(v, rekey.head),
    ensures
        ({
            let after = installed(v, rekey, me, None);
            &&& after.head == Some(rekey.head)
            &&& after.keys == v.keys
            &&& after.inclusion == v.inclusion
        }),
{
    let writes = writes_of(v, rekey, me, None);
    assert(writes.len() <= 4);
    whole_run(v, writes);
    prefixes(v, writes, writes.len() as int);
}

/// A member installs its part: after a re-key that is not superseded and has an
/// entry for this node, it holds the record's head, key and proof.
pub proof fn a_member_installs_its_part(v: VaultView, rekey: Rekey, me: NodeId, own: OwnPart)
    requires
        advances(v, rekey.head),
        v.inclusion matches Some(p) ==> p.version < own.inclusion.version || p.member != me,
    ensures
        ({
            let after = installed(v, rekey, me, Some(own));
            &&& after.head == Some(rekey.head)
            &&& after.keys == v.keys.insert(rekey.head.version, own.key)
            &&& after.inclusion == Some(own.inclusion)
        }),
{
    let writes = writes_of(v, rekey, me, Some(own));
    assert(writes.len() <= 4);
    whole_run(v, writes);
    prefixes(v, writes, writes.len() as int);
}

/// A vault after re-keys were installed one after another.
pub open spec fn all_installed(
    v: VaultView,
    parts: Seq<(Rekey, Option<OwnPart>)>,
    me: NodeId,
) -> VaultView
    decreases parts.len(),
{
    if parts.len() == 0 {
        v
    } else {
        installed(all_installed(v, parts.drop_last(), me), parts.last().0, me, parts.last().1)
    }
}

/// The members of all the re-keys together.
pub open spec fn all_members(parts: Seq<(Rekey, Option<OwnPart>)>) -> Set<NodeId>
    decreases parts.len(),
{
    if parts.len() == 0 {
        Set::empty()
    } else {
        all_members(parts.drop_last()) + parts.last().0.members@.to_set()
    }
}

/// The parts of one commit fill one directory: re-keys of one head, however many
/// there are, leave the directory that one with the members of all would.
pub proof fn parts_of_one_commit_fill_one_directory(
    v: VaultView,
    parts: Seq<(Rekey, Option<OwnPart>)>,
    head: RosterHead,
    me: NodeId,
)
    requires
        parts.len() > 0,
        forall|i: int| 0 <= i < parts.len() ==> (#[trigger] parts[i]).0.head == head,
        !is_superseded(v, head),
        v.directory matches Some(d) ==> d.head != head && d.head.version <= head.version,
    ensures
        all_installed(v, parts, me).directory == Some(
            DirectoryView { head, members: all_members(parts) },
        ),
        !is_superseded(all_installed(v, parts, me), head),
    decreases parts.len(),
{
    let before = parts.drop_last();
    let (rekey, own) = parts.last();
    let mid = all_installed(v, before, me);
    if before.len() > 0 {
        assert forall|i: int| 0 <= i < before.len() implies (#[trigger] before[i]).0.head
            == head by {
            assert(before[i] == parts[i]);
        }
        parts_of_one_commit_fill_one_directory(v, before, head, me);
    }
    let writes = writes_of(mid, rekey, me, own);
    assert(writes.len() <= 4);
    whole_run(mid, writes);
    prefixes(mid, writes, writes.len() as int);
    let added = rekey.members@.to_set();
    if before.len() == 0 {
        assert(all_members(before) =~= Set::<NodeId>::empty());
        assert(all_members(parts) =~= added);
    } else if added.subset_of(all_members(before)) {
        assert(all_members(parts) =~= all_members(before));
    }
}

/// Whether a node's newest key is older than its head: the state it is in when
/// it missed a re-key, and in which it cannot publish.
pub fn key_is_stale(head: Option<u64>, key: Option<u64>) -> (stale: bool)
    ensures
        stale == (head matches Some(h) && (key matches Some(k) && k < h)),
{
    match (head, key) {
        (Some(h), Some(k)) => k < h,
        _ => false,
    }
}

/// One pass over what a catch-up brought, on a node that missed a re-key while it
/// was not running: every message is looked at, older commits first, and those
/// adopted with this node's own part are counted.
#[derive(Debug)]
pub struct RekeyCatchUp {
    messages: Vec<TopicEnvelope>,
    handed: usize,
    looked: usize,
    own: usize,
}

impl RekeyCatchUp {
    /// The messages not handed out yet.
    pub closed spec fn left(&self) -> Seq<EnvelopeView> {
        views(self.messages@).skip(self.handed as int)
    }

    /// How many messages were handed out.
    pub closed spec fn handed(&self) -> nat {
        self.handed as nat
    }

    /// Of how many it is known what became of them.
    pub closed spec fn looked(&self) -> nat {
        self.looked as nat
    }

    /// How many of those were adopted with this node's own part.
    pub closed spec fn own(&self) -> nat {
        self.own as nat
    }

    /// Only what was handed out was looked at, and only what was looked at adopted.
    pub closed spec fn wf(&self) -> bool {
        self.own <= self.looked <= self.handed <= self.messages@.len()
    }

    /// A pass over what a catch-up brought. One that failed brought nothing.
    pub fn start(caught: Result<Vec<TopicEnvelope>, String>) -> (pass: RekeyCatchUp)
        ensures
            pass.wf(),
            pass.left() == match caught {
                Ok(list) => ordered(Order::Rekey, views(list@)),
                Err(_) => Seq::empty(),
            },
            pass.handed() == 0,
            pass.looked() == 0,
            pass.own() == 0,
    {
        let messages = match caught {
            Ok(list) => put_in_order(Order::Rekey, &list),
            Err(_) => Vec::new(),
        };
        let pass = RekeyCatchUp { messages, handed: 0, looked: 0, own: 0 };
        assert(pass.left() =~= views(messages@));
        pass
    }

    /// The next message to look at.
    pub fn next(&mut self) -> (message: Option<TopicEnvelope>)
        requires
            old(self).wf(),
        ensures
            final(self).wf(),
            final(self).looked() == old(self).looked(),
            final(self).own() == old(self).own(),
            match message {
                Some(e) => {
                    &&& old(self).left().len() > 0
                    &&& e@ == old(self).left()[0]
                    &&& final(self).left() == old(self).left().drop_first()
                    &&& final(self).handed() == old(self).handed() + 1
                },
                None => old(self).left().len() == 0 && *final(self) == *old(self),
            },
    {
        let ghost before = self.left();
        if self.handed >= self.messages.len() {
            return None;
        }
        let message = self.messages[self.handed].copy();
        self.handed = self.handed + 1;
        assert(self.left() =~= before.drop_first());
        Some(message)
    }

    /// What became of a message that was handed out: what adopting it changed, where
    /// it is a re-key that was adopted.
    pub fn looked_at(&mut self, adoption: Option<Adoption>)
        requires
            old(self).wf(),
            old(self).looked() < old(self).handed(),
        ensures
            final(self).wf(),
            final(self).left() == old(self).left(),
            final(self).handed() == old(self).handed(),
            final(self).looked() == old(self).looked() + 1,
            final(self).own() == old(self).own() + if adoption is Some && adoption->0.own {
                1nat
            } else {
                0nat
            },
    {
        self.looked = self.looked + 1;
        if let Some(adoption) = adoption {
            if adoption.own {
                self.own = self.own + 1;
            }
        }
    }

    /// How many re-keys were adopted with this node's own part.
    pub fn adopted(&self) -> (n: usize)
        ensures
            n == self.own(),
    {
        self.own
    }
}

/// What an adoption is worth saying.
#[derive(Clone, Copy, Debug, PartialEq, Eq, Structural)]
pub enum Notice {
    /// An older re-key came in.
    Superseded,
    /// The new head, proof and key are installed.
    Installed,
    /// The head moved and there is no entry for this node: it is no longer in
    /// the roster.
    Removed,
    /// Nothing changed.
    Nothing,
}

/// What to say about an adoption.
pub fn report(adoption: &Adoption) -> (notice: Notice)
    ensures
        notice == if adoption.superseded {
            Notice::Superseded
        } else if adoption.own {
            Notice::Installed
        } else if adoption.head_advanced {
            Notice::Removed
        } else {
            Notice::Nothing
        },
{
    if adoption.superseded {
        Notice::Superseded
    } else if adoption.own {
        Notice::Installed
    } else if adoption.head_advanced {
        Notice::Removed
    } else {
        Notice::Nothing
    }
}

/// Where a roster head is read from.
#[derive(Clone, Copy, Debug, PartialEq, Eq, Structural)]
pub enum HeadSource {
    /// The keystore, beside which the proof directory is kept.
    Keystore,
    /// A file named by the operator.
    File,
    /// A head fixed at start.
    Fixed,
}

/// The proof directory a gate may look members up in: the one beside a
/// keystore's head, if it could be read. A head from anywhere else has none,
/// and gets the strict check of the presented proof alone.
pub fn directory_for(source: HeadSource, beside: Option<ProofDirectory>) -> (directory: Option<
    ProofDirectory,
>)
    ensures
        directory == if source == HeadSource::Keystore {
            beside
        } else {
            None
        },
{
    match source {
        HeadSource::Keystore => beside,
        _ => None,
    }
}

/// What a run of at most four writes leaves, write by write.
proof fn run_of_writes(v: VaultView, writes: Seq<WriteView>)
    requires
        writes.len() <= 4,
    ensures
        writes.len() == 0 ==> all_written(v, writes) == v,
        writes.len() == 1 ==> all_written(v, writes) == written(v, writes[0]),
        writes.len() == 2 ==> all_written(v, writes) == written(written(v, writes[0]), writes[1]),
        writes.len() == 3 ==> all_written(v, writes) == written(
            written(written(v, writes[0]), writes[1]),
            writes[2],
        ),
{
    whole_run(v, writes);
    prefixes(v, writes, writes.len() as int);
}

/// An own key is always kept: after any re-key with an entry for this node, for an
/// older head or not, the keyring holds that entry's key under the re-key's version,
/// so that what was sealed at that version can be read; and every key of another
/// version is as it was. A re-key without an entry for this node leaves all keys.
pub proof fn an_own_key_is_always_kept(
    v: VaultView,
    rekey: Rekey,
    me: NodeId,
    own: Option<OwnPart>,
    other: u64,
)
    ensures
        ({
            let ready = all_written(v, writes_of(v, rekey, me, own)).keys;
            let after = installed(v, rekey, me, own).keys;
            let version = rekey.head.version;
            &&& own matches Some(part) ==> {
                &&& ready.dom().contains(version) && ready[version] == part.key
                &&& after.dom().contains(version) && after[version] == part.key
            }
            &&& (own is None || other != version) ==> {
                &&& ready.dom().contains(other) == v.keys.dom().contains(other)
                &&& after.dom().contains(other) == v.keys.dom().contains(other)
                &&& v.keys.dom().contains(other) ==> ready[other] == v.keys[other] && after[other]
                    == v.keys[other]
            }
        }),
{
    run_of_writes(v, writes_of(v, rekey, me, own));
}

/// This node's proof only ever gets newer, and becomes its own: a re-key that is not
/// for an older head puts its proof in place of none, of an older one and of another
/// member's, and of no other; and nothing else touches the proof.
pub proof fn a_proof_is_replaced_by_a_newer_one(
    v: VaultView,
    rekey: Rekey,
    me: NodeId,
    own: Option<OwnPart>,
)
    ensures
        ({
            let after = installed(v, rekey, me, own).inclusion;
            let older = v.head matches Some(h) && h.version > rekey.head.version;
            let behind = v.inclusion is None || v.inclusion->0.version < own->0.inclusion.version
                || v.inclusion->0.member != me;
            if own is Some && !older && behind {
                after == Some(own->0.inclusion)
            } else {
                after == v.inclusion
            }
        }),
{
    run_of_writes(v, writes_of(v, rekey, me, own));
}

/// The directory is the one of the newest head seen: a re-key of the same head adds
/// its members and takes none away, one of another head that is not older starts a
/// directory of exactly its own members, and an older one changes nothing.
pub proof fn a_directory_holds_the_members_of_its_head(
    v: VaultView,
    rekey: Rekey,
    me: NodeId,
    own: Option<OwnPart>,
    member: NodeId,
)
    ensures
        ({
            let after = installed(v, rekey, me, own).directory;
            let older = v.head matches Some(h) && h.version > rekey.head.version;
            let behind = v.directory is Some && v.directory->0.head != rekey.head
                && v.directory->0.head.version > rekey.head.version;
            if older || behind {
                after == v.directory
            } else {
                &&& after matches Some(d) && d.head == rekey.head
                &&& after->0.members.contains(member) == (rekey.members@.contains(member) || (
                v.directory is Some && v.directory->0.head == rekey.head
                    && v.directory->0.members.contains(member)))
            }
        }),
{
    run_of_writes(v, writes_of(v, rekey, me, own));
    assert(rekey.members@.to_set().contains(member) == rekey.members@.contains(member));
    if let Some(d) = v.directory {
        if rekey.members@.to_set().subset_of(d.members) {
            assert(rekey.members@.to_set().contains(member) ==> d.members.contains(member));
        }
    }
}

/// The head moves to every newer one, with an entry for this node or without, and
/// never back; and what is reported of it is so: that the re-key is for an older
/// head, that this node's part was installed, that the head moved.
pub proof fn the_head_moves_forward_and_is_reported(
    v: VaultView,
    rekey: Rekey,
    me: NodeId,
    own: Option<OwnPart>,
    persisted: Option<RosterHead>,
)
    ensures
        ({
            let after = installed(v, rekey, me, own);
            let plan = plan_of(v, rekey, own);
            let said = concluded(plan, persisted);
            let older = v.head matches Some(h) && h.version > rekey.head.version;
            let newer = v.head is None || v.head->0.version < rekey.head.version;
            &&& after.head == if newer {
                Some(rekey.head)
            } else {
                v.head
            }
            &&& plan.persist == if older {
                None
            } else {
                Some(rekey.head)
            }
            &&& said.version == rekey.head.version
            &&& said.superseded == older
            &&& said.own == (own is Some && !older)
            &&& said.head_advanced == (!older && persisted is Some)
        }),
{
    run_of_writes(v, writes_of(v, rekey, me, own));
}

/// A re-key is refused exactly when it does not verify or does not open, and the
/// reason ends with what was found.
pub proof fn a_rekey_is_refused_only_for_a_reason(offered: Offered)
    ensures
        offered.refusal() is None == (offered.verified is Ok && offered.own is Ok),
        offered.verified matches Err(why) ==> offered.refusal()->0.len() >= why@.len()
            && offered.refusal()->0.skip(offered.refusal()->0.len() - why@.len()) == why@,
        offered.verified is Ok && offered.own is Err ==> {
            let why = offered.own->Err_0@;
            &&& offered.refusal()->0.len() >= why.len()
            &&& offered.refusal()->0.skip(offered.refusal()->0.len() - why.len()) == why
        },
{
    if let Err(why) = offered.verified {
        let all = offered.refusal()->0;
        assert(all.skip(all.len() - why@.len()) =~= why@);
    } else if let Err(why) = offered.own {
        let all = offered.refusal()->0;
        assert(all.skip(all.len() - why@.len()) =~= why@);
    }
}

/// The writes come in their order: the key first, then the proof, then the directory,
/// each at most once, and the head is not among them.
pub proof fn writes_come_in_order(
    v: VaultView,
    rekey: Rekey,
    me: NodeId,
    own: Option<OwnPart>,
    i: int,
    j: int,
)
    requires
        0 <= i < j < writes_of(v, rekey, me, own).len(),
    ensures
        ({
            let a = writes_of(v, rekey, me, own)[i];
            let b = writes_of(v, rekey, me, own)[j];
            &&& a is Key || a is Inclusion
            &&& b is Inclusion || b is Directory
            &&& a is Inclusion ==> b is Directory
        }),
{
}

} // verus!
