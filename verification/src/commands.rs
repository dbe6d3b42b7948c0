//! The `directory` commands: what an edit reports, and when a node may run a
//! directory alone.

use vstd::prelude::*;

use crate::directory::{listed_in, version_of, Directory};
use crate::idp_view::short8;
use crate::ids::NodeId;
use crate::text::{decimal, decimal_text, hex};

verus! {

/// The file whose presence marks an admin's keystore.
pub const ROOT_SEED: &'static str = "root.seed";

/// A `directory` command.
#[derive(Debug)]
pub enum DirectoryCmd {
    /// Run this node's directory alone.
    Serve,
    /// List a node, by its label or its id, as one of the directories.
    Add { node: String },
    /// Stop listing a node.
    Rm { node: String },
}

/// What an edit left: the node it was about, the label the admin knows it by,
/// the version of the policy and how many directories it lists.
#[derive(Debug)]
pub struct Edited {
    pub node: NodeId,
    pub label: Option<String>,
    pub version: u64,
    pub directories: usize,
}

/// Whether a command is the admin's edit.
pub open spec fn edits(cmd: DirectoryCmd) -> bool {
    !(cmd is Serve)
}

/// Whether a command is the admin's edit.
pub fn is_edit(cmd: &DirectoryCmd) -> (yes: bool)
    ensures
        yes == edits(*cmd),
{
    match cmd {
        DirectoryCmd::Serve => false,
        _ => true,
    }
}

/// What an edit says of itself.
pub open spec fn edit_report(cmd: DirectoryCmd, done: Edited) -> Seq<char> {
    let who = "directory "@ + hex(done.node.bytes@);
    let named = match done.label {
        Some(label) => who + " ("@ + label@ + ")"@,
        None => who,
    };
    let verb = if cmd is Add {
        " added"@
    } else {
        " removed"@
    };
    named + verb + " (policy version "@ + decimal(done.version as nat) + "; "@ + decimal(
        done.directories as nat,
    ) + " directory(ies))"@
}

/// What an edit reports; `done` is what it left.
pub fn edit_in(cmd: &DirectoryCmd, done: &Edited) -> (report: Result<String, String>)
    ensures
        report is Ok == edits(*cmd),
        (report matches Ok(text) ==> text@ == edit_report(*cmd, *done)),
        (report matches Err(text) ==> text@ == "`directory serve` is not an edit"@),
{
    let verb = match cmd {
        DirectoryCmd::Add { .. } => " added",
        DirectoryCmd::Rm { .. } => " removed",
        DirectoryCmd::Serve => {
            return Err("`directory serve` is not an edit".to_owned());
        },
    };
    let mut text = "directory ".to_owned();
    text.append(done.node.hex().as_str());
    if let Some(label) = &done.label {
        text.append(" (");
        text.append(label.as_str());
        text.append(")");
    }
    text.append(verb);
    text.append(" (policy version ");
    text.append(decimal_text(done.version).as_str());
    text.append("; ");
    text.append(decimal_text(done.directories as u64).as_str());
    text.append(" directory(ies))");
    Ok(text)
}

/// Why a node may not run a directory alone.
#[derive(Debug)]
pub enum StandaloneError {
    /// The keystore at this path holds the admin's key.
    AdminKey { path: String },
    /// The keystore joined no network.
    NoMembership,
    /// The membership does not fit the node, and how.
    Preflight { why: String },
    /// The policy the node holds does not list it.
    NotListed { node: NodeId, version: u64 },
}

impl StandaloneError {
    /// What it reads as.
    pub open spec fn said(&self) -> Seq<char> {
        match *self {
            StandaloneError::AdminKey { path } => path@ + " holds the admin key ("@ + ROOT_SEED@
                + "); a directory must not share a keystore with the network's root. Run `wires directory serve` from the directory node's own keystore (WIRES_HOME=<another dir> wires id, invite that node, join it there)"@,
            StandaloneError::NoMembership => {
                "this node has no membership: run `wires join <token>` first"@
            },
            StandaloneError::Preflight { why } => why@,
            StandaloneError::NotListed { node, version } => "this node ("@ + short8(node)
                + "…) is not one of the network's directories in the policy it holds (version "@
                + decimal(version as nat) + "); on the admin run `wires directory add "@ + hex(
                node.bytes@,
            ) + "`, then join again with a fresh invite"@,
        }
    }

    /// What it reads as.
    pub fn text(&self) -> (text: String)
        ensures
            text@ == self.said(),
    {
        match self {
            StandaloneError::AdminKey { path } => {
                let mut text = path.clone();
                text.append(" holds the admin key (");
                text.append(ROOT_SEED);
                text.append(
                    "); a directory must not share a keystore with the network's root. Run `wires directory serve` from the directory node's own keystore (WIRES_HOME=<another dir> wires id, invite that node, join it there)",
                );
                text
            },
            StandaloneError::NoMembership => {
                "this node has no membership: run `wires join <token>` first".to_owned()
            },
            StandaloneError::Preflight { why } => why.clone(),
            StandaloneError::NotListed { node, version } => {
                let mut text = "this node (".to_owned();
                text.append(crate::printer::short_id(*node).as_str());
                text.append(
                    "…) is not one of the network's directories in the policy it holds (version ",
                );
                text.append(decimal_text(*version).as_str());
                text.append("); on the admin run `wires directory add ");
                text.append(node.hex().as_str());
                text.append("`, then join again with a fresh invite");
                text
            },
        }
    }
}

/// What a keystore was found to be.
#[derive(Debug)]
pub struct KeystoreFound {
    pub path: String,
    /// Whether it holds the admin's key.
    pub root_seed: bool,
    /// Whether it holds a membership.
    pub membership: bool,
    /// Whether that membership fits the node.
    pub preflight: Result<(), String>,
}

/// Whether a directory may be opened from a keystore: not from the admin's, nor
/// from one that joined no network or whose membership does not fit.
pub fn check_keystore(found: &KeystoreFound) -> (fit: Result<(), StandaloneError>)
    ensures
        match fit {
            Ok(_) => !found.root_seed && found.membership && found.preflight is Ok,
            Err(StandaloneError::AdminKey { path }) => found.root_seed && path@ == found.path@,
            Err(StandaloneError::NoMembership) => !found.root_seed && !found.membership,
            Err(StandaloneError::Preflight { why }) => !found.root_seed && found.membership
                && found.preflight is Err && why@ == found.preflight->Err_0@,
            Err(StandaloneError::NotListed { .. }) => false,
        },
{
    if found.root_seed {
        return Err(StandaloneError::AdminKey { path: found.path.clone() });
    }
    if !found.membership {
        return Err(StandaloneError::NoMembership);
    }
    match &found.preflight {
        Ok(_) => Ok(()),
        Err(why) => Err(StandaloneError::Preflight { why: why.clone() }),
    }
}

/// Whether `dir` may run alone: only where the policy it holds lists its node.
pub fn open_standalone(dir: &Directory) -> (fit: Result<(), StandaloneError>)
    ensures
        fit is Ok == listed_in(dir@, dir@.me),
        (fit matches Err(e) ==> e == (StandaloneError::NotListed {
            node: dir@.me,
            version: version_of(dir@),
        })),
{
    let me = dir.id();
    if dir.lists(&me) {
        Ok(())
    } else {
        Err(StandaloneError::NotListed { node: me, version: dir.version() })
    }
}

/// A directory that may run alone vouches for what it holds.
pub proof fn a_standalone_directory_vouches(dir: Directory)
    requires
        dir.wf(),
        listed_in(dir@, dir@.me),
    ensures
        dir@.fresh is Some,
{
    dir.is_sound();
}

/// What is said of an edit: the directory's id and its label where it has one,
/// whether it was added or removed, and the version and the number of directories,
/// which read back. Serving is no edit.
pub proof fn an_edit_is_reported(cmd: DirectoryCmd, done: Edited) -> (parts: (
    Seq<char>,
    Seq<char>,
    Seq<char>,
))
    ensures
        edits(cmd) == (cmd is Add || cmd is Rm),
        ({
            let (label, version, count) = parts;
            &&& edit_report(cmd, done) == "directory "@ + hex(done.node.bytes@) + label + (
            if cmd is Add {
                " added"@
            } else {
                " removed"@
            }) + " (policy version "@ + version + "; "@ + count + " directory(ies))"@
            &&& match done.label {
                Some(text) => label == seq![' ', '('] + text@ + seq![')'],
                None => label == Seq::<char>::empty(),
            }
            &&& crate::text::number_read(version, 10) == done.version
            &&& crate::text::number_read(count, 10) == done.directories
        }),
{
    reveal_strlit(" (");
    reveal_strlit(")");
    assert(" ("@ =~= seq![' ', '(']);
    assert(")"@ =~= seq![')']);
    crate::text::a_decimal_reads_back(done.version as nat);
    crate::text::a_decimal_reads_back(done.directories as nat);
    let label = match done.label {
        Some(text) => seq![' ', '('] + text@ + seq![')'],
        None => Seq::<char>::empty(),
    };
    let version = decimal(done.version as nat);
    let count = decimal(done.directories as nat);
    assert(edit_report(cmd, done) =~= "directory "@ + hex(done.node.bytes@) + label + (
    if cmd is Add {
        " added"@
    } else {
        " removed"@
    }) + " (policy version "@ + version + "; "@ + count + " directory(ies))"@);
    (label, version, count)
}

/// A node that the policy does not list is told its own id and the version that does
/// not list it; an admin's keystore is named by its path; and what a check before the
/// start said is said as it stands.
pub proof fn a_directory_that_may_not_start_is_told_why(
    node: NodeId,
    version: u64,
    path: String,
)
    ensures
        ("this node ("@ + hex(node.bytes@).take(8)
            + "…) is not one of the network's directories in the policy it holds (version "@
            + decimal(version as nat)).is_prefix_of(
            (StandaloneError::NotListed { node, version }).said(),
        ),
        path@.is_prefix_of((StandaloneError::AdminKey { path }).said()),
        (StandaloneError::Preflight { why: path }).said() == path@,
{
    let a = "this node ("@ + hex(node.bytes@).take(8)
        + "…) is not one of the network's directories in the policy it holds (version "@ + decimal(
        version as nat,
    );
    assert((StandaloneError::NotListed { node, version }).said().take(a.len() as int) =~= a);
    assert((StandaloneError::AdminKey { path }).said().take(path@.len() as int) =~= path@);
}

} // verus!
