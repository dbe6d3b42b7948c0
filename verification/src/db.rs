//! A directory's copy of the policy: the newest heads with their items, for
//! deltas, and the latest freshness.
//!
//! Items are kept once each, under the hexadecimal blake3 hash of their
//! encoding, and dropped when no kept head names them.

use vstd::prelude::*;

use crate::ids::NodeId;
use crate::policy::{
    item_views, item_views_push, Head, HeadView, Item, ItemView, PolicyView, SignedPolicy,
};
use crate::table::{mapping, rising, rising_rows_put, row_views, rows_put, Table};
use crate::text::{hex, hex_text, same_text, texts, texts_push};

verus! {

/// How many heads, with their items, are kept.
pub const KEEP_HEADS: usize = 16;

/// The name of the blake3 hash of a byte string.
pub uninterp spec fn blake3_of(bytes: Seq<u8>) -> Seq<u8>;

/// `blake3::hash`: the 32 bytes of the hash. What they are is left to the name;
/// nothing is claimed of two byte strings that hash alike.
#[verifier::external_body]
fn blake3_hash(bytes: &[u8]) -> (hash: [u8; 32])
    ensures
        hash@ == blake3_of(bytes@),
{
    *blake3::hash(bytes).as_bytes()
}

/// The key an item is kept under.
pub open spec fn storage_key(item: ItemView) -> Seq<char> {
    hex(blake3_of(item.json))
}

/// The keys a list of items is kept under.
pub open spec fn storage_keys(items: Seq<ItemView>) -> Seq<Seq<char>> {
    items.map_values(|item: ItemView| storage_key(item))
}

/// The key `item` is kept under.
pub fn item_key(item: &Item) -> (key: String)
    ensures
        key@ == storage_key(item@),
{
    let hash = blake3_hash(item.json.as_slice());
    hex_text(hash.as_slice())
}

/// A directory's word that a head is the newest it knows.
#[derive(Clone, Copy, Debug, PartialEq, Eq)]
pub struct Fresh {
    /// The directory that vouches.
    pub directory: NodeId,
    /// The version of the head it vouches for.
    pub version: u64,
    /// When it was signed, in seconds.
    pub at: i64,
    /// When it runs out.
    pub until: i64,
}

/// A kept head and the keys of its items, in order.
#[derive(Debug)]
pub struct HeadRecord {
    pub head: Head,
    pub items: Vec<String>,
}

/// A kept head, as values.
#[verifier::ext_equal]
pub ghost struct HeadRow {
    pub head: HeadView,
    pub keys: Seq<Seq<char>>,
}

impl View for HeadRecord {
    type V = HeadRow;

    open spec fn view(&self) -> HeadRow {
        HeadRow { head: self.head@, keys: texts(self.items@) }
    }
}

/// The kept heads of a list, as values.
pub open spec fn head_rows(list: Seq<HeadRecord>) -> Seq<HeadRow> {
    list.map_values(|record: HeadRecord| record@)
}

/// What a directory keeps, as values.
#[verifier::ext_equal]
pub ghost struct DbView {
    /// The version of the newest head; 0 before the first.
    pub version: u64,
    /// The kept heads, oldest first.
    pub heads: Seq<HeadRow>,
    /// The items, under the keys they are kept under.
    pub items: Map<Seq<char>, ItemView>,
    /// For the newest head: from an item's own key to the one it is kept under.
    pub current: Map<Seq<char>, Seq<char>>,
    /// The latest freshness.
    pub fresh: Option<Fresh>,
}

/// A directory's store.
#[derive(Debug)]
pub struct DirectoryDb {
    version: u64,
    heads: Vec<HeadRecord>,
    items: Table<Item>,
    current: Table<String>,
    fresh: Option<Fresh>,
}

impl View for DirectoryDb {
    type V = DbView;

    closed spec fn view(&self) -> DbView {
        DbView {
            version: self.version,
            heads: head_rows(self.heads@),
            items: self.items@,
            current: self.current@,
            fresh: self.fresh,
        }
    }
}

/// A kept head names the key.
pub open spec fn named(heads: Seq<HeadRow>, key: Seq<char>) -> bool {
    exists|i: int| 0 <= i < heads.len() && (#[trigger] heads[i]).keys.contains(key)
}

/// The heads rise in version, the last is the newest, and no more than
/// [`KEEP_HEADS`] are kept.
pub open spec fn heads_in_order(db: DbView) -> bool {
    &&& forall|i: int, j: int|
        0 <= i < j < db.heads.len() ==> (#[trigger] db.heads[i]).head.version < (
        #[trigger] db.heads[j]).head.version
    &&& forall|i: int| 0 <= i < db.heads.len() ==> (#[trigger] db.heads[i]).head.version > 0
    &&& db.version == if db.heads.len() == 0 {
        0
    } else {
        db.heads.last().head.version
    }
    &&& db.heads.len() <= KEEP_HEADS
}

/// Every item that a kept head names is there.
pub open spec fn complete(db: DbView) -> bool {
    forall|key: Seq<char>| named(db.heads, key) ==> #[trigger] db.items.dom().contains(key)
}

/// A freshness changes nothing of what is there.
pub proof fn a_freshness_leaves_the_items(db: DbView, fresh: Option<Fresh>)
    ensures
        complete(DbView { fresh, ..db }) == complete(db),
{
    let now = DbView { fresh, ..db };
    if complete(db) {
        assert forall|key: Seq<char>| named(now.heads, key) implies #[trigger]
            now.items.dom().contains(key) by {
            assert(db.items.dom().contains(key));
        }
    }
    if complete(now) {
        assert forall|key: Seq<char>| named(db.heads, key) implies #[trigger]
            db.items.dom().contains(key) by {
            assert(now.items.dom().contains(key));
        }
    }
}

/// A store with nothing in it.
pub open spec fn nothing_kept() -> DbView {
    DbView {
        version: 0,
        heads: Seq::empty(),
        items: Map::empty(),
        current: Map::empty(),
        fresh: None,
    }
}

/// A table of items after each item was put under its storage key.
pub open spec fn items_put(
    table: Map<Seq<char>, ItemView>,
    keys: Seq<Seq<char>>,
    items: Seq<ItemView>,
) -> Map<Seq<char>, ItemView>
    decreases items.len(),
{
    if items.len() == 0 {
        table
    } else {
        items_put(table, keys, items.drop_last()).insert(keys[items.len() - 1], items.last())
    }
}

/// From each item's own key to its storage key, a later item in place of an
/// earlier.
pub open spec fn index_of(keys: Seq<Seq<char>>, items: Seq<ItemView>) -> Map<Seq<char>, Seq<char>>
    decreases items.len(),
{
    if items.len() == 0 {
        Map::empty()
    } else {
        index_of(keys, items.drop_last()).insert(items.last().key, keys[items.len() - 1])
    }
}

/// The newest [`KEEP_HEADS`] heads.
pub open spec fn newest_heads(heads: Seq<HeadRow>) -> Seq<HeadRow> {
    if heads.len() < KEEP_HEADS {
        heads
    } else {
        heads.skip(heads.len() - KEEP_HEADS)
    }
}

/// The items that a head names.
pub open spec fn named_items(
    items: Map<Seq<char>, ItemView>,
    heads: Seq<HeadRow>,
) -> Map<Seq<char>, ItemView> {
    items.restrict(Set::new(|key: Seq<char>| named(heads, key)))
}

/// What is kept after a policy was stored, its items under `keys`: nothing
/// changes unless it is strictly newer. Items are collected once as many heads
/// as are kept are there.
pub open spec fn stored_under(db: DbView, policy: PolicyView, keys: Seq<Seq<char>>) -> DbView {
    if policy.head.version <= db.version {
        db
    } else {
        let heads = db.heads.push(HeadRow { head: policy.head, keys });
        let kept = newest_heads(heads);
        let items = items_put(db.items, keys, policy.items);
        DbView {
            version: policy.head.version,
            heads: kept,
            items: if heads.len() < KEEP_HEADS {
                items
            } else {
                named_items(items, kept)
            },
            current: index_of(keys, policy.items),
            fresh: db.fresh,
        }
    }
}

/// What is kept after a policy was stored.
pub open spec fn stored(db: DbView, policy: PolicyView) -> DbView {
    stored_under(db, policy, storage_keys(policy.items))
}

/// The place of the head at `version`, if it is kept.
pub open spec fn head_at(heads: Seq<HeadRow>, version: u64) -> Option<int> {
    if exists|i: int| 0 <= i < heads.len() && (#[trigger] heads[i]).head.version == version {
        Some(choose|i: int| 0 <= i < heads.len() && (#[trigger] heads[i]).head.version == version)
    } else {
        None
    }
}

/// Every key of a head has its item.
pub open spec fn head_complete(db: DbView, row: HeadRow) -> bool {
    forall|i: int| 0 <= i < row.keys.len() ==> db.items.dom().contains(#[trigger] row.keys[i])
}

/// The policy of a kept head.
pub open spec fn rebuilt(db: DbView, row: HeadRow) -> PolicyView {
    PolicyView { head: row.head, items: row.keys.map_values(|key: Seq<char>| db.items[key]) }
}

/// An item that a kept head names is not there.
#[derive(Debug)]
pub struct LacksItem {
    /// The key it would be under.
    pub key: String,
}

impl LacksItem {
    /// What it reads as.
    pub open spec fn said(&self) -> Seq<char> {
        "directory.redb lacks item "@ + self.key@
    }

    /// What it reads as.
    pub fn text(&self) -> (text: String)
        ensures
            text@ == self.said(),
    {
        let mut text = "directory.redb lacks item ".to_owned();
        text.append(self.key.as_str());
        text
    }
}

/// What reading a kept head finds: its policy where every item is there, and
/// else the first item that is missing.
pub open spec fn reads_row(
    db: DbView,
    row: HeadRow,
    found: Result<Option<SignedPolicy>, LacksItem>,
) -> bool {
    match found {
        Ok(Some(policy)) => head_complete(db, row) && policy@ == rebuilt(db, row),
        Ok(None) => false,
        Err(lacks) => exists|j: int|
            0 <= j < row.keys.len() && (#[trigger] row.keys[j]) == lacks.key@
                && !db.items.dom().contains(row.keys[j]) && forall|k: int|
                0 <= k < j ==> db.items.dom().contains(#[trigger] row.keys[k]),
    }
}

/// What reading the head at `version` finds; nothing where it is not kept.
pub open spec fn reads(
    db: DbView,
    version: u64,
    found: Result<Option<SignedPolicy>, LacksItem>,
) -> bool {
    match head_at(db.heads, version) {
        None => found matches Ok(None),
        Some(i) => reads_row(db, db.heads[i], found),
    }
}

impl DirectoryDb {
    /// The tables are in order, and the heads too.
    pub closed spec fn wf(&self) -> bool {
        &&& self.items.wf()
        &&& self.current.wf()
        &&& heads_in_order(self@)
    }

    /// A well-formed store keeps its heads in order.
    pub proof fn keeps_heads_in_order(&self)
        requires
            self.wf(),
        ensures
            heads_in_order(self@),
    {
    }

    /// A store with nothing in it.
    pub fn new() -> (db: DirectoryDb)
        ensures
            db.wf(),
            db@ == nothing_kept(),
            complete(db@),
    {
        let db = DirectoryDb {
            version: 0,
            heads: Vec::new(),
            items: Table::new(),
            current: Table::new(),
            fresh: None,
        };
        assert(db@ =~= nothing_kept());
        db
    }

    /// The newest head's version; 0 before the first.
    pub fn version(&self) -> (version: u64)
        ensures
            version == self@.version,
    {
        self.version
    }

    /// The versions of the heads kept, oldest first.
    pub fn kept(&self) -> (versions: Vec<u64>)
        ensures
            versions@ == self@.heads.map_values(|row: HeadRow| row.head.version),
    {
        let ghost want = self@.heads.map_values(|row: HeadRow| row.head.version);
        let mut out: Vec<u64> = Vec::new();
        let mut i: usize = 0;
        while i < self.heads.len()
            invariant
                i <= self.heads@.len(),
                want == self@.heads.map_values(|row: HeadRow| row.head.version),
                want.len() == self.heads@.len(),
                out@ == want.take(i as int),
            decreases self.heads@.len() - i,
        {
            out.push(self.heads[i].head.version);
            proof {
                assert(self@.heads[i as int] == self.heads@[i as int]@);
                assert(want.take(i as int).push(want[i as int]) =~= want.take(i + 1));
            }
            i += 1;
        }
        assert(want.take(want.len() as int) =~= want);
        out
    }

    /// The latest freshness stored.
    pub fn fresh(&self) -> (fresh: Option<Fresh>)
        ensures
            fresh == self@.fresh,
    {
        self.fresh
    }

    /// Store `fresh` as the latest.
    pub fn set_fresh(&mut self, fresh: Fresh)
        requires
            old(self).wf(),
        ensures
            final(self).wf(),
            final(self)@ == (DbView { fresh: Some(fresh), ..old(self)@ }),
            complete(final(self)@) == complete(old(self)@),
    {
        self.fresh = Some(fresh);
        assert(self@ =~= DbView { fresh: Some(fresh), ..old(self)@ });
        proof {
            a_freshness_leaves_the_items(old(self)@, Some(fresh));
        }
    }

    /// The policy at `version`, if that head is still kept.
    pub fn policy_at(&self, version: u64) -> (found: Result<Option<SignedPolicy>, LacksItem>)
        requires
            self.wf(),
        ensures
            reads(self@, version, found),
    {
        let mut i: usize = 0;
        while i < self.heads.len()
            invariant
                i <= self.heads@.len(),
                self.wf(),
                forall|j: int| 0 <= j < i ==> (#[trigger] self@.heads[j]).head.version != version,
            decreases self.heads@.len() - i,
        {
            if self.heads[i].head.version == version {
                proof {
                    assert(self@.heads[i as int] == self.heads@[i as int]@);
                    let at = head_at(self@.heads, version)->0;
                    assert(self@.heads[at].head.version == version);
                    assert(at == i);
                }
                return self.rebuild(i);
            }
            i += 1;
        }
        assert(self@.heads.len() == self.heads@.len());
        Ok(None)
    }

    /// Whether the head at `version` is kept.
    pub fn keeps(&self, version: u64) -> (kept: bool)
        requires
            self.wf(),
        ensures
            kept == (head_at(self@.heads, version) is Some),
    {
        let mut i: usize = 0;
        while i < self.heads.len()
            invariant
                i <= self.heads@.len(),
                forall|j: int| 0 <= j < i ==> (#[trigger] self@.heads[j]).head.version != version,
            decreases self.heads@.len() - i,
        {
            assert(self@.heads[i as int] == self.heads@[i as int]@);
            if self.heads[i].head.version == version {
                assert(self@.heads[i as int].head.version == version);
                return true;
            }
            i += 1;
        }
        assert(self@.heads.len() == self.heads@.len());
        false
    }

    /// The policy of the head at place `i`.
    fn rebuild(&self, i: usize) -> (found: Result<Option<SignedPolicy>, LacksItem>)
        requires
            self.wf(),
            i < self@.heads.len(),
        ensures
            reads_row(self@, self@.heads[i as int], found),
    {
        let record = &self.heads[i];
        let ghost row = self@.heads[i as int];
        assert(row == record@);
        let mut items: Vec<Item> = Vec::new();
        let mut j: usize = 0;
        while j < record.items.len()
            invariant
                self.wf(),
                row == record@,
                row == self@.heads[i as int],
                j <= record.items@.len(),
                item_views(items@).len() == j,
                forall|k: int|
                    0 <= k < j ==> self@.items.dom().contains(#[trigger] row.keys[k])
                        && item_views(items@)[k] == self@.items[row.keys[k]],
            decreases record.items@.len() - j,
        {
            assert(row.keys[j as int] == record.items@[j as int]@);
            match self.items.get(record.items[j].as_str()) {
                Some(item) => {
                    let item = item.copy();
                    proof {
                        item_views_push(items@, item);
                    }
                    items.push(item);
                },
                None => {
                    return Err(LacksItem { key: record.items[j].clone() });
                },
            }
            j += 1;
        }
        let policy = SignedPolicy { head: record.head.copy(), items };
        assert(policy@.items =~= rebuilt(self@, row).items);
        Ok(Some(policy))
    }

    /// The newest policy; nothing before the first.
    pub fn current(&self) -> (found: Result<Option<SignedPolicy>, LacksItem>)
        requires
            self.wf(),
        ensures
            self@.version == 0 ==> (found matches Ok(None)),
            self@.version != 0 ==> reads(self@, self@.version, found),
    {
        if self.version == 0 {
            return Ok(None);
        }
        self.policy_at(self.version)
    }

    /// How many items are kept.
    pub fn item_count(&self) -> (n: usize)
        requires
            self.wf(),
        ensures
            n == self@.items.dom().len(),
    {
        proof {
            self.items.size();
        }
        self.items.len()
    }

    /// The index of the newest head, in the order of the items' own keys.
    pub fn current_index(&self) -> (index: Vec<(String, String)>)
        requires
            self.wf(),
        ensures
            rising(row_views(index@)),
            mapping(row_views(index@)) == self@.current,
    {
        let ghost want = self.current.rows();
        let mut out: Vec<(String, String)> = Vec::new();
        let n: usize = self.current.len();
        let mut i: usize = 0;
        while i < n
            invariant
                i <= n,
                n == want.len(),
                want == self.current.rows(),
                out@.len() == i,
                forall|k: int|
                    0 <= k < i ==> (#[trigger] out@[k]).0@ == want[k].0 && out@[k].1@ == want[k].1,
            decreases n - i,
        {
            out.push((self.current.key_at(i).clone(), self.current.value_at(i).clone()));
            i += 1;
        }
        proof {
            self.current.rows_rise();
            self.current.view_is_mapping();
            assert(row_views(out@) =~= want);
        }
        out
    }

    /// The kept heads, oldest first.
    pub fn heads(&self) -> (heads: &Vec<HeadRecord>)
        ensures
            head_rows(heads@) == self@.heads,
    {
        &self.heads
    }

    /// The items, in the order of the keys they are kept under.
    pub fn item_rows(&self) -> (rows: Vec<(String, Item)>)
        requires
            self.wf(),
        ensures
            rising(row_views(rows@)),
            mapping(row_views(rows@)) == self@.items,
    {
        let ghost want = self.items.rows();
        let mut out: Vec<(String, Item)> = Vec::new();
        let n: usize = self.items.len();
        let mut i: usize = 0;
        while i < n
            invariant
                i <= n,
                n == want.len(),
                want == self.items.rows(),
                out@.len() == i,
                forall|k: int|
                    0 <= k < i ==> (#[trigger] out@[k]).0@ == want[k].0 && out@[k].1@ == want[k].1,
            decreases n - i,
        {
            out.push((self.items.key_at(i).clone(), self.items.value_at(i).copy()));
            i += 1;
        }
        proof {
            self.items.rows_rise();
            self.items.view_is_mapping();
            assert(row_views(out@) =~= want);
        }
        out
    }

    /// The store of the rows it was saved as; nothing where the heads are not
    /// ones that storing leaves.
    pub fn from_rows(
        heads: Vec<HeadRecord>,
        items: Vec<(String, Item)>,
        current: Vec<(String, String)>,
        fresh: Option<Fresh>,
    ) -> (db: Option<DirectoryDb>)
        ensures
            ({
                let rows = loaded(
                    head_rows(heads@),
                    row_views(items@),
                    row_views(current@),
                    fresh,
                );
                &&& db is Some == heads_in_order(rows)
                &&& (db matches Some(db) ==> db.wf() && db@ == rows)
            }),
    {
        let ghost rows = loaded(head_rows(heads@), row_views(items@), row_views(current@), fresh);
        if heads.len() > KEEP_HEADS {
            return None;
        }
        let mut version: u64 = 0;
        let mut i: usize = 0;
        while i < heads.len()
            invariant
                i <= heads@.len(),
                rows.heads == head_rows(heads@),
                forall|j: int, k: int|
                    0 <= j < k < i ==> (#[trigger] rows.heads[j]).head.version < (
                    #[trigger] rows.heads[k]).head.version,
                forall|j: int| 0 <= j < i ==> 0 < (#[trigger] rows.heads[j]).head.version <= version,
                version == if i == 0 {
                    0
                } else {
                    rows.heads[i - 1].head.version
                },
            decreases heads@.len() - i,
        {
            assert(rows.heads[i as int] == heads@[i as int]@);
            if heads[i].head.version <= version {
                proof {
                    if i > 0 {
                        assert(rows.heads[i - 1].head.version >= rows.heads[i as int].head.version);
                    }
                }
                return None;
            }
            version = heads[i].head.version;
            i += 1;
        }
        let db = DirectoryDb {
            version,
            heads,
            items: Table::from_rows(items),
            current: Table::from_rows(current),
            fresh,
        };
        assert(db@ =~= rows);
        Some(db)
    }
}

/// What a store loaded from saved rows keeps.
pub open spec fn loaded(
    heads: Seq<HeadRow>,
    items: Seq<(Seq<char>, ItemView)>,
    current: Seq<(Seq<char>, Seq<char>)>,
    fresh: Option<Fresh>,
) -> DbView {
    DbView {
        version: if heads.len() == 0 {
            0
        } else {
            heads.last().head.version
        },
        heads,
        items: rows_put(items),
        current: rows_put(current),
        fresh,
    }
}

/// A store saved as its rows is loaded back as it was.
pub proof fn a_restart_loads_what_was_kept(
    db: DbView,
    items: Seq<(Seq<char>, ItemView)>,
    current: Seq<(Seq<char>, Seq<char>)>,
)
    requires
        heads_in_order(db),
        rising(items),
        mapping(items) == db.items,
        rising(current),
        mapping(current) == db.current,
    ensures
        loaded(db.heads, items, current, db.fresh) == db,
{
    rising_rows_put(items);
    rising_rows_put(current);
}

/// Whether a kept head names the key.
fn is_named(heads: &Vec<HeadRecord>, key: &str) -> (yes: bool)
    ensures
        yes == named(head_rows(heads@), key@),
{
    let mut i: usize = 0;
    while i < heads.len()
        invariant
            i <= heads@.len(),
            forall|k: int| 0 <= k < i ==> !(#[trigger] head_rows(heads@)[k]).keys.contains(key@),
        decreases heads@.len() - i,
    {
        let record = &heads[i];
        let ghost row = head_rows(heads@)[i as int];
        assert(row == record@);
        let mut j: usize = 0;
        while j < record.items.len()
            invariant
                j <= record.items@.len(),
                i < heads@.len(),
                row == record@,
                row == head_rows(heads@)[i as int],
                forall|k: int| 0 <= k < j ==> #[trigger] row.keys[k] != key@,
            decreases record.items@.len() - j,
        {
            assert(row.keys[j as int] == record.items@[j as int]@);
            if same_text(record.items[j].as_str(), key) {
                assert(row.keys.contains(key@));
                return true;
            }
            j += 1;
        }
        assert(!row.keys.contains(key@)) by {
            assert(row.keys.len() == record.items@.len());
        }
        i += 1;
    }
    assert(head_rows(heads@).len() == heads@.len());
    false
}

/// Drop the items that no kept head names.
fn collect(items: &mut Table<Item>, heads: &Vec<HeadRecord>)
    requires
        old(items).wf(),
    ensures
        final(items).wf(),
        final(items)@ == named_items(old(items)@, head_rows(heads@)),
{
    let ghost start = items@;
    let ghost rows = head_rows(heads@);
    let mut i: usize = 0;
    while i < items.len()
        invariant
            items.wf(),
            rows == head_rows(heads@),
            i <= items.rows().len(),
            forall|k: int| 0 <= k < i ==> named(rows, #[trigger] items.rows()[k].0),
            forall|key: Seq<char>| #[trigger]
                items@.dom().contains(key) ==> start.dom().contains(key) && items@[key]
                    == start[key],
            forall|key: Seq<char>|
                named(rows, key) && #[trigger] start.dom().contains(key) ==> items@.dom().contains(
                    key,
                ),
        decreases items.rows().len() - i,
    {
        if is_named(heads, items.key_at(i).as_str()) {
            i += 1;
        } else {
            let ghost before = items.rows();
            items.remove_at(i);
            proof {
                assert forall|k: int| 0 <= k < i implies named(
                    rows,
                    #[trigger] items.rows()[k].0,
                ) by {
                    assert(before[k] == items.rows()[k]);
                }
            }
        }
    }
    proof {
        items.view_is_mapping();
        let want = named_items(start, rows);
        assert forall|key: Seq<char>| items@.dom().contains(key) implies named(rows, key) by {
            let k = choose|k: int|
                0 <= k < items.rows().len() && (#[trigger] items.rows()[k]).0 == key;
            assert(named(rows, items.rows()[k].0));
        }
        assert(items@ =~= want);
    }
}

impl DirectoryDb {
    /// Store `policy` as the newest head, with its items under `keys`, and
    /// collect what is no longer needed. Whether it was strictly newer: where it
    /// was not, nothing changes.
    #[verifier::spinoff_prover]
    #[verifier::rlimit(40)]
    pub fn store_under(&mut self, policy: &SignedPolicy, keys: &Vec<String>) -> (newer: bool)
        requires
            old(self).wf(),
            keys@.len() == policy.items@.len(),
        ensures
            final(self).wf(),
            newer == (policy@.head.version > old(self)@.version),
            final(self)@ == stored_under(old(self)@, policy@, texts(keys@)),
            complete(old(self)@) ==> complete(final(self)@),
    {
        let ghost before = self@;
        if policy.head.version <= self.version {
            return false;
        }
        let ghost all = policy@.items;
        let ghost names = texts(keys@);
        self.current.clear();
        let mut i: usize = 0;
        proof {
            assert(all.take(0) =~= Seq::<ItemView>::empty());
        }
        while i < policy.items.len()
            invariant
                i <= policy.items@.len(),
                keys@.len() == policy.items@.len(),
                all == policy@.items,
                names == texts(keys@),
                self.items.wf(),
                self.current.wf(),
                self.heads == old(self).heads,
                self.version == old(self).version,
                self.fresh == old(self).fresh,
                before == old(self)@,
                self.items@ == items_put(before.items, names, all.take(i as int)),
                self.current@ == index_of(names, all.take(i as int)),
            decreases policy.items@.len() - i,
        {
            proof {
                assert(all.take(i + 1).drop_last() =~= all.take(i as int));
                assert(all[i as int] == policy.items@[i as int]@);
                assert(names[i as int] == keys@[i as int]@);
            }
            self.items.insert(keys[i].clone(), policy.items[i].copy());
            self.current.insert(policy.items[i].key.clone(), keys[i].clone());
            i += 1;
        }
        assert(all.take(all.len() as int) =~= all);
        let record = HeadRecord { head: policy.head.copy(), items: crate::text::copy_texts(keys) };
        let ghost row = HeadRow { head: policy@.head, keys: names };
        assert(record@ == row);
        self.heads.push(record);
        let ghost heads = before.heads.push(row);
        assert(head_rows(self.heads@) =~= heads);
        self.version = policy.head.version;
        if self.heads.len() > KEEP_HEADS {
            let _ = self.heads.remove(0);
        }
        proof {
            assert(head_rows(self.heads@) =~= newest_heads(heads));
        }
        if self.heads.len() >= KEEP_HEADS {
            collect(&mut self.items, &self.heads);
        }
        proof {
            let want = stored_under(before, policy@, names);
            assert(self@ =~= want);
            storing_keeps_heads_in_order(before, policy@, names);
            if complete(before) {
                a_kept_head_never_lacks_an_item(before, policy@, names);
            }
        }
        true
    }

    /// Store `policy`, already verified, as the newest head. Whether it was
    /// strictly newer: where it was not, nothing changes.
    pub fn store(&mut self, policy: &SignedPolicy) -> (newer: bool)
        requires
            old(self).wf(),
        ensures
            final(self).wf(),
            newer == (policy@.head.version > old(self)@.version),
            final(self)@ == stored(old(self)@, policy@),
            complete(old(self)@) ==> complete(final(self)@),
    {
        let ghost want = storage_keys(policy@.items);
        let mut keys: Vec<String> = Vec::new();
        let mut i: usize = 0;
        while i < policy.items.len()
            invariant
                i <= policy.items@.len(),
                want == storage_keys(policy@.items),
                texts(keys@) == want.take(i as int),
            decreases policy.items@.len() - i,
        {
            let key = item_key(&policy.items[i]);
            proof {
                texts_push(keys@, key);
                assert(policy@.items[i as int] == policy.items@[i as int]@);
                assert(want.take(i as int).push(want[i as int]) =~= want.take(i + 1));
            }
            keys.push(key);
            i += 1;
        }
        proof {
            assert(want.take(want.len() as int) =~= want);
            assert(texts(keys@).len() == keys@.len());
        }
        self.store_under(policy, &keys)
    }
}

/// Store `policy`, refusing one that is not newer with the version it has.
pub fn store_newer(db: &mut DirectoryDb, policy: &SignedPolicy) -> (done: Result<(), String>)
    requires
        old(db).wf(),
    ensures
        final(db).wf(),
        final(db)@ == stored(old(db)@, policy@),
        complete(old(db)@) ==> complete(final(db)@),
        done is Ok == (policy@.head.version > old(db)@.version),
        (done matches Err(text) ==> text@ == "version "@ + crate::text::decimal(
            policy@.head.version as nat,
        ) + " is not newer"@),
{
    if db.store(policy) {
        return Ok(());
    }
    let mut text = "version ".to_owned();
    text.append(crate::text::decimal_text(policy.version()).as_str());
    text.append(" is not newer");
    Err(text)
}

/// Items kept under one key are one item: no two different ones hash alike.
pub open spec fn no_collision(keys: Seq<Seq<char>>, items: Seq<ItemView>) -> bool {
    forall|i: int, j: int|
        0 <= i < items.len() && 0 <= j < items.len() && #[trigger] keys[i] == #[trigger] keys[j]
            ==> items[i] == items[j]
}

/// No item hashes like a different one that is kept already.
pub open spec fn agrees(
    table: Map<Seq<char>, ItemView>,
    keys: Seq<Seq<char>>,
    items: Seq<ItemView>,
) -> bool {
    forall|i: int|
        0 <= i < items.len() && table.dom().contains(#[trigger] keys[i]) ==> table[keys[i]]
            == items[i]
}

/// What `items_put` leaves under a key, where all items of that key are one.
proof fn items_put_at(
    table: Map<Seq<char>, ItemView>,
    keys: Seq<Seq<char>>,
    items: Seq<ItemView>,
    key: Seq<char>,
    only: ItemView,
)
    requires
        keys.len() >= items.len(),
        forall|i: int| 0 <= i < items.len() && #[trigger] keys[i] == key ==> items[i] == only,
    ensures
        ({
            let put = items_put(table, keys, items);
            let put_now = keys.take(items.len() as int).contains(key);
            &&& put.dom().contains(key) == (table.dom().contains(key) || put_now)
            &&& put_now ==> put[key] == only
            &&& !put_now ==> put[key] == table[key]
        }),
    decreases items.len(),
{
    if items.len() > 0 {
        let n = items.len() - 1;
        let less = items.drop_last();
        assert forall|i: int| 0 <= i < less.len() && #[trigger] keys[i] == key implies less[i]
            == only by {
            assert(items[i] == less[i]);
        }
        items_put_at(table, keys, less, key, only);
        let before = keys.take(n);
        let now = keys.take(n + 1);
        if before.contains(key) {
            let k = choose|k: int| 0 <= k < before.len() && before[k] == key;
            assert(now[k] == key);
        }
        if now.contains(key) {
            let k = choose|k: int| 0 <= k < now.len() && now[k] == key;
            if k < n {
                assert(before[k] == key);
            }
        }
        if keys[n] == key {
            assert(now[n] == key);
        }
    }
}

/// What `items_put` leaves in a table: what was there, and the keys put.
proof fn items_put_dom(
    table: Map<Seq<char>, ItemView>,
    keys: Seq<Seq<char>>,
    items: Seq<ItemView>,
    key: Seq<char>,
)
    requires
        keys.len() == items.len(),
    ensures
        items_put(table, keys, items).dom().contains(key) == (table.dom().contains(key)
            || keys.contains(key)),
    decreases items.len(),
{
    if items.len() > 0 {
        let n = items.len() - 1;
        items_put_prefix(table, keys, keys.take(n), items.drop_last());
        items_put_dom(table, keys.take(n), items.drop_last(), key);
        assert(keys =~= keys.take(n).push(keys[n]));
        if keys.take(n).contains(key) {
            let k = choose|k: int| 0 <= k < n && keys.take(n)[k] == key;
            assert(keys[k] == key);
        }
        if keys.contains(key) && keys[n] != key {
            let k = choose|k: int| 0 <= k < keys.len() && keys[k] == key;
            assert(keys.take(n)[k] == key);
        }
    }
}

/// Keys past the items do not matter.
proof fn items_put_prefix(
    table: Map<Seq<char>, ItemView>,
    a: Seq<Seq<char>>,
    b: Seq<Seq<char>>,
    items: Seq<ItemView>,
)
    requires
        a.len() >= items.len(),
        b.len() >= items.len(),
        forall|i: int| 0 <= i < items.len() ==> #[trigger] a[i] == b[i],
    ensures
        items_put(table, a, items) == items_put(table, b, items),
    decreases items.len(),
{
    if items.len() > 0 {
        items_put_prefix(table, a, b, items.drop_last());
        assert(a[items.len() - 1] == b[items.len() - 1]);
    }
}

/// Storing keeps the heads in order.
pub proof fn storing_keeps_heads_in_order(db: DbView, policy: PolicyView, keys: Seq<Seq<char>>)
    requires
        heads_in_order(db),
    ensures
        heads_in_order(stored_under(db, policy, keys)),
{
    let now = stored_under(db, policy, keys);
    if policy.head.version > db.version {
        let row = HeadRow { head: policy.head, keys };
        let heads = db.heads.push(row);
        assert forall|i: int, j: int| 0 <= i < j < heads.len() implies (
        #[trigger] heads[i]).head.version < (#[trigger] heads[j]).head.version by {
            if j == db.heads.len() {
                if i < db.heads.len() - 1 {
                    assert(db.heads[i].head.version < db.heads[db.heads.len()
                        - 1].head.version);
                }
            }
        }
        assert(now.heads.last() == row);
    }
}

/// Whatever is stored, every item that a kept head names is there.
pub proof fn a_kept_head_never_lacks_an_item(db: DbView, policy: PolicyView, keys: Seq<Seq<char>>)
    requires
        complete(db),
        keys.len() == policy.items.len(),
    ensures
        complete(stored_under(db, policy, keys)),
{
    let now = stored_under(db, policy, keys);
    if policy.head.version > db.version {
        let row = HeadRow { head: policy.head, keys };
        let heads = db.heads.push(row);
        assert forall|key: Seq<char>| named(now.heads, key) implies #[trigger]
            now.items.dom().contains(key) by {
            let i = choose|i: int|
                0 <= i < now.heads.len() && (#[trigger] now.heads[i]).keys.contains(key);
            let k = if heads.len() < KEEP_HEADS { i } else { i + heads.len() - KEEP_HEADS };
            assert(now.heads[i] == heads[k]);
            if k < db.heads.len() {
                assert(db.heads[k].keys.contains(key));
                assert(named(db.heads, key));
                assert(db.items.dom().contains(key));
            }
            items_put_dom(db.items, keys, policy.items, key);
        }
    }
}

/// Once as many heads as are kept are there, no item outlives the heads that
/// name it.
pub proof fn no_item_outlives_its_heads(db: DbView, policy: PolicyView, key: Seq<char>)
    requires
        policy.head.version > db.version,
        db.heads.len() + 1 >= KEEP_HEADS,
        stored(db, policy).items.dom().contains(key),
    ensures
        named(stored(db, policy).heads, key),
{
}

/// A policy that is stored is read back as it is, unless two of its own items
/// hash alike.
pub proof fn a_stored_policy_is_read_back(db: DbView, policy: PolicyView)
    requires
        heads_in_order(db),
        policy.head.version > db.version,
        no_collision(storage_keys(policy.items), policy.items),
    ensures
        ({
            let now = stored(db, policy);
            let row = now.heads.last();
            &&& now.heads.len() > 0
            &&& head_at(now.heads, policy.head.version) == Some(now.heads.len() - 1)
            &&& head_complete(now, row)
            &&& rebuilt(now, row) == policy
        }),
{
    let keys = storage_keys(policy.items);
    let now = stored(db, policy);
    storing_keeps_heads_in_order(db, policy, keys);
    let row = HeadRow { head: policy.head, keys };
    let last = now.heads.len() - 1;
    assert(now.heads[last] == row);
    let at = head_at(now.heads, policy.head.version)->0;
    assert(now.heads[at].head.version == policy.head.version);
    assert(at == last);
    assert forall|i: int| 0 <= i < keys.len() implies now.items.dom().contains(
        #[trigger] keys[i],
    ) && now.items[keys[i]] == policy.items[i] by {
        items_put_at(db.items, keys, policy.items, keys[i], policy.items[i]);
        assert(keys.take(policy.items.len() as int) =~= keys);
        assert(row.keys.contains(keys[i]));
        assert(now.heads[last].keys.contains(keys[i]));
        assert(named(now.heads, keys[i]));
    }
    assert(rebuilt(now, row).items =~= policy.items);
}

/// A head that stays kept reads the same after a newer policy was stored,
/// unless one of the new items hashes like a different one that was kept.
pub proof fn a_kept_head_reads_the_same(db: DbView, policy: PolicyView, row: HeadRow)
    requires
        heads_in_order(db),
        complete(db),
        db.heads.contains(row),
        policy.head.version > db.version,
        no_collision(storage_keys(policy.items), policy.items),
        agrees(db.items, storage_keys(policy.items), policy.items),
        stored(db, policy).heads.contains(row),
    ensures
        head_complete(stored(db, policy), row),
        rebuilt(stored(db, policy), row) == rebuilt(db, row),
{
    let keys = storage_keys(policy.items);
    let now = stored(db, policy);
    assert forall|i: int| 0 <= i < row.keys.len() implies now.items.dom().contains(
        #[trigger] row.keys[i],
    ) && now.items[row.keys[i]] == db.items[row.keys[i]] by {
        let key = row.keys[i];
        assert(row.keys.contains(key));
        let h = choose|h: int| 0 <= h < db.heads.len() && db.heads[h] == row;
        assert(db.heads[h].keys.contains(key));
        assert(named(db.heads, key));
        assert(db.items.dom().contains(key));
        let g = choose|g: int| 0 <= g < now.heads.len() && now.heads[g] == row;
        assert(now.heads[g].keys.contains(key));
        assert(named(now.heads, key));
        items_put_at(db.items, keys, policy.items, key, db.items[key]);
    }
    assert(rebuilt(now, row).items =~= rebuilt(db, row).items);
}

/// Whether an item is one of a policy in `pool`.
pub open spec fn item_of(pool: Set<PolicyView>, item: ItemView) -> bool {
    exists|policy: PolicyView| #[trigger] pool.contains(policy) && policy.items.contains(item)
}

/// No two different items of the policies in `pool` hash alike.
pub open spec fn hashes_apart(pool: Set<PolicyView>) -> bool {
    forall|a: ItemView, b: ItemView|
        #[trigger] item_of(pool, a) && #[trigger] item_of(pool, b) && storage_key(a) == storage_key(
            b,
        ) ==> a == b
}

/// Whether all that is kept was stored out of `pool`: every kept head, with its
/// items, is one of its policies as it was, and every item is one of theirs, under
/// its own key.
pub open spec fn kept_from(db: DbView, pool: Set<PolicyView>) -> bool {
    &&& complete(db)
    &&& forall|i: int|
        0 <= i < db.heads.len() ==> pool.contains(rebuilt(db, #[trigger] db.heads[i]))
    &&& forall|key: Seq<char>| #[trigger]
        db.items.dom().contains(key) ==> item_of(pool, db.items[key]) && storage_key(db.items[key])
            == key
}

/// A store keeps what was stored: where no two items hash alike, every kept head
/// reads, after any further policy, as the policy that it came with.
pub proof fn what_is_kept_is_what_was_stored(
    db: DbView,
    policy: PolicyView,
    pool: Set<PolicyView>,
)
    requires
        heads_in_order(db),
        kept_from(db, pool),
        pool.contains(policy),
        hashes_apart(pool),
    ensures
        kept_from(stored(db, policy), pool),
{
    let keys = storage_keys(policy.items);
    let now = stored(db, policy);
    if policy.head.version > db.version {
        assert forall|i: int| 0 <= i < policy.items.len() implies item_of(
            pool,
            #[trigger] policy.items[i],
        ) && keys[i] == storage_key(policy.items[i]) by {
            assert(policy.items.contains(policy.items[i]));
        }
        assert(no_collision(keys, policy.items)) by {
            assert forall|i: int, j: int|
                0 <= i < policy.items.len() && 0 <= j < policy.items.len() && #[trigger] keys[i]
                    == #[trigger] keys[j] implies policy.items[i] == policy.items[j] by {
                assert(item_of(pool, policy.items[i]) && item_of(pool, policy.items[j]));
            }
        }
        assert(agrees(db.items, keys, policy.items)) by {
            assert forall|i: int|
                0 <= i < policy.items.len() && db.items.dom().contains(
                    #[trigger] keys[i],
                ) implies db.items[keys[i]] == policy.items[i] by {
                assert(item_of(pool, policy.items[i]) && item_of(pool, db.items[keys[i]]));
            }
        }
        a_kept_head_never_lacks_an_item(db, policy, keys);
        a_stored_policy_is_read_back(db, policy);
        let row = HeadRow { head: policy.head, keys };
        let heads = db.heads.push(row);
        assert forall|i: int| 0 <= i < now.heads.len() implies pool.contains(
            rebuilt(now, #[trigger] now.heads[i]),
        ) by {
            let k = if heads.len() < KEEP_HEADS { i } else { i + heads.len() - KEEP_HEADS };
            assert(now.heads[i] == heads[k]);
            if k < db.heads.len() {
                assert(db.heads[k] == now.heads[i]);
                assert(now.heads.contains(now.heads[i]));
                assert(db.heads.contains(db.heads[k]));
                a_kept_head_reads_the_same(db, policy, db.heads[k]);
            }
        }
        assert forall|key: Seq<char>| #[trigger] now.items.dom().contains(key) implies item_of(
            pool,
            now.items[key],
        ) && storage_key(now.items[key]) == key by {
            if keys.contains(key) {
                let i = choose|i: int| 0 <= i < keys.len() && keys[i] == key;
                assert(item_of(pool, policy.items[i]));
                assert(keys.take(policy.items.len() as int) =~= keys);
                items_put_at(db.items, keys, policy.items, key, policy.items[i]);
            } else {
                assert(keys.take(policy.items.len() as int) =~= keys);
                assert forall|i: int|
                    0 <= i < policy.items.len() && #[trigger] keys[i] == key implies policy.items[i]
                    == arbitrary::<ItemView>() by {
                    assert(keys.contains(keys[i]));
                }
                items_put_at(db.items, keys, policy.items, key, arbitrary());
                assert(db.items.dom().contains(key));
            }
        }
    }
}

/// What is kept after each of `arrived` in turn was stored.
pub open spec fn stored_all(db: DbView, arrived: Seq<PolicyView>) -> DbView
    decreases arrived.len(),
{
    if arrived.len() == 0 {
        db
    } else {
        stored(stored_all(db, arrived.drop_last()), arrived.last())
    }
}

/// Whatever order policies arrive in, the store ends at the highest version and
/// serves that policy intact: the first to arrive of that version.
pub proof fn any_arrival_order_ends_at_the_newest(arrived: Seq<PolicyView>, newest: int)
    requires
        0 <= newest < arrived.len(),
        arrived[newest].head.version > 0,
        forall|i: int|
            0 <= i < arrived.len() ==> (#[trigger] arrived[i]).head.version
                <= arrived[newest].head.version,
        forall|i: int|
            0 <= i < newest ==> (#[trigger] arrived[i]).head.version
                < arrived[newest].head.version,
        no_collision(storage_keys(arrived[newest].items), arrived[newest].items),
    ensures
        ({
            let end = stored_all(nothing_kept(), arrived);
            let row = end.heads.last();
            &&& heads_in_order(end)
            &&& end.version == arrived[newest].head.version
            &&& end.heads.len() > 0
            &&& head_at(end.heads, end.version) == Some(end.heads.len() - 1)
            &&& head_complete(end, row)
            &&& rebuilt(end, row) == arrived[newest]
        }),
    decreases arrived.len(),
{
    let less = arrived.drop_last();
    let before = stored_all(nothing_kept(), less);
    if newest == arrived.len() - 1 {
        arrivals_stay_below(less, arrived[newest].head.version);
        a_stored_policy_is_read_back(before, arrived[newest]);
        storing_keeps_heads_in_order(
            before,
            arrived[newest],
            storage_keys(arrived[newest].items),
        );
    } else {
        assert forall|i: int| 0 <= i < less.len() implies (#[trigger] less[i]).head.version
            <= less[newest].head.version by {
            assert(less[i] == arrived[i]);
        }
        assert forall|i: int| 0 <= i < newest implies (#[trigger] less[i]).head.version
            < less[newest].head.version by {
            assert(less[i] == arrived[i]);
        }
        any_arrival_order_ends_at_the_newest(less, newest);
        assert(arrived.last() == arrived[arrived.len() - 1]);
    }
}

/// Where every policy that arrived is below a version, so is what is kept.
proof fn arrivals_stay_below(arrived: Seq<PolicyView>, version: u64)
    requires
        version > 0,
        forall|i: int|
            0 <= i < arrived.len() ==> (#[trigger] arrived[i]).head.version < version,
    ensures
        heads_in_order(stored_all(nothing_kept(), arrived)),
        stored_all(nothing_kept(), arrived).version < version,
    decreases arrived.len(),
{
    if arrived.len() > 0 {
        let less = arrived.drop_last();
        assert forall|i: int| 0 <= i < less.len() implies (#[trigger] less[i]).head.version
            < version by {
            assert(less[i] == arrived[i]);
        }
        arrivals_stay_below(less, version);
        let last = arrived.last();
        assert(last == arrived[arrived.len() - 1]);
        storing_keeps_heads_in_order(
            stored_all(nothing_kept(), less),
            last,
            storage_keys(last.items),
        );
    }
}

/// Storing a policy that is not newer changes nothing. Storing a newer one moves to
/// its version with its head as the last, keeps the newest sixteen heads and the
/// freshness, and indexes every item of it under its name.
pub proof fn a_newer_policy_is_the_last_head(db: DbView, policy: PolicyView, i: int)
    ensures
        ({
            let now = stored(db, policy);
            &&& policy.head.version <= db.version ==> now == db
            &&& policy.head.version > db.version ==> {
                &&& now.version == policy.head.version
                &&& now.fresh == db.fresh
                &&& now.heads.len() == if db.heads.len() < 16 {
                    db.heads.len() + 1
                } else {
                    16
                }
                &&& now.heads.last().head == policy.head
                &&& now.heads.last().keys.len() == policy.items.len()
                &&& 0 <= i < policy.items.len() ==> now.heads.last().keys[i] == storage_key(
                    policy.items[i],
                )
                &&& 0 <= i < now.heads.len() - 1 ==> now.heads[i] == db.heads[db.heads.len() + 1
                    - now.heads.len() + i]
            }
        }),
{
}

/// Storing a newer policy indexes it: each of its names, and no other, is in the
/// index, with the storage key of the last item of that name.
pub proof fn a_newer_policy_is_indexed(db: DbView, policy: PolicyView, name: Seq<char>, i: int)
    requires
        policy.head.version > db.version,
    ensures
        ({
            let index = stored(db, policy).current;
            &&& index.dom().contains(name) == exists|k: int|
                0 <= k < policy.items.len() && (#[trigger] policy.items[k]).key == name
            &&& 0 <= i < policy.items.len() && policy.items[i].key == name && (forall|k: int|
                i < k < policy.items.len() ==> (#[trigger] policy.items[k]).key != name)
                ==> index[name] == storage_key(policy.items[i])
        }),
{
    index_holds_the_names(storage_keys(policy.items), policy.items, name, i);
}

proof fn index_holds_the_names(
    keys: Seq<Seq<char>>,
    items: Seq<ItemView>,
    name: Seq<char>,
    i: int,
)
    ensures
        index_of(keys, items).dom().contains(name) == exists|k: int|
            0 <= k < items.len() && (#[trigger] items[k]).key == name,
        0 <= i < items.len() && items[i].key == name && (forall|k: int|
            i < k < items.len() ==> (#[trigger] items[k]).key != name) ==> index_of(
            keys,
            items,
        )[name] == keys[i],
    decreases items.len(),
{
    if items.len() > 0 {
        let front = items.drop_last();
        index_holds_the_names(keys, front, name, i);
        assert(items.last() == items[items.len() - 1]);
        if exists|k: int| 0 <= k < front.len() && (#[trigger] front[k]).key == name {
            let k = choose|k: int| 0 <= k < front.len() && (#[trigger] front[k]).key == name;
            assert(items[k].key == name);
        }
        if exists|k: int| 0 <= k < items.len() && (#[trigger] items[k]).key == name {
            let k = choose|k: int| 0 <= k < items.len() && (#[trigger] items[k]).key == name;
            if k < front.len() {
                assert(front[k].key == name);
            }
        }
        if 0 <= i < items.len() - 1 && items[i].key == name && (forall|k: int|
            i < k < items.len() ==> (#[trigger] items[k]).key != name) {
            assert(items[items.len() - 1].key != name);
            assert(front[i] == items[i]);
            assert forall|k: int| i < k < front.len() implies (#[trigger] front[k]).key != name by {
                assert(items[k].key != name);
            }
        }
    }
}

/// Storing a newer policy puts each of its items under its storage key; an item that
/// a head still names, and that the policy does not bring, stays as it was; and no
/// item comes from elsewhere.
pub proof fn a_newer_policy_leaves_named_items(db: DbView, policy: PolicyView, key: Seq<char>, i: int)
    requires
        policy.head.version > db.version,
        no_collision(storage_keys(policy.items), policy.items),
    ensures
        ({
            let now = stored(db, policy);
            let brought = exists|k: int|
                0 <= k < policy.items.len() && storage_key(#[trigger] policy.items[k]) == key;
            &&& 0 <= i < policy.items.len() ==> now.items.dom().contains(
                storage_key(policy.items[i]),
            ) && now.items[storage_key(policy.items[i])] == policy.items[i]
            &&& !brought && named(now.heads, key) ==> now.items.dom().contains(key)
                == db.items.dom().contains(key)
            &&& !brought && now.items.dom().contains(key) ==> db.items.dom().contains(key)
                && now.items[key] == db.items[key]
            &&& db.heads.len() < 15 && db.items.dom().contains(key) ==> now.items.dom().contains(key)
        }),
{
    let keys = storage_keys(policy.items);
    let now = stored(db, policy);
    let put = items_put(db.items, keys, policy.items);
    puts_each_item(db.items, keys, policy.items, key, i);
    if 0 <= i < policy.items.len() {
        assert(keys[i] == storage_key(policy.items[i]));
        puts_each_item(db.items, keys, policy.items, keys[i], i);
        assert(now.heads.last().keys == keys);
        assert(keys.contains(keys[i]));
        assert(now.heads[now.heads.len() - 1].keys.contains(keys[i]));
        assert(named(now.heads, keys[i]));
    }
    if exists|k: int| 0 <= k < policy.items.len() && #[trigger] keys[k] == key {
        let k = choose|k: int| 0 <= k < policy.items.len() && #[trigger] keys[k] == key;
        assert(storage_key(policy.items[k]) == key);
    }
}

proof fn puts_each_item(
    table: Map<Seq<char>, ItemView>,
    keys: Seq<Seq<char>>,
    items: Seq<ItemView>,
    key: Seq<char>,
    i: int,
)
    requires
        keys.len() >= items.len(),
        no_collision(keys, items),
    ensures
        ({
            let put = items_put(table, keys, items);
            &&& 0 <= i < items.len() ==> put.dom().contains(keys[i]) && put[keys[i]] == items[i]
            &&& (forall|k: int| 0 <= k < items.len() ==> #[trigger] keys[k] != key)
                ==> put.dom().contains(key) == table.dom().contains(key) && put[key] == table[key]
            &&& table.dom().contains(key) ==> put.dom().contains(key)
        }),
    decreases items.len(),
{
    if items.len() > 0 {
        let front = items.drop_last();
        let last = items.len() - 1;
        assert(no_collision(keys, front)) by {
            assert forall|a: int, b: int|
                0 <= a < front.len() && 0 <= b < front.len() && #[trigger] keys[a]
                    == #[trigger] keys[b] implies front[a] == front[b] by {
                assert(items[a] == items[b]);
            }
        }
        puts_each_item(table, keys, front, key, i);
        if 0 <= i < last {
            assert(front[i] == items[i]);
            if keys[i] == keys[last] {
                assert(items[i] == items[last]);
            }
        }
        if forall|k: int| 0 <= k < items.len() ==> #[trigger] keys[k] != key {
            assert(keys[last] != key);
        }
    }
}

/// A head is found by its version exactly where one is kept, and a policy is put
/// together from the items that its head names, in their order.
pub proof fn a_head_is_found_by_its_version(db: DbView, version: u64, i: int)
    ensures
        match head_at(db.heads, version) {
            Some(at) => 0 <= at < db.heads.len() && db.heads[at].head.version == version,
            None => 0 <= i < db.heads.len() ==> db.heads[i].head.version != version,
        },
        ({
            let row = db.heads[i];
            let policy = rebuilt(db, row);
            &&& policy.head == row.head
            &&& policy.items.len() == row.keys.len()
            &&& forall|k: int|
                0 <= k < row.keys.len() ==> #[trigger] policy.items[k] == db.items[row.keys[k]]
        }),
{
}

/// What is read at a version: nothing exactly where no head of it is kept; the head
/// with the items it names, in their order, where all are there; and else the first
/// key that is not.
pub proof fn a_kept_version_is_read(
    db: DbView,
    version: u64,
    found: Result<Option<SignedPolicy>, LacksItem>,
    i: int,
)
    requires
        heads_in_order(db),
        reads(db, version, found),
    ensures
        (found matches Ok(None)) <==> forall|k: int|
            0 <= k < db.heads.len() ==> (#[trigger] db.heads[k]).head.version != version,
        0 <= i < db.heads.len() && db.heads[i].head.version == version ==> {
            let keys = db.heads[i].keys;
            &&& found matches Ok(Some(policy)) ==> {
                &&& policy@.head == db.heads[i].head
                &&& policy@.items.len() == keys.len()
                &&& forall|k: int|
                    0 <= k < keys.len() ==> db.items.dom().contains(#[trigger] keys[k])
                        && policy@.items[k] == db.items[keys[k]]
            }
            &&& found matches Err(lacks) ==> keys.contains(lacks.key@) && !db.items.dom().contains(
                lacks.key@,
            )
            &&& (forall|k: int| 0 <= k < keys.len() ==> db.items.dom().contains(#[trigger] keys[k]))
                ==> (found matches Ok(Some(_)))
        },
{
    if 0 <= i < db.heads.len() && db.heads[i].head.version == version {
        let at = head_at(db.heads, version)->0;
        if at < i {
            assert(db.heads[at].head.version < db.heads[i].head.version);
        } else if i < at {
            assert(db.heads[i].head.version < db.heads[at].head.version);
        }
        assert(at == i);
    }
}

} // verus!
