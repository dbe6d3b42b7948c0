//! A network's signed policy, as a directory carries it: a head and its items,
//! and the difference between two of them.

use vstd::prelude::*;

use crate::envelope::copy_bytes;
use crate::ids::{bytes_same, NodeId};
use crate::table::{mapping, rising, rows_determined, Table};
use crate::text::{same_text, texts, texts_push};

verus! {

/// One item of a policy, or one entry of a caller's view of it.
#[derive(Debug)]
pub struct Item {
    /// What it is about: `kind:key` in a policy, a service's name in a view.
    pub key: String,
    /// Its encoding.
    pub json: Vec<u8>,
}

/// An item, as values.
#[verifier::ext_equal]
pub ghost struct ItemView {
    pub key: Seq<char>,
    pub json: Seq<u8>,
}

impl View for Item {
    type V = ItemView;

    open spec fn view(&self) -> ItemView {
        ItemView { key: self.key@, json: self.json@ }
    }
}

/// A signed head: what a directory reads of it, and its encoding.
#[derive(Debug)]
pub struct Head {
    pub version: u64,
    /// The nodes that may vouch for it.
    pub directories: Vec<NodeId>,
    /// Its encoding, signature included.
    pub json: Vec<u8>,
}

/// A head, as values.
#[verifier::ext_equal]
pub ghost struct HeadView {
    pub version: u64,
    pub directories: Seq<NodeId>,
    pub json: Seq<u8>,
}

impl View for Head {
    type V = HeadView;

    open spec fn view(&self) -> HeadView {
        HeadView { version: self.version, directories: self.directories@, json: self.json@ }
    }
}

/// A signed head with the items it commits to, in order.
#[derive(Debug)]
pub struct SignedPolicy {
    pub head: Head,
    pub items: Vec<Item>,
}

/// A policy, as values.
#[verifier::ext_equal]
pub ghost struct PolicyView {
    pub head: HeadView,
    pub items: Seq<ItemView>,
}

impl View for SignedPolicy {
    type V = PolicyView;

    open spec fn view(&self) -> PolicyView {
        PolicyView { head: self.head@, items: item_views(self.items@) }
    }
}

/// What turns a policy into a newer one: the new head, the items that are new
/// or changed, and the keys that are gone.
#[derive(Debug)]
pub struct PolicyUpdate {
    pub head: Head,
    pub changed: Vec<Item>,
    pub removed: Vec<String>,
}

/// An update, as values.
#[verifier::ext_equal]
pub ghost struct UpdateView {
    pub head: HeadView,
    pub changed: Seq<ItemView>,
    pub removed: Seq<Seq<char>>,
}

impl View for PolicyUpdate {
    type V = UpdateView;

    open spec fn view(&self) -> UpdateView {
        UpdateView {
            head: self.head@,
            changed: item_views(self.changed@),
            removed: texts(self.removed@),
        }
    }
}

/// The items of a list, as values.
pub open spec fn item_views(list: Seq<Item>) -> Seq<ItemView> {
    list.map_values(|item: Item| item@)
}

/// Appending an item appends its value.
pub proof fn item_views_push(list: Seq<Item>, item: Item)
    ensures
        item_views(list.push(item)) == item_views(list).push(item@),
{
    assert(item_views(list.push(item)) =~= item_views(list).push(item@));
}

/// Items under their keys.
pub open spec fn keyed(items: Seq<ItemView>) -> Seq<(Seq<char>, ItemView)> {
    items.map_values(|item: ItemView| (item.key, item))
}

/// Items in the order of their keys, each key once.
pub open spec fn canonical(items: Seq<ItemView>) -> bool {
    rising(keyed(items))
}

/// Whether no two of `items` differ under one key.
pub open spec fn one_each(items: Seq<ItemView>) -> bool {
    forall|i: int, j: int|
        0 <= i < items.len() && 0 <= j < items.len() && (#[trigger] items[i]).key == (
        #[trigger] items[j]).key ==> items[i] == items[j]
}

/// Whether an item with this key is among `items`.
pub open spec fn has_key(items: Seq<ItemView>, key: Seq<char>) -> bool {
    exists|i: int| 0 <= i < items.len() && (#[trigger] items[i]).key == key
}

/// A table of items after each of `items` in turn was put under its key.
pub open spec fn put_all(
    table: Map<Seq<char>, ItemView>,
    items: Seq<ItemView>,
) -> Map<Seq<char>, ItemView>
    decreases items.len(),
{
    if items.len() == 0 {
        table
    } else {
        put_all(table, items.drop_last()).insert(items.last().key, items.last())
    }
}

/// The items of a list under their keys, a later one in place of an earlier.
pub open spec fn by_key(items: Seq<ItemView>) -> Map<Seq<char>, ItemView> {
    put_all(Map::empty(), items)
}

/// Whether an item is not among `items` as it is.
pub open spec fn unknown_to(items: Seq<ItemView>) -> spec_fn(ItemView) -> bool {
    |item: ItemView| !items.contains(item)
}

/// Whether `items` has nothing under an item's key.
pub open spec fn gone_from(items: Seq<ItemView>) -> spec_fn(ItemView) -> bool {
    |item: ItemView| !has_key(items, item.key)
}

/// The keys of a list of items.
pub open spec fn keys_of(items: Seq<ItemView>) -> Seq<Seq<char>> {
    items.map_values(|item: ItemView| item.key)
}

/// The items of `new` that `old` does not have as they are.
pub open spec fn changed_items(new: Seq<ItemView>, old: Seq<ItemView>) -> Seq<ItemView> {
    new.filter(unknown_to(old))
}

/// The keys of `old` under which `new` has no item.
pub open spec fn removed_keys(new: Seq<ItemView>, old: Seq<ItemView>) -> Seq<Seq<char>> {
    keys_of(old.filter(gone_from(new)))
}

/// The update from the policy `old` to the policy `new`.
pub open spec fn update_between(new: PolicyView, old: PolicyView) -> UpdateView {
    UpdateView {
        head: new.head,
        changed: changed_items(new.items, old.items),
        removed: removed_keys(new.items, old.items),
    }
}

/// What an update makes of a table of items.
pub open spec fn updated(
    items: Map<Seq<char>, ItemView>,
    update: UpdateView,
) -> Map<Seq<char>, ItemView> {
    put_all(items.remove_keys(update.removed.to_set()), update.changed)
}

/// Whether `got` is what an update makes of a policy: the update's head, and the
/// items it leaves, in the order of their keys.
pub open spec fn applies(old: PolicyView, update: UpdateView, got: PolicyView) -> bool {
    &&& got.head == update.head
    &&& canonical(got.items)
    &&& by_key(got.items) == updated(by_key(old.items), update)
}

/// What `put_all` leaves under a key, where at most one of the items has it.
proof fn put_all_at(
    table: Map<Seq<char>, ItemView>,
    items: Seq<ItemView>,
    key: Seq<char>,
    only: ItemView,
)
    requires
        forall|i: int| 0 <= i < items.len() && (#[trigger] items[i]).key == key ==> items[i] == only,
    ensures
        put_all(table, items).dom().contains(key) == (table.dom().contains(key) || has_key(
            items,
            key,
        )),
        has_key(items, key) ==> put_all(table, items)[key] == only,
        !has_key(items, key) ==> put_all(table, items)[key] == table[key],
    decreases items.len(),
{
    if items.len() > 0 {
        let less = items.drop_last();
        assert forall|i: int| 0 <= i < less.len() && (#[trigger] less[i]).key == key implies less[i]
            == only by {
            assert(items[i] == less[i]);
        }
        put_all_at(table, less, key, only);
        if has_key(less, key) {
            let i = choose|i: int| 0 <= i < less.len() && (#[trigger] less[i]).key == key;
            assert(items[i].key == key);
        }
        if has_key(items, key) && items.last().key != key {
            let i = choose|i: int| 0 <= i < items.len() && (#[trigger] items[i]).key == key;
            assert(less[i].key == key);
        }
        if items.last().key == key {
            assert(items[items.len() - 1].key == key);
        }
    }
}

/// Items in the order of their keys have each key once.
proof fn canonical_once(items: Seq<ItemView>, i: int, j: int)
    requires
        canonical(items),
        0 <= i < items.len(),
        0 <= j < items.len(),
        items[i].key == items[j].key,
    ensures
        i == j,
{
    crate::table::text_lt_irreflexive(items[i].key);
    let rows = keyed(items);
    assert(rows[i].0 == items[i].key && rows[j].0 == items[j].key);
    if i < j {
        assert(crate::table::text_lt(rows[i].0, rows[j].0));
    }
    if j < i {
        assert(crate::table::text_lt(rows[j].0, rows[i].0));
    }
}

/// Items in the order of their keys have one item under each.
pub proof fn canonical_has_one_each(items: Seq<ItemView>)
    requires
        canonical(items),
    ensures
        one_each(items),
{
    assert forall|i: int, j: int|
        0 <= i < items.len() && 0 <= j < items.len() && (#[trigger] items[i]).key == (
        #[trigger] items[j]).key implies items[i] == items[j] by {
        canonical_once(items, i, j);
    }
}

/// The item under a key, if there is one.
pub open spec fn item_under(
    items: Map<Seq<char>, ItemView>,
    key: Seq<char>,
) -> Option<ItemView> {
    if items.dom().contains(key) {
        Some(items[key])
    } else {
        None
    }
}

/// The value of an item, if there is one.
pub open spec fn maybe_item(item: Option<Item>) -> Option<ItemView> {
    match item {
        Some(item) => Some(item@),
        None => None,
    }
}

/// Items in the order of their keys are the rows of their table.
proof fn canonical_is_mapping(items: Seq<ItemView>)
    requires
        canonical(items),
    ensures
        by_key(items) == mapping(keyed(items)),
{
    let rows = keyed(items);
    let got = by_key(items);
    let want = mapping(rows);
    assert forall|key: Seq<char>|
        #![trigger got.dom().contains(key)]
        got.dom().contains(key) == want.dom().contains(key) && (want.dom().contains(key)
            ==> got[key] == want[key]) by {
        if want.dom().contains(key) {
            let i = choose|i: int| 0 <= i < rows.len() && (#[trigger] rows[i]).0 == key;
            assert(items[i].key == key);
            assert(has_key(items, key));
            assert forall|k: int|
                0 <= k < items.len() && (#[trigger] items[k]).key == key implies items[k]
                == items[i] by {
                canonical_once(items, k, i);
            }
            put_all_at(Map::empty(), items, key, items[i]);
            crate::table::mapping_at(rows, i);
        } else {
            if has_key(items, key) {
                let i = choose|i: int| 0 <= i < items.len() && (#[trigger] items[i]).key == key;
                assert(rows[i].0 == key);
            }
            put_all_at(Map::empty(), items, key, arbitrary());
        }
    }
    assert(got =~= want);
}

/// Two lists in the order of their keys that hold the same are the same.
pub proof fn canonical_determined(a: Seq<ItemView>, b: Seq<ItemView>)
    requires
        canonical(a),
        canonical(b),
        by_key(a) == by_key(b),
    ensures
        a == b,
{
    canonical_is_mapping(a);
    canonical_is_mapping(b);
    rows_determined(keyed(a), keyed(b));
    assert(a =~= b) by {
        assert(keyed(a).len() == keyed(b).len());
        assert forall|i: int| 0 <= i < a.len() implies a[i] == b[i] by {
            assert(keyed(a)[i] == keyed(b)[i]);
        }
    }
}

/// The update from one policy to another makes the one's items the other's, where
/// neither has two items that differ under one key.
pub proof fn an_update_reaches_the_newer_policy(new: PolicyView, old: PolicyView)
    requires
        one_each(new.items),
        one_each(old.items),
    ensures
        updated(by_key(old.items), update_between(new, old)) == by_key(new.items),
{
    let update = update_between(new, old);
    let start = by_key(old.items);
    let gone = update.removed.to_set();
    let got = updated(start, update);
    let want = by_key(new.items);
    assert forall|key: Seq<char>|
        #![trigger got.dom().contains(key)]
        got.dom().contains(key) == want.dom().contains(key) && (want.dom().contains(key)
            ==> got[key] == want[key]) by {
        update_at_key(new, old, key);
    }
    assert(got =~= want);
}

/// What the update from one policy to another leaves under one key.
proof fn update_at_key(new: PolicyView, old: PolicyView, key: Seq<char>)
    requires
        one_each(new.items),
        one_each(old.items),
    ensures
        ({
            let got = updated(by_key(old.items), update_between(new, old));
            let want = by_key(new.items);
            got.dom().contains(key) == want.dom().contains(key) && (want.dom().contains(key)
                ==> got[key] == want[key])
        }),
{
    broadcast use Seq::lemma_filter_contains_rev;

    let update = update_between(new, old);
    let start = by_key(old.items);
    let gone = update.removed.to_set();
    let rest = start.remove_keys(gone);
    let lost = old.items.filter(gone_from(new.items));
    assert forall|i: int| 0 <= i < update.changed.len() implies new.items.contains(
        #[trigger] update.changed[i],
    ) && !old.items.contains(update.changed[i]) by {
        new.items.lemma_filter_pred(unknown_to(old.items), i);
        assert(update.changed.contains(update.changed[i]));
    }
    if gone.contains(key) {
        let k = choose|k: int| 0 <= k < update.removed.len() && update.removed[k] == key;
        old.items.lemma_filter_pred(gone_from(new.items), k);
        assert(lost[k].key == key);
        assert(!has_key(new.items, key));
    }
    if has_key(new.items, key) {
        let n = choose|n: int| 0 <= n < new.items.len() && (#[trigger] new.items[n]).key == key;
        let item = new.items[n];
        assert forall|i: int|
            0 <= i < new.items.len() && (#[trigger] new.items[i]).key == key implies new.items[i]
            == item by {
            assert(new.items[n].key == key);
        }
        put_all_at(Map::empty(), new.items, key, item);
        assert forall|i: int|
            0 <= i < update.changed.len() && (#[trigger] update.changed[i]).key
                == key implies update.changed[i] == item by {
            let j = choose|j: int| 0 <= j < new.items.len() && new.items[j] == update.changed[i];
            assert(new.items[j].key == new.items[n].key);
        }
        put_all_at(rest, update.changed, key, item);
        if old.items.contains(item) {
            let o = choose|o: int| 0 <= o < old.items.len() && old.items[o] == item;
            assert(old.items[o].key == key);
            assert(has_key(old.items, key));
            assert forall|i: int|
                0 <= i < old.items.len() && (#[trigger] old.items[i]).key
                    == key implies old.items[i] == item by {
                assert(old.items[o].key == key);
            }
            put_all_at(Map::empty(), old.items, key, item);
            if has_key(update.changed, key) {
                let i = choose|i: int|
                    0 <= i < update.changed.len() && (#[trigger] update.changed[i]).key == key;
                assert(update.changed[i] == item);
            }
            assert(!gone.contains(key));
        } else {
            new.items.lemma_filter_contains(unknown_to(old.items), n);
            let i = choose|i: int| 0 <= i < update.changed.len() && update.changed[i] == item;
            assert(update.changed[i].key == key);
            assert(has_key(update.changed, key));
        }
    } else {
        put_all_at(Map::empty(), new.items, key, arbitrary());
        assert forall|i: int|
            0 <= i < update.changed.len() && (#[trigger] update.changed[i]).key
                == key implies update.changed[i] == arbitrary::<ItemView>() by {
            let j = choose|j: int| 0 <= j < new.items.len() && new.items[j] == update.changed[i];
            assert(has_key(new.items, key));
        }
        put_all_at(rest, update.changed, key, arbitrary());
        if has_key(update.changed, key) {
            let i = choose|i: int|
                0 <= i < update.changed.len() && (#[trigger] update.changed[i]).key == key;
            let j = choose|j: int| 0 <= j < new.items.len() && new.items[j] == update.changed[i];
            assert(has_key(new.items, key));
        }
        if has_key(old.items, key) {
            let o = choose|o: int| 0 <= o < old.items.len() && (#[trigger] old.items[o]).key == key;
            old.items.lemma_filter_contains(gone_from(new.items), o);
            let k = choose|k: int| 0 <= k < lost.len() && lost[k] == old.items[o];
            assert(update.removed[k] == key);
            assert(gone.contains(key));
        } else {
            put_all_at(Map::empty(), old.items, key, arbitrary());
        }
    }
}

/// A copy of a list of items.
pub fn copy_items(items: &Vec<Item>) -> (copy: Vec<Item>)
    ensures
        item_views(copy@) == item_views(items@),
{
    let mut out: Vec<Item> = Vec::new();
    let mut i: usize = 0;
    while i < items.len()
        invariant
            i <= items@.len(),
            item_views(out@) == item_views(items@).take(i as int),
        decreases items@.len() - i,
    {
        let item = items[i].copy();
        proof {
            item_views_push(out@, item);
            assert(item_views(items@).take(i as int).push(item@) =~= item_views(items@).take(
                i + 1,
            ));
        }
        out.push(item);
        i += 1;
    }
    assert(item_views(items@).take(items@.len() as int) =~= item_views(items@));
    out
}

/// A copy of a list of nodes.
pub fn copy_nodes(nodes: &Vec<NodeId>) -> (copy: Vec<NodeId>)
    ensures
        copy@ == nodes@,
{
    let mut out: Vec<NodeId> = Vec::new();
    let mut i: usize = 0;
    while i < nodes.len()
        invariant
            i <= nodes@.len(),
            out@ == nodes@.take(i as int),
        decreases nodes@.len() - i,
    {
        out.push(nodes[i]);
        assert(nodes@.take(i as int).push(nodes@[i as int]) =~= nodes@.take(i + 1));
        i += 1;
    }
    assert(nodes@.take(nodes@.len() as int) =~= nodes@);
    out
}

impl Item {
    /// A copy of this item.
    pub fn copy(&self) -> (copy: Item)
        ensures
            copy@ == self@,
    {
        Item { key: self.key.clone(), json: copy_bytes(&self.json) }
    }

    /// Whether this is the same item.
    pub fn same(&self, other: &Item) -> (same: bool)
        ensures
            same == (self@ == other@),
    {
        same_text(self.key.as_str(), other.key.as_str()) && bytes_same(
            self.json.as_slice(),
            other.json.as_slice(),
        )
    }
}

impl Head {
    /// A copy of this head.
    pub fn copy(&self) -> (copy: Head)
        ensures
            copy@ == self@,
    {
        Head {
            version: self.version,
            directories: copy_nodes(&self.directories),
            json: copy_bytes(&self.json),
        }
    }

    /// Whether the head lists `node` as a directory.
    pub fn lists(&self, node: &NodeId) -> (listed: bool)
        ensures
            listed == self@.directories.contains(*node),
    {
        let mut i: usize = 0;
        while i < self.directories.len()
            invariant
                i <= self.directories@.len(),
                forall|j: int| 0 <= j < i ==> self.directories@[j] != *node,
            decreases self.directories@.len() - i,
        {
            if self.directories[i].same(node) {
                assert(self.directories@[i as int] == *node);
                return true;
            }
            i += 1;
        }
        false
    }
}

/// Every item stands under its own key.
spec fn under_own_key(table: Map<Seq<char>, ItemView>) -> bool {
    forall|key: Seq<char>| #[trigger] table.dom().contains(key) ==> table[key].key == key
}

/// Putting items under their keys leaves every item under its own.
proof fn put_all_under_own_key(table: Map<Seq<char>, ItemView>, items: Seq<ItemView>)
    requires
        under_own_key(table),
    ensures
        under_own_key(put_all(table, items)),
    decreases items.len(),
{
    if items.len() > 0 {
        put_all_under_own_key(table, items.drop_last());
    }
}

/// Put each of `items` in turn under its key.
fn put_items(table: &mut Table<Item>, items: &Vec<Item>)
    requires
        old(table).wf(),
    ensures
        final(table).wf(),
        final(table)@ == put_all(old(table)@, item_views(items@)),
{
    let ghost start = table@;
    let ghost all = item_views(items@);
    let mut i: usize = 0;
    assert(all.take(0) =~= Seq::<ItemView>::empty());
    while i < items.len()
        invariant
            i <= items@.len(),
            all == item_views(items@),
            table.wf(),
            table@ == put_all(start, all.take(i as int)),
        decreases items@.len() - i,
    {
        let item = items[i].copy();
        proof {
            assert(all.take(i + 1).drop_last() =~= all.take(i as int));
            assert(all[i as int] == item@);
        }
        table.insert(item.key.clone(), item);
        i += 1;
    }
    assert(all.take(all.len() as int) =~= all);
}

/// Whether an item is among `items` as it is.
fn has_item(items: &Vec<Item>, item: &Item) -> (has: bool)
    ensures
        has == item_views(items@).contains(item@),
{
    let mut i: usize = 0;
    while i < items.len()
        invariant
            i <= items@.len(),
            forall|j: int| 0 <= j < i ==> item_views(items@)[j] != item@,
        decreases items@.len() - i,
    {
        if items[i].same(item) {
            assert(item_views(items@)[i as int] == item@);
            return true;
        }
        i += 1;
    }
    assert(item_views(items@).len() == items@.len());
    false
}

/// Whether an item with this key is among `items`.
fn holds_key(items: &Vec<Item>, key: &str) -> (has: bool)
    ensures
        has == has_key(item_views(items@), key@),
{
    let mut i: usize = 0;
    while i < items.len()
        invariant
            i <= items@.len(),
            forall|j: int| 0 <= j < i ==> (#[trigger] item_views(items@)[j]).key != key@,
        decreases items@.len() - i,
    {
        if same_text(items[i].key.as_str(), key) {
            assert(item_views(items@)[i as int].key == key@);
            return true;
        }
        i += 1;
    }
    assert(item_views(items@).len() == items@.len());
    false
}

impl SignedPolicy {
    /// A copy of this policy.
    pub fn copy(&self) -> (copy: SignedPolicy)
        ensures
            copy@ == self@,
    {
        SignedPolicy { head: self.head.copy(), items: copy_items(&self.items) }
    }

    /// The version of its head.
    pub fn version(&self) -> (version: u64)
        ensures
            version == self@.head.version,
    {
        self.head.version
    }

    /// The item under a key, the later one of two.
    pub fn find(&self, key: &str) -> (found: Option<Item>)
        ensures
            maybe_item(found) == item_under(by_key(self@.items), key@),
    {
        let ghost all = item_views(self.items@);
        let mut i: usize = self.items.len();
        assert(all.take(i as int) =~= all);
        while i > 0
            invariant
                i <= self.items@.len(),
                all == item_views(self.items@),
                item_under(by_key(all), key@) == item_under(by_key(all.take(i as int)), key@),
            decreases i,
        {
            assert(all.take(i as int).drop_last() =~= all.take(i - 1));
            assert(all.take(i as int).last() == self.items@[i - 1]@);
            if same_text(self.items[i - 1].key.as_str(), key) {
                return Some(self.items[i - 1].copy());
            }
            i -= 1;
        }
        None
    }

    /// The update that brings a holder of `older` to this policy.
    pub fn update_from(&self, older: &SignedPolicy) -> (update: PolicyUpdate)
        ensures
            update@ == update_between(self@, older@),
    {
        let ghost new = item_views(self.items@);
        let ghost old = item_views(older.items@);
        let mut changed: Vec<Item> = Vec::new();
        let mut i: usize = 0;
        proof {
            reveal(Seq::filter);
            assert(new.take(0) =~= Seq::<ItemView>::empty());
        }
        while i < self.items.len()
            invariant
                i <= self.items@.len(),
                new == item_views(self.items@),
                old == item_views(older.items@),
                item_views(changed@) == new.take(i as int).filter(unknown_to(old)),
            decreases self.items@.len() - i,
        {
            proof {
                reveal(Seq::filter);
                assert(new.take(i + 1).drop_last() =~= new.take(i as int));
                assert(new[i as int] == self.items@[i as int]@);
            }
            if !has_item(&older.items, &self.items[i]) {
                let item = self.items[i].copy();
                proof {
                    item_views_push(changed@, item);
                }
                changed.push(item);
            }
            i += 1;
        }
        assert(new.take(new.len() as int) =~= new);
        let mut removed: Vec<String> = Vec::new();
        let mut j: usize = 0;
        proof {
            reveal(Seq::filter);
            assert(old.take(0) =~= Seq::<ItemView>::empty());
            assert(texts(removed@) =~= keys_of(old.take(0).filter(gone_from(new))));
        }
        while j < older.items.len()
            invariant
                j <= older.items@.len(),
                new == item_views(self.items@),
                old == item_views(older.items@),
                texts(removed@) == keys_of(old.take(j as int).filter(gone_from(new))),
            decreases older.items@.len() - j,
        {
            proof {
                reveal(Seq::filter);
                assert(old.take(j + 1).drop_last() =~= old.take(j as int));
                assert(old[j as int] == older.items@[j as int]@);
            }
            if !holds_key(&self.items, older.items[j].key.as_str()) {
                let key = older.items[j].key.clone();
                proof {
                    texts_push(removed@, key);
                    let kept = old.take(j as int).filter(gone_from(new));
                    assert(keys_of(kept.push(old[j as int])) =~= keys_of(kept).push(key@));
                }
                removed.push(key);
            }
            j += 1;
        }
        assert(old.take(old.len() as int) =~= old);
        PolicyUpdate { head: self.head.copy(), changed, removed }
    }

    /// This policy with an update applied: the update's head, and the items it
    /// leaves, in the order of their keys.
    pub fn apply(&self, update: &PolicyUpdate) -> (policy: SignedPolicy)
        ensures
            applies(self@, update@, policy@),
    {
        let mut table: Table<Item> = Table::new();
        put_items(&mut table, &self.items);
        let ghost held = table@;
        let ghost gone = texts(update.removed@);
        let mut i: usize = 0;
        assert(table@ =~= held.remove_keys(gone.take(0).to_set()));
        while i < update.removed.len()
            invariant
                i <= update.removed@.len(),
                gone == texts(update.removed@),
                table.wf(),
                table@ == held.remove_keys(gone.take(i as int).to_set()),
            decreases update.removed@.len() - i,
        {
            table.remove(update.removed[i].as_str());
            proof {
                let before = gone.take(i as int);
                let now = gone.take(i + 1);
                let key = gone[i as int];
                assert(now =~= before.push(key));
                assert forall|k: Seq<char>| #[trigger] now.contains(k) == (before.contains(k) || k
                    == key) by {
                    if before.contains(k) {
                        let n = choose|n: int| 0 <= n < before.len() && before[n] == k;
                        assert(now[n] == k);
                    }
                    assert(now[before.len() as int] == key);
                }
                assert(table@ =~= held.remove_keys(now.to_set()));
            }
            i += 1;
        }
        assert(gone.take(gone.len() as int) =~= gone);
        put_items(&mut table, &update.changed);
        let mut items: Vec<Item> = Vec::new();
        let ghost rows = table.rows();
        let n: usize = table.len();
        let mut j: usize = 0;
        while j < n
            invariant
                j <= n,
                n == rows.len(),
                rows == table.rows(),
                item_views(items@).len() == j,
                forall|k: int| 0 <= k < j ==> (#[trigger] item_views(items@)[k]) == rows[k].1,
            decreases n - j,
        {
            let item = table.value_at(j).copy();
            proof {
                item_views_push(items@, item);
            }
            items.push(item);
            j += 1;
        }
        let head = update.head.copy();
        let policy = SignedPolicy { head, items };
        proof {
            table.rows_rise();
            table.view_is_mapping();
            put_all_under_own_key(Map::empty(), item_views(self.items@));
            put_all_under_own_key(held.remove_keys(gone.to_set()), item_views(update.changed@));
            assert forall|k: int| 0 <= k < rows.len() implies keyed(policy@.items)[k]
                == rows[k] by {
                crate::table::mapping_at(rows, k);
                assert(policy@.items[k] == rows[k].1);
                assert(table@.dom().contains(rows[k].0));
            }
            assert(keyed(policy@.items) =~= rows);
            canonical_is_mapping(policy@.items);
        }
        policy
    }
}

/// An update holds the newer head, exactly the items that the older policy does not
/// have, and exactly the keys that the newer one has no more.
pub proof fn an_update_holds_what_differs(
    new: PolicyView,
    old: PolicyView,
    item: ItemView,
    key: Seq<char>,
)
    ensures
        ({
            let update = update_between(new, old);
            &&& update.head == new.head
            &&& update.changed.contains(item) == (new.items.contains(item) && !old.items.contains(
                item,
            ))
            &&& update.removed.contains(key) == ((exists|i: int|
                0 <= i < old.items.len() && (#[trigger] old.items[i]).key == key) && forall|i: int|
                0 <= i < new.items.len() ==> (#[trigger] new.items[i]).key != key)
        }),
{
    let update = update_between(new, old);
    let fresh = unknown_to(old.items);
    let gone = gone_from(new.items);
    if update.changed.contains(item) {
        new.items.lemma_filter_pred(fresh, update.changed.index_of(item));
        new.items.lemma_filter_contains_rev(fresh, item);
    }
    if new.items.contains(item) && fresh(item) {
        new.items.lemma_filter_contains(fresh, new.items.index_of(item));
    }
    let left = old.items.filter(gone);
    if update.removed.contains(key) {
        let k = update.removed.index_of(key);
        assert(left[k].key == key);
        old.items.lemma_filter_pred(gone, k);
        assert(left.contains(left[k]));
        old.items.lemma_filter_contains_rev(gone, left[k]);
        let i = old.items.index_of(left[k]);
        assert(old.items[i].key == key);
    }
    if (exists|i: int| 0 <= i < old.items.len() && (#[trigger] old.items[i]).key == key)
        && forall|i: int| 0 <= i < new.items.len() ==> (#[trigger] new.items[i]).key != key {
        let i = choose|i: int| 0 <= i < old.items.len() && (#[trigger] old.items[i]).key == key;
        assert(gone(old.items[i]));
        old.items.lemma_filter_contains(gone, i);
        let k = left.index_of(old.items[i]);
        assert(update.removed[k] == key);
    }
}

/// Under a key the last item that has it is found, and nothing where none has.
pub proof fn the_last_item_of_a_key_is_found(items: Seq<ItemView>, key: Seq<char>, i: int)
    ensures
        (forall|k: int| 0 <= k < items.len() ==> (#[trigger] items[k]).key != key) ==> item_under(
            by_key(items),
            key,
        ) is None,
        0 <= i < items.len() && items[i].key == key && (forall|k: int|
            i < k < items.len() ==> (#[trigger] items[k]).key != key) ==> item_under(
            by_key(items),
            key,
        ) == Some(items[i]),
    decreases items.len(),
{
    if items.len() > 0 {
        let front = items.drop_last();
        the_last_item_of_a_key_is_found(front, key, i);
        assert forall|k: int| 0 <= k < front.len() implies #[trigger] front[k] == items[k] by {}
        assert(items.last() == items[items.len() - 1]);
        if i < items.len() - 1 && 0 <= i && items[i].key == key && (forall|k: int|
            i < k < items.len() ==> (#[trigger] items[k]).key != key) {
            assert(items[items.len() - 1].key != key);
            assert forall|k: int| i < k < front.len() implies (#[trigger] front[k]).key != key by {
                assert(items[k].key != key);
            }
        }
        if forall|k: int| 0 <= k < items.len() ==> (#[trigger] items[k]).key != key {
            assert(items[items.len() - 1].key != key);
            assert forall|k: int| 0 <= k < front.len() implies (#[trigger] front[k]).key != key by {
                assert(items[k].key != key);
            }
        }
    }
}

/// Applying an update: a changed item stands under its key, a removed key that no
/// changed item has is gone, and every other key is as it was.
pub proof fn an_update_touches_only_its_keys(
    items: Map<Seq<char>, ItemView>,
    update: UpdateView,
    key: Seq<char>,
    i: int,
)
    ensures
        ({
            let after = updated(items, update);
            let untouched = forall|k: int|
                0 <= k < update.changed.len() ==> (#[trigger] update.changed[k]).key != key;
            &&& untouched && update.removed.contains(key) ==> !after.dom().contains(key)
            &&& untouched && !update.removed.contains(key) ==> after.dom().contains(key)
                == items.dom().contains(key) && (items.dom().contains(key) ==> after[key]
                == items[key])
            &&& 0 <= i < update.changed.len() && update.changed[i].key == key && (forall|k: int|
                i < k < update.changed.len() ==> (#[trigger] update.changed[k]).key != key)
                ==> after.dom().contains(key) && after[key] == update.changed[i]
        }),
{
    let left = items.remove_keys(update.removed.to_set());
    assert(update.removed.to_set().contains(key) == update.removed.contains(key));
    putting_touches_only_its_keys(left, update.changed, key, i);
}

proof fn putting_touches_only_its_keys(
    table: Map<Seq<char>, ItemView>,
    items: Seq<ItemView>,
    key: Seq<char>,
    i: int,
)
    ensures
        ({
            let after = put_all(table, items);
            &&& (forall|k: int| 0 <= k < items.len() ==> (#[trigger] items[k]).key != key)
                ==> after.dom().contains(key) == table.dom().contains(key) && (
            table.dom().contains(key) ==> after[key] == table[key])
            &&& 0 <= i < items.len() && items[i].key == key && (forall|k: int|
                i < k < items.len() ==> (#[trigger] items[k]).key != key) ==> after.dom().contains(
                key,
            ) && after[key] == items[i]
        }),
    decreases items.len(),
{
    if items.len() > 0 {
        let front = items.drop_last();
        putting_touches_only_its_keys(table, front, key, i);
        assert(items.last() == items[items.len() - 1]);
        if forall|k: int| 0 <= k < items.len() ==> (#[trigger] items[k]).key != key {
            assert(items[items.len() - 1].key != key);
            assert forall|k: int| 0 <= k < front.len() implies (#[trigger] front[k]).key != key by {
                assert(items[k].key != key);
            }
        }
        if 0 <= i < items.len() - 1 && items[i].key == key && (forall|k: int|
            i < k < items.len() ==> (#[trigger] items[k]).key != key) {
            assert(items[items.len() - 1].key != key);
            assert(front[i] == items[i]);
            assert forall|k: int| i < k < front.len() implies (#[trigger] front[k]).key != key by {
                assert(items[k].key != key);
            }
        }
    }
}

} // verus!
