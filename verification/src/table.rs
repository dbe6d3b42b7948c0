//! Tables keyed by text, kept in the order of their keys.

use vstd::prelude::*;

use crate::text::{chars_of, same_text};

verus! {

/// Texts in lexicographic order of their characters, a proper prefix first.
pub open spec fn text_lt(a: Seq<char>, b: Seq<char>) -> bool
    decreases a.len(),
{
    if b.len() == 0 {
        false
    } else if a.len() == 0 {
        true
    } else if a[0] != b[0] {
        (a[0] as int) < (b[0] as int)
    } else {
        text_lt(a.drop_first(), b.drop_first())
    }
}

/// No text precedes itself.
pub proof fn text_lt_irreflexive(a: Seq<char>)
    ensures
        !text_lt(a, a),
    decreases a.len(),
{
    if a.len() > 0 {
        text_lt_irreflexive(a.drop_first());
    }
}

/// The order chains.
pub proof fn text_lt_transitive(a: Seq<char>, b: Seq<char>, c: Seq<char>)
    requires
        text_lt(a, b),
        text_lt(b, c),
    ensures
        text_lt(a, c),
    decreases a.len(),
{
    if a.len() > 0 && b.len() > 0 && c.len() > 0 && a[0] == b[0] && b[0] == c[0] {
        text_lt_transitive(a.drop_first(), b.drop_first(), c.drop_first());
    }
}

/// Two different texts are ordered one way or the other.
pub proof fn text_lt_total(a: Seq<char>, b: Seq<char>)
    ensures
        text_lt(a, b) || text_lt(b, a) || a == b,
    decreases a.len(),
{
    if a.len() > 0 && b.len() > 0 {
        if a[0] == b[0] {
            text_lt_total(a.drop_first(), b.drop_first());
            if a.drop_first() == b.drop_first() {
                assert(a =~= seq![a[0]] + a.drop_first());
                assert(b =~= seq![b[0]] + b.drop_first());
            }
        }
    } else if a.len() == 0 && b.len() == 0 {
        assert(a =~= b);
    }
}

/// Whether the character `c` has the lower number.
fn char_less(c: char, d: char) -> (less: bool)
    ensures
        less == ((c as int) < (d as int)),
{
    (c as u32) < (d as u32)
}

/// Whether the text `a` comes before the text `b`.
pub fn text_less(a: &str, b: &str) -> (less: bool)
    ensures
        less == text_lt(a@, b@),
{
    let x = chars_of(a);
    let y = chars_of(b);
    let mut i: usize = 0;
    assert(x@.skip(0) =~= x@);
    assert(y@.skip(0) =~= y@);
    while i < x.len() && i < y.len()
        invariant
            i <= x@.len(),
            i <= y@.len(),
            x@ == a@,
            y@ == b@,
            text_lt(x@, y@) == text_lt(x@.skip(i as int), y@.skip(i as int)),
        decreases x@.len() - i,
    {
        if x[i] != y[i] {
            return char_less(x[i], y[i]);
        }
        assert(x@.skip(i as int).drop_first() =~= x@.skip(i + 1));
        assert(y@.skip(i as int).drop_first() =~= y@.skip(i + 1));
        i += 1;
    }
    i < y.len()
}

/// Rows of a key and a value, each key once, in the order of the keys.
#[derive(Debug)]
pub struct Table<T> {
    rows: Vec<(String, T)>,
}

/// Keys that rise strictly.
pub open spec fn rising<X>(rows: Seq<(Seq<char>, X)>) -> bool {
    forall|i: int, j: int|
        0 <= i < j < rows.len() ==> text_lt(#[trigger] rows[i].0, #[trigger] rows[j].0)
}

/// What a list of rows maps its keys to.
pub open spec fn mapping<X>(rows: Seq<(Seq<char>, X)>) -> Map<Seq<char>, X> {
    Map::new(
        |key: Seq<char>| exists|i: int| 0 <= i < rows.len() && (#[trigger] rows[i]).0 == key,
        |key: Seq<char>|
            rows[choose|i: int| 0 <= i < rows.len() && (#[trigger] rows[i]).0 == key].1,
    )
}

/// A row of rising keys is what its key maps to.
pub proof fn mapping_at<X>(rows: Seq<(Seq<char>, X)>, i: int)
    requires
        rising(rows),
        0 <= i < rows.len(),
    ensures
        mapping(rows).dom().contains(rows[i].0),
        mapping(rows)[rows[i].0] == rows[i].1,
{
    let key = rows[i].0;
    let k = choose|k: int| 0 <= k < rows.len() && (#[trigger] rows[k]).0 == key;
    text_lt_irreflexive(key);
    if k < i {
        assert(text_lt(rows[k].0, rows[i].0));
    }
    if i < k {
        assert(text_lt(rows[i].0, rows[k].0));
    }
}

/// Rising rows with the same mapping are the same rows.
pub proof fn rows_determined<X>(a: Seq<(Seq<char>, X)>, b: Seq<(Seq<char>, X)>)
    requires
        rising(a),
        rising(b),
        mapping(a) == mapping(b),
    ensures
        a == b,
    decreases a.len(),
{
    if a.len() > 0 {
        mapping_at(a, a.len() - 1);
        assert(mapping(b).dom().contains(a.last().0));
    }
    if b.len() > 0 {
        mapping_at(b, b.len() - 1);
        assert(mapping(a).dom().contains(b.last().0));
    }
    if a.len() == 0 || b.len() == 0 {
        assert(a =~= b);
    } else {
        let m = mapping(a);
        let i = choose|i: int| 0 <= i < b.len() && (#[trigger] b[i]).0 == a.last().0;
        let j = choose|j: int| 0 <= j < a.len() && (#[trigger] a[j]).0 == b.last().0;
        if i < b.len() - 1 {
            assert(text_lt(b[i].0, b.last().0));
            if j < a.len() - 1 {
                assert(text_lt(a[j].0, a.last().0));
                text_lt_transitive(a.last().0, b.last().0, a.last().0);
            }
            text_lt_irreflexive(a.last().0);
        }
        assert(a.last() == b.last());
        let x = a.drop_last();
        let y = b.drop_last();
        mapping_drop_last(a);
        mapping_drop_last(b);
        rows_determined(x, y);
        assert(a =~= x.push(a.last()));
        assert(b =~= y.push(b.last()));
    }
}

/// Without its last row a list maps everything but that row's key.
proof fn mapping_drop_last<X>(rows: Seq<(Seq<char>, X)>)
    requires
        rising(rows),
        rows.len() > 0,
    ensures
        rising(rows.drop_last()),
        mapping(rows.drop_last()) == mapping(rows).remove(rows.last().0),
{
    let less = rows.drop_last();
    assert forall|i: int, j: int| 0 <= i < j < less.len() implies text_lt(
        #[trigger] less[i].0,
        #[trigger] less[j].0,
    ) by {
        assert(text_lt(rows[i].0, rows[j].0));
    }
    let want = mapping(rows).remove(rows.last().0);
    let got = mapping(less);
    assert forall|key: Seq<char>| got.dom().contains(key) == want.dom().contains(key) by {
        if got.dom().contains(key) {
            let i = choose|i: int| 0 <= i < less.len() && (#[trigger] less[i]).0 == key;
            assert(rows[i].0 == key);
            assert(text_lt(rows[i].0, rows[rows.len() - 1].0));
            text_lt_irreflexive(key);
        }
        if want.dom().contains(key) {
            let i = choose|i: int| 0 <= i < rows.len() && (#[trigger] rows[i]).0 == key;
            assert(less[i].0 == key);
        }
    }
    assert forall|key: Seq<char>| got.dom().contains(key) implies got[key] == want[key] by {
        let i = choose|i: int| 0 <= i < less.len() && (#[trigger] less[i]).0 == key;
        mapping_at(less, i);
        mapping_at(rows, i);
    }
    assert(got =~= want);
}

impl<T: View> Table<T> {
    /// The rows, as values.
    pub closed spec fn rows(&self) -> Seq<(Seq<char>, T::V)> {
        self.rows@.map_values(|row: (String, T)| (row.0@, row.1@))
    }

    /// The keys rise strictly.
    pub closed spec fn wf(&self) -> bool {
        rising(self.rows())
    }

    /// What a well-formed table says of itself.
    pub proof fn rows_rise(&self)
        requires
            self.wf(),
        ensures
            rising(self.rows()),
    {
    }

    /// A table without a row.
    pub fn new() -> (table: Table<T>)
        ensures
            table.wf(),
            table@ == Map::<Seq<char>, T::V>::empty(),
    {
        let table = Table { rows: Vec::new() };
        assert(table@ =~= Map::<Seq<char>, T::V>::empty());
        table
    }

    /// The number of rows.
    pub fn len(&self) -> (n: usize)
        ensures
            n == self.rows().len(),
    {
        self.rows.len()
    }

    /// The key of a row.
    pub fn key_at(&self, i: usize) -> (key: &String)
        requires
            i < self.rows().len(),
        ensures
            key@ == self.rows()[i as int].0,
    {
        &self.rows[i].0
    }

    /// The value of a row.
    pub fn value_at(&self, i: usize) -> (value: &T)
        requires
            i < self.rows().len(),
        ensures
            value@ == self.rows()[i as int].1,
    {
        &self.rows[i].1
    }

    /// Where a key stands, or where it would stand.
    fn position(&self, key: &str) -> (at: usize)
        requires
            self.wf(),
        ensures
            at <= self.rows().len(),
            forall|i: int| 0 <= i < at ==> text_lt(#[trigger] self.rows()[i].0, key@),
            forall|i: int| at <= i < self.rows().len() ==> !text_lt(#[trigger] self.rows()[i].0, key@),
    {
        let mut i: usize = 0;
        while i < self.rows.len() && text_less(self.rows[i].0.as_str(), key)
            invariant
                i <= self.rows().len(),
                self.rows().len() == self.rows@.len(),
                forall|j: int| 0 <= j < i ==> text_lt(#[trigger] self.rows()[j].0, key@),
            ensures
                i <= self.rows().len(),
                forall|j: int| 0 <= j < i ==> text_lt(#[trigger] self.rows()[j].0, key@),
                i < self.rows().len() ==> !text_lt(self.rows()[i as int].0, key@),
            decreases self.rows@.len() - i,
        {
            i += 1;
        }
        proof {
            assert forall|j: int| i <= j < self.rows().len() implies !text_lt(
                #[trigger] self.rows()[j].0,
                key@,
            ) by {
                if i < j && text_lt(self.rows()[j].0, key@) {
                    assert(text_lt(self.rows()[i as int].0, self.rows()[j].0));
                    text_lt_transitive(self.rows()[i as int].0, self.rows()[j].0, key@);
                }
            }
        }
        i
    }

    /// The value under a key.
    pub fn get(&self, key: &str) -> (found: Option<&T>)
        requires
            self.wf(),
        ensures
            (found matches Some(value) ==> self@.dom().contains(key@) && value@ == self@[key@]),
            found is None ==> !self@.dom().contains(key@),
    {
        let at: usize = self.position(key);
        if at < self.rows.len() && same_text(self.rows[at].0.as_str(), key) {
            proof {
                mapping_at(self.rows(), at as int);
            }
            return Some(&self.rows[at].1);
        }
        proof {
            if self@.dom().contains(key@) {
                let i = choose|i: int|
                    0 <= i < self.rows().len() && (#[trigger] self.rows()[i]).0 == key@;
                text_lt_irreflexive(key@);
                if at < i {
                    assert(text_lt(self.rows()[at as int].0, self.rows()[i].0));
                }
            }
        }
        None
    }

    /// Put a value under a key, in place of what was there.
    pub fn insert(&mut self, key: String, value: T)
        requires
            old(self).wf(),
        ensures
            final(self).wf(),
            final(self)@ == old(self)@.insert(key@, value@),
    {
        let at: usize = self.position(key.as_str());
        let ghost before = self.rows();
        let ghost row = (key@, value@);
        if at < self.rows.len() && same_text(self.rows[at].0.as_str(), key.as_str()) {
            self.rows[at] = (key, value);
            proof {
                let now = self.rows();
                assert(now =~= before.update(at as int, row));
                mapping_update(before, at as int, row);
            }
        } else {
            proof {
                text_lt_total(row.0, before[at as int].0);
            }
            self.rows.insert(at, (key, value));
            proof {
                let now = self.rows();
                assert(now =~= before.insert(at as int, row));
                mapping_insert(before, at as int, row);
            }
        }
    }

    /// Take the row at `i` out.
    pub fn remove_at(&mut self, i: usize)
        requires
            old(self).wf(),
            i < old(self).rows().len(),
        ensures
            final(self).wf(),
            final(self).rows() == old(self).rows().remove(i as int),
            final(self)@ == old(self)@.remove(old(self).rows()[i as int].0),
    {
        let ghost before = self.rows();
        let _ = self.rows.remove(i);
        proof {
            let now = self.rows();
            assert(now =~= before.remove(i as int));
            mapping_remove(before, i as int);
        }
    }

    /// Take the row of a key out, where there is one.
    pub fn remove(&mut self, key: &str)
        requires
            old(self).wf(),
        ensures
            final(self).wf(),
            final(self)@ == old(self)@.remove(key@),
    {
        let at: usize = self.position(key);
        if at < self.rows.len() && same_text(self.rows[at].0.as_str(), key) {
            self.remove_at(at);
            return;
        }
        proof {
            if self@.dom().contains(key@) {
                let i = choose|i: int|
                    0 <= i < self.rows().len() && (#[trigger] self.rows()[i]).0 == key@;
                text_lt_irreflexive(key@);
                if at < i {
                    assert(text_lt(self.rows()[at as int].0, self.rows()[i].0));
                }
            }
            assert(self@ =~= old(self)@.remove(key@));
        }
    }

    /// Take every row out.
    pub fn clear(&mut self)
        ensures
            final(self).wf(),
            final(self)@ == Map::<Seq<char>, T::V>::empty(),
    {
        self.rows.clear();
        assert(self@ =~= Map::<Seq<char>, T::V>::empty());
    }
}

impl<T: View> View for Table<T> {
    type V = Map<Seq<char>, T::V>;

    closed spec fn view(&self) -> Map<Seq<char>, T::V> {
        mapping(self.rows())
    }
}

impl<T: View> Table<T> {
    /// A table has as many keys as rows.
    pub proof fn size(&self)
        requires
            self.wf(),
        ensures
            self@.dom().finite(),
            self@.dom().len() == self.rows().len(),
    {
        mapping_size(self.rows());
    }

    /// A table is what its rows map.
    pub proof fn view_is_mapping(&self)
        ensures
            self@ == mapping(self.rows()),
    {
    }
}

/// Rising rows have as many keys as rows.
proof fn mapping_size<X>(rows: Seq<(Seq<char>, X)>)
    requires
        rising(rows),
    ensures
        mapping(rows).dom().finite(),
        mapping(rows).dom().len() == rows.len(),
    decreases rows.len(),
{
    if rows.len() == 0 {
        assert(mapping(rows).dom() =~= Set::<Seq<char>>::empty());
    } else {
        mapping_drop_last(rows);
        mapping_size(rows.drop_last());
        mapping_at(rows, rows.len() - 1);
        let key = rows.last().0;
        assert(mapping(rows).dom() =~= mapping(rows.drop_last()).dom().insert(key));
    }
}

/// Replacing the value of a row replaces what its key maps to.
proof fn mapping_update<X>(rows: Seq<(Seq<char>, X)>, at: int, row: (Seq<char>, X))
    requires
        rising(rows),
        0 <= at < rows.len(),
        rows[at].0 == row.0,
    ensures
        rising(rows.update(at, row)),
        mapping(rows.update(at, row)) == mapping(rows).insert(row.0, row.1),
{
    let now = rows.update(at, row);
    assert forall|i: int, j: int| 0 <= i < j < now.len() implies text_lt(
        #[trigger] now[i].0,
        #[trigger] now[j].0,
    ) by {
        assert(text_lt(rows[i].0, rows[j].0));
    }
    let want = mapping(rows).insert(row.0, row.1);
    let got = mapping(now);
    assert forall|key: Seq<char>| got.dom().contains(key) == want.dom().contains(key) by {
        if got.dom().contains(key) {
            let i = choose|i: int| 0 <= i < now.len() && (#[trigger] now[i]).0 == key;
            assert(rows[i].0 == key);
        }
        if want.dom().contains(key) {
            if key == row.0 {
                assert(now[at].0 == key);
            } else {
                let i = choose|i: int| 0 <= i < rows.len() && (#[trigger] rows[i]).0 == key;
                assert(now[i].0 == key);
            }
        }
    }
    assert forall|key: Seq<char>| got.dom().contains(key) implies got[key] == want[key] by {
        let i = choose|i: int| 0 <= i < now.len() && (#[trigger] now[i]).0 == key;
        mapping_at(now, i);
        mapping_at(rows, i);
        if i != at {
            text_lt_irreflexive(key);
            if i < at {
                assert(text_lt(rows[i].0, rows[at].0));
            } else {
                assert(text_lt(rows[at].0, rows[i].0));
            }
        }
    }
    assert(got =~= want);
}

/// A new row in its place adds what its key maps to.
proof fn mapping_insert<X>(rows: Seq<(Seq<char>, X)>, at: int, row: (Seq<char>, X))
    requires
        rising(rows),
        0 <= at <= rows.len(),
        forall|i: int| 0 <= i < at ==> text_lt(#[trigger] rows[i].0, row.0),
        at < rows.len() ==> text_lt(row.0, rows[at].0),
    ensures
        rising(rows.insert(at, row)),
        mapping(rows.insert(at, row)) == mapping(rows).insert(row.0, row.1),
{
    let now = rows.insert(at, row);
    assert forall|i: int, j: int| 0 <= i < j < now.len() implies text_lt(
        #[trigger] now[i].0,
        #[trigger] now[j].0,
    ) by {
        if j < at {
            assert(text_lt(rows[i].0, rows[j].0));
        } else if i < at && j > at {
            assert(text_lt(rows[i].0, rows[j - 1].0));
        } else if i > at {
            assert(text_lt(rows[i - 1].0, rows[j - 1].0));
        } else if i == at {
            if j - 1 > at {
                assert(text_lt(rows[at].0, rows[j - 1].0));
                text_lt_transitive(row.0, rows[at].0, rows[j - 1].0);
            }
        }
    }
    let want = mapping(rows).insert(row.0, row.1);
    let got = mapping(now);
    assert forall|key: Seq<char>| got.dom().contains(key) == want.dom().contains(key) by {
        if got.dom().contains(key) {
            let i = choose|i: int| 0 <= i < now.len() && (#[trigger] now[i]).0 == key;
            if i < at {
                assert(rows[i].0 == key);
            } else if i > at {
                assert(rows[i - 1].0 == key);
            }
        }
        if want.dom().contains(key) {
            if key == row.0 {
                assert(now[at].0 == key);
            } else {
                let i = choose|i: int| 0 <= i < rows.len() && (#[trigger] rows[i]).0 == key;
                if i < at {
                    assert(now[i].0 == key);
                } else {
                    assert(now[i + 1].0 == key);
                }
            }
        }
    }
    assert forall|key: Seq<char>| got.dom().contains(key) implies got[key] == want[key] by {
        let i = choose|i: int| 0 <= i < now.len() && (#[trigger] now[i]).0 == key;
        mapping_at(now, i);
        if i != at {
            let k = if i < at { i } else { i - 1 };
            assert(rows[k] == now[i]);
            mapping_at(rows, k);
            text_lt_irreflexive(key);
            if i < at {
                assert(text_lt(now[i].0, now[at].0));
            } else {
                assert(text_lt(now[at].0, now[i].0));
            }
        }
    }
    assert(got =~= want);
}

/// Without one of its rows a list maps everything but that row's key.
proof fn mapping_remove<X>(rows: Seq<(Seq<char>, X)>, at: int)
    requires
        rising(rows),
        0 <= at < rows.len(),
    ensures
        rising(rows.remove(at)),
        mapping(rows.remove(at)) == mapping(rows).remove(rows[at].0),
{
    let now = rows.remove(at);
    assert forall|i: int, j: int| 0 <= i < j < now.len() implies text_lt(
        #[trigger] now[i].0,
        #[trigger] now[j].0,
    ) by {
        let a = if i < at { i } else { i + 1 };
        let b = if j < at { j } else { j + 1 };
        assert(text_lt(rows[a].0, rows[b].0));
    }
    let want = mapping(rows).remove(rows[at].0);
    let got = mapping(now);
    assert forall|key: Seq<char>| got.dom().contains(key) == want.dom().contains(key) by {
        if got.dom().contains(key) {
            let i = choose|i: int| 0 <= i < now.len() && (#[trigger] now[i]).0 == key;
            let a = if i < at { i } else { i + 1 };
            assert(rows[a].0 == key);
            text_lt_irreflexive(key);
            if a < at {
                assert(text_lt(rows[a].0, rows[at].0));
            } else {
                assert(text_lt(rows[at].0, rows[a].0));
            }
        }
        if want.dom().contains(key) {
            let i = choose|i: int| 0 <= i < rows.len() && (#[trigger] rows[i]).0 == key;
            if i < at {
                assert(now[i].0 == key);
            } else {
                assert(now[i - 1].0 == key);
            }
        }
    }
    assert forall|key: Seq<char>| got.dom().contains(key) implies got[key] == want[key] by {
        let i = choose|i: int| 0 <= i < now.len() && (#[trigger] now[i]).0 == key;
        let a = if i < at { i } else { i + 1 };
        assert(rows[a] == now[i]);
        mapping_at(now, i);
        mapping_at(rows, a);
    }
    assert(got =~= want);
}

/// The rows of a list of pairs, as values.
pub open spec fn row_views<T: View>(rows: Seq<(String, T)>) -> Seq<(Seq<char>, T::V)> {
    rows.map_values(|row: (String, T)| (row.0@, row.1@))
}

/// What a table maps after each row in turn was put in.
pub open spec fn rows_put<X>(rows: Seq<(Seq<char>, X)>) -> Map<Seq<char>, X>
    decreases rows.len(),
{
    if rows.len() == 0 {
        Map::empty()
    } else {
        rows_put(rows.drop_last()).insert(rows.last().0, rows.last().1)
    }
}

/// Rising rows put in one by one are what they map.
pub proof fn rising_rows_put<X>(rows: Seq<(Seq<char>, X)>)
    requires
        rising(rows),
    ensures
        rows_put(rows) == mapping(rows),
    decreases rows.len(),
{
    if rows.len() == 0 {
        assert(rows_put(rows) =~= mapping(rows));
    } else {
        mapping_drop_last(rows);
        rising_rows_put(rows.drop_last());
        mapping_at(rows, rows.len() - 1);
        assert(rows_put(rows) =~= mapping(rows));
    }
}

impl<T: View> Table<T> {
    /// The table of a list of rows, a later row in place of an earlier one of
    /// its key.
    pub fn from_rows(rows: Vec<(String, T)>) -> (table: Table<T>)
        ensures
            table.wf(),
            table@ == rows_put(row_views(rows@)),
    {
        let ghost all = row_views(rows@);
        let mut rest = rows;
        let mut back: Vec<(String, T)> = Vec::new();
        let mut table: Table<T> = Table::new();
        assert(all.take(all.len() as int) =~= all);
        assert(all.take(0) =~= Seq::<(Seq<char>, T::V)>::empty());
        while rest.len() > 0
            invariant
                row_views(rest@) == all.take(rest@.len() as int),
                rest@.len() <= all.len(),
                back@.len() == all.len() - rest@.len(),
                forall|k: int|
                    0 <= k < back@.len() ==> (#[trigger] back@[k]).0@ == all[all.len() - 1 - k].0
                        && back@[k].1@ == all[all.len() - 1 - k].1,
            decreases rest@.len(),
        {
            let ghost had = rest@;
            match rest.pop() {
                Some(row) => {
                    proof {
                        assert(row_views(had)[had.len() - 1] == (row.0@, row.1@));
                        assert(row_views(rest@) =~= row_views(had).drop_last());
                        assert(all.take(had.len() as int).drop_last() =~= all.take(
                            had.len() - 1,
                        ));
                    }
                    back.push(row);
                },
                None => {},
            }
        }
        while back.len() > 0
            invariant
                table.wf(),
                back@.len() <= all.len(),
                table@ == rows_put(all.take(all.len() - back@.len())),
                forall|k: int|
                    0 <= k < back@.len() ==> (#[trigger] back@[k]).0@ == all[all.len() - 1 - k].0
                        && back@[k].1@ == all[all.len() - 1 - k].1,
            decreases back@.len(),
        {
            let ghost had = back@;
            match back.pop() {
                Some(row) => {
                    proof {
                        let k = all.len() - had.len();
                        assert(all.take(k + 1).drop_last() =~= all.take(k));
                        assert(had[had.len() - 1] == row);
                    }
                    table.insert(row.0, row.1);
                },
                None => {},
            }
        }
        assert(all.take(all.len() as int) =~= all);
        table
    }
}

/// Texts are compared at the first character where they differ, by its number; one
/// that the other only goes on from comes first.
pub proof fn texts_are_compared_at_the_first_difference(a: Seq<char>, b: Seq<char>, k: int)
    requires
        0 <= k <= a.len(),
        k <= b.len(),
        a.take(k) == b.take(k),
        k == a.len() || k == b.len() || a[k] != b[k],
    ensures
        text_lt(a, b) == (k < b.len() && (k == a.len() || (a[k] as int) < (b[k] as int))),
    decreases k,
{
    if k > 0 {
        assert(a[0] == a.take(k)[0] && b[0] == b.take(k)[0]);
        assert(a.drop_first().take(k - 1) =~= a.take(k).drop_first());
        assert(b.drop_first().take(k - 1) =~= b.take(k).drop_first());
        texts_are_compared_at_the_first_difference(a.drop_first(), b.drop_first(), k - 1);
    }
}

/// Of several rows under one key the last one stands, and no key comes from nowhere.
pub proof fn the_last_row_of_a_key_stands<X>(rows: Seq<(Seq<char>, X)>, key: Seq<char>, i: int)
    ensures
        (forall|k: int| 0 <= k < rows.len() ==> (#[trigger] rows[k]).0 != key) ==> !rows_put(
            rows,
        ).dom().contains(key),
        0 <= i < rows.len() && rows[i].0 == key && (forall|k: int|
            i < k < rows.len() ==> (#[trigger] rows[k]).0 != key) ==> rows_put(
            rows,
        ).dom().contains(key) && rows_put(rows)[key] == rows[i].1,
    decreases rows.len(),
{
    if rows.len() > 0 {
        let front = rows.drop_last();
        the_last_row_of_a_key_stands(front, key, i);
        assert(rows.last() == rows[rows.len() - 1]);
        if forall|k: int| 0 <= k < rows.len() ==> (#[trigger] rows[k]).0 != key {
            assert(rows[rows.len() - 1].0 != key);
            assert forall|k: int| 0 <= k < front.len() implies (#[trigger] front[k]).0 != key by {
                assert(rows[k].0 != key);
            }
        }
        if 0 <= i < rows.len() - 1 && rows[i].0 == key && (forall|k: int|
            i < k < rows.len() ==> (#[trigger] rows[k]).0 != key) {
            assert(rows[rows.len() - 1].0 != key);
            assert(front[i] == rows[i]);
            assert forall|k: int| i < k < front.len() implies (#[trigger] front[k]).0 != key by {
                assert(rows[k].0 != key);
            }
        }
    }
}

} // verus!
