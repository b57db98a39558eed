//! A table of objects keyed by identifier and kept in ascending order of
//! the identifiers.
use vstd::prelude::*;
use crate::object::{id_equal, id_less, id_lt, Object, ObjectId, ObjectView};

verus! {

/// The entries of a table as mathematical values, in the table's order.
pub type Rows = Seq<(ObjectId, ObjectView)>;

/// Each identifier comes before the next one.
pub open spec fn ascending(rows: Rows) -> bool {
    forall|i: int, j: int|
        0 <= i < j < rows.len() ==> id_lt((#[trigger] rows[i]).0, (#[trigger] rows[j]).0)
}

/// Whether a row of `rows` has the identifier `id`.
pub open spec fn has_row(rows: Rows, id: ObjectId) -> bool {
    exists|i: int| 0 <= i < rows.len() && (#[trigger] rows[i]).0 == id
}

/// The position of a row with the identifier `id`.
pub open spec fn row_of(rows: Rows, id: ObjectId) -> int {
    choose|i: int| 0 <= i < rows.len() && (#[trigger] rows[i]).0 == id
}

/// The mapping that `rows` denotes.
pub open spec fn rows_map(rows: Rows) -> Map<ObjectId, ObjectView> {
    Map::new(|id: ObjectId| has_row(rows, id), |id: ObjectId| rows[row_of(rows, id)].1)
}

/// In an ascending table a row is found under its own identifier.
pub proof fn lemma_row(rows: Rows, i: int)
    requires
        ascending(rows),
        0 <= i < rows.len(),
    ensures
        has_row(rows, rows[i].0),
        row_of(rows, rows[i].0) == i,
        rows_map(rows).contains_key(rows[i].0),
        rows_map(rows)[rows[i].0] == rows[i].1,
{
    let j = row_of(rows, rows[i].0);
    assert(0 <= j < rows.len() && rows[j].0 == rows[i].0);
    if j < i {
        assert(id_lt(rows[j].0, rows[i].0));
    }
    if i < j {
        assert(id_lt(rows[i].0, rows[j].0));
    }
}

/// Putting a row where its identifier belongs adds it to the mapping.
pub proof fn lemma_insert_row(rows: Rows, at: int, id: ObjectId, value: ObjectView)
    requires
        ascending(rows),
        0 <= at <= rows.len(),
        forall|j: int| 0 <= j < at ==> id_lt((#[trigger] rows[j]).0, id),
        forall|j: int| at <= j < rows.len() ==> id_lt(id, (#[trigger] rows[j]).0),
    ensures
        ascending(rows.insert(at, (id, value))),
        rows_map(rows.insert(at, (id, value))) == rows_map(rows).insert(id, value),
        !has_row(rows, id),
{
    let after = rows.insert(at, (id, value));
    assert forall|i: int, j: int| 0 <= i < j < after.len() implies id_lt(
        (#[trigger] after[i]).0,
        (#[trigger] after[j]).0,
    ) by {
        let i0 = if i < at { i } else { i - 1 };
        let j0 = if j < at { j } else { j - 1 };
        if i != at && j != at {
            assert(id_lt(rows[i0].0, rows[j0].0));
        } else if i == at {
            assert(id_lt(id, rows[j0].0));
        } else {
            assert(id_lt(rows[i0].0, id));
        }
    }
    assert(!has_row(rows, id)) by {
        if has_row(rows, id) {
            let k = row_of(rows, id);
            if k < at {
                assert(id_lt(rows[k].0, id));
            } else {
                assert(id_lt(id, rows[k].0));
            }
        }
    }
    assert forall|k: ObjectId| rows_map(after).contains_key(k) <==> rows_map(rows).insert(
        id,
        value,
    ).contains_key(k) by {
        if has_row(after, k) {
            let i = row_of(after, k);
            if i != at {
                let i0 = if i < at { i } else { i - 1 };
                assert(rows[i0].0 == k);
            }
        }
        if has_row(rows, k) {
            let i = row_of(rows, k);
            let i1 = if i < at { i } else { i + 1 };
            assert(after[i1].0 == k);
        }
        if k == id {
            assert(after[at].0 == k);
        }
    }
    assert forall|k: ObjectId| rows_map(after).contains_key(k) implies rows_map(after)[k]
        == rows_map(rows).insert(id, value)[k] by {
        let i = row_of(after, k);
        lemma_row(after, i);
        if i != at {
            let i0 = if i < at { i } else { i - 1 };
            assert(rows[i0] == after[i]);
            lemma_row(rows, i0);
        }
    }
    assert(rows_map(after) =~= rows_map(rows).insert(id, value));
}

/// Replacing the value of a row replaces it in the mapping.
pub proof fn lemma_update_row(rows: Rows, at: int, value: ObjectView)
    requires
        ascending(rows),
        0 <= at < rows.len(),
    ensures
        ascending(rows.update(at, (rows[at].0, value))),
        rows_map(rows.update(at, (rows[at].0, value))) == rows_map(rows).insert(rows[at].0, value),
        has_row(rows, rows[at].0),
{
    let id = rows[at].0;
    let after = rows.update(at, (id, value));
    assert forall|i: int, j: int| 0 <= i < j < after.len() implies id_lt(
        (#[trigger] after[i]).0,
        (#[trigger] after[j]).0,
    ) by {
        assert(id_lt(rows[i].0, rows[j].0));
    }
    lemma_row(rows, at);
    assert forall|k: ObjectId| rows_map(after).contains_key(k) <==> rows_map(rows).insert(
        id,
        value,
    ).contains_key(k) by {
        if has_row(after, k) {
            let i = row_of(after, k);
            assert(rows[i].0 == k);
        }
        if has_row(rows, k) {
            let i = row_of(rows, k);
            assert(after[i].0 == k);
        }
    }
    assert forall|k: ObjectId| rows_map(after).contains_key(k) implies rows_map(after)[k]
        == rows_map(rows).insert(id, value)[k] by {
        let i = row_of(after, k);
        lemma_row(after, i);
        if i != at {
            assert(rows[i] == after[i]);
            lemma_row(rows, i);
        }
    }
    assert(rows_map(after) =~= rows_map(rows).insert(id, value));
}

/// An ascending table has as many rows as its mapping has keys.
pub proof fn lemma_rows_count(rows: Rows)
    requires
        ascending(rows),
    ensures
        rows_map(rows).dom().finite(),
        rows_map(rows).dom().len() == rows.len(),
    decreases rows.len(),
{
    if rows.len() == 0 {
        assert(rows_map(rows).dom() =~= Set::<ObjectId>::empty());
    } else {
        let prefix = rows.drop_last();
        let last = rows.last();
        assert forall|i: int, j: int| 0 <= i < j < prefix.len() implies id_lt(
            (#[trigger] prefix[i]).0,
            (#[trigger] prefix[j]).0,
        ) by {
            assert(id_lt(rows[i].0, rows[j].0));
        }
        lemma_rows_count(prefix);
        assert forall|j: int| 0 <= j < prefix.len() implies id_lt((#[trigger] prefix[j]).0, last.0) by {
            assert(id_lt(rows[j].0, rows[rows.len() - 1].0));
        }
        lemma_insert_row(prefix, prefix.len() as int, last.0, last.1);
        assert(prefix.insert(prefix.len() as int, (last.0, last.1)) =~= rows);
        assert(!rows_map(prefix).dom().contains(last.0));
        assert(rows_map(rows).dom() =~= rows_map(prefix).dom().insert(last.0));
    }
}

/// The rows before the last one denote the mapping without the last key.
proof fn lemma_drop_last_row(rows: Rows)
    requires
        ascending(rows),
        rows.len() > 0,
    ensures
        ascending(rows.drop_last()),
        rows_map(rows.drop_last()) == rows_map(rows).remove(rows.last().0),
        rows_map(rows).contains_key(rows.last().0),
        rows_map(rows)[rows.last().0] == rows.last().1,
{
    let prefix = rows.drop_last();
    let last = rows.last();
    assert forall|i: int, j: int| 0 <= i < j < prefix.len() implies id_lt(
        (#[trigger] prefix[i]).0,
        (#[trigger] prefix[j]).0,
    ) by {
        assert(id_lt(rows[i].0, rows[j].0));
    }
    assert forall|j: int| 0 <= j < prefix.len() implies id_lt((#[trigger] prefix[j]).0, last.0) by {
        assert(id_lt(rows[j].0, rows[rows.len() - 1].0));
    }
    lemma_insert_row(prefix, prefix.len() as int, last.0, last.1);
    assert(prefix.insert(prefix.len() as int, (last.0, last.1)) =~= rows);
    assert(!rows_map(prefix).contains_key(last.0));
    assert(rows_map(prefix) =~= rows_map(rows).remove(last.0));
    lemma_row(rows, rows.len() - 1);
}

/// A mapping has one ascending table: ascending tables that denote the
/// same mapping are the same.
pub proof fn law_rows_unique(a: Rows, b: Rows)
    requires
        ascending(a),
        ascending(b),
        rows_map(a) == rows_map(b),
    ensures
        a == b,
    decreases a.len(),
{
    lemma_rows_count(a);
    lemma_rows_count(b);
    if a.len() == 0 {
        assert(a =~= b);
    } else {
        lemma_drop_last_row(a);
        lemma_drop_last_row(b);
        let la = a.last();
        let lb = b.last();
        if la.0 != lb.0 {
            assert(has_row(a, lb.0));
            let i = row_of(a, lb.0);
            assert(id_lt(a[i].0, a[a.len() - 1].0));
            assert(has_row(b, la.0));
            let j = row_of(b, la.0);
            assert(id_lt(b[j].0, b[b.len() - 1].0));
        }
        assert(la == lb);
        law_rows_unique(a.drop_last(), b.drop_last());
        assert(a =~= a.drop_last().push(la));
        assert(b =~= b.drop_last().push(lb));
    }
}

/// Objects by identifier, in ascending order of the identifiers.
#[derive(Debug, PartialEq)]
pub struct ObjectMap {
    entries: Vec<(ObjectId, Object)>,
}

impl View for ObjectMap {
    type V = Map<ObjectId, ObjectView>;

    /// The mapping from identifiers to objects.
    open spec fn view(&self) -> Map<ObjectId, ObjectView> {
        rows_map(self.rows())
    }
}

impl ObjectMap {
    /// The entries in ascending order of their identifiers.
    pub closed spec fn rows(&self) -> Rows {
        Seq::new(self.entries@.len(), |i: int| (self.entries@[i].0, self.entries@[i].1@))
    }

    /// The identifiers ascend. Every table that this library hands out is
    /// well formed.
    pub open spec fn wf(&self) -> bool {
        ascending(self.rows())
    }

    /// The table without entries.
    pub fn new() -> (m: ObjectMap)
        ensures
            m.wf(),
            m.rows() == Seq::<(ObjectId, ObjectView)>::empty(),
            m@ == Map::<ObjectId, ObjectView>::empty(),
    {
        let m = ObjectMap { entries: Vec::new() };
        assert(m.rows() =~= Seq::<(ObjectId, ObjectView)>::empty());
        assert(m@ =~= Map::<ObjectId, ObjectView>::empty());
        m
    }

    /// The number of entries.
    pub fn len(&self) -> (n: usize)
        ensures
            n == self.rows().len(),
    {
        self.entries.len()
    }

    pub fn is_empty(&self) -> (b: bool)
        ensures
            b == (self.rows().len() == 0),
    {
        self.entries.len() == 0
    }

    /// The identifier of the entry at position `i`.
    pub fn id_at(&self, i: usize) -> (id: ObjectId)
        requires
            self.wf(),
            i < self.rows().len(),
        ensures
            id == self.rows()[i as int].0,
            self@.contains_key(id),
    {
        proof {
            lemma_row(self.rows(), i as int);
        }
        self.entries[i].0
    }

    /// The object of the entry at position `i`.
    pub fn object_at(&self, i: usize) -> (object: &Object)
        requires
            self.wf(),
            i < self.rows().len(),
        ensures
            object@ == self.rows()[i as int].1,
            self@[self.rows()[i as int].0] == object@,
    {
        proof {
            lemma_row(self.rows(), i as int);
        }
        &self.entries[i].1
    }

    /// The first position whose identifier does not come before `id`.
    fn lower_bound(&self, id: ObjectId) -> (at: usize)
        requires
            self.wf(),
        ensures
            at <= self.rows().len(),
            forall|j: int| 0 <= j < at ==> id_lt((#[trigger] self.rows()[j]).0, id),
            forall|j: int| at <= j < self.rows().len() ==> !id_lt((#[trigger] self.rows()[j]).0, id),
    {
        let mut lo: usize = 0;
        let mut hi: usize = self.entries.len();
        while lo < hi
            invariant
                lo <= hi <= self.entries.len(),
                self.entries.len() == self.rows().len(),
                ascending(self.rows()),
                forall|j: int| 0 <= j < lo ==> id_lt((#[trigger] self.rows()[j]).0, id),
                forall|j: int| hi <= j < self.rows().len() ==> !id_lt((#[trigger] self.rows()[j]).0, id),
            decreases hi - lo,
        {
            let mid: usize = lo + (hi - lo) / 2;
            if id_less(self.entries[mid].0, id) {
                assert forall|j: int| 0 <= j < mid + 1 implies id_lt(
                    (#[trigger] self.rows()[j]).0,
                    id,
                ) by {
                    if j < mid {
                        assert(id_lt(self.rows()[j].0, self.rows()[mid as int].0));
                    }
                }
                lo = mid + 1;
            } else {
                assert forall|j: int| mid <= j < self.rows().len() implies !id_lt(
                    (#[trigger] self.rows()[j]).0,
                    id,
                ) by {
                    if mid < j {
                        assert(id_lt(self.rows()[mid as int].0, self.rows()[j].0));
                    }
                }
                hi = mid;
            }
        }
        lo
    }

    /// The position of the entry with the identifier `id`.
    pub fn position(&self, id: ObjectId) -> (r: Option<usize>)
        requires
            self.wf(),
        ensures
            match r {
                Some(i) => i < self.rows().len() && self.rows()[i as int].0 == id
                    && self@.contains_key(id),
                None => !self@.contains_key(id),
            },
    {
        let at = self.lower_bound(id);
        if at < self.entries.len() && id_equal(self.entries[at].0, id) {
            proof {
                lemma_row(self.rows(), at as int);
            }
            Some(at)
        } else {
            proof {
                if has_row(self.rows(), id) {
                    let k = row_of(self.rows(), id);
                    if k > at {
                        assert(id_lt(self.rows()[at as int].0, self.rows()[k].0));
                    }
                }
            }
            None
        }
    }

    /// Whether an object is stored under `id`.
    pub fn contains_key(&self, id: ObjectId) -> (b: bool)
        requires
            self.wf(),
        ensures
            b == self@.contains_key(id),
    {
        self.position(id).is_some()
    }

    /// The object stored under `id`.
    pub fn get(&self, id: ObjectId) -> (r: Option<&Object>)
        requires
            self.wf(),
        ensures
            match r {
                Some(o) => self@.contains_key(id) && self@[id] == o@,
                None => !self@.contains_key(id),
            },
    {
        match self.position(id) {
            Some(i) => Some(self.object_at(i)),
            None => None,
        }
    }

    /// Stores `object` under `id`, in place of an object that was stored
    /// there. Says whether there was one.
    pub fn insert(&mut self, id: ObjectId, object: Object) -> (replaced: bool)
        requires
            old(self).wf(),
        ensures
            final(self).wf(),
            final(self)@ == old(self)@.insert(id, object@),
            replaced == old(self)@.contains_key(id),
            final(self).rows().len() == old(self).rows().len() + (if replaced {
                0int
            } else {
                1int
            }),
    {
        let at = self.lower_bound(id);
        let ghost before = self.rows();
        if at < self.entries.len() && id_equal(self.entries[at].0, id) {
            proof {
                lemma_update_row(before, at as int, object@);
            }
            self.entries.set(at, (id, object));
            assert(self.rows() =~= before.update(at as int, (id, object@)));
            true
        } else {
            proof {
                assert forall|j: int| at <= j < before.len() implies id_lt(
                    id,
                    (#[trigger] before[j]).0,
                ) by {
                    if j > at {
                        assert(id_lt(before[at as int].0, before[j].0));
                    }
                }
                lemma_insert_row(before, at as int, id, object@);
            }
            self.entries.insert(at, (id, object));
            assert(self.rows() =~= before.insert(at as int, (id, object@)));
            false
        }
    }
}

} // verus!
