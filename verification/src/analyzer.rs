//! Which objects of a document must stay outside containers.
use vstd::prelude::*;
use crate::bytes::{
    bytes_catalog, bytes_eq, bytes_objstm, bytes_page, bytes_pages, bytes_type, bytes_xref,
    key_type, name_catalog, name_objstm, name_page, name_pages, name_xref,
};
use crate::container::ObjectStream;
use crate::document::{Document, DocumentView};
use crate::object::{id_equal, id_lt, lookup, Entries, Object, ObjectId, ObjectView};
use crate::table::{has_row, lemma_row, row_of, Rows};

verus! {

/// The identifiers that an object refers to, directly or through nested
/// arrays and dictionaries. Of a stream only the dictionary counts.
pub open spec fn references(v: ObjectView) -> Set<ObjectId>
    decreases v,
{
    match v {
        ObjectView::Reference(id) => set![id],
        ObjectView::Array(items) => Set::new(
            |id: ObjectId|
                exists|i: int| 0 <= i < items.len() && references(#[trigger] items[i]).contains(id),
        ),
        ObjectView::Dictionary(entries) => Set::new(
            |id: ObjectId|
                exists|i: int|
                    0 <= i < entries.len() && references((#[trigger] entries[i]).1).contains(id),
        ),
        ObjectView::Stream(entries, _) => Set::new(
            |id: ObjectId|
                exists|i: int|
                    0 <= i < entries.len() && references((#[trigger] entries[i]).1).contains(id),
        ),
        ObjectView::Null
        | ObjectView::Boolean(_)
        | ObjectView::Integer(_)
        | ObjectView::Real(_)
        | ObjectView::String(_)
        | ObjectView::Name(_) => Set::empty(),
    }
}

/// The type names of objects that the cross-reference mechanism must reach
/// directly: page, page-tree node, catalog, cross-reference stream and
/// container.
pub open spec fn structural_name(name: Seq<u8>) -> bool {
    name == name_page() || name == name_pages() || name == name_catalog() || name == name_xref()
        || name == name_objstm()
}

/// A dictionary whose `Type` entry is a structural name.
pub open spec fn has_structural_type(v: ObjectView) -> bool {
    v matches ObjectView::Dictionary(entries) && lookup(entries, key_type()) matches Some(
        ObjectView::Name(name),
    ) && structural_name(name)
}

/// Whether a value of the trailer is a reference to `id`.
pub open spec fn trailer_refers(trailer: Entries, id: ObjectId) -> bool {
    exists|i: int| 0 <= i < trailer.len() && (#[trigger] trailer[i]).1 == ObjectView::Reference(id)
}

/// An object of the document that must stay outside containers by itself:
/// a stream, a dictionary of a structural type, or an object that the
/// trailer refers to.
pub open spec fn is_seed(doc: DocumentView, id: ObjectId) -> bool {
    doc.objects.contains_key(id) && (doc.objects[id] is Stream || has_structural_type(
        doc.objects[id],
    ) || trailer_refers(doc.trailer, id))
}

/// The object `from` of the document refers to its object `to`.
pub open spec fn refers(doc: DocumentView, from: ObjectId, to: ObjectId) -> bool {
    doc.objects.contains_key(from) && doc.objects.contains_key(to) && references(
        doc.objects[from],
    ).contains(to)
}

/// A chain of references between objects of the document that starts at a
/// seed.
pub open spec fn is_chain(doc: DocumentView, path: Seq<ObjectId>) -> bool {
    path.len() > 0 && is_seed(doc, path[0]) && forall|i: int|
        0 <= i < path.len() - 1 ==> refers(doc, #[trigger] path[i], path[i + 1])
}

/// Some chain from a seed ends at `id`.
pub open spec fn must_stay(doc: DocumentView, id: ObjectId) -> bool {
    exists|path: Seq<ObjectId>| #[trigger] is_chain(doc, path) && path.last() == id
}

/// The objects that must not be packed into a container: the seeds and
/// whatever they refer to, step by step.
pub open spec fn non_compressible(doc: DocumentView) -> Set<ObjectId> {
    Set::new(|id: ObjectId| must_stay(doc, id))
}

/// Whether the object with the identifier `id` may be packed into a
/// container: it is none of those that must stay outside.
pub open spec fn compressible(doc: DocumentView, id: ObjectId) -> bool {
    !non_compressible(doc).contains(id)
}

/// How many positions hold `false`.
spec fn unmarked(marks: Seq<bool>) -> nat
    decreases marks.len(),
{
    if marks.len() == 0 {
        0
    } else {
        unmarked(marks.drop_last()) + (if marks.last() {
            0nat
        } else {
            1nat
        })
    }
}

proof fn lemma_mark(marks: Seq<bool>, j: int)
    requires
        0 <= j < marks.len(),
        !marks[j],
    ensures
        unmarked(marks.update(j, true)) + 1 == unmarked(marks),
    decreases marks.len(),
{
    if j == marks.len() - 1 {
        assert(marks.update(j, true).drop_last() =~= marks.drop_last());
    } else {
        lemma_mark(marks.drop_last(), j);
        assert(marks.update(j, true).drop_last() =~= marks.drop_last().update(j, true));
    }
}

/// Every object of the document that row `i` refers to is marked.
spec fn closed_at(doc: DocumentView, rows: Rows, marks: Seq<bool>, i: int) -> bool {
    forall|j: int| 0 <= j < rows.len() && refers(doc, rows[i].0, (#[trigger] rows[j]).0) ==> marks[j]
}

spec fn in_work(work: Seq<usize>, i: int) -> bool {
    exists|p: int| 0 <= p < work.len() && #[trigger] work[p] == i
}

/// One of the first `upto` rows has the identifier `id`.
spec fn among(rows: Rows, upto: int, id: ObjectId) -> bool {
    exists|k: int| 0 <= k < upto && (#[trigger] rows[k]).0 == id
}

/// Every marked row is on a chain from a seed.
spec fn marks_sound(doc: DocumentView, rows: Rows, marks: Seq<bool>) -> bool {
    forall|i: int| 0 <= i < rows.len() && #[trigger] marks[i] ==> must_stay(doc, rows[i].0)
}

/// Every marked row is closed or still waits in the work list.
spec fn marks_settled(doc: DocumentView, rows: Rows, marks: Seq<bool>, work: Seq<usize>) -> bool {
    forall|i: int|
        0 <= i < rows.len() && #[trigger] marks[i] ==> closed_at(doc, rows, marks, i) || in_work(
            work,
            i,
        )
}

spec fn seeds_marked(doc: DocumentView, rows: Rows, marks: Seq<bool>, upto: int) -> bool {
    forall|i: int| 0 <= i < upto && is_seed(doc, (#[trigger] rows[i]).0) ==> marks[i]
}

spec fn work_valid(marks: Seq<bool>, work: Seq<usize>) -> bool {
    forall|p: int| 0 <= p < work.len() ==> (#[trigger] work[p]) < marks.len() && marks[work[p] as int]
}

/// A seed is on the chain that consists of itself.
pub proof fn lemma_seed_stays(doc: DocumentView, id: ObjectId)
    requires
        is_seed(doc, id),
    ensures
        must_stay(doc, id),
{
    let path = seq![id];
    assert(is_chain(doc, path));
    assert(path.last() == id);
}

/// What an object on a chain refers to is on a chain.
pub proof fn lemma_step_stays(doc: DocumentView, from: ObjectId, to: ObjectId)
    requires
        must_stay(doc, from),
        refers(doc, from, to),
    ensures
        must_stay(doc, to),
{
    let path = choose|path: Seq<ObjectId>| #[trigger] is_chain(doc, path) && path.last() == from;
    let longer = path.push(to);
    assert forall|i: int| 0 <= i < longer.len() - 1 implies refers(
        doc,
        #[trigger] longer[i],
        longer[i + 1],
    ) by {
        if i < path.len() - 1 {
            assert(refers(doc, path[i], path[i + 1]));
        }
    }
    assert(is_chain(doc, longer));
    assert(longer.last() == to);
}

/// Every object on a chain is an object of the document.
pub proof fn lemma_stays_in_document(doc: DocumentView, id: ObjectId)
    requires
        must_stay(doc, id),
    ensures
        doc.objects.contains_key(id),
{
    let path = choose|path: Seq<ObjectId>| #[trigger] is_chain(doc, path) && path.last() == id;
    if path.len() > 1 {
        assert(refers(doc, path[path.len() - 2], path[path.len() - 2 + 1]));
    }
}

/// Where the seeds are marked and every marked row is closed, every row on
/// a chain is marked.
proof fn lemma_chain_marked(
    doc: DocumentView,
    rows: Rows,
    marks: Seq<bool>,
    path: Seq<ObjectId>,
    k: int,
)
    requires
        crate::table::ascending(rows),
        doc.objects == crate::table::rows_map(rows),
        marks.len() == rows.len(),
        seeds_marked(doc, rows, marks, rows.len() as int),
        marks_settled(doc, rows, marks, Seq::empty()),
        is_chain(doc, path),
        0 <= k < path.len(),
    ensures
        has_row(rows, path[k]),
        marks[row_of(rows, path[k])],
    decreases k,
{
    if k == 0 {
        let i = row_of(rows, path[0]);
        assert(rows[i].0 == path[0]);
    } else {
        lemma_chain_marked(doc, rows, marks, path, k - 1);
        let i = row_of(rows, path[k - 1]);
        assert(refers(doc, path[k - 1], path[k - 1 + 1]));
        let j = row_of(rows, path[k]);
        assert(rows[j].0 == path[k]);
        assert(marks[i]);
        assert(!in_work(Seq::<usize>::empty(), i));
        assert(closed_at(doc, rows, marks, i));
    }
}

/// Whether `id` is among `refs`.
fn holds_id(refs: &Vec<ObjectId>, id: ObjectId) -> (r: bool)
    ensures
        r == refs@.contains(id),
{
    let mut i: usize = 0;
    while i < refs.len()
        invariant
            i <= refs@.len(),
            forall|j: int| 0 <= j < i ==> refs@[j] != id,
        decreases refs@.len() - i,
    {
        if id_equal(refs[i], id) {
            assert(refs@[i as int] == id);
            return true;
        }
        i = i + 1;
    }
    false
}

/// Whether `name` is a structural type name.
fn is_structural_name(name: &[u8]) -> (r: bool)
    ensures
        r == structural_name(name@),
{
    bytes_eq(name, bytes_page().as_slice()) || bytes_eq(name, bytes_pages().as_slice()) || bytes_eq(
        name,
        bytes_catalog().as_slice(),
    ) || bytes_eq(name, bytes_xref().as_slice()) || bytes_eq(name, bytes_objstm().as_slice())
}

/// Whether `object` is a dictionary of a structural type.
fn is_structural(object: &Object) -> (r: bool)
    ensures
        r == has_structural_type(object@),
{
    match object {
        Object::Dictionary(d) => match d.get(bytes_type().as_slice()) {
            Ok(t) => match t.as_name() {
                Ok(name) => is_structural_name(name.as_slice()),
                Err(_) => false,
            },
            Err(_) => false,
        },
        _ => false,
    }
}

/// Whether a value of the trailer is a reference to `id`.
fn in_trailer(doc: &Document, id: ObjectId) -> (r: bool)
    ensures
        r == trailer_refers(doc@.trailer, id),
{
    let mut k: usize = 0;
    while k < doc.trailer.len()
        invariant
            k <= doc.trailer@.len(),
            forall|i: int| 0 <= i < k ==> (#[trigger] doc.trailer@[i]).1 != ObjectView::Reference(id),
        decreases doc.trailer@.len() - k,
    {
        match doc.trailer.value_at(k) {
            Object::Reference(r) => {
                if id_equal(*r, id) {
                    return true;
                }
            },
            _ => {},
        }
        k = k + 1;
    }
    false
}

impl ObjectStream {
    /// Adds to `refs` the identifiers that `obj` refers to and that are
    /// not among `refs` yet, so that none comes to stand there twice.
    pub fn collect_references_recursive(obj: &Object, refs: &mut Vec<ObjectId>)
        ensures
            final(refs)@.to_set() == old(refs)@.to_set().union(references(obj@)),
            old(refs)@.no_duplicates() ==> final(refs)@.no_duplicates(),
        decreases obj@,
    {
        match obj {
            Object::Reference(id) => {
                if !holds_id(refs, *id) {
                    proof {
                        refs@.lemma_push_to_set_commute(*id);
                    }
                    refs.push(*id);
                }
                assert(refs@.to_set() =~= old(refs)@.to_set().union(references(obj@)));
            },
            Object::Array(items) => {
                let ghost views = obj@->Array_0;
                let mut i: usize = 0;
                while i < items.len()
                    invariant
                        i <= items.len(),
                        obj@ is Array,
                        views == obj@->Array_0,
                        views.len() == items.len(),
                        forall|j: int| 0 <= j < items.len() ==> views[j] == (#[trigger] items[j])@,
                        old(refs)@.no_duplicates() ==> refs@.no_duplicates(),
                        forall|id: ObjectId|
                            refs@.to_set().contains(id) <==> old(refs)@.to_set().contains(id) || (
                            exists|j: int|
                                0 <= j < i && references(#[trigger] views[j]).contains(id)),
                    decreases items.len() - i,
                {
                    Self::collect_references_recursive(&items[i], refs);
                    proof {
                        assert forall|id: ObjectId|
                            refs@.to_set().contains(id) <==> old(refs)@.to_set().contains(id) || (
                            exists|j: int|
                                0 <= j < i + 1 && references(#[trigger] views[j]).contains(
                                    id,
                                )) by {
                            if references(views[i as int]).contains(id) {
                                assert(0 <= i < i + 1 && references(views[i as int]).contains(id));
                            }
                        }
                    }
                    i = i + 1;
                }
                assert(refs@.to_set() =~= old(refs)@.to_set().union(references(obj@)));
            },
            Object::Dictionary(d) => {
                Self::collect_from_entries(d, refs, Ghost(obj@));
                assert(refs@.to_set() =~= old(refs)@.to_set().union(references(obj@)));
            },
            Object::Stream(s) => {
                Self::collect_from_entries(&s.dict, refs, Ghost(obj@));
                assert(refs@.to_set() =~= old(refs)@.to_set().union(references(obj@)));
            },
            Object::Null
            | Object::Boolean(_)
            | Object::Integer(_)
            | Object::Real(_)
            | Object::String(_)
            | Object::Name(_) => {
                assert(refs@.to_set() =~= old(refs)@.to_set().union(references(obj@)));
            },
        }
    }

    /// Adds to `refs` what the values of `d` refer to; `d` is the
    /// dictionary of the object whose value is `outer`.
    fn collect_from_entries(
        d: &crate::object::Dictionary,
        refs: &mut Vec<ObjectId>,
        Ghost(outer): Ghost<ObjectView>,
    )
        requires
            (outer is Dictionary && outer->Dictionary_0 == d@) || (outer is Stream
                && outer->Stream_0 == d@),
        ensures
            old(refs)@.no_duplicates() ==> final(refs)@.no_duplicates(),
            forall|id: ObjectId|
                final(refs)@.to_set().contains(id) <==> old(refs)@.to_set().contains(id) || (
                exists|j: int| 0 <= j < d@.len() && references((#[trigger] d@[j]).1).contains(id)),
        decreases outer, 0nat,
    {
        let mut i: usize = 0;
        while i < d.len()
            invariant
                i <= d@.len(),
                (outer is Dictionary && outer->Dictionary_0 == d@) || (outer is Stream
                    && outer->Stream_0 == d@),
                old(refs)@.no_duplicates() ==> refs@.no_duplicates(),
                forall|id: ObjectId|
                    refs@.to_set().contains(id) <==> old(refs)@.to_set().contains(id) || (
                    exists|j: int| 0 <= j < i && references((#[trigger] d@[j]).1).contains(id)),
            decreases d@.len() - i,
        {
            proof {
                if outer is Dictionary {
                    assert(decreases_to!(outer => outer->Dictionary_0));
                } else {
                    assert(decreases_to!(outer => outer->Stream_0));
                }
            }
            Self::collect_references_recursive(d.value_at(i), refs);
            proof {
                assert forall|id: ObjectId|
                    refs@.to_set().contains(id) <==> old(refs)@.to_set().contains(id) || (
                    exists|j: int|
                        0 <= j < i + 1 && references((#[trigger] d@[j]).1).contains(id)) by {
                    if references(d@[i as int].1).contains(id) {
                        assert(0 <= i < i + 1 && references(d@[i as int].1).contains(id));
                    }
                }
            }
            i = i + 1;
        }
    }

    /// The identifiers that `obj` refers to, directly or through nested
    /// arrays and dictionaries, each once, in the order in which they are
    /// first met.
    pub fn collect_all_references(obj: &Object) -> (refs: Vec<ObjectId>)
        ensures
            refs@.to_set() == references(obj@),
            refs@.no_duplicates(),
    {
        let mut refs: Vec<ObjectId> = Vec::new();
        Self::collect_references_recursive(obj, &mut refs);
        assert(refs@.to_set() =~= references(obj@));
        refs
    }

    /// Whether the object at row `i` of the document is a seed.
    fn seed_at(doc: &Document, i: usize) -> (r: bool)
        requires
            doc.wf(),
            i < doc.objects.rows().len(),
        ensures
            r == is_seed(doc@, doc.objects.rows()[i as int].0),
    {
        let id = doc.objects.id_at(i);
        let object = doc.objects.object_at(i);
        object.is_stream() || is_structural(object) || in_trailer(doc, id)
    }

    /// For each row of the document, whether its object must stay outside
    /// containers.
    fn mark_non_compressible(doc: &Document) -> (marks: Vec<bool>)
        requires
            doc.wf(),
        ensures
            marks@.len() == doc.objects.rows().len(),
            forall|i: int|
                0 <= i < marks@.len() ==> (#[trigger] marks@[i] <==> must_stay(
                    doc@,
                    doc.objects.rows()[i].0,
                )),
    {
        let ghost rows = doc.objects.rows();
        let ghost dv = doc@;
        let n = doc.objects.len();
        let mut marks: Vec<bool> = Vec::new();
        let mut work: Vec<usize> = Vec::new();
        let mut i: usize = 0;
        while i < n
            invariant
                doc.wf(),
                rows == doc.objects.rows(),
                dv == doc@,
                n == rows.len(),
                i <= n,
                marks@.len() == i,
                forall|k: int| 0 <= k < i ==> (#[trigger] marks@[k] <==> is_seed(dv, rows[k].0)),
                forall|k: int| 0 <= k < i && #[trigger] marks@[k] ==> in_work(work@, k),
                forall|p: int| 0 <= p < work@.len() ==> (#[trigger] work@[p]) < i && marks@[work@[p] as int],
            decreases n - i,
        {
            let seed = Self::seed_at(doc, i);
            let ghost old_work = work@;
            marks.push(seed);
            if seed {
                work.push(i);
            }
            proof {
                assert forall|k: int| 0 <= k < i + 1 && #[trigger] marks@[k] implies in_work(
                    work@,
                    k,
                ) by {
                    if k < i {
                        let p = choose|p: int| 0 <= p < old_work.len() && #[trigger] old_work[p] == k;
                        assert(work@[p] == k);
                    } else {
                        assert(work@[work@.len() - 1] == k);
                    }
                }
            }
            i = i + 1;
        }
        proof {
            assert forall|k: int| 0 <= k < rows.len() && #[trigger] marks@[k] implies must_stay(
                dv,
                rows[k].0,
            ) by {
                lemma_seed_stays(dv, rows[k].0);
            }
        }
        while work.len() > 0
            invariant
                doc.wf(),
                rows == doc.objects.rows(),
                dv == doc@,
                n == rows.len(),
                marks@.len() == n,
                marks_sound(dv, rows, marks@),
                seeds_marked(dv, rows, marks@, n as int),
                marks_settled(dv, rows, marks@, work@),
                work_valid(marks@, work@),
            decreases 2 * unmarked(marks@) + work@.len(),
        {
            let ghost start = 2 * unmarked(marks@) + work@.len();
            let ghost old_work = work@;
            let cur = work.pop().unwrap();
            assert(cur == old_work[old_work.len() - 1]);
            proof {
                assert forall|i: int|
                    0 <= i < n && #[trigger] marks@[i] && i != cur implies closed_at(
                        dv,
                        rows,
                        marks@,
                        i,
                    ) || in_work(work@, i) by {
                    if !closed_at(dv, rows, marks@, i) {
                        let p = choose|p: int| 0 <= p < old_work.len() && #[trigger] old_work[p] == i;
                        assert(work@[p] == i);
                    }
                }
            }
            let refs = Self::collect_all_references(doc.objects.object_at(cur));
            let mut k: usize = 0;
            while k < refs.len()
                invariant
                    doc.wf(),
                    rows == doc.objects.rows(),
                    dv == doc@,
                    n == rows.len(),
                    marks@.len() == n,
                    cur < n,
                    marks@[cur as int],
                    k <= refs@.len(),
                    refs@.to_set() == references(rows[cur as int].1),
                    marks_sound(dv, rows, marks@),
                    seeds_marked(dv, rows, marks@, n as int),
                    work_valid(marks@, work@),
                    2 * unmarked(marks@) + work@.len() < start,
                    forall|i: int|
                        0 <= i < n && #[trigger] marks@[i] && i != cur ==> closed_at(
                            dv,
                            rows,
                            marks@,
                            i,
                        ) || in_work(work@, i),
                    forall|q: int, j: int|
                        0 <= q < k && 0 <= j < n && (#[trigger] rows[j]).0 == #[trigger] refs@[q]
                            ==> marks@[j],
                decreases refs@.len() - k,
            {
                let target = refs[k];
                let ghost marks_before = marks@;
                let ghost work_before = work@;
                match doc.objects.position(target) {
                    Some(j) => {
                        if !marks[j] {
                            proof {
                                lemma_mark(marks@, j as int);
                                lemma_row(rows, cur as int);
                                lemma_row(rows, j as int);
                                assert(refs@.to_set().contains(target)) by {
                                    assert(refs@[k as int] == target);
                                }
                                assert(refers(dv, rows[cur as int].0, rows[j as int].0));
                                lemma_step_stays(dv, rows[cur as int].0, rows[j as int].0);
                            }
                            marks.set(j, true);
                            work.push(j);
                            proof {
                                assert(marks@ == marks_before.update(j as int, true));
                                assert forall|i: int|
                                    0 <= i < n && #[trigger] marks@[i] && i != cur implies closed_at(
                                        dv,
                                        rows,
                                        marks@,
                                        i,
                                    ) || in_work(work@, i) by {
                                    if i == j {
                                        assert(work@[work@.len() - 1] == i);
                                    } else if closed_at(dv, rows, marks_before, i) {
                                        assert(closed_at(dv, rows, marks@, i));
                                    } else {
                                        let p = choose|p: int|
                                            0 <= p < work_before.len() && #[trigger] work_before[p]
                                                == i;
                                        assert(work@[p] == i);
                                    }
                                }
                                assert(work_valid(marks@, work@)) by {
                                    assert forall|p: int| 0 <= p < work@.len() implies (
                                    #[trigger] work@[p]) < marks@.len() && marks@[work@[p] as int] by {
                                        if p < work_before.len() {
                                            assert(work_before[p] == work@[p]);
                                        }
                                    }
                                }
                            }
                        }
                    },
                    None => {
                        proof {
                            assert forall|j: int| 0 <= j < n implies (#[trigger] rows[j]).0
                                != target by {
                                lemma_row(rows, j);
                            }
                        }
                    },
                }
                proof {
                    assert forall|q: int, j: int|
                        0 <= q < k + 1 && 0 <= j < n && (#[trigger] rows[j]).0 == #[trigger] refs@[q]
                            implies marks@[j] by {
                        if q == k {
                            lemma_row(rows, j);
                        } else {
                            assert(marks_before[j]);
                        }
                    }
                }
                k = k + 1;
            }
            proof {
                assert(closed_at(dv, rows, marks@, cur as int)) by {
                    assert forall|j: int|
                        0 <= j < rows.len() && refers(
                            dv,
                            rows[cur as int].0,
                            (#[trigger] rows[j]).0,
                        ) implies marks@[j] by {
                        lemma_row(rows, cur as int);
                        let id = rows[j].0;
                        assert(refs@.to_set().contains(id));
                        let q = choose|q: int| 0 <= q < refs@.len() && refs@[q] == id;
                        assert(rows[j].0 == refs@[q]);
                    }
                }
                assert(marks_settled(dv, rows, marks@, work@));
            }
        }
        proof {
            assert(work@ =~= Seq::<usize>::empty());
            assert forall|i: int| 0 <= i < marks@.len() implies (#[trigger] marks@[i] <==> must_stay(
                dv,
                rows[i].0,
            )) by {
                if must_stay(dv, rows[i].0) {
                    let path = choose|path: Seq<ObjectId>|
                        #[trigger] is_chain(dv, path) && path.last() == rows[i].0;
                    lemma_chain_marked(dv, rows, marks@, path, path.len() - 1);
                    lemma_row(rows, i);
                }
            }
        }
        marks
    }

    /// The objects of the document that must not be packed into a
    /// container, in ascending order of their identifiers.
    pub fn find_all_non_compressible_objects(doc: &Document) -> (ids: Vec<ObjectId>)
        requires
            doc.wf(),
        ensures
            ids@.to_set() == non_compressible(doc@),
            forall|i: int, j: int|
                0 <= i < j < ids@.len() ==> id_lt(#[trigger] ids@[i], #[trigger] ids@[j]),
    {
        let marks = Self::mark_non_compressible(doc);
        let ghost rows = doc.objects.rows();
        let mut ids: Vec<ObjectId> = Vec::new();
        let mut i: usize = 0;
        while i < marks.len()
            invariant
                doc.wf(),
                rows == doc.objects.rows(),
                i <= marks@.len(),
                marks@.len() == rows.len(),
                forall|k: int|
                    0 <= k < marks@.len() ==> (#[trigger] marks@[k] <==> must_stay(doc@, rows[k].0)),
                forall|id: ObjectId|
                    ids@.to_set().contains(id) <==> exists|k: int|
                        0 <= k < i && (#[trigger] rows[k]).0 == id && marks@[k],
                forall|a: int, b: int|
                    0 <= a < b < ids@.len() ==> id_lt(#[trigger] ids@[a], #[trigger] ids@[b]),
                forall|a: int| 0 <= a < ids@.len() ==> among(rows, i as int, #[trigger] ids@[a]),
            decreases marks@.len() - i,
        {
            let ghost before = ids@;
            if marks[i] {
                let id = doc.objects.id_at(i);
                proof {
                    ids@.lemma_push_to_set_commute(id);
                    assert forall|a: int| 0 <= a < before.len() implies id_lt(
                        #[trigger] before[a],
                        id,
                    ) by {
                        assert(among(rows, i as int, before[a]));
                        let k = choose|k: int| 0 <= k < i && (#[trigger] rows[k]).0 == before[a];
                        assert(id_lt(rows[k].0, rows[i as int].0));
                    }
                }
                ids.push(id);
            }
            proof {
                assert forall|a: int| 0 <= a < ids@.len() implies among(
                    rows,
                    i + 1,
                    #[trigger] ids@[a],
                ) by {
                    if a < before.len() {
                        assert(among(rows, i as int, before[a]));
                        let k = choose|k: int| 0 <= k < i && (#[trigger] rows[k]).0 == before[a];
                        assert(0 <= k < i + 1 && rows[k].0 == ids@[a]);
                    } else {
                        assert(0 <= i < i + 1 && rows[i as int].0 == ids@[a]);
                    }
                }
            }
            proof {
                assert forall|id: ObjectId|
                    ids@.to_set().contains(id) <==> exists|k: int|
                        0 <= k < i + 1 && (#[trigger] rows[k]).0 == id && marks@[k] by {
                    if marks@[i as int] && rows[i as int].0 == id {
                        assert(0 <= i < i + 1 && rows[i as int].0 == id && marks@[i as int]);
                    }
                    if before.to_set().contains(id) {
                        let k = choose|k: int| 0 <= k < i && (#[trigger] rows[k]).0 == id && marks@[k];
                        assert(0 <= k < i + 1 && rows[k].0 == id && marks@[k]);
                    }
                }
            }
            i = i + 1;
        }
        proof {
            assert forall|id: ObjectId| ids@.to_set().contains(id) <==> must_stay(doc@, id) by {
                if must_stay(doc@, id) {
                    lemma_stays_in_document(doc@, id);
                    let k = row_of(rows, id);
                    assert(0 <= k < rows.len() && rows[k].0 == id && marks@[k]);
                }
            }
            assert(ids@.to_set() =~= non_compressible(doc@));
        }
        ids
    }

    /// Whether the object with the identifier `id` may be packed into a
    /// container: it is none of those that must stay outside.
    pub fn can_be_compressed(id: ObjectId, _obj: &Object, doc: &Document) -> (r: bool)
        requires
            doc.wf(),
        ensures
            r == compressible(doc@, id),
    {
        let marks = Self::mark_non_compressible(doc);
        match doc.objects.position(id) {
            Some(i) => !marks[i],
            None => {
                proof {
                    if must_stay(doc@, id) {
                        lemma_stays_in_document(doc@, id);
                    }
                }
                true
            },
        }
    }
}

} // verus!
