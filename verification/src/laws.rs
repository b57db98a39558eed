//! Laws that relate the functions of this library to each other.
use vstd::prelude::*;
use crate::analyzer::{
    compressible, is_seed, lemma_seed_stays, lemma_stays_in_document, lemma_step_stays,
    non_compressible, refers,
};
use crate::container::{add_outcome, index_block, index_pair, offset_of};
use crate::document::Document;
use crate::object::{Error, ObjectId, ObjectView};
use crate::table::Rows;
use crate::writer::serialized;

verus! {

/// The objects of a container of the given capacity that was empty and to
/// which each of `adds` was offered in turn; a refused object leaves the
/// container as it was.
pub open spec fn after_adds(capacity: usize, adds: Rows) -> Map<ObjectId, ObjectView>
    decreases adds.len(),
{
    if adds.len() == 0 {
        Map::empty()
    } else {
        let before = after_adds(capacity, adds.drop_last());
        match add_outcome(before, capacity, adds.last().0, adds.last().1) {
            Ok(objects) => objects,
            Err(_) => before,
        }
    }
}

/// Whatever is offered to a container, it never holds more objects than
/// its capacity.
pub proof fn law_count_within_capacity(capacity: usize, adds: Rows)
    ensures
        after_adds(capacity, adds).dom().finite(),
        after_adds(capacity, adds).dom().len() <= capacity,
    decreases adds.len(),
{
    if adds.len() > 0 {
        law_count_within_capacity(capacity, adds.drop_last());
    }
}

/// The identifiers of `adds` differ from each other.
pub open spec fn distinct_ids(adds: Rows) -> bool {
    forall|i: int, j: int| 0 <= i < j < adds.len() ==> (#[trigger] adds[i]).0 != (#[trigger] adds[j]).0
}

/// No object of `adds` is a stream.
pub open spec fn no_streams(adds: Rows) -> bool {
    forall|i: int| 0 <= i < adds.len() ==> !((#[trigger] adds[i]).1 is Stream)
}

proof fn lemma_adds_accepted(capacity: usize, adds: Rows, k: int)
    requires
        distinct_ids(adds),
        no_streams(adds),
        0 <= k <= adds.len(),
        k <= capacity,
    ensures
        after_adds(capacity, adds.take(k)).dom().finite(),
        after_adds(capacity, adds.take(k)).dom().len() == k,
        forall|id: ObjectId|
            after_adds(capacity, adds.take(k)).contains_key(id) <==> exists|i: int|
                0 <= i < k && (#[trigger] adds[i]).0 == id,
        k > 0 ==> add_outcome(
            after_adds(capacity, adds.take(k - 1)),
            capacity,
            adds[k - 1].0,
            adds[k - 1].1,
        ) is Ok,
    decreases k,
{
    if k > 0 {
        lemma_adds_accepted(capacity, adds, k - 1);
        assert(adds.take(k).drop_last() =~= adds.take(k - 1));
        assert(adds.take(k).last() == adds[k - 1]);
        let before = after_adds(capacity, adds.take(k - 1));
        let id = adds[k - 1].0;
        assert(!before.contains_key(id)) by {
            if before.contains_key(id) {
                let i = choose|i: int| 0 <= i < k - 1 && (#[trigger] adds[i]).0 == id;
                assert(adds[i].0 != adds[k - 1].0);
            }
        }
        let now = after_adds(capacity, adds.take(k));
        assert(now == before.insert(id, adds[k - 1].1));
        assert forall|x: ObjectId| now.contains_key(x) <==> exists|i: int|
            0 <= i < k && (#[trigger] adds[i]).0 == x by {
            if before.contains_key(x) {
                let i = choose|i: int| 0 <= i < k - 1 && (#[trigger] adds[i]).0 == x;
                assert(0 <= i < k && adds[i].0 == x);
            }
            if x == id {
                assert(0 <= k - 1 < k && adds[k - 1].0 == x);
            }
            if exists|i: int| 0 <= i < k && (#[trigger] adds[i]).0 == x {
                let i = choose|i: int| 0 <= i < k && (#[trigger] adds[i]).0 == x;
                if i < k - 1 {
                    assert(0 <= i < k - 1 && adds[i].0 == x);
                }
            }
        }
    } else {
        assert(adds.take(0) =~= Seq::<(ObjectId, ObjectView)>::empty());
    }
}

/// A container of capacity K accepts K objects that are no streams and
/// have identifiers of their own, one after the other, and then refuses
/// whatever comes next as beyond its capacity.
pub proof fn law_capacity(capacity: usize, adds: Rows, next: (ObjectId, ObjectView))
    requires
        adds.len() == capacity,
        distinct_ids(adds),
        no_streams(adds),
        !(next.1 is Stream),
    ensures
        forall|k: int|
            0 <= k < adds.len() ==> (#[trigger] add_outcome(
                after_adds(capacity, adds.take(k)),
                capacity,
                adds[k].0,
                adds[k].1,
            )) is Ok,
        after_adds(capacity, adds).dom().len() == capacity,
        add_outcome(after_adds(capacity, adds), capacity, next.0, next.1) == Err::<
            Map<ObjectId, ObjectView>,
            Error,
        >(Error::CapacityExceeded(capacity)),
{
    assert forall|k: int| 0 <= k < adds.len() implies (#[trigger] add_outcome(
        after_adds(capacity, adds.take(k)),
        capacity,
        adds[k].0,
        adds[k].1,
    )) is Ok by {
        lemma_adds_accepted(capacity, adds, k + 1);
    }
    lemma_adds_accepted(capacity, adds, adds.len() as int);
    assert(adds.take(adds.len() as int) =~= adds);
}

/// A stream is refused whatever the container holds, and the objects of
/// the container stay as they were.
pub proof fn law_stream_rejected(
    objects: Map<ObjectId, ObjectView>,
    capacity: usize,
    id: ObjectId,
    obj: ObjectView,
)
    requires
        obj is Stream,
    ensures
        add_outcome(objects, capacity, id, obj) == Err::<Map<ObjectId, ObjectView>, Error>(
            Error::DisallowedContent,
        ),
{
}

/// The first object of a container lies at offset 0, and each further one
/// where the one before it ends: at that one's offset plus the length of
/// its text plus one for the space behind it. The index block records
/// these offsets, pair by pair.
pub proof fn law_offsets(rows: Rows, i: int)
    requires
        0 <= i < rows.len(),
    ensures
        offset_of(rows, 0) == 0,
        offset_of(rows, i + 1) == offset_of(rows, i) + serialized(rows[i].1).len() + 1,
        index_block(rows.take(i + 1)) == index_block(rows.take(i)) + index_pair(
            rows[i].0.0,
            offset_of(rows, i),
        ),
{
    assert(rows.take(0) =~= Seq::<(ObjectId, ObjectView)>::empty());
    assert(rows.take(i + 1).drop_last() =~= rows.take(i));
    assert(rows.take(i + 1).last() == rows[i]);
}

/// The objects that must stay outside containers include every seed, are
/// closed under the references between objects of the document, and are
/// all objects of the document.
pub proof fn law_closure(doc: Document)
    ensures
        forall|id: ObjectId| is_seed(doc@, id) ==> (#[trigger] non_compressible(doc@).contains(id)),
        forall|from: ObjectId, to: ObjectId|
            non_compressible(doc@).contains(from) && #[trigger] refers(doc@, from, to)
                ==> non_compressible(doc@).contains(to),
        forall|id: ObjectId|
            (#[trigger] non_compressible(doc@).contains(id)) ==> doc@.objects.contains_key(id),
{
    assert forall|id: ObjectId| is_seed(doc@, id) implies (#[trigger] non_compressible(
        doc@,
    ).contains(id)) by {
        lemma_seed_stays(doc@, id);
    }
    assert forall|from: ObjectId, to: ObjectId|
        non_compressible(doc@).contains(from) && #[trigger] refers(
            doc@,
            from,
            to,
        ) implies non_compressible(doc@).contains(to) by {
        lemma_step_stays(doc@, from, to);
    }
    assert forall|id: ObjectId| (#[trigger] non_compressible(doc@).contains(id)) implies doc@.objects.contains_key(
        id,
    ) by {
        lemma_stays_in_document(doc@, id);
    }
}

/// Whether an object may be packed depends on the value of the document
/// and on the identifier alone: asked again of a document with the same
/// objects and trailer, the answer is the same.
pub proof fn law_query_repeatable(first: Document, second: Document, id: ObjectId)
    requires
        first@ == second@,
    ensures
        compressible(first@, id) == compressible(second@, id),
{
}

} // verus!
