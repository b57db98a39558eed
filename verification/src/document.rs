//! The document: its objects by identifier and its trailer.
use vstd::prelude::*;
use crate::object::{Dictionary, Entries, Error, Object, ObjectId, ObjectView};
use crate::table::ObjectMap;

verus! {

/// The objects of a document and the trailer that anchors its roots.
#[derive(Debug)]
pub struct Document {
    pub objects: ObjectMap,
    pub trailer: Dictionary,
}

/// The mathematical value of a [`Document`].
pub struct DocumentView {
    pub objects: Map<ObjectId, ObjectView>,
    pub trailer: Entries,
}

impl View for Document {
    type V = DocumentView;

    open spec fn view(&self) -> DocumentView {
        DocumentView { objects: self.objects@, trailer: self.trailer@ }
    }
}

impl Document {
    /// The identifiers of the objects ascend. Every document that this
    /// library hands out is well formed.
    pub open spec fn wf(&self) -> bool {
        self.objects.wf()
    }

    /// The document without objects and with an empty trailer.
    pub fn new() -> (d: Document)
        ensures
            d.wf(),
            d@.objects == Map::<ObjectId, ObjectView>::empty(),
            d@.trailer == Seq::<(Seq<u8>, ObjectView)>::empty(),
    {
        Document { objects: ObjectMap::new(), trailer: Dictionary::new() }
    }

    /// The object with the identifier `id`.
    pub fn get_object(&self, id: ObjectId) -> (r: Result<&Object, Error>)
        requires
            self.wf(),
        ensures
            match r {
                Ok(o) => self@.objects.contains_key(id) && self@.objects[id] == o@,
                Err(e) => !self@.objects.contains_key(id) && e == Error::NotFound(id),
            },
    {
        match self.objects.get(id) {
            Some(o) => Ok(o),
            None => Err(Error::NotFound(id)),
        }
    }
}

} // verus!
