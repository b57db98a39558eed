//! Compact object containers: packing many small indirect objects of a
//! structured document into one byte stream, reading such a stream back, and
//! deciding which objects of a document may be packed at all.
pub mod analyzer;
pub mod bytes;
pub mod container;
pub mod container_laws;
pub mod decimal;
pub mod document;
pub mod flate;
pub mod index;
pub mod laws;
pub mod object;
pub mod object_laws;
pub mod parser;
pub mod table;
pub mod text_laws;
pub mod writer;

pub use container::{DecodeReport, Layout, ObjectStream, ObjectStreamBuilder, ObjectStreamConfig};
pub use document::Document;
pub use object::{Dictionary, Error, Object, ObjectId, Real, Stream};
pub use table::ObjectMap;
