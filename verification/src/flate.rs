//! Compression of stream payloads in the zlib format.
use vstd::prelude::*;
use crate::bytes::{bytes_eq, bytes_filter, bytes_flate, key_filter, name_flate};
use crate::object::{lookup, without, Entries, Error, Object, ObjectView, Stream, StreamView};

verus! {

/// `std::io::Error`, which the compressor reports; nothing is known of
/// what a value of it holds.
#[verifier::external_type_specification]
#[verifier::external_body]
pub struct ExIoError(std::io::Error);

/// How hard the compressor works.
#[derive(Clone, Copy, Debug, PartialEq, Eq, Structural)]
pub enum Effort {
    /// No compression.
    Store,
    /// The fastest encoding.
    Fast,
    /// The compressor's default.
    Normal,
    /// The smallest output.
    Best,
}

impl Effort {
    /// The zlib level that this effort stands for.
    pub open spec fn level(self) -> u32 {
        match self {
            Effort::Store => 0,
            Effort::Fast => 1,
            Effort::Normal => 6,
            Effort::Best => 9,
        }
    }
}

/// The effort for a compression intensity: none for 0, fast for 1 to 3,
/// default for 4 to 6, best above.
pub open spec fn effort_of(intensity: u32) -> Effort {
    if intensity == 0 {
        Effort::Store
    } else if intensity <= 3 {
        Effort::Fast
    } else if intensity <= 6 {
        Effort::Normal
    } else {
        Effort::Best
    }
}

pub fn effort_for(intensity: u32) -> (e: Effort)
    ensures
        e == effort_of(intensity),
{
    if intensity == 0 {
        Effort::Store
    } else if intensity <= 3 {
        Effort::Fast
    } else if intensity <= 6 {
        Effort::Normal
    } else {
        Effort::Best
    }
}

/// The zlib stream that `flate2`'s `ZlibEncoder` produces from `data` at
/// the given zlib level, where it produces one without an error.
pub uninterp spec fn zlib_deflated(level: u32, data: Seq<u8>) -> Option<Seq<u8>>;

/// What `flate2`'s `ZlibDecoder` reads from the zlib stream `data`, where it
/// reads it to the end without an error.
pub uninterp spec fn zlib_inflated(data: Seq<u8>) -> Option<Seq<u8>>;

/// Compresses `data` with `flate2::write::ZlibEncoder`: `new` over an empty
/// vector at `flate2::Compression::none`, `fast`, `default` or `best`, then
/// `write_all` and `finish`.
///
/// Not proved, but taken from `flate2`: whether the encoder succeeds, and
/// what it then gives, is a function of the level and the data alone,
/// and `flate2::read::ZlibDecoder` reads the data back from that output.
/// Nothing is claimed of the inputs on which the encoder succeeds.
#[verifier::external_body]
pub(crate) fn zlib_compress(data: &[u8], effort: Effort) -> (r: Result<Vec<u8>, std::io::Error>)
    ensures
        r is Ok <==> zlib_deflated(effort.level(), data@) is Some,
        r matches Ok(out) ==> zlib_deflated(effort.level(), data@) == Some(out@),
        r matches Ok(out) ==> zlib_inflated(out@) == Some(data@),
{
    let level = match effort {
        Effort::Store => flate2::Compression::none(),
        Effort::Fast => flate2::Compression::fast(),
        Effort::Normal => flate2::Compression::default(),
        Effort::Best => flate2::Compression::best(),
    };
    let mut encoder = flate2::write::ZlibEncoder::new(Vec::new(), level);
    std::io::Write::write_all(&mut encoder, data)?;
    encoder.finish()
}

/// Decompresses `data` with `flate2::read::ZlibDecoder`: `new` over the
/// bytes, then `read_to_end`.
///
/// Not proved, but taken from `flate2`: whether the decoder succeeds, and
/// what it then gives, is a function of the data alone.
#[verifier::external_body]
pub(crate) fn zlib_decompress(data: &[u8]) -> (r: Result<Vec<u8>, std::io::Error>)
    ensures
        r is Ok <==> zlib_inflated(data@) is Some,
        r matches Ok(out) ==> zlib_inflated(data@) == Some(out@),
{
    let mut out = Vec::new();
    let mut decoder = flate2::read::ZlibDecoder::new(data);
    std::io::Read::read_to_end(&mut decoder, &mut out)?;
    Ok(out)
}

/// Whether the dictionary names the zlib filter, alone.
pub open spec fn names_flate(dict: Entries) -> bool {
    lookup(dict, key_filter()) == Some(ObjectView::Name(name_flate()))
}

/// The stream after decompression: where its dictionary names the zlib
/// filter and the payload decodes, the decoded payload and the dictionary
/// without the filter entry; else the stream as it is.
pub open spec fn decompressed(s: StreamView) -> StreamView {
    if names_flate(s.dict) && zlib_inflated(s.content) is Some {
        StreamView { dict: without(s.dict, key_filter()), content: zlib_inflated(s.content).unwrap() }
    } else {
        s
    }
}

impl Stream {
    /// Decodes the payload in place where the stream names the zlib filter.
    /// Fails, and leaves the stream as it is, where no filter is named
    /// (`MissingKey`), another filter is named (`UnsupportedFilter`), or
    /// the payload does not decode (`Compression`).
    pub fn decompress(&mut self) -> (r: Result<(), Error>)
        ensures
            final(self)@ == decompressed(old(self)@),
            match r {
                Ok(_) => names_flate(old(self)@.dict) && zlib_inflated(old(self)@.content) is Some,
                Err(e) => if lookup(old(self)@.dict, key_filter()) is None {
                    e == Error::MissingKey
                } else if !names_flate(old(self)@.dict) {
                    e == Error::UnsupportedFilter
                } else {
                    e == Error::Compression && zlib_inflated(old(self)@.content) is None
                },
            },
    {
        let key = bytes_filter();
        let flate = match self.dict.get(key.as_slice()) {
            Err(e) => {
                return Err(e);
            },
            Ok(filter) => match filter {
                Object::Name(name) => bytes_eq(name.as_slice(), bytes_flate().as_slice()),
                _ => false,
            },
        };
        if !flate {
            return Err(Error::UnsupportedFilter);
        }
        match zlib_decompress(self.content.as_slice()) {
            Ok(data) => {
                self.dict.remove(key.as_slice());
                self.set_content(data);
                Ok(())
            },
            Err(_) => Err(Error::Compression),
        }
    }
}

} // verus!
