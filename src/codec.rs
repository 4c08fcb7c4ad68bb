use vstd::prelude::*;
use std::io::Read;
use crate::error::ChunkError;

verus! {

/// Payload compression tag: gzip.
pub const METHOD_GZIP: u8 = 1;

/// Payload compression tag: zlib.
pub const METHOD_ZLIB: u8 = 2;

/// Payload compression tag: stored as is.
pub const METHOD_NONE: u8 = 3;

/// What zlib decompression makes of `b`, or `None` where `b` is no zlib stream.
pub uninterp spec fn zlib_decoded(b: Seq<u8>) -> Option<Seq<u8>>;

/// What gzip decompression makes of `b`, or `None` where `b` is no gzip stream.
pub uninterp spec fn gzip_decoded(b: Seq<u8>) -> Option<Seq<u8>>;

/// The zlib stream that default-level compression makes of `b`.
pub uninterp spec fn zlib_encoded(b: Seq<u8>) -> Seq<u8>;

/// What zstd decompression makes of `b`, or `None` where `b` is no zstd frame.
pub uninterp spec fn zstd_decoded(b: Seq<u8>) -> Option<Seq<u8>>;

/// The zstd frame that compression of `b` at `level` makes.
pub uninterp spec fn zstd_encoded(b: Seq<u8>, level: i32) -> Seq<u8>;

/// Relies on flate2::read::ZlibDecoder: reads the whole zlib stream in `b`, or fails.
#[verifier::external_body]
fn zlib_decompress(b: &[u8]) -> (r: Option<Vec<u8>>)
    ensures
        match r {
            Some(v) => zlib_decoded(b@) == Some(v@),
            None => zlib_decoded(b@) is None,
        },
{
    let mut out = Vec::new();
    match flate2::read::ZlibDecoder::new(b).read_to_end(&mut out) {
        Ok(_) => Some(out),
        Err(_) => None,
    }
}

/// Relies on flate2::read::GzDecoder: reads the whole gzip stream in `b`, or fails.
#[verifier::external_body]
fn gzip_decompress(b: &[u8]) -> (r: Option<Vec<u8>>)
    ensures
        match r {
            Some(v) => gzip_decoded(b@) == Some(v@),
            None => gzip_decoded(b@) is None,
        },
{
    let mut out = Vec::new();
    match flate2::read::GzDecoder::new(b).read_to_end(&mut out) {
        Ok(_) => Some(out),
        Err(_) => None,
    }
}

/// Relies on flate2::read::ZlibEncoder at the default level: the zlib stream of
/// `b`, which zlib decompression turns back into `b`. Reading from a slice fails
/// only on an internal deflate error, which the encoder never reports for valid
/// input.
#[verifier::external_body]
fn zlib_compress(b: &[u8]) -> (r: Option<Vec<u8>>)
    ensures
        r is Some,
        r matches Some(v) ==> v@ == zlib_encoded(b@),
        r matches Some(v) ==> zlib_decoded(v@) == Some(b@),
{
    let mut out = Vec::new();
    match flate2::read::ZlibEncoder::new(b, flate2::Compression::default()).read_to_end(&mut out) {
        Ok(_) => Some(out),
        Err(_) => None,
    }
}

/// Relies on zstd::stream::decode_all: decompresses every frame in `b`, or fails.
#[verifier::external_body]
pub(crate) fn zstd_decompress(b: &[u8]) -> (r: Option<Vec<u8>>)
    ensures
        match r {
            Some(v) => zstd_decoded(b@) == Some(v@),
            None => zstd_decoded(b@) is None,
        },
{
    match zstd::stream::decode_all(b) {
        Ok(v) => Some(v),
        Err(_) => None,
    }
}

/// Relies on zstd::stream::encode_all: one zstd frame of `b` at `level`, which
/// zstd decompression turns back into `b`. With a level in 1..=22 and a `Vec`
/// as sink it fails only where the C library cannot allocate.
#[verifier::external_body]
pub(crate) fn zstd_compress(b: &[u8], level: i32) -> (r: Option<Vec<u8>>)
    ensures
        1 <= level <= 22 ==> r is Some,
        r matches Some(v) ==> v@ == zstd_encoded(b@, level),
        r matches Some(v) ==> zstd_decoded(v@) == Some(b@),
{
    match zstd::stream::encode_all(b, level) {
        Ok(v) => Some(v),
        Err(_) => None,
    }
}

/// The low seven bits of a compression tag: the method; the high bit marks
/// external storage.
pub open spec fn method_of(tag: u8) -> u8 {
    tag & 0x7fu8
}

/// Whether a tag names one of the three payload methods.
pub open spec fn method_known(tag: u8) -> bool {
    method_of(tag) == METHOD_GZIP || method_of(tag) == METHOD_ZLIB || method_of(tag)
        == METHOD_NONE
}

/// The payload that a chunk record with compression tag `tag` and data `data`
/// holds, where its method is known and the data decodes.
pub open spec fn decoded_payload(tag: u8, data: Seq<u8>) -> Option<Seq<u8>> {
    if method_of(tag) == METHOD_GZIP {
        gzip_decoded(data)
    } else if method_of(tag) == METHOD_ZLIB {
        zlib_decoded(data)
    } else if method_of(tag) == METHOD_NONE {
        Some(data)
    } else {
        None
    }
}

/// Decodes a chunk's data by the method in the low bits of `tag`.
pub fn decompress(tag: u8, data: &[u8]) -> (r: Result<Vec<u8>, ChunkError>)
    ensures
        !method_known(tag) ==> r == Err::<Vec<u8>, ChunkError>(ChunkError::UnsupportedCompression(tag)),
        method_known(tag) && decoded_payload(tag, data@) is None ==> r == Err::<Vec<u8>, ChunkError>(
            ChunkError::CorruptPayload,
        ),
        r matches Ok(v) ==> decoded_payload(tag, data@) == Some(v@),
        decoded_payload(tag, data@) is Some ==> r is Ok,
{
    let method = tag & 0x7f;
    let out = if method == METHOD_GZIP {
        gzip_decompress(data)
    } else if method == METHOD_ZLIB {
        zlib_decompress(data)
    } else if method == METHOD_NONE {
        Some(vstd::slice::slice_to_vec(data))
    } else {
        return Err(ChunkError::UnsupportedCompression(tag));
    };
    match out {
        Some(v) => Ok(v),
        None => Err(ChunkError::CorruptPayload),
    }
}

/// The methods the Anvil writer can store payloads with.
#[derive(Clone, Copy, Debug, PartialEq, Eq, Structural)]
pub enum AnvilCompression {
    Zlib,
    Uncompressed,
}

/// The compression tag of a method.
pub open spec fn tag_of(m: AnvilCompression) -> u8 {
    match m {
        AnvilCompression::Zlib => METHOD_ZLIB,
        AnvilCompression::Uncompressed => METHOD_NONE,
    }
}

/// What the writer stores for `payload` under method `m`.
pub open spec fn encoded_payload(m: AnvilCompression, payload: Seq<u8>) -> Seq<u8> {
    match m {
        AnvilCompression::Zlib => zlib_encoded(payload),
        AnvilCompression::Uncompressed => payload,
    }
}

/// Encodes a payload under method `m`; decoding by the method's tag gives the
/// payload back.
pub fn compress(m: AnvilCompression, payload: &[u8]) -> (r: Option<Vec<u8>>)
    ensures
        r is Some,
        r matches Some(v) ==> v@ == encoded_payload(m, payload@),
        decoded_payload(tag_of(m), encoded_payload(m, payload@)) == Some(payload@),
{
    assert(method_of(2u8) == 2u8 && method_of(3u8) == 3u8) by (bit_vector);
    match m {
        AnvilCompression::Zlib => zlib_compress(payload),
        AnvilCompression::Uncompressed => Some(vstd::slice::slice_to_vec(payload)),
    }
}

} // verus!
