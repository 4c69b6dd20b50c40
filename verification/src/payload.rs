//! Message payloads: bytes that are gzip-compressed when they are large.
use vstd::prelude::*;
use vstd::string::*;
use crate::text::{decimal, u64_to_decimal};

verus! {

/// Payloads longer than this many bytes are compressed.
pub const PAYLOAD_COMPRESSION_THRESHOLD_BYTES: usize = 5000;

/// The gzip stream that `flate2`'s `GzEncoder` writes for `data` into a vector
/// at the default compression level with the default header.
pub uninterp spec fn gzip_encoding(data: Seq<u8>) -> Seq<u8>;

/// What `flate2`'s `GzDecoder` reads out of `data`, or `None` when it reports an error.
pub uninterp spec fn gzip_decoding(data: Seq<u8>) -> Option<Seq<u8>>;

/// Compresses `data` with `flate2::write::GzEncoder` (default level) into a
/// fresh vector: `write_all`, then `finish`. The result is the encoder's output.
/// The header it writes is fixed (mtime 0, unknown OS), so the output depends on
/// `data` alone. Neither call fails here: the encoder reports errors only from
/// the writer beneath it, and writing into a `Vec` always succeeds, or from the
/// deflate stream, which fails only on a flush sequence or output callback that
/// these two calls never use. The `None` arm converts an error that cannot come.
#[verifier::external_body]
fn gzip_compress(data: &[u8]) -> (r: Option<Vec<u8>>)
    ensures
        bytes_view(r) == Some(gzip_encoding(data@)),
{
    let mut encoder = flate2::write::GzEncoder::new(Vec::new(), flate2::Compression::default());
    match std::io::Write::write_all(&mut encoder, data) {
        Ok(()) => encoder.finish().ok(),
        Err(_) => None,
    }
}

/// Decompresses `data` with `flate2::read::GzDecoder` and `read_to_end`. The
/// result depends on `data` alone, and decoding what `GzEncoder` wrote for `x`
/// gives back `x`.
#[verifier::external_body]
fn gzip_decompress(data: &[u8]) -> (r: Option<Vec<u8>>)
    ensures
        r is Some <==> gzip_decoding(data@) is Some,
        r matches Some(v) ==> gzip_decoding(data@) == Some(v@),
        forall|x: Seq<u8>|
            #![trigger gzip_encoding(x)]
            gzip_encoding(x) == data@ ==> (r is Some && r.unwrap()@ == x),
{
    let mut decoder = flate2::read::GzDecoder::new(data);
    let mut out = Vec::new();
    match std::io::Read::read_to_end(&mut decoder, &mut out) {
        Ok(_) => Some(out),
        Err(_) => None,
    }
}

/// The payload of a published message, request or response.
#[derive(Clone, Debug, PartialEq)]
pub struct Payload {
    data: Vec<u8>,
    is_compressed: bool,
}

impl Payload {
    pub closed spec fn spec_data(self) -> Seq<u8> {
        self.data@
    }

    pub closed spec fn spec_is_compressed(self) -> bool {
        self.is_compressed
    }

    /// Wraps `data`, compressing it when it is longer than the threshold.
    pub fn from_bytes(data: Vec<u8>) -> (p: Payload)
        ensures
            made_from(p, data@),
            data@.len() > PAYLOAD_COMPRESSION_THRESHOLD_BYTES ==> p.spec_is_compressed()
                && p.spec_data() == gzip_encoding(data@),
    {
        if data.len() > PAYLOAD_COMPRESSION_THRESHOLD_BYTES {
            match gzip_compress(data.as_slice()) {
                Some(compressed) => Payload { data: compressed, is_compressed: true },
                None => Payload { data, is_compressed: false },
            }
        } else {
            Payload { data, is_compressed: false }
        }
    }

    /// A payload made of its parts as they travel on the wire.
    pub fn from_parts(data: Vec<u8>, is_compressed: bool) -> (p: Payload)
        ensures
            p.spec_data() == data@,
            p.spec_is_compressed() == is_compressed,
    {
        Payload { data, is_compressed }
    }

    /// The bytes as they travel on the wire.
    pub fn data(&self) -> (r: &Vec<u8>)
        ensures
            r@ == self.spec_data(),
    {
        &self.data
    }

    pub fn is_compressed(&self) -> (r: bool)
        ensures
            r == self.spec_is_compressed(),
    {
        self.is_compressed
    }

    /// The original bytes: decompressed when the payload is compressed. `None`
    /// when compressed data does not decode.
    pub fn into_bytes(self) -> (r: Option<Vec<u8>>)
        ensures
            decodes_to(self, bytes_view(r)),
    {
        if self.is_compressed {
            gzip_decompress(self.data.as_slice())
        } else {
            Some(self.data)
        }
    }

    /// The payload described for logs: its size, and whether it is compressed.
    pub fn describe(&self) -> (r: String)
        ensures
            r@ == payload_description(self.spec_data().len(), self.spec_is_compressed()),
    {
        let n = u64_to_decimal(self.data.len() as u64);
        let r = n.concat(" bytes");
        if self.is_compressed {
            r.concat(" compressed")
        } else {
            r
        }
    }
}

/// The view of optional bytes.
pub open spec fn bytes_view(r: Option<Vec<u8>>) -> Option<Seq<u8>> {
    match r {
        Some(v) => Some(v@),
        None => None,
    }
}

/// `p` is what `Payload::from_bytes` makes of `data`: the data itself when it
/// is short, else its gzip encoding.
pub open spec fn made_from(p: Payload, data: Seq<u8>) -> bool {
    if data.len() <= PAYLOAD_COMPRESSION_THRESHOLD_BYTES {
        !p.spec_is_compressed() && p.spec_data() == data
    } else {
        p.spec_is_compressed() && p.spec_data() == gzip_encoding(data)
    }
}

/// `r` is what `Payload::into_bytes` gives for `p`: the data as is when it is not
/// compressed, else the gzip decoding of the data, which gives back `x` for the
/// encoding of `x`.
pub open spec fn decodes_to(p: Payload, r: Option<Seq<u8>>) -> bool {
    &&& !p.spec_is_compressed() ==> r == Some(p.spec_data())
    &&& p.spec_is_compressed() ==> r == gzip_decoding(p.spec_data())
    &&& p.spec_is_compressed() ==> forall|x: Seq<u8>|
        #![trigger gzip_encoding(x)]
        gzip_encoding(x) == p.spec_data() ==> r == Some(x)
}

/// Round trip: the bytes a payload is made from are the bytes it gives back.
pub proof fn lemma_payload_round_trip(data: Seq<u8>, p: Payload, r: Option<Seq<u8>>)
    requires
        made_from(p, data),
        decodes_to(p, r),
    ensures
        r == Some(data),
{
}

/// How a payload of `len` bytes is described in logs.
pub open spec fn payload_description(len: nat, compressed: bool) -> Seq<char> {
    if compressed {
        decimal(len) + " bytes"@ + " compressed"@
    } else {
        decimal(len) + " bytes"@
    }
}

} // verus!
