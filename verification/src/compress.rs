//! Compression subsystem: the algorithm tag, the self-sizing header that
//! lets readers skip algorithms they lack, and the raw-deflate codec the
//! reference pipeline supports.

use vstd::prelude::*;

use crate::Error;
use crate::io::{Deser, Ser, push_bytes, read_bytes};
use crate::text::dec_digits;
use crate::varint::{leb_len, leb_ok, leb_value, read_uleb, uleb, uleb_len, write_uleb};

verus! {

/// The compression algorithms the format names. `Stored` is tag 0, the
/// identity; only it and `Deflate` are implemented, the rest are reserved
/// tags.
#[derive(Clone, Copy, Debug, PartialEq, Eq, Structural)]
pub enum CompressionAlgorithm {
    Stored,
    Deflate,
    Bzip,
    Zstd,
    Lzma,
    Lz4,
    Fsst,
}

/// The wire tag of each compression algorithm.
pub open spec fn compression_tag(a: CompressionAlgorithm) -> nat {
    match a {
        CompressionAlgorithm::Stored => 0,
        CompressionAlgorithm::Deflate => 1,
        CompressionAlgorithm::Bzip => 2,
        CompressionAlgorithm::Zstd => 3,
        CompressionAlgorithm::Lzma => 4,
        CompressionAlgorithm::Lz4 => 5,
        CompressionAlgorithm::Fsst => 6,
    }
}

/// The algorithm a wire tag names, when it names one.
pub open spec fn compression_of_tag(v: nat) -> Option<CompressionAlgorithm> {
    if v == 0 {
        Some(CompressionAlgorithm::Stored)
    } else if v == 1 {
        Some(CompressionAlgorithm::Deflate)
    } else if v == 2 {
        Some(CompressionAlgorithm::Bzip)
    } else if v == 3 {
        Some(CompressionAlgorithm::Zstd)
    } else if v == 4 {
        Some(CompressionAlgorithm::Lzma)
    } else if v == 5 {
        Some(CompressionAlgorithm::Lz4)
    } else if v == 6 {
        Some(CompressionAlgorithm::Fsst)
    } else {
        None
    }
}

/// The message that reports a tag no algorithm owns.
pub open spec fn unknown_compression_msg(v: nat) -> Seq<char> {
    "Unknown compression algorithm: "@ + dec_digits(v)
}

impl CompressionAlgorithm {
    /// The wire tag of this algorithm.
    pub fn as_u64(self) -> (r: u64)
        ensures
            r == compression_tag(self),
    {
        match self {
            CompressionAlgorithm::Stored => 0,
            CompressionAlgorithm::Deflate => 1,
            CompressionAlgorithm::Bzip => 2,
            CompressionAlgorithm::Zstd => 3,
            CompressionAlgorithm::Lzma => 4,
            CompressionAlgorithm::Lz4 => 5,
            CompressionAlgorithm::Fsst => 6,
        }
    }

    /// The algorithm a wire tag names; an unknown tag is a fatal
    /// deserialization error.
    pub fn try_from(value: u64) -> (r: Result<Self, Error>)
        ensures
            match compression_of_tag(value as nat) {
                Some(a) => r matches Ok(x) && x == a,
                None => {
                    &&& r matches Err(e)
                    &&& e matches Error::Deser(m) && m@ == unknown_compression_msg(value as nat)
                },
            },
    {
        match value {
            0 => Ok(CompressionAlgorithm::Stored),
            1 => Ok(CompressionAlgorithm::Deflate),
            2 => Ok(CompressionAlgorithm::Bzip),
            3 => Ok(CompressionAlgorithm::Zstd),
            4 => Ok(CompressionAlgorithm::Lzma),
            5 => Ok(CompressionAlgorithm::Lz4),
            6 => Ok(CompressionAlgorithm::Fsst),
            _ => {
                let mut m = "Unknown compression algorithm: ".to_owned();
                m.append(crate::text::u64_to_string(value).as_str());
                Err(Error::Deser(m))
            },
        }
    }
}

/// Per-entry compression record: `size` spans the algorithm tag and the
/// parameter bytes, so a reader can skip what it does not support.
#[derive(Debug)]
pub struct CompressionHeader {
    pub size: u64,
    pub algorithm: CompressionAlgorithm,
    pub payload: Vec<u8>,
}

/// Mathematical image of a [`CompressionHeader`].
pub struct CompressionHeaderV {
    pub size: u64,
    pub algorithm: CompressionAlgorithm,
    pub payload: Seq<u8>,
}

impl View for CompressionHeader {
    type V = CompressionHeaderV;

    open spec fn view(&self) -> CompressionHeaderV {
        CompressionHeaderV {
            size: self.size,
            algorithm: self.algorithm,
            payload: self.payload@,
        }
    }
}

impl Ser for CompressionHeader {
    open spec fn wire(v: CompressionHeaderV) -> Seq<u8> {
        uleb((uleb_len(compression_tag(v.algorithm)) + v.payload.len()) as nat) + uleb(
            compression_tag(v.algorithm),
        ) + v.payload
    }

    open spec fn ser_wf(v: CompressionHeaderV) -> bool {
        v.payload.len() + 1 <= u64::MAX
    }

    fn ser(&self, out: &mut Vec<u8>) {
        let tag_len = crate::varint::leb128_usize(self.algorithm.as_u64());
        proof {
            assert(tag_len == 1);
        }
        let size = tag_len as u64 + self.payload.len() as u64;
        write_uleb(out, size);
        write_uleb(out, self.algorithm.as_u64());
        push_bytes(out, self.payload.as_slice());
        proof {
            assert(out@ =~= old(out)@ + Self::wire(self@));
        }
    }
}

/// The tag a reader rejects: both leading integers of the header parse,
/// but the second names no algorithm.
pub open spec fn compression_tag_reject(b: Seq<u8>) -> Option<nat> {
    if leb_ok(b) && leb_ok(b.skip(leb_len(b))) && compression_of_tag(
        leb_value(b.skip(leb_len(b))),
    ) is None {
        Some(leb_value(b.skip(leb_len(b))))
    } else {
        None
    }
}

impl Deser for CompressionHeader {
    open spec fn parse(b: Seq<u8>) -> Option<(CompressionHeaderV, int)> {
        if !leb_ok(b) {
            None
        } else {
            let n1 = leb_len(b);
            let size = leb_value(b);
            let b2 = b.skip(n1);
            if !leb_ok(b2) {
                None
            } else {
                let n2 = leb_len(b2);
                match compression_of_tag(leb_value(b2)) {
                    None => None,
                    Some(algorithm) => {
                        if size < n2 {
                            None
                        } else {
                            let plen = size - n2;
                            if n1 + n2 + plen <= b.len() {
                                Some(
                                    (
                                        CompressionHeaderV {
                                            size: size as u64,
                                            algorithm,
                                            payload: b.subrange(n1 + n2, n1 + n2 + plen),
                                        },
                                        n1 + n2 + plen,
                                    ),
                                )
                            } else {
                                None
                            }
                        }
                    },
                }
            }
        }
    }

    fn deser(buf: &[u8], pos: &mut usize) -> (r: Result<Self, Error>)
        ensures
            compression_tag_reject(buf@.skip(*old(pos) as int)) matches Some(t) ==> (r matches
                Err(e) && e matches Error::Deser(m) && m@ == unknown_compression_msg(t)),
    {
        let ghost p0 = *pos;
        let ghost b = buf@.skip(p0 as int);
        let size = read_uleb(buf, pos)?;
        proof {
            crate::varint::lemma_leb_len_pos(b);
            assert(b.skip(leb_len(b)) =~= buf@.skip(*pos as int));
        }
        let ghost b2 = buf@.skip(*pos as int);
        let before_tag = *pos;
        let tag = read_uleb(buf, pos)?;
        proof {
            crate::varint::lemma_leb_len_pos(b2);
        }
        let algorithm = CompressionAlgorithm::try_from(tag)?;
        let n2 = *pos - before_tag;
        if size < n2 as u64 {
            return Err(Error::Deser("Compression header size is too small".to_owned()));
        }
        let rest = size - n2 as u64;
        if rest > (buf.len() - *pos) as u64 {
            return Err(Error::unexpected_eof());
        }
        let payload = read_bytes(buf, pos, rest as usize)?;
        proof {
            let n1 = leb_len(b);
            let m2 = leb_len(b2);
            let plen = leb_value(b) - m2;
            assert(payload@ =~= b.subrange(n1 + m2, n1 + m2 + plen));
        }
        Ok(CompressionHeader { size, algorithm, payload })
    }
}

/// The stored size field agrees with the data: serialization recomputes
/// it, so only such headers read back unchanged.
pub open spec fn comp_canonical(v: CompressionHeaderV) -> bool {
    v.size == uleb_len(compression_tag(v.algorithm)) + v.payload.len()
}

/// Whatever parses as a compression header can be serialized again.
pub proof fn lemma_compression_parse_wf(b: Seq<u8>)
    ensures
        CompressionHeader::parse(b) matches Some(p) ==> CompressionHeader::ser_wf(p.0),
{
    if CompressionHeader::parse(b) is Some {
        crate::varint::lemma_leb_len_pos(b);
        let n1 = leb_len(b);
        let b2 = b.skip(n1);
        crate::varint::lemma_leb_len_pos(b2);
        let n2 = leb_len(b2);
        let plen = leb_value(b) - n2;
        assert(b.subrange(n1 + n2, n1 + n2 + plen).len() == plen);
        assert(plen + 1 <= u64::MAX);
    }
}

/// A serialized compression header, followed by anything, reads back as
/// itself.
pub proof fn lemma_compression_header_roundtrip(v: CompressionHeaderV, rest: Seq<u8>)
    requires
        CompressionHeader::ser_wf(v),
        comp_canonical(v),
    ensures
        CompressionHeader::parse(CompressionHeader::wire(v) + rest) == Some(
            (v, CompressionHeader::wire(v).len() as int),
        ),
{
    let t = compression_tag(v.algorithm);
    let size = (uleb_len(t) + v.payload.len()) as nat;
    let b = CompressionHeader::wire(v) + rest;
    crate::varint::lemma_uleb_len_le_10(size);
    crate::varint::lemma_leb_roundtrip(size, uleb(t) + v.payload + rest);
    assert(b =~= uleb(size) + (uleb(t) + v.payload + rest));
    let n1 = leb_len(b);
    let b2 = b.skip(n1);
    assert(b2 =~= uleb(t) + (v.payload + rest));
    crate::varint::lemma_leb_roundtrip(t, v.payload + rest);
    let n2 = leb_len(b2);
    assert(b.subrange(n1 + n2, n1 + n2 + v.payload.len()) =~= v.payload);
}

/// What raw-deflate compression returns for a byte string; a function of
/// the input alone for a fixed library version and compression level.
pub uninterp spec fn deflate_of(b: Seq<u8>) -> Seq<u8>;

/// Relies on `flate2::bufread::DeflateEncoder` at the default level: the
/// raw-deflate stream of the input, a function of the input bytes alone.
#[verifier::external_body]
fn deflate(data: &[u8]) -> (r: Vec<u8>)
    ensures
        r@ == deflate_of(data@),
{
    let mut enc = flate2::bufread::DeflateEncoder::new(data, flate2::Compression::default());
    let mut out = Vec::new();
    std::io::Read::read_to_end(&mut enc, &mut out).expect("reading from a slice cannot fail");
    out
}

/// `r` is what inflating `data` must give: whenever `data` starts with the
/// deflate stream of some bytes, `r` holds exactly those bytes.
pub open spec fn inflates_to(data: Seq<u8>, r: Result<Vec<u8>, Error>) -> bool {
    forall|orig: Seq<u8>, rest: Seq<u8>|
        data == deflate_of(orig) + rest ==> (r matches Ok(v) && v@ == orig)
}

/// Relies on `flate2::bufread::DeflateDecoder`: a buffer that starts with
/// the deflate stream of some bytes inflates to those bytes, and the
/// decoder stops at the end of the stream, ignoring what follows.
#[verifier::external_body]
fn inflate(data: &[u8]) -> (r: Result<Vec<u8>, Error>)
    ensures
        inflates_to(data@, r),
{
    let mut dec = flate2::bufread::DeflateDecoder::new(data);
    let mut out = Vec::new();
    match std::io::Read::read_to_end(&mut dec, &mut out) {
        Ok(_) => Ok(out),
        Err(_) => Err(Error::Deser("Invalid deflate stream".to_owned())),
    }
}

/// Runs the write side of the compression stage.
pub fn compress_bytes(alg: CompressionAlgorithm, data: &[u8]) -> (r: Result<Vec<u8>, Error>)
    ensures
        alg == CompressionAlgorithm::Stored ==> (r matches Ok(v) && v@ == data@),
        alg == CompressionAlgorithm::Deflate ==> (r matches Ok(v) && v@ == deflate_of(data@)),
        alg != CompressionAlgorithm::Stored && alg != CompressionAlgorithm::Deflate ==> (r matches
            Err(e) && e is Deser),
{
    match alg {
        CompressionAlgorithm::Stored => {
            let mut v: Vec<u8> = Vec::new();
            push_bytes(&mut v, data);
            proof {
                assert(v@ =~= data@);
            }
            Ok(v)
        },
        CompressionAlgorithm::Deflate => Ok(deflate(data)),
        _ => Err(Error::Deser("Unsupported compression algorithm".to_owned())),
    }
}

/// Runs the read side of the compression stage on the bytes from the
/// payload's offset to the end of the stored region.
pub fn decompress_bytes(alg: CompressionAlgorithm, data: &[u8]) -> (r: Result<Vec<u8>, Error>)
    ensures
        alg == CompressionAlgorithm::Stored ==> (r matches Ok(v) && v@ == data@),
        alg == CompressionAlgorithm::Deflate ==> forall|orig: Seq<u8>, rest: Seq<u8>|
            data@ == deflate_of(orig) + rest ==> (r matches Ok(v) && v@ == orig),
        alg != CompressionAlgorithm::Stored && alg != CompressionAlgorithm::Deflate ==> (r matches
            Err(e) && e is Deser),
{
    match alg {
        CompressionAlgorithm::Stored => {
            let mut v: Vec<u8> = Vec::new();
            push_bytes(&mut v, data);
            proof {
                assert(v@ =~= data@);
            }
            Ok(v)
        },
        CompressionAlgorithm::Deflate => inflate(data),
        _ => Err(Error::Deser("Unsupported compression algorithm".to_owned())),
    }
}

} // verus!
