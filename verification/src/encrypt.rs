//! Encryption subsystem: structurally identical to compression, with only
//! the reserved tag defined. The slot preserves format space.

use vstd::prelude::*;

use crate::Error;
use crate::io::{Deser, Ser, push_bytes, read_bytes};
use crate::text::dec_digits;
use crate::varint::{leb_len, leb_ok, leb_value, read_uleb, uleb, uleb_len, write_uleb};

verus! {

/// The encryption algorithms the format names: only the reserved one.
#[derive(Clone, Copy, Debug, PartialEq, Eq, Structural)]
pub enum EncryptionAlgorithm {
    NotImplementedYet,
}

/// The wire tag of each encryption algorithm.
pub open spec fn encryption_tag(a: EncryptionAlgorithm) -> nat {
    match a {
        EncryptionAlgorithm::NotImplementedYet => 0,
    }
}

/// The algorithm a wire tag names, when it names one.
pub open spec fn encryption_of_tag(v: nat) -> Option<EncryptionAlgorithm> {
    if v == 0 {
        Some(EncryptionAlgorithm::NotImplementedYet)
    } else {
        None
    }
}

/// The message that reports a tag no algorithm owns.
pub open spec fn unknown_encryption_msg(v: nat) -> Seq<char> {
    "Unknown encryption algorithm: "@ + dec_digits(v)
}

impl EncryptionAlgorithm {
    /// The wire tag of this algorithm.
    pub fn as_u64(self) -> (r: u64)
        ensures
            r == encryption_tag(self),
    {
        match self {
            EncryptionAlgorithm::NotImplementedYet => 0,
        }
    }

    /// The algorithm a wire tag names; an unknown tag is a fatal
    /// deserialization error.
    pub fn try_from(value: u64) -> (r: Result<Self, Error>)
        ensures
            match encryption_of_tag(value as nat) {
                Some(a) => r matches Ok(x) && x == a,
                None => {
                    &&& r matches Err(e)
                    &&& e matches Error::Deser(m) && m@ == unknown_encryption_msg(value as nat)
                },
            },
    {
        match value {
            0 => Ok(EncryptionAlgorithm::NotImplementedYet),
            _ => {
                let mut m = "Unknown encryption algorithm: ".to_owned();
                m.append(crate::text::u64_to_string(value).as_str());
                Err(Error::Deser(m))
            },
        }
    }
}

/// Per-entry encryption record; `size` spans the algorithm tag and the
/// parameter bytes.
#[derive(Debug)]
pub struct EncryptionHeader {
    pub algorithm: EncryptionAlgorithm,
    pub size: u64,
    pub payload: Vec<u8>,
}

/// Mathematical image of an [`EncryptionHeader`].
pub struct EncryptionHeaderV {
    pub algorithm: EncryptionAlgorithm,
    pub size: u64,
    pub payload: Seq<u8>,
}

impl View for EncryptionHeader {
    type V = EncryptionHeaderV;

    open spec fn view(&self) -> EncryptionHeaderV {
        EncryptionHeaderV {
            algorithm: self.algorithm,
            size: self.size,
            payload: self.payload@,
        }
    }
}

impl Ser for EncryptionHeader {
    open spec fn wire(v: EncryptionHeaderV) -> Seq<u8> {
        uleb((uleb_len(encryption_tag(v.algorithm)) + v.payload.len()) as nat) + uleb(
            encryption_tag(v.algorithm),
        ) + v.payload
    }

    open spec fn ser_wf(v: EncryptionHeaderV) -> bool {
        v.payload.len() + 1 <= u64::MAX
    }

    fn ser(&self, out: &mut Vec<u8>) {
        let tag_len = crate::varint::leb128_usize(self.algorithm.as_u64());
        proof {
            assert(tag_len == 1);
        }
        let size = tag_len as u64 + self.payload.len() as u64;
        write_uleb(out, size);
        write_uleb(out, self.algorithm.as_u64());
        push_bytes(out, self.payload.as_slice());
        proof {
            assert(out@ =~= old(out)@ + Self::wire(self@));
        }
    }
}

/// The tag a reader rejects: both leading integers of the header parse,
/// but the second names no algorithm.
pub open spec fn encryption_tag_reject(b: Seq<u8>) -> Option<nat> {
    if leb_ok(b) && leb_ok(b.skip(leb_len(b))) && encryption_of_tag(
        leb_value(b.skip(leb_len(b))),
    ) is None {
        Some(leb_value(b.skip(leb_len(b))))
    } else {
        None
    }
}

impl Deser for EncryptionHeader {
    open spec fn parse(b: Seq<u8>) -> Option<(EncryptionHeaderV, int)> {
        if !leb_ok(b) {
            None
        } else {
            let n1 = leb_len(b);
            let size = leb_value(b);
            let b2 = b.skip(n1);
            if !leb_ok(b2) {
                None
            } else {
                let n2 = leb_len(b2);
                match encryption_of_tag(leb_value(b2)) {
                    None => None,
                    Some(algorithm) => {
                        if size < n2 {
                            None
                        } else {
                            let plen = size - n2;
                            if n1 + n2 + plen <= b.len() {
                                Some(
                                    (
                                        EncryptionHeaderV {
                                            algorithm,
                                            size: size as u64,
                                            payload: b.subrange(n1 + n2, n1 + n2 + plen),
                                        },
                                        n1 + n2 + plen,
                                    ),
                                )
                            } else {
                                None
                            }
                        }
                    },
                }
            }
        }
    }

    fn deser(buf: &[u8], pos: &mut usize) -> (r: Result<Self, Error>)
        ensures
            encryption_tag_reject(buf@.skip(*old(pos) as int)) matches Some(t) ==> (r matches
                Err(e) && e matches Error::Deser(m) && m@ == unknown_encryption_msg(t)),
    {
        let ghost p0 = *pos;
        let ghost b = buf@.skip(p0 as int);
        let size = read_uleb(buf, pos)?;
        proof {
            crate::varint::lemma_leb_len_pos(b);
            assert(b.skip(leb_len(b)) =~= buf@.skip(*pos as int));
        }
        let ghost b2 = buf@.skip(*pos as int);
        let before_tag = *pos;
        let tag = read_uleb(buf, pos)?;
        proof {
            crate::varint::lemma_leb_len_pos(b2);
        }
        let algorithm = EncryptionAlgorithm::try_from(tag)?;
        let n2 = *pos - before_tag;
        if size < n2 as u64 {
            return Err(Error::Deser("Encryption header size is too small".to_owned()));
        }
        let rest = size - n2 as u64;
        if rest > (buf.len() - *pos) as u64 {
            return Err(Error::unexpected_eof());
        }
        let payload = read_bytes(buf, pos, rest as usize)?;
        proof {
            let n1 = leb_len(b);
            let m2 = leb_len(b2);
            let plen = leb_value(b) - m2;
            assert(payload@ =~= b.subrange(n1 + m2, n1 + m2 + plen));
        }
        Ok(EncryptionHeader { algorithm, size, payload })
    }
}

/// The stored size field agrees with the data: serialization recomputes
/// it, so only such headers read back unchanged.
pub open spec fn enc_canonical(v: EncryptionHeaderV) -> bool {
    v.size == uleb_len(encryption_tag(v.algorithm)) + v.payload.len()
}

/// Whatever parses as an encryption header can be serialized again.
pub proof fn lemma_encryption_parse_wf(b: Seq<u8>)
    ensures
        EncryptionHeader::parse(b) matches Some(p) ==> EncryptionHeader::ser_wf(p.0),
{
    if EncryptionHeader::parse(b) is Some {
        crate::varint::lemma_leb_len_pos(b);
        let n1 = leb_len(b);
        let b2 = b.skip(n1);
        crate::varint::lemma_leb_len_pos(b2);
        let n2 = leb_len(b2);
        let plen = leb_value(b) - n2;
        assert(b.subrange(n1 + n2, n1 + n2 + plen).len() == plen);
        assert(plen + 1 <= u64::MAX);
    }
}

/// A serialized encryption header, followed by anything, reads back as
/// itself.
pub proof fn lemma_encryption_header_roundtrip(v: EncryptionHeaderV, rest: Seq<u8>)
    requires
        EncryptionHeader::ser_wf(v),
        enc_canonical(v),
    ensures
        EncryptionHeader::parse(EncryptionHeader::wire(v) + rest) == Some(
            (v, EncryptionHeader::wire(v).len() as int),
        ),
{
    let t = encryption_tag(v.algorithm);
    let size = (uleb_len(t) + v.payload.len()) as nat;
    let b = EncryptionHeader::wire(v) + rest;
    crate::varint::lemma_uleb_len_le_10(size);
    crate::varint::lemma_leb_roundtrip(size, uleb(t) + v.payload + rest);
    assert(b =~= uleb(size) + (uleb(t) + v.payload + rest));
    let n1 = leb_len(b);
    let b2 = b.skip(n1);
    assert(b2 =~= uleb(t) + (v.payload + rest));
    crate::varint::lemma_leb_roundtrip(t, v.payload + rest);
    let n2 = leb_len(b2);
    assert(b.subrange(n1 + n2, n1 + n2 + v.payload.len()) =~= v.payload);
}

} // verus!
