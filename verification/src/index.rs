//! The archive directory: per-asset entries and the archive-wide index
//! header, with their wire codecs and the name order the directory keeps.

use vstd::prelude::*;
use vstd::utf8::{decode_utf8, encode_utf8, valid_utf8};

use crate::Error;
use crate::checksum::{ChecksumHeader, ChecksumHeaderV, ChecksumV};
use crate::compress::{CompressionHeader, CompressionHeaderV};
use crate::encrypt::{EncryptionHeader, EncryptionHeaderV};
use crate::io::{
    Deser, Ser, deser_opt, parse_opt, push_bytes, read_bytes, ser_opt, ser_wf_opt, view_opt,
    wire_opt,
};
use crate::varint::{leb_len, leb_ok, leb_value, read_uleb, uleb, write_uleb};

verus! {

/// Strict lexicographic order on byte strings: the order entry names keep.
pub open spec fn lex_lt(a: Seq<u8>, b: Seq<u8>) -> bool
    decreases a.len(),
{
    if b.len() == 0 {
        false
    } else if a.len() == 0 {
        true
    } else if a[0] < b[0] {
        true
    } else if a[0] > b[0] {
        false
    } else {
        lex_lt(a.skip(1), b.skip(1))
    }
}

/// Two byte strings are ordered one way, the other, or equal.
pub proof fn lemma_lex_trichotomy(a: Seq<u8>, b: Seq<u8>)
    ensures
        lex_lt(a, b) || lex_lt(b, a) || a == b,
    decreases a.len(),
{
    if a.len() != 0 && b.len() != 0 && a[0] == b[0] {
        lemma_lex_trichotomy(a.skip(1), b.skip(1));
        assert(lex_lt(a, b) == lex_lt(a.skip(1), b.skip(1)));
        assert(lex_lt(b, a) == lex_lt(b.skip(1), a.skip(1)));
        if !lex_lt(a, b) && !lex_lt(b, a) {
            assert(a.skip(1) == b.skip(1));
            assert forall|k: int| 1 <= k < a.len() implies a[k] == b[k] by {
                assert(a.skip(1)[k - 1] == b.skip(1)[k - 1]);
            }
            assert(a =~= b);
        }
    }
}

/// The order is irreflexive.
pub proof fn lemma_lex_irreflexive(a: Seq<u8>)
    ensures
        !lex_lt(a, a),
    decreases a.len(),
{
    if a.len() != 0 {
        lemma_lex_irreflexive(a.skip(1));
    }
}

/// The order is transitive.
pub proof fn lemma_lex_transitive(a: Seq<u8>, b: Seq<u8>, c: Seq<u8>)
    requires
        lex_lt(a, b),
        lex_lt(b, c),
    ensures
        lex_lt(a, c),
    decreases a.len(),
{
    if a.len() != 0 && b.len() != 0 && c.len() != 0 && a[0] == b[0] && b[0] == c[0] {
        lemma_lex_transitive(a.skip(1), b.skip(1), c.skip(1));
    }
}

/// The byte string a name occupies on the wire.
pub open spec fn name_key(name: Seq<char>) -> Seq<u8> {
    encode_utf8(name)
}

/// Compares two names in the order the directory keeps: lexicographic on
/// their UTF-8 bytes.
pub fn name_lt(a: &str, b: &str) -> (r: bool)
    ensures
        r == lex_lt(name_key(a@), name_key(b@)),
{
    let ab = a.as_bytes();
    let bb = b.as_bytes();
    let ghost x = name_key(a@);
    let ghost y = name_key(b@);
    let mut i: usize = 0;
    proof {
        assert(x.skip(0) =~= x);
        assert(y.skip(0) =~= y);
    }
    #[verifier::loop_isolation(false)]
    loop
        invariant
            i <= ab@.len(),
            i <= bb@.len(),
            ab@ == x,
            bb@ == y,
            lex_lt(x, y) == lex_lt(x.skip(i as int), y.skip(i as int)),
        decreases ab@.len() - i,
    {
        if i == bb.len() {
            return false;
        }
        if i == ab.len() {
            return true;
        }
        let ca = ab[i];
        let cb = bb[i];
        if ca < cb {
            return true;
        }
        if ca > cb {
            return false;
        }
        proof {
            assert(x.skip(i as int).skip(1) =~= x.skip(i + 1));
            assert(y.skip(i as int).skip(1) =~= y.skip(i + 1));
        }
        i = i + 1;
    }
}

/// Compares two names for equality.
pub fn name_eq(a: &str, b: &str) -> (r: bool)
    ensures
        r == (a@ == b@),
{
    let r = crate::io::bytes_eq(a.as_bytes(), b.as_bytes());
    proof {
        vstd::utf8::encode_utf8_decode_utf8(a@);
        vstd::utf8::encode_utf8_decode_utf8(b@);
    }
    r
}

/// `r` is the decoding of the bytes `b`: a string exactly when `b` is valid
/// UTF-8, the invalid-encoding error otherwise.
pub open spec fn utf8_decoded(b: Seq<u8>, r: Result<String, Error>) -> bool {
    match r {
        Ok(s) => valid_utf8(b) && s@ == decode_utf8(b),
        Err(e) => !valid_utf8(b) && e is InvalidUtf8,
    }
}

/// Relies on `String::from_utf8`: it succeeds exactly on valid UTF-8 and
/// decodes it.
#[verifier::external_body]
pub fn bytes_to_string(v: Vec<u8>) -> (r: Result<String, Error>)
    ensures
        utf8_decoded(v@, r),
{
    match String::from_utf8(v) {
        Ok(s) => Ok(s),
        Err(_) => Err(Error::InvalidUtf8),
    }
}

/// One per-asset record of the directory.
#[derive(Debug)]
pub struct IndexEntry {
    pub offset: u64,
    pub size: u64,
    pub name: String,
    pub encryption: Option<EncryptionHeader>,
    pub compression: Option<CompressionHeader>,
    pub checksum: Option<ChecksumHeader>,
}

/// Mathematical image of an [`IndexEntry`].
pub struct IndexEntryV {
    pub offset: u64,
    pub size: u64,
    pub name: Seq<char>,
    pub encryption: Option<EncryptionHeaderV>,
    pub compression: Option<CompressionHeaderV>,
    pub checksum: Option<ChecksumHeaderV>,
}

impl View for IndexEntry {
    type V = IndexEntryV;

    open spec fn view(&self) -> IndexEntryV {
        IndexEntryV {
            offset: self.offset,
            size: self.size,
            name: self.name@,
            encryption: view_opt(self.encryption),
            compression: view_opt(self.compression),
            checksum: view_opt(self.checksum),
        }
    }
}

/// The flag byte of an entry: one bit per optional sub-header.
pub open spec fn entry_flags(v: IndexEntryV) -> nat {
    ((if v.encryption is Some {
        1nat
    } else {
        0nat
    }) + (if v.compression is Some {
        2nat
    } else {
        0nat
    }) + (if v.checksum is Some {
        4nat
    } else {
        0nat
    })) as nat
}

/// The fixed front of an entry's wire image: offset, size, flag byte, name
/// length, name bytes.
pub open spec fn entry_head_wire(offset: u64, size: u64, flags: nat, name: Seq<char>) -> Seq<u8> {
    uleb(offset as nat) + uleb(size as nat) + uleb(flags) + uleb(name_key(name).len() as nat)
        + name_key(name)
}

impl Ser for IndexEntry {
    open spec fn wire(v: IndexEntryV) -> Seq<u8> {
        entry_head_wire(v.offset, v.size, entry_flags(v), v.name) + wire_opt::<EncryptionHeader>(
            v.encryption,
        ) + wire_opt::<CompressionHeader>(v.compression) + wire_opt::<ChecksumHeader>(v.checksum)
    }

    open spec fn ser_wf(v: IndexEntryV) -> bool {
        &&& name_key(v.name).len() <= u64::MAX
        &&& ser_wf_opt::<EncryptionHeader>(v.encryption)
        &&& ser_wf_opt::<CompressionHeader>(v.compression)
        &&& ser_wf_opt::<ChecksumHeader>(v.checksum)
    }

    #[verifier::rlimit(50)]
    fn ser(&self, out: &mut Vec<u8>) {
        let flags: u64 = (if self.encryption.is_some() {
            1u64
        } else {
            0u64
        }) + (if self.compression.is_some() {
            2u64
        } else {
            0u64
        }) + (if self.checksum.is_some() {
            4u64
        } else {
            0u64
        });
        write_uleb(out, self.offset);
        write_uleb(out, self.size);
        write_uleb(out, flags);
        let nb = self.name.as_str().as_bytes();
        write_uleb(out, nb.len() as u64);
        push_bytes(out, nb);
        ser_opt(&self.encryption, out);
        ser_opt(&self.compression, out);
        ser_opt(&self.checksum, out);
        proof {
            assert(out@ =~= old(out)@ + Self::wire(self@));
        }
    }
}

/// Reads the fixed front of an entry: offset, size, flag byte, and name.
pub open spec fn parse_entry_head(b: Seq<u8>) -> Option<(u64, u64, u64, Seq<char>, int)> {
    if !leb_ok(b) {
        None
    } else {
        let n1 = leb_len(b);
        let off = leb_value(b);
        let b2 = b.skip(n1);
        if !leb_ok(b2) {
            None
        } else {
            let n2 = leb_len(b2);
            let size = leb_value(b2);
            let b3 = b2.skip(n2);
            if !leb_ok(b3) {
                None
            } else {
                let n3 = leb_len(b3);
                let flags = leb_value(b3);
                let b4 = b3.skip(n3);
                if !leb_ok(b4) {
                    None
                } else {
                    let n4 = leb_len(b4);
                    let nlen = leb_value(b4);
                    let b5 = b4.skip(n4);
                    if nlen > b5.len() {
                        None
                    } else {
                        let nb = b5.take(nlen as int);
                        if !valid_utf8(nb) {
                            None
                        } else {
                            Some(
                                (
                                    off as u64,
                                    size as u64,
                                    flags as u64,
                                    decode_utf8(nb),
                                    n1 + n2 + n3 + n4 + nlen,
                                ),
                            )
                        }
                    }
                }
            }
        }
    }
}

/// A serialized entry front, followed by anything, reads back as itself.
#[verifier::rlimit(50)]
pub proof fn lemma_entry_head_roundtrip(
    offset: u64,
    size: u64,
    flags: u64,
    name: Seq<char>,
    tail: Seq<u8>,
)
    requires
        name_key(name).len() <= u64::MAX,
    ensures
        parse_entry_head(entry_head_wire(offset, size, flags as nat, name) + tail) == Some(
            (offset, size, flags, name, entry_head_wire(offset, size, flags as nat, name).len() as int),
        ),
{
    let nk = name_key(name);
    let b = entry_head_wire(offset, size, flags as nat, name) + tail;
    crate::varint::lemma_uleb_len_le_10(offset as nat);
    crate::varint::lemma_uleb_len_le_10(size as nat);
    crate::varint::lemma_uleb_len_le_10(flags as nat);
    crate::varint::lemma_uleb_len_le_10(nk.len() as nat);
    crate::varint::lemma_leb_roundtrip(
        offset as nat,
        uleb(size as nat) + uleb(flags as nat) + uleb(nk.len() as nat) + nk + tail,
    );
    assert(b =~= uleb(offset as nat) + (uleb(size as nat) + uleb(flags as nat) + uleb(
        nk.len() as nat,
    ) + nk + tail));
    let b2 = b.skip(leb_len(b));
    assert(b2 =~= uleb(size as nat) + (uleb(flags as nat) + uleb(nk.len() as nat) + nk + tail));
    crate::varint::lemma_leb_roundtrip(
        size as nat,
        uleb(flags as nat) + uleb(nk.len() as nat) + nk + tail,
    );
    let b3 = b2.skip(leb_len(b2));
    assert(b3 =~= uleb(flags as nat) + (uleb(nk.len() as nat) + nk + tail));
    crate::varint::lemma_leb_roundtrip(flags as nat, uleb(nk.len() as nat) + nk + tail);
    let b4 = b3.skip(leb_len(b3));
    assert(b4 =~= uleb(nk.len() as nat) + (nk + tail));
    crate::varint::lemma_leb_roundtrip(nk.len() as nat, nk + tail);
    let b5 = b4.skip(leb_len(b4));
    assert(b5 =~= nk + tail);
    assert(b5.take(nk.len() as int) =~= nk);
    vstd::utf8::encode_utf8_valid_utf8(name);
    vstd::utf8::encode_utf8_decode_utf8(name);
}

/// The one entry failure the reader blames on the name: the head's four
/// integers parse and the name bytes are present, but they are not valid
/// UTF-8.
pub open spec fn entry_name_not_utf8(b: Seq<u8>) -> bool {
    let b2 = b.skip(leb_len(b));
    let b3 = b2.skip(leb_len(b2));
    let b4 = b3.skip(leb_len(b3));
    let b5 = b4.skip(leb_len(b4));
    &&& leb_ok(b)
    &&& leb_ok(b2)
    &&& leb_ok(b3)
    &&& leb_ok(b4)
    &&& leb_value(b4) <= b5.len()
    &&& !valid_utf8(b5.take(leb_value(b4) as int))
}

/// Reads the fixed front of an entry at `*pos`, advancing `*pos` past it.
fn deser_entry_head(buf: &[u8], pos: &mut usize) -> (r: Result<(u64, u64, u64, String), Error>)
    requires
        *old(pos) <= buf@.len(),
    ensures
        match parse_entry_head(buf@.skip(*old(pos) as int)) {
            Some(h) => {
                &&& r matches Ok(t)
                &&& t.0 == h.0 && t.1 == h.1 && t.2 == h.2 && t.3@ == h.3
                &&& *final(pos) == *old(pos) + h.4
            },
            None => r is Err,
        },
        entry_name_not_utf8(buf@.skip(*old(pos) as int)) ==> (r matches Err(e) && e
            is InvalidUtf8),
        *old(pos) <= *final(pos) <= buf@.len(),
{
    let ghost p0 = *pos;
    let ghost b = buf@.skip(p0 as int);
    let offset = read_uleb(buf, pos)?;
    proof {
        crate::varint::lemma_leb_len_pos(b);
        assert(b.skip(leb_len(b)) =~= buf@.skip(*pos as int));
    }
    let ghost b2 = buf@.skip(*pos as int);
    let size = read_uleb(buf, pos)?;
    proof {
        crate::varint::lemma_leb_len_pos(b2);
        assert(b2.skip(leb_len(b2)) =~= buf@.skip(*pos as int));
    }
    let ghost b3 = buf@.skip(*pos as int);
    let flags = read_uleb(buf, pos)?;
    proof {
        crate::varint::lemma_leb_len_pos(b3);
        assert(b3.skip(leb_len(b3)) =~= buf@.skip(*pos as int));
    }
    let ghost b4 = buf@.skip(*pos as int);
    let nlen = read_uleb(buf, pos)?;
    proof {
        crate::varint::lemma_leb_len_pos(b4);
        assert(b4.skip(leb_len(b4)) =~= buf@.skip(*pos as int));
    }
    let ghost b5 = buf@.skip(*pos as int);
    if nlen > (buf.len() - *pos) as u64 {
        return Err(Error::unexpected_eof());
    }
    let nbytes = read_bytes(buf, pos, nlen as usize)?;
    proof {
        assert(nbytes@ =~= b5.take(nlen as int));
    }
    let name = bytes_to_string(nbytes)?;
    Ok((offset, size, flags, name))
}

impl Deser for IndexEntry {
    open spec fn parse(b: Seq<u8>) -> Option<(IndexEntryV, int)> {
        match parse_entry_head(b) {
            None => None,
            Some(h) => {
                let flags = h.2;
                let b6 = b.skip(h.4);
                match parse_opt::<EncryptionHeader>(b6, flags % 2 == 1) {
                    None => None,
                    Some(pe) => {
                        let b7 = b6.skip(pe.1);
                        match parse_opt::<CompressionHeader>(b7, (flags / 2) % 2 == 1) {
                            None => None,
                            Some(pc) => {
                                let b8 = b7.skip(pc.1);
                                match parse_opt::<ChecksumHeader>(b8, (flags / 4) % 2 == 1) {
                                    None => None,
                                    Some(pk) => Some(
                                        (
                                            IndexEntryV {
                                                offset: h.0,
                                                size: h.1,
                                                name: h.3,
                                                encryption: pe.0,
                                                compression: pc.0,
                                                checksum: pk.0,
                                            },
                                            h.4 + pe.1 + pc.1 + pk.1,
                                        ),
                                    ),
                                }
                            },
                        }
                    },
                }
            },
        }
    }

    #[verifier::rlimit(50)]
    fn deser(buf: &[u8], pos: &mut usize) -> (r: Result<Self, Error>)
        ensures
            entry_name_not_utf8(buf@.skip(*old(pos) as int)) ==> (r matches Err(e) && e
                is InvalidUtf8),
    {
        let ghost p0 = *pos;
        let ghost b = buf@.skip(p0 as int);
        let (offset, size, flags, name) = deser_entry_head(buf, pos)?;
        let ghost h = parse_entry_head(b)->Some_0;
        proof {
            assert(b.skip(h.4) =~= buf@.skip(*pos as int));
        }
        let ghost b6 = buf@.skip(*pos as int);
        let encryption = deser_opt::<EncryptionHeader>(buf, pos, flags % 2 == 1)?;
        proof {
            let pe = parse_opt::<EncryptionHeader>(b6, h.2 % 2 == 1)->Some_0;
            assert(b6.skip(pe.1) =~= buf@.skip(*pos as int));
        }
        let ghost b7 = buf@.skip(*pos as int);
        let compression = deser_opt::<CompressionHeader>(buf, pos, (flags / 2) % 2 == 1)?;
        proof {
            let pc = parse_opt::<CompressionHeader>(b7, (h.2 / 2) % 2 == 1)->Some_0;
            assert(b7.skip(pc.1) =~= buf@.skip(*pos as int));
        }
        let checksum = deser_opt::<ChecksumHeader>(buf, pos, (flags / 4) % 2 == 1)?;
        Ok(
            IndexEntry {
                offset,
                size,
                name,
                encryption,
                compression,
                checksum,
            },
        )
    }
}

/// A serialized optional encryption header reads back as itself.
proof fn lemma_opt_encryption_roundtrip(x: Option<EncryptionHeaderV>, rest: Seq<u8>)
    requires
        ser_wf_opt::<EncryptionHeader>(x),
        x matches Some(h) ==> crate::encrypt::enc_canonical(h),
    ensures
        parse_opt::<EncryptionHeader>(wire_opt::<EncryptionHeader>(x) + rest, x is Some) == Some(
            (x, wire_opt::<EncryptionHeader>(x).len() as int),
        ),
{
    match x {
        Option::None => {
            assert(wire_opt::<EncryptionHeader>(x).len() == 0);
        },
        Option::Some(h) => {
            crate::encrypt::lemma_encryption_header_roundtrip(h, rest);
        },
    }
}

/// A serialized optional compression header reads back as itself.
proof fn lemma_opt_compression_roundtrip(x: Option<CompressionHeaderV>, rest: Seq<u8>)
    requires
        ser_wf_opt::<CompressionHeader>(x),
        x matches Some(h) ==> crate::compress::comp_canonical(h),
    ensures
        parse_opt::<CompressionHeader>(wire_opt::<CompressionHeader>(x) + rest, x is Some) == Some(
            (x, wire_opt::<CompressionHeader>(x).len() as int),
        ),
{
    match x {
        Option::None => {
            assert(wire_opt::<CompressionHeader>(x).len() == 0);
        },
        Option::Some(h) => {
            crate::compress::lemma_compression_header_roundtrip(h, rest);
        },
    }
}

/// A serialized optional checksum header reads back as itself.
proof fn lemma_opt_checksum_roundtrip(x: Option<ChecksumHeaderV>, rest: Seq<u8>)
    requires
        ser_wf_opt::<ChecksumHeader>(x),
    ensures
        parse_opt::<ChecksumHeader>(wire_opt::<ChecksumHeader>(x) + rest, x is Some) == Some(
            (x, wire_opt::<ChecksumHeader>(x).len() as int),
        ),
{
    match x {
        Option::None => {
            assert(wire_opt::<ChecksumHeader>(x).len() == 0);
        },
        Option::Some(h) => {
            crate::checksum::lemma_checksum_header_roundtrip(h, rest);
        },
    }
}

/// The flag byte encodes exactly which sub-headers are present.
proof fn lemma_entry_flags_bits(v: IndexEntryV)
    ensures
        entry_flags(v) <= 7,
        (entry_flags(v) % 2 == 1) == (v.encryption is Some),
        ((entry_flags(v) / 2) % 2 == 1) == (v.compression is Some),
        ((entry_flags(v) / 4) % 2 == 1) == (v.checksum is Some),
{
}

/// The stored size fields of an entry's sub-headers agree with their data.
pub open spec fn entry_canonical(v: IndexEntryV) -> bool {
    &&& (v.compression matches Some(c) ==> crate::compress::comp_canonical(c))
    &&& (v.encryption matches Some(e) ==> crate::encrypt::enc_canonical(e))
}

/// A serialized entry, followed by anything, reads back as itself.
#[verifier::rlimit(100)]
#[verifier::spinoff_prover]
pub proof fn lemma_entry_roundtrip(v: IndexEntryV, rest: Seq<u8>)
    requires
        IndexEntry::ser_wf(v),
        entry_canonical(v),
    ensures
        IndexEntry::parse(IndexEntry::wire(v) + rest) == Some(
            (v, IndexEntry::wire(v).len() as int),
        ),
{
    let f = entry_flags(v);
    let hw = entry_head_wire(v.offset, v.size, f, v.name);
    let we = wire_opt::<EncryptionHeader>(v.encryption);
    let wc = wire_opt::<CompressionHeader>(v.compression);
    let wk = wire_opt::<ChecksumHeader>(v.checksum);
    let b = IndexEntry::wire(v) + rest;
    lemma_entry_flags_bits(v);
    assert(b =~= hw + (we + wc + wk + rest));
    lemma_entry_head_roundtrip(v.offset, v.size, f as u64, v.name, we + wc + wk + rest);
    let b6 = b.skip(hw.len() as int);
    assert(b6 =~= we + (wc + wk + rest));
    lemma_opt_encryption_roundtrip(v.encryption, wc + wk + rest);
    let b7 = b6.skip(we.len() as int);
    assert(b7 =~= wc + (wk + rest));
    lemma_opt_compression_roundtrip(v.compression, wk + rest);
    let b8 = b7.skip(wc.len() as int);
    assert(b8 =~= wk + rest);
    lemma_opt_checksum_roundtrip(v.checksum, rest);
}

/// The five magic bytes "REPAK".
pub open spec fn magic_bytes() -> Seq<u8> {
    seq![82u8, 69u8, 80u8, 65u8, 75u8]
}

/// The message that reports a wrong magic.
pub open spec fn bad_magic_msg() -> Seq<char> {
    "Not a REPAK archive"@
}

/// The message that reports an unsupported version byte.
pub open spec fn bad_version_msg(version: u8) -> Seq<char> {
    "Unsupported REPAK version 0x"@ + crate::text::hex_byte(version as nat)
}

/// The message that reports a nonzero reserved field.
pub open spec fn bad_reserved_msg() -> Seq<char> {
    "Reserved field is not zero"@
}

/// The four bytes that open a zstd frame: an index that starts with them
/// is itself zstd-compressed and is transparently decompressed on read.
pub open spec fn zstd_magic_bytes() -> Seq<u8> {
    seq![0x28u8, 0xB5u8, 0x2Fu8, 0xFDu8]
}

/// The message that reports a compressed index whose zstd frame does not
/// decode.
pub open spec fn invalid_zstd_msg() -> Seq<char> {
    "Invalid compressed index"@
}

/// What zstd decompression returns for a buffer that starts with a single
/// zstd frame: the frame's content, or nothing when the frame is invalid;
/// a function of the input bytes alone.
pub uninterp spec fn zstd_inflate_of(b: Seq<u8>) -> Option<Seq<u8>>;

/// `r` is what decompressing `b` as a single zstd frame must give.
pub open spec fn zstd_inflated(b: Seq<u8>, r: Result<Vec<u8>, Error>) -> bool {
    match r {
        Ok(v) => zstd_inflate_of(b) == Some(v@),
        Err(e) => {
            &&& zstd_inflate_of(b) is None
            &&& e matches Error::Deser(m) && m@ == invalid_zstd_msg()
        },
    }
}

/// Relies on `ruzstd::decoding::StreamingDecoder`: decodes the single zstd
/// frame at the front of the buffer, ignoring what follows it; the result
/// depends on the input bytes alone.
#[verifier::external_body]
fn zstd_inflate(data: &[u8]) -> (r: Result<Vec<u8>, Error>)
    ensures
        zstd_inflated(data@, r),
        r matches Ok(v) ==> zstd_inflate_of(data@) == Some(v@),
{
    match ruzstd::decoding::StreamingDecoder::new(data) {
        Ok(mut dec) => {
            let mut out = Vec::new();
            match std::io::Read::read_to_end(&mut dec, &mut out) {
                Ok(_) => Ok(out),
                Err(_) => Err(Error::Deser("Invalid compressed index".to_owned())),
            }
        },
        Err(_) => Err(Error::Deser("Invalid compressed index".to_owned())),
    }
}

/// The cause for which a reader rejects the front of a plain index header
/// outright, when the bytes suffice to decide: wrong magic, unsupported
/// version, or a nonzero reserved field.
pub open spec fn header_reject_reason_plain(b: Seq<u8>) -> Option<Seq<char>> {
    if b.len() >= 5 && b.take(5) != magic_bytes() {
        Some(bad_magic_msg())
    } else if b.len() >= 6 && b.take(5) == magic_bytes() && b[5] != 1 {
        Some(bad_version_msg(b[5]))
    } else if b.len() >= 8 && b.take(5) == magic_bytes() && b[5] == 1 && (b[6] != 0 || b[7] != 0) {
        Some(bad_reserved_msg())
    } else {
        None
    }
}

/// The cause for which a reader rejects the front of an index header: an
/// undecodable zstd frame, or a plain rejection of the bytes it reads,
/// decompressed when the zstd magic opens them.
pub open spec fn header_reject_reason(b: Seq<u8>) -> Option<Seq<char>> {
    if b.len() >= 4 && b.take(4) == zstd_magic_bytes() {
        match zstd_inflate_of(b) {
            None => Some(invalid_zstd_msg()),
            Some(d) => header_reject_reason_plain(d),
        }
    } else {
        header_reject_reason_plain(b)
    }
}

/// The checksum slot of a freshly parsed index: empty.
pub open spec fn empty_checksum_header() -> ChecksumHeaderV {
    ChecksumHeaderV { size: 0, count: 0, checksums: Seq::empty() }
}

/// Views of a sequence of entries.
pub open spec fn entry_views(s: Seq<IndexEntry>) -> Seq<IndexEntryV> {
    s.map_values(|e: IndexEntry| e@)
}

/// The concatenated wire bytes of a sequence of entries.
pub open spec fn entries_wire(s: Seq<IndexEntryV>) -> Seq<u8>
    decreases s.len(),
{
    if s.len() == 0 {
        Seq::empty()
    } else {
        IndexEntry::wire(s[0]) + entries_wire(s.skip(1))
    }
}

/// Serializing one more entry appends its bytes.
pub proof fn lemma_entries_wire_push(s: Seq<IndexEntryV>, e: IndexEntryV)
    ensures
        entries_wire(s.push(e)) == entries_wire(s) + IndexEntry::wire(e),
    decreases s.len(),
{
    if s.len() == 0 {
        let t = s.push(e);
        assert(t[0] == e);
        assert(t.skip(1) =~= Seq::<IndexEntryV>::empty());
        assert(entries_wire(t.skip(1)) == Seq::<u8>::empty());
        assert(entries_wire(t) == IndexEntry::wire(e) + entries_wire(t.skip(1)));
        assert(entries_wire(t) =~= entries_wire(s) + IndexEntry::wire(e));
    } else {
        lemma_entries_wire_push(s.skip(1), e);
        assert(s.push(e)[0] == s[0]);
        assert(s.push(e).skip(1) =~= s.skip(1).push(e));
        assert(entries_wire(s.push(e)) =~= entries_wire(s) + IndexEntry::wire(e));
    }
}

/// Reads exactly `k` entries from the front of `b`.
pub open spec fn parse_entries(b: Seq<u8>, k: nat) -> Option<(Seq<IndexEntryV>, int)>
    decreases k,
{
    if k == 0 {
        Some((Seq::empty(), 0))
    } else {
        match IndexEntry::parse(b) {
            None => None,
            Some(p) => match parse_entries(b.skip(p.1), (k - 1) as nat) {
                None => None,
                Some(q) => Some((seq![p.0] + q.0, p.1 + q.1)),
            },
        }
    }
}

/// A serialized sequence of entries, followed by anything, reads back as
/// itself.
#[verifier::rlimit(100)]
#[verifier::spinoff_prover]
pub proof fn lemma_entries_roundtrip(s: Seq<IndexEntryV>, rest: Seq<u8>)
    requires
        forall|i: int| 0 <= i < s.len() ==> IndexEntry::ser_wf(#[trigger] s[i]),
        forall|i: int| 0 <= i < s.len() ==> entry_canonical(#[trigger] s[i]),
    ensures
        parse_entries(entries_wire(s) + rest, s.len() as nat) == Some(
            (s, entries_wire(s).len() as int),
        ),
    decreases s.len(),
{
    if s.len() == 0 {
        assert(s =~= Seq::<IndexEntryV>::empty());
    } else {
        let w0 = IndexEntry::wire(s[0]);
        let wr = entries_wire(s.skip(1));
        let b = entries_wire(s) + rest;
        assert(b =~= w0 + (wr + rest));
        lemma_entry_roundtrip(s[0], wr + rest);
        assert(b.skip(w0.len() as int) =~= wr + rest);
        lemma_entries_roundtrip(s.skip(1), rest);
        assert(seq![s[0]] + s.skip(1) =~= s);
    }
}

/// The archive-wide directory: a magic/version prefix, the entry count, and
/// the entries. The trailing checksum slot is reserved and stays empty.
#[derive(Debug)]
pub struct IndexHeader {
    pub count: u64,
    pub entries: Vec<IndexEntry>,
    pub checksum: ChecksumHeader,
}

/// Mathematical image of an [`IndexHeader`].
pub struct IndexHeaderV {
    pub count: u64,
    pub entries: Seq<IndexEntryV>,
    pub checksum: ChecksumHeaderV,
}

impl View for IndexHeader {
    type V = IndexHeaderV;

    open spec fn view(&self) -> IndexHeaderV {
        IndexHeaderV {
            count: self.count,
            entries: entry_views(self.entries@),
            checksum: self.checksum@,
        }
    }
}

impl Default for IndexHeader {
    /// An empty directory.
    fn default() -> (r: Self)
        ensures
            r@ == (IndexHeaderV {
                count: 0,
                entries: Seq::empty(),
                checksum: empty_checksum_header(),
            }),
    {
        let r = IndexHeader { count: 0, entries: Vec::new(), checksum: ChecksumHeader::default() };
        proof {
            assert(r@.entries =~= Seq::<IndexEntryV>::empty());
            assert(r@.checksum.checksums =~= Seq::<ChecksumV>::empty());
        }
        r
    }
}

impl Ser for IndexHeader {
    open spec fn wire(v: IndexHeaderV) -> Seq<u8> {
        magic_bytes() + seq![1u8, 0u8, 0u8] + uleb(v.count as nat) + entries_wire(v.entries)
    }

    open spec fn ser_wf(v: IndexHeaderV) -> bool {
        &&& v.count == v.entries.len()
        &&& forall|i: int| 0 <= i < v.entries.len() ==> IndexEntry::ser_wf(#[trigger] v.entries[i])
    }

    #[verifier::rlimit(50)]
    fn ser(&self, out: &mut Vec<u8>) {
        out.push(82);
        out.push(69);
        out.push(80);
        out.push(65);
        out.push(75);
        out.push(1);
        out.push(0);
        out.push(0);
        write_uleb(out, self.count);
        let ghost head = old(out)@ + magic_bytes() + seq![1u8, 0u8, 0u8] + uleb(self.count as nat);
        proof {
            assert(out@ =~= head + entries_wire(self@.entries.take(0)));
        }
        let n = self.entries.len();
        let mut i: usize = 0;
        #[verifier::loop_isolation(false)]
        while i < n
            invariant
                i <= n,
                n == self.entries@.len(),
                out@ == head + entries_wire(self@.entries.take(i as int)),
            decreases n - i,
        {
            proof {
                assert(self@.entries[i as int] == self.entries@[i as int]@);
            }
            self.entries[i].ser(out);
            proof {
                lemma_entries_wire_push(self@.entries.take(i as int), self@.entries[i as int]);
                assert(self@.entries.take(i + 1) =~= self@.entries.take(i as int).push(
                    self@.entries[i as int],
                ));
                assert(out@ =~= head + entries_wire(self@.entries.take(i + 1)));
            }
            i = i + 1;
        }
        proof {
            assert(self@.entries.take(n as int) =~= self@.entries);
            assert(out@ =~= old(out)@ + Self::wire(self@));
        }
    }
}

/// Reads an uncompressed index header from the front of `b`.
pub open spec fn index_header_parse_plain(b: Seq<u8>) -> Option<(IndexHeaderV, int)> {
    if b.len() < 8 {
        None
    } else if b.take(5) != magic_bytes() {
        None
    } else if b[5] != 1 {
        None
    } else if b[6] != 0 || b[7] != 0 {
        None
    } else {
        let b1 = b.skip(8);
        if !leb_ok(b1) {
            None
        } else {
            let n = leb_len(b1);
            let count = leb_value(b1);
            match parse_entries(b1.skip(n), count) {
                None => None,
                Some(q) => Some(
                    (
                        IndexHeaderV {
                            count: count as u64,
                            entries: q.0,
                            checksum: empty_checksum_header(),
                        },
                        8 + n + q.1,
                    ),
                ),
            }
        }
    }
}

impl IndexHeader {
    /// Reads an uncompressed index header at `*pos`, advancing `*pos`.
    #[verifier::rlimit(50)]
    fn deser_plain(buf: &[u8], pos: &mut usize) -> (r: Result<Self, Error>)
        requires
            *old(pos) <= buf@.len(),
        ensures
            match index_header_parse_plain(buf@.skip(*old(pos) as int)) {
                Some(p) => {
                    &&& r matches Ok(v) && v@ == p.0
                    &&& *final(pos) == *old(pos) + p.1
                },
                None => r is Err,
            },
            header_reject_reason_plain(buf@.skip(*old(pos) as int)) matches Some(cause) ==> (r
                matches Err(e) && e matches Error::Deser(m) && m@ == cause),
            *old(pos) <= *final(pos) <= buf@.len(),
    {
        let ghost p0 = *pos;
        let ghost b = buf@.skip(p0 as int);
        let magic = read_bytes(buf, pos, 5)?;
        proof {
            assert(magic@ =~= b.take(5));
        }
        if !(magic[0] == 82 && magic[1] == 69 && magic[2] == 80 && magic[3] == 65 && magic[4]
            == 75) {
            proof {
                assert(b.take(5) != magic_bytes());
            }
            return Err(Error::Deser("Not a REPAK archive".to_owned()));
        }
        proof {
            assert(b.take(5) =~= magic_bytes());
        }
        let vbyte = read_bytes(buf, pos, 1)?;
        let version = vbyte[0];
        proof {
            assert(version == b[5]);
        }
        if version != 1 {
            let mut m = "Unsupported REPAK version 0x".to_owned();
            m.append(crate::text::byte_to_hex_string(version).as_str());
            return Err(Error::Deser(m));
        }
        let reserved = read_bytes(buf, pos, 2)?;
        proof {
            assert(reserved@[0] == b[6]);
            assert(reserved@[1] == b[7]);
        }
        if !(reserved[0] == 0 && reserved[1] == 0) {
            return Err(Error::Deser("Reserved field is not zero".to_owned()));
        }
        let ghost b1 = buf@.skip(*pos as int);
        proof {
            assert(b1 =~= b.skip(8));
        }
        let count = read_uleb(buf, pos)?;
        proof {
            crate::varint::lemma_leb_len_pos(b1);
            assert(b1.skip(leb_len(b1)) =~= buf@.skip(*pos as int));
        }
        let ghost p3 = *pos;
        let ghost b3 = buf@.skip(p3 as int);
        let mut entries: Vec<IndexEntry> = Vec::new();
        let mut i: u64 = 0;
        proof {
            assert(entry_views(entries@) =~= Seq::<IndexEntryV>::empty());
        }
        #[verifier::loop_isolation(false)]
        while i < count
            invariant
                i <= count,
                *pos <= buf@.len(),
                *pos >= p3,
                match parse_entries(buf@.skip(*pos as int), (count - i) as nat) {
                    Some(q) => parse_entries(b3, count as nat) == Some(
                        (entry_views(entries@) + q.0, (*pos - p3) + q.1),
                    ),
                    None => parse_entries(b3, count as nat) is None,
                },
            decreases count - i,
        {
            let ghost cur = buf@.skip(*pos as int);
            let ghost done = entry_views(entries@);
            let ghost krem = (count - i) as nat;
            let e = match IndexEntry::deser(buf, pos) {
                Ok(e) => e,
                Err(e) => {
                    proof {
                        assert(parse_entries(cur, krem) is None);
                        assert(parse_entries(b3, count as nat) is None);
                        assert(index_header_parse_plain(b) is None);
                    }
                    return Err(e);
                },
            };
            entries.push(e);
            i = i + 1;
            proof {
                let p = IndexEntry::parse(cur)->Some_0;
                assert(cur.skip(p.1) =~= buf@.skip(*pos as int));
                assert(entry_views(entries@) =~= done.push(e@));
                match parse_entries(buf@.skip(*pos as int), (count - i) as nat) {
                    Some(q) => {
                        assert(parse_entries(cur, krem) == Some((seq![p.0] + q.0, p.1 + q.1)));
                        assert(done + (seq![p.0] + q.0) =~= done.push(e@) + q.0);
                    },
                    None => {
                        assert(parse_entries(cur, krem) is None);
                    },
                }
            }
        }
        proof {
            assert(entry_views(entries@) + Seq::<IndexEntryV>::empty() =~= entry_views(entries@));
        }
        let ck = ChecksumHeader::default();
        proof {
            assert(ck@.checksums =~= Seq::<ChecksumV>::empty());
            assert(ck@ == empty_checksum_header());
        }
        Ok(IndexHeader { count, entries, checksum: ck })
    }
}

impl Deser for IndexHeader {
    /// A compressed index (it opens with the zstd magic) is transparently
    /// decompressed and read as a plain one, consuming the whole source.
    open spec fn parse(b: Seq<u8>) -> Option<(IndexHeaderV, int)> {
        if b.len() >= 4 && b.take(4) == zstd_magic_bytes() {
            match zstd_inflate_of(b) {
                None => None,
                Some(d) => match index_header_parse_plain(d) {
                    None => None,
                    Some(p) => Some((p.0, b.len() as int)),
                },
            }
        } else {
            index_header_parse_plain(b)
        }
    }

    fn deser(buf: &[u8], pos: &mut usize) -> (r: Result<Self, Error>)
        ensures
            header_reject_reason(buf@.skip(*old(pos) as int)) matches Some(cause) ==> (r matches
                Err(e) && e matches Error::Deser(m) && m@ == cause),
    {
        let ghost p0 = *pos;
        let ghost b = buf@.skip(p0 as int);
        if buf.len() - *pos >= 4 && buf[*pos] == 0x28 && buf[*pos + 1] == 0xB5 && buf[*pos + 2]
            == 0x2F && buf[*pos + 3] == 0xFD {
            proof {
                assert(b.take(4) =~= zstd_magic_bytes());
            }
            let tail = vstd::slice::slice_subrange(buf, *pos, buf.len());
            proof {
                assert(tail@ =~= b);
            }
            let d = zstd_inflate(tail)?;
            let mut inner: usize = 0;
            proof {
                assert(d@.skip(0) =~= d@);
            }
            let h = Self::deser_plain(d.as_slice(), &mut inner)?;
            *pos = buf.len();
            Ok(h)
        } else {
            proof {
                if b.len() >= 4 {
                    assert(b.take(4) != zstd_magic_bytes()) by {
                        if b.take(4) == zstd_magic_bytes() {
                            assert(b[0] == 0x28 && b[1] == 0xB5 && b[2] == 0x2F && b[3] == 0xFD);
                        }
                    }
                }
            }
            Self::deser_plain(buf, pos)
        }
    }
}

/// A serialized index header, followed by anything, reads back as itself.
/// The checksum slot must be empty: that is how every parsed header comes
/// out.
#[verifier::rlimit(50)]
pub proof fn lemma_index_header_roundtrip(v: IndexHeaderV, rest: Seq<u8>)
    requires
        IndexHeader::ser_wf(v),
        forall|i: int| 0 <= i < v.entries.len() ==> entry_canonical(#[trigger] v.entries[i]),
        v.checksum == empty_checksum_header(),
    ensures
        IndexHeader::parse(IndexHeader::wire(v) + rest) == Some(
            (v, IndexHeader::wire(v).len() as int),
        ),
{
    let ew = entries_wire(v.entries);
    let b = IndexHeader::wire(v) + rest;
    assert(b.take(5) =~= magic_bytes());
    assert(b.take(4) != zstd_magic_bytes()) by {
        assert(b[0] == 0x52);
        if b.take(4) == zstd_magic_bytes() {
            assert(b.take(4)[0] == 0x28);
        }
    }
    assert(IndexHeader::parse(b) == index_header_parse_plain(b));
    assert(b[5] == 1 && b[6] == 0 && b[7] == 0);
    let b1 = b.skip(8);
    assert(b1 =~= uleb(v.count as nat) + (ew + rest));
    crate::varint::lemma_uleb_len_le_10(v.count as nat);
    crate::varint::lemma_leb_roundtrip(v.count as nat, ew + rest);
    let n = leb_len(b1);
    assert(b1.skip(n) =~= ew + rest);
    lemma_entries_roundtrip(v.entries, rest);
}

/// Whatever parses as an entry can be serialized again.
#[verifier::rlimit(50)]
pub proof fn lemma_entry_parse_wf(b: Seq<u8>)
    ensures
        IndexEntry::parse(b) matches Some(p) ==> IndexEntry::ser_wf(p.0),
{
    if IndexEntry::parse(b) is Some {
        let h = parse_entry_head(b)->Some_0;
        let n1 = leb_len(b);
        let b2 = b.skip(n1);
        let b3 = b2.skip(leb_len(b2));
        let b4 = b3.skip(leb_len(b3));
        let nlen = leb_value(b4);
        let b5 = b4.skip(leb_len(b4));
        let nb = b5.take(nlen as int);
        vstd::utf8::decode_utf8_encode_utf8(nb);
        assert(name_key(h.3).len() <= u64::MAX);
        let flags = h.2;
        let b6 = b.skip(h.4);
        crate::encrypt::lemma_encryption_parse_wf(b6);
        let pe = parse_opt::<EncryptionHeader>(b6, flags % 2 == 1)->Some_0;
        let b7 = b6.skip(pe.1);
        crate::compress::lemma_compression_parse_wf(b7);
        let pc = parse_opt::<CompressionHeader>(b7, (flags / 2) % 2 == 1)->Some_0;
        let b8 = b7.skip(pc.1);
        crate::checksum::lemma_checksum_header_parse_wf(b8);
    }
}

/// A sequence of `k` parsed entries has `k` members, all serializable.
pub proof fn lemma_parse_entries_wf(b: Seq<u8>, k: nat)
    ensures
        parse_entries(b, k) matches Some(q) ==> {
            &&& q.0.len() == k
            &&& forall|i: int| 0 <= i < q.0.len() ==> IndexEntry::ser_wf(#[trigger] q.0[i])
        },
    decreases k,
{
    if k > 0 && parse_entries(b, k) is Some {
        let p = IndexEntry::parse(b)->Some_0;
        lemma_entry_parse_wf(b);
        lemma_parse_entries_wf(b.skip(p.1), (k - 1) as nat);
    }
}

/// Whatever plainly parses as an index header can be serialized again.
pub proof fn lemma_index_header_parse_plain_wf(b: Seq<u8>)
    ensures
        index_header_parse_plain(b) matches Some(p) ==> IndexHeader::ser_wf(p.0),
{
    if index_header_parse_plain(b) is Some {
        let b1 = b.skip(8);
        lemma_parse_entries_wf(b1.skip(leb_len(b1)), leb_value(b1));
    }
}

/// Whatever parses as an index header, compressed or not, can be
/// serialized again.
pub proof fn lemma_index_header_parse_wf(b: Seq<u8>)
    ensures
        IndexHeader::parse(b) matches Some(p) ==> IndexHeader::ser_wf(p.0),
{
    if b.len() >= 4 && b.take(4) == zstd_magic_bytes() {
        match zstd_inflate_of(b) {
            None => {},
            Some(d) => {
                lemma_index_header_parse_plain_wf(d);
            },
        }
    } else {
        lemma_index_header_parse_plain_wf(b);
    }
}

/// The directory holds its entries in strictly ascending name order, which
/// also makes names unique.
pub open spec fn entries_sorted(s: Seq<IndexEntryV>) -> bool {
    forall|i: int, j: int|
        0 <= i < j < s.len() ==> lex_lt(
            name_key(#[trigger] s[i].name),
            name_key(#[trigger] s[j].name),
        )
}

/// Some entry of `s` carries this name.
pub open spec fn contains_name(s: Seq<IndexEntryV>, name: Seq<char>) -> bool {
    exists|i: int| 0 <= i < s.len() && (#[trigger] s[i]).name == name
}

/// Inserts an entry at its place in name order, replacing an entry of the
/// same name: what a map insertion does to the flattened directory.
pub open spec fn insert_entry(s: Seq<IndexEntryV>, e: IndexEntryV) -> Seq<IndexEntryV>
    decreases s.len(),
{
    if s.len() == 0 {
        seq![e]
    } else if lex_lt(name_key(e.name), name_key(s[0].name)) {
        seq![e] + s
    } else if e.name == s[0].name {
        seq![e] + s.skip(1)
    } else {
        seq![s[0]] + insert_entry(s.skip(1), e)
    }
}

/// Equal name keys mean equal names.
proof fn lemma_name_key_injective(a: Seq<char>, b: Seq<char>)
    requires
        name_key(a) == name_key(b),
    ensures
        a == b,
{
    vstd::utf8::encode_utf8_decode_utf8(a);
    vstd::utf8::encode_utf8_decode_utf8(b);
}

/// Two distinct names have lex-ordered keys one way or the other.
proof fn lemma_name_order(a: Seq<char>, b: Seq<char>)
    ensures
        a == b || lex_lt(name_key(a), name_key(b)) || lex_lt(name_key(b), name_key(a)),
        !(lex_lt(name_key(a), name_key(b)) && lex_lt(name_key(b), name_key(a))),
        a == b ==> !lex_lt(name_key(a), name_key(b)),
{
    lemma_lex_trichotomy(name_key(a), name_key(b));
    lemma_lex_irreflexive(name_key(a));
    if name_key(a) == name_key(b) {
        lemma_name_key_injective(a, b);
    }
    if lex_lt(name_key(a), name_key(b)) && lex_lt(name_key(b), name_key(a)) {
        lemma_lex_transitive(name_key(a), name_key(b), name_key(a));
    }
}

/// What a map insertion guarantees: order kept, the name present, other
/// names untouched, every entry either the new one or an old one.
pub proof fn lemma_insert_entry_props(s: Seq<IndexEntryV>, e: IndexEntryV)
    requires
        entries_sorted(s),
    ensures
        entries_sorted(insert_entry(s, e)),
        forall|n: Seq<char>|
            #[trigger] contains_name(insert_entry(s, e), n) == (n == e.name || contains_name(s, n)),
        forall|i: int|
            0 <= i < insert_entry(s, e).len() ==> (#[trigger] insert_entry(s, e)[i] == e || exists|
                j: int,
            | 0 <= j < s.len() && insert_entry(s, e)[i] == s[j]),
    decreases s.len(),
{
    let t = insert_entry(s, e);
    if s.len() == 0 {
        assert(t =~= seq![e]);
        assert forall|n: Seq<char>| #[trigger]
            contains_name(t, n) == (n == e.name || contains_name(s, n)) by {
            if n == e.name {
                assert(t[0].name == n);
            }
        }
    } else if lex_lt(name_key(e.name), name_key(s[0].name)) {
        assert(t =~= seq![e] + s);
        assert forall|i: int, j: int|
            0 <= i < j < t.len() implies lex_lt(
            name_key(t[i].name),
            name_key(t[j].name),
        ) by {
            if i == 0 {
                if j > 1 {
                    lemma_lex_transitive(
                        name_key(e.name),
                        name_key(s[0].name),
                        name_key(s[j - 1].name),
                    );
                }
            }
        }
        assert forall|n: Seq<char>| #[trigger]
            contains_name(t, n) == (n == e.name || contains_name(s, n)) by {
            if contains_name(t, n) {
                let i = choose|i: int| 0 <= i < t.len() && t[i].name == n;
                if i > 0 {
                    assert(s[i - 1].name == n);
                }
            }
            if n == e.name {
                assert(t[0].name == n);
            }
            if contains_name(s, n) {
                let i = choose|i: int| 0 <= i < s.len() && s[i].name == n;
                assert(t[i + 1].name == n);
            }
        }
    } else if e.name == s[0].name {
        assert(t =~= seq![e] + s.skip(1));
        assert forall|i: int, j: int|
            0 <= i < j < t.len() implies lex_lt(
            name_key(t[i].name),
            name_key(t[j].name),
        ) by {
            if i == 0 {
                assert(t[j] == s[j]);
                assert(lex_lt(name_key(s[0].name), name_key(s[j].name)));
            } else {
                assert(t[i] == s[i] && t[j] == s[j]);
            }
        }
        assert forall|n: Seq<char>| #[trigger]
            contains_name(t, n) == (n == e.name || contains_name(s, n)) by {
            if contains_name(t, n) {
                let i = choose|i: int| 0 <= i < t.len() && t[i].name == n;
                if i > 0 {
                    assert(s[i].name == n);
                }
            }
            if n == e.name {
                assert(t[0].name == n);
            }
            if contains_name(s, n) && n != e.name {
                let i = choose|i: int| 0 <= i < s.len() && s[i].name == n;
                assert(i > 0);
                assert(t[i].name == n);
            }
        }
        assert forall|i: int|
            0 <= i < t.len() implies (#[trigger] t[i] == e || exists|j: int|
            0 <= j < s.len() && t[i] == s[j]) by {
            if i > 0 {
                assert(t[i] == s[i]);
            }
        }
    } else {
        lemma_name_order(e.name, s[0].name);
        assert(lex_lt(name_key(s[0].name), name_key(e.name)));
        assert(entries_sorted(s.skip(1))) by {
            assert forall|i: int, j: int|
                0 <= i < j < s.skip(1).len() implies lex_lt(
                name_key(s.skip(1)[i].name),
                name_key(s.skip(1)[j].name),
            ) by {
                assert(s.skip(1)[i] == s[i + 1] && s.skip(1)[j] == s[j + 1]);
            }
        }
        lemma_insert_entry_props(s.skip(1), e);
        let u = insert_entry(s.skip(1), e);
        assert(t =~= seq![s[0]] + u);
        assert forall|i: int, j: int|
            0 <= i < j < t.len() implies lex_lt(
            name_key(t[i].name),
            name_key(t[j].name),
        ) by {
            if i == 0 {
                assert(t[j] == u[j - 1]);
                if u[j - 1] == e {
                } else {
                    let k = choose|k: int| 0 <= k < s.skip(1).len() && u[j - 1] == s.skip(1)[k];
                    assert(s.skip(1)[k] == s[k + 1]);
                    assert(lex_lt(name_key(s[0].name), name_key(s[k + 1].name)));
                }
            } else {
                assert(t[i] == u[i - 1] && t[j] == u[j - 1]);
            }
        }
        assert forall|n: Seq<char>| #[trigger]
            contains_name(t, n) == (n == e.name || contains_name(s, n)) by {
            if contains_name(t, n) {
                let i = choose|i: int| 0 <= i < t.len() && t[i].name == n;
                if i == 0 {
                    assert(s[0].name == n);
                } else {
                    assert(u[i - 1].name == n);
                    assert(contains_name(u, n));
                    if n != e.name {
                        let k = choose|k: int| 0 <= k < s.skip(1).len() && s.skip(1)[k].name == n;
                        assert(s[k + 1].name == n);
                    }
                }
            }
            if n == e.name {
                assert(contains_name(u, n));
                let k = choose|k: int| 0 <= k < u.len() && u[k].name == n;
                assert(t[k + 1].name == n);
            }
            if contains_name(s, n) {
                let i = choose|i: int| 0 <= i < s.len() && s[i].name == n;
                if i == 0 {
                    assert(t[0].name == n);
                } else {
                    assert(s.skip(1)[i - 1].name == n);
                    assert(contains_name(s.skip(1), n));
                    assert(contains_name(u, n));
                    let k = choose|k: int| 0 <= k < u.len() && u[k].name == n;
                    assert(t[k + 1].name == n);
                }
            }
        }
        assert forall|i: int|
            0 <= i < t.len() implies (#[trigger] t[i] == e || exists|j: int|
            0 <= j < s.len() && t[i] == s[j]) by {
            if i == 0 {
                assert(t[0] == s[0]);
            } else {
                assert(t[i] == u[i - 1]);
                if u[i - 1] != e {
                    let k = choose|k: int| 0 <= k < s.skip(1).len() && u[i - 1] == s.skip(1)[k];
                    assert(t[i] == s[k + 1]);
                }
            }
        }
    }
}

/// Where the insertion lands: at the first position whose entry does not
/// order below the new name, replacing it when the names are equal.
proof fn lemma_insert_entry_at(s: Seq<IndexEntryV>, e: IndexEntryV, p: int)
    requires
        entries_sorted(s),
        0 <= p <= s.len(),
        forall|i: int| 0 <= i < p ==> lex_lt(name_key(#[trigger] s[i].name), name_key(e.name)),
        p < s.len() ==> !lex_lt(name_key(s[p].name), name_key(e.name)),
    ensures
        p < s.len() && s[p].name == e.name ==> insert_entry(s, e) == s.update(p, e),
        !(p < s.len() && s[p].name == e.name) ==> insert_entry(s, e) == s.insert(p, e),
    decreases s.len(),
{
    if s.len() == 0 {
        assert(insert_entry(s, e) =~= s.insert(0, e));
    } else if p == 0 {
        lemma_name_order(e.name, s[0].name);
        if s[0].name == e.name {
            assert(insert_entry(s, e) =~= s.update(0, e));
        } else {
            assert(lex_lt(name_key(e.name), name_key(s[0].name)));
            assert(insert_entry(s, e) =~= s.insert(0, e));
        }
    } else {
        lemma_name_order(e.name, s[0].name);
        assert(lex_lt(name_key(s[0].name), name_key(e.name)));
        assert(entries_sorted(s.skip(1))) by {
            assert forall|i: int, j: int|
                0 <= i < j < s.skip(1).len() implies lex_lt(
                name_key(s.skip(1)[i].name),
                name_key(s.skip(1)[j].name),
            ) by {
                assert(s.skip(1)[i] == s[i + 1] && s.skip(1)[j] == s[j + 1]);
            }
        }
        assert forall|i: int| 0 <= i < p - 1 implies lex_lt(
            name_key(#[trigger] s.skip(1)[i].name),
            name_key(e.name),
        ) by {
            assert(s.skip(1)[i] == s[i + 1]);
        }
        assert(p - 1 < s.skip(1).len() ==> !lex_lt(name_key(s.skip(1)[p - 1].name), name_key(e.name)));
        lemma_insert_entry_at(s.skip(1), e, p - 1);
        if p < s.len() && s[p].name == e.name {
            assert(s.skip(1)[p - 1] == s[p]);
            assert(insert_entry(s, e) =~= seq![s[0]] + s.skip(1).update(p - 1, e));
            assert(seq![s[0]] + s.skip(1).update(p - 1, e) =~= s.update(p, e));
        } else {
            assert(insert_entry(s, e) =~= seq![s[0]] + s.skip(1).insert(p - 1, e));
            assert(seq![s[0]] + s.skip(1).insert(p - 1, e) =~= s.insert(p, e));
        }
    }
}

/// An entry above every name in the directory goes to the end.
proof fn lemma_insert_entry_append(s: Seq<IndexEntryV>, e: IndexEntryV)
    requires
        entries_sorted(s),
        forall|i: int| 0 <= i < s.len() ==> lex_lt(name_key(#[trigger] s[i].name), name_key(e.name)),
    ensures
        insert_entry(s, e) == s.push(e),
{
    lemma_insert_entry_at(s, e, s.len() as int);
    assert(s.insert(s.len() as int, e) =~= s.push(e));
}

/// Inserts an entry into the name-ordered directory, replacing an entry of
/// the same name.
pub fn sorted_insert(entries: &mut Vec<IndexEntry>, e: IndexEntry)
    requires
        entries_sorted(entry_views(old(entries)@)),
    ensures
        entry_views(final(entries)@) == insert_entry(entry_views(old(entries)@), e@),
{
    let ghost s = entry_views(entries@);
    let n = entries.len();
    let mut j: usize = 0;
    #[verifier::loop_isolation(false)]
    while j < n && name_lt(entries[j].name.as_str(), e.name.as_str())
        invariant
            j <= n,
            forall|i: int| 0 <= i < j ==> lex_lt(name_key(#[trigger] s[i].name), name_key(e@.name)),
        decreases n - j,
    {
        j = j + 1;
    }
    proof {
        assert(j < n ==> !lex_lt(name_key(s[j as int].name), name_key(e@.name)));
        lemma_insert_entry_at(s, e@, j as int);
    }
    if j < n && name_eq(entries[j].name.as_str(), e.name.as_str()) {
        vstd::pervasive::VecAdditionalExecFns::set(entries, j, e);
        proof {
            assert(entry_views(entries@) =~= s.update(j as int, e@));
        }
    } else {
        entries.insert(j, e);
        proof {
            assert(entry_views(entries@) =~= s.insert(j as int, e@));
        }
    }
}

/// Rebuilds a directory from entries in file order: each is inserted in
/// name order, a later duplicate replacing an earlier one.
pub open spec fn normalize(s: Seq<IndexEntryV>) -> Seq<IndexEntryV>
    decreases s.len(),
{
    if s.len() == 0 {
        Seq::empty()
    } else {
        insert_entry(normalize(s.drop_last()), s.last())
    }
}

/// A rebuilt directory is ordered, holds exactly the names of its input,
/// and holds only entries of its input.
pub proof fn lemma_normalize_props(s: Seq<IndexEntryV>)
    ensures
        entries_sorted(normalize(s)),
        forall|n: Seq<char>| #[trigger] contains_name(normalize(s), n) == contains_name(s, n),
        forall|i: int|
            0 <= i < normalize(s).len() ==> exists|j: int|
                0 <= j < s.len() && #[trigger] normalize(s)[i] == s[j],
    decreases s.len(),
{
    if s.len() == 0 {
        assert(entries_sorted(normalize(s)));
        assert forall|n: Seq<char>| #[trigger]
            contains_name(normalize(s), n) == contains_name(s, n) by {}
    } else {
        let d = s.drop_last();
        lemma_normalize_props(d);
        lemma_insert_entry_props(normalize(d), s.last());
        let t = normalize(s);
        assert forall|n: Seq<char>| #[trigger] contains_name(t, n) == contains_name(s, n) by {
            assert(contains_name(t, n) == (n == s.last().name || contains_name(normalize(d), n)));
            if contains_name(s, n) {
                let i = choose|i: int| 0 <= i < s.len() && s[i].name == n;
                if i < s.len() - 1 {
                    assert(d[i].name == n);
                    assert(contains_name(d, n));
                } else {
                    assert(n == s.last().name);
                }
            }
            if contains_name(d, n) {
                let i = choose|i: int| 0 <= i < d.len() && d[i].name == n;
                assert(s[i].name == n);
            }
            if n == s.last().name {
                assert(s[s.len() - 1].name == n);
            }
        }
        assert forall|i: int|
            0 <= i < t.len() implies exists|j: int| 0 <= j < s.len() && #[trigger] t[i] == s[j] by {
            if t[i] == s.last() {
                assert(t[i] == s[s.len() - 1]);
            } else {
                let k = choose|k: int| 0 <= k < normalize(d).len() && t[i] == normalize(d)[k];
                let j = choose|j: int| 0 <= j < d.len() && normalize(d)[k] == d[j];
                assert(t[i] == s[j]);
            }
        }
    }
}

/// Rebuilding an already ordered directory changes nothing.
pub proof fn lemma_normalize_sorted_id(s: Seq<IndexEntryV>)
    requires
        entries_sorted(s),
    ensures
        normalize(s) == s,
    decreases s.len(),
{
    if s.len() != 0 {
        let d = s.drop_last();
        assert(entries_sorted(d)) by {
            assert forall|i: int, j: int|
                0 <= i < j < d.len() implies lex_lt(
                name_key(d[i].name),
                name_key(d[j].name),
            ) by {
                assert(d[i] == s[i] && d[j] == s[j]);
            }
        }
        lemma_normalize_sorted_id(d);
        assert forall|i: int| 0 <= i < d.len() implies lex_lt(
            name_key(#[trigger] d[i].name),
            name_key(s.last().name),
        ) by {
            assert(d[i] == s[i]);
        }
        lemma_insert_entry_append(d, s.last());
        assert(d.push(s.last()) =~= s);
    }
}

/// Rebuilds a directory read from disk into name order.
pub fn normalize_entries(src: Vec<IndexEntry>) -> (r: Vec<IndexEntry>)
    ensures
        entry_views(r@) == normalize(entry_views(src@)),
        entries_sorted(entry_views(r@)),
{
    let ghost orig = entry_views(src@);
    let mut src = src;
    let mut out: Vec<IndexEntry> = Vec::new();
    let ghost i: int = 0;
    proof {
        assert(entry_views(out@) =~= normalize(orig.take(0)));
        assert(entry_views(src@) =~= orig.skip(0));
    }
    #[verifier::loop_isolation(false)]
    while src.len() > 0
        invariant
            0 <= i <= orig.len(),
            entry_views(src@) == orig.skip(i),
            entry_views(out@) == normalize(orig.take(i)),
            entries_sorted(entry_views(out@)),
        decreases src@.len(),
    {
        proof {
            assert(entry_views(src@).len() == src@.len());
            assert(i < orig.len());
        }
        let ghost prev = src@;
        let e = src.remove(0);
        proof {
            assert(entry_views(prev)[0] == prev[0]@);
            assert(orig.skip(i)[0] == orig[i]);
            assert(e@ == orig[i]);
            assert forall|k: int| 0 <= k < src@.len() implies entry_views(src@)[k] == orig.skip(
                i + 1,
            )[k] by {
                assert(src@[k] == prev[k + 1]);
                assert(entry_views(prev)[k + 1] == prev[k + 1]@);
            }
            assert(entry_views(src@).len() == src@.len());
            assert(entry_views(src@) =~= orig.skip(i + 1));
        }
        let ghost before = entry_views(out@);
        sorted_insert(&mut out, e);
        proof {
            lemma_insert_entry_props(before, e@);
            assert(orig.take(i + 1).drop_last() =~= orig.take(i));
            assert(orig.take(i + 1).last() == orig[i]);
            assert(entry_views(out@) == normalize(orig.take(i + 1)));
        }
        proof {
            i = i + 1;
        }
    }
    proof {
        assert(orig.take(orig.len() as int) =~= orig);
        assert(orig.skip(i).len() == 0);
    }
    out
}

/// Finds the entry carrying a name, if one does.
pub fn find_entry(entries: &Vec<IndexEntry>, name: &str) -> (r: Option<usize>)
    ensures
        match r {
            Some(i) => i < entries@.len() && entry_views(entries@)[i as int].name == name@,
            None => !contains_name(entry_views(entries@), name@),
        },
{
    let n = entries.len();
    let mut i: usize = 0;
    #[verifier::loop_isolation(false)]
    while i < n
        invariant
            i <= n,
            forall|j: int| 0 <= j < i ==> entry_views(entries@)[j].name != name@,
        decreases n - i,
    {
        if name_eq(entries[i].name.as_str(), name) {
            return Some(i);
        }
        i = i + 1;
    }
    None
}

} // verus!
