//! Checksum subsystem: the algorithm tag, per-entry digest storage, and the
//! header that carries a count-prefixed sequence of digests on the wire.
//!
//! Only the SHA3 algorithm's digest length is pinned by the format (64
//! bytes, SHA3-512); the remaining tags are reserved and carry no digest
//! bytes yet.

use vstd::prelude::*;

use crate::Error;
use crate::io::{Deser, Ser, push_bytes, read_bytes};
use crate::text::dec_digits;
use crate::varint::{leb_len, leb_ok, leb_value, read_uleb, uleb, write_uleb};

verus! {

/// The checksum algorithms the format names.
#[derive(Clone, Copy, Debug, PartialEq, Eq, Structural)]
pub enum ChecksumKind {
    SHA3,
    K12,
    BLAKE3,
    Xxhash3,
    MetroHash,
    SeaHash,
    CityHash,
}

/// The wire tag of each checksum algorithm.
pub open spec fn checksum_tag(k: ChecksumKind) -> nat {
    match k {
        ChecksumKind::SHA3 => 1,
        ChecksumKind::K12 => 2,
        ChecksumKind::BLAKE3 => 3,
        ChecksumKind::Xxhash3 => 4,
        ChecksumKind::MetroHash => 5,
        ChecksumKind::SeaHash => 6,
        ChecksumKind::CityHash => 7,
    }
}

/// The algorithm a wire tag names, when it names one.
pub open spec fn checksum_of_tag(v: nat) -> Option<ChecksumKind> {
    if v == 1 {
        Some(ChecksumKind::SHA3)
    } else if v == 2 {
        Some(ChecksumKind::K12)
    } else if v == 3 {
        Some(ChecksumKind::BLAKE3)
    } else if v == 4 {
        Some(ChecksumKind::Xxhash3)
    } else if v == 5 {
        Some(ChecksumKind::MetroHash)
    } else if v == 6 {
        Some(ChecksumKind::SeaHash)
    } else if v == 7 {
        Some(ChecksumKind::CityHash)
    } else {
        None
    }
}

/// Bytes of digest each algorithm stores on the wire. Only SHA3's length is
/// pinned; the reserved algorithms store none.
pub open spec fn spec_digest_len(k: ChecksumKind) -> nat {
    match k {
        ChecksumKind::SHA3 => 64,
        _ => 0,
    }
}

/// The message that reports a tag no algorithm owns.
pub open spec fn unknown_checksum_msg(v: nat) -> Seq<char> {
    "Unknown checksum kind: "@ + dec_digits(v)
}

impl ChecksumKind {
    /// The wire tag of this algorithm.
    pub fn as_u64(self) -> (r: u64)
        ensures
            r == checksum_tag(self),
    {
        match self {
            ChecksumKind::SHA3 => 1,
            ChecksumKind::K12 => 2,
            ChecksumKind::BLAKE3 => 3,
            ChecksumKind::Xxhash3 => 4,
            ChecksumKind::MetroHash => 5,
            ChecksumKind::SeaHash => 6,
            ChecksumKind::CityHash => 7,
        }
    }

    /// Bytes of digest this algorithm stores on the wire.
    pub fn digest_len(self) -> (r: usize)
        ensures
            r == spec_digest_len(self),
    {
        match self {
            ChecksumKind::SHA3 => 64,
            _ => 0,
        }
    }

    /// The algorithm a wire tag names; an unknown tag is a fatal
    /// deserialization error.
    pub fn try_from(value: u64) -> (r: Result<Self, Error>)
        ensures
            match checksum_of_tag(value as nat) {
                Some(k) => r matches Ok(x) && x == k,
                None => {
                    &&& r matches Err(e)
                    &&& e matches Error::Deser(m) && m@ == unknown_checksum_msg(value as nat)
                },
            },
    {
        match value {
            1 => Ok(ChecksumKind::SHA3),
            2 => Ok(ChecksumKind::K12),
            3 => Ok(ChecksumKind::BLAKE3),
            4 => Ok(ChecksumKind::Xxhash3),
            5 => Ok(ChecksumKind::MetroHash),
            6 => Ok(ChecksumKind::SeaHash),
            7 => Ok(ChecksumKind::CityHash),
            _ => {
                let mut m = "Unknown checksum kind: ".to_owned();
                m.append(crate::text::u64_to_string(value).as_str());
                Err(Error::Deser(m))
            },
        }
    }
}

/// One digest: the algorithm that produced it and its bytes.
#[derive(Debug)]
pub struct Checksum {
    pub kind: ChecksumKind,
    pub payload: Vec<u8>,
}

/// Mathematical image of a [`Checksum`].
pub struct ChecksumV {
    pub kind: ChecksumKind,
    pub payload: Seq<u8>,
}

impl View for Checksum {
    type V = ChecksumV;

    open spec fn view(&self) -> ChecksumV {
        ChecksumV { kind: self.kind, payload: self.payload@ }
    }
}

impl Ser for Checksum {
    open spec fn wire(v: ChecksumV) -> Seq<u8> {
        uleb(checksum_tag(v.kind)) + v.payload
    }

    open spec fn ser_wf(v: ChecksumV) -> bool {
        v.payload.len() == spec_digest_len(v.kind)
    }

    fn ser(&self, out: &mut Vec<u8>) {
        write_uleb(out, self.kind.as_u64());
        push_bytes(out, self.payload.as_slice());
        proof {
            assert(out@ =~= old(out)@ + Self::wire(self@));
        }
    }
}

/// The tag a reader rejects: the leading integer parses but names no
/// algorithm.
pub open spec fn checksum_tag_reject(b: Seq<u8>) -> Option<nat> {
    if leb_ok(b) && checksum_of_tag(leb_value(b)) is None {
        Some(leb_value(b))
    } else {
        None
    }
}

impl Deser for Checksum {
    open spec fn parse(b: Seq<u8>) -> Option<(ChecksumV, int)> {
        if !leb_ok(b) {
            None
        } else {
            let n = leb_len(b);
            match checksum_of_tag(leb_value(b)) {
                None => None,
                Some(kind) => {
                    let dl = spec_digest_len(kind);
                    if n + dl <= b.len() {
                        Some((ChecksumV { kind, payload: b.subrange(n, n + dl) }, n + dl))
                    } else {
                        None
                    }
                },
            }
        }
    }

    fn deser(buf: &[u8], pos: &mut usize) -> (r: Result<Self, Error>)
        ensures
            checksum_tag_reject(buf@.skip(*old(pos) as int)) matches Some(t) ==> (r matches Err(e)
                && e matches Error::Deser(m) && m@ == unknown_checksum_msg(t)),
    {
        let ghost p0 = *pos;
        let ghost s = buf@.skip(p0 as int);
        let tag = read_uleb(buf, pos)?;
        let kind = ChecksumKind::try_from(tag)?;
        let payload = read_bytes(buf, pos, kind.digest_len())?;
        proof {
            crate::varint::lemma_leb_len_pos(s);
            assert(s.len() == buf@.len() - p0);
            assert(payload@ =~= s.subrange(leb_len(s), leb_len(s) + spec_digest_len(kind)));
        }
        Ok(Checksum { kind, payload })
    }
}

/// Views of a sequence of checksums.
pub open spec fn checksum_views(s: Seq<Checksum>) -> Seq<ChecksumV> {
    s.map_values(|c: Checksum| c@)
}

/// The concatenated wire bytes of a sequence of checksums.
pub open spec fn checksums_wire(s: Seq<ChecksumV>) -> Seq<u8>
    decreases s.len(),
{
    if s.len() == 0 {
        Seq::empty()
    } else {
        Checksum::wire(s[0]) + checksums_wire(s.skip(1))
    }
}

/// Reads exactly `k` checksums from the front of `b`.
pub open spec fn parse_checksums(b: Seq<u8>, k: nat) -> Option<(Seq<ChecksumV>, int)>
    decreases k,
{
    if k == 0 {
        Some((Seq::empty(), 0))
    } else {
        match Checksum::parse(b) {
            None => None,
            Some(p) => match parse_checksums(b.skip(p.1), (k - 1) as nat) {
                None => None,
                Some(q) => Some((seq![p.0] + q.0, p.1 + q.1)),
            },
        }
    }
}

/// Serializing one more checksum appends its bytes.
pub proof fn lemma_checksums_wire_push(s: Seq<ChecksumV>, c: ChecksumV)
    ensures
        checksums_wire(s.push(c)) == checksums_wire(s) + Checksum::wire(c),
    decreases s.len(),
{
    if s.len() == 0 {
        let t = s.push(c);
        assert(t[0] == c);
        assert(t.skip(1) =~= Seq::<ChecksumV>::empty());
        assert(checksums_wire(t.skip(1)) == Seq::<u8>::empty());
        assert(checksums_wire(t) == Checksum::wire(c) + checksums_wire(t.skip(1)));
        assert(checksums_wire(t) =~= checksums_wire(s) + Checksum::wire(c));
    } else {
        lemma_checksums_wire_push(s.skip(1), c);
        assert(s.push(c)[0] == s[0]);
        assert(s.push(c).skip(1) =~= s.skip(1).push(c));
        assert(checksums_wire(s.push(c)) =~= checksums_wire(s) + Checksum::wire(c));
    }
}

/// A serialized checksum, followed by anything, reads back as itself.
pub proof fn lemma_checksum_roundtrip(v: ChecksumV, rest: Seq<u8>)
    requires
        Checksum::ser_wf(v),
    ensures
        Checksum::parse(Checksum::wire(v) + rest) == Some((v, Checksum::wire(v).len() as int)),
{
    let w = Checksum::wire(v);
    let b = w + rest;
    let t = checksum_tag(v.kind);
    crate::varint::lemma_leb_roundtrip(t, v.payload + rest);
    assert(b =~= uleb(t) + (v.payload + rest));
    assert(leb_len(b) == 1);
    assert(b.subrange(1, 1 + spec_digest_len(v.kind) as int) =~= v.payload);
}

/// A serialized sequence of checksums, followed by anything, reads back as
/// itself.
pub proof fn lemma_checksums_roundtrip(s: Seq<ChecksumV>, rest: Seq<u8>)
    requires
        forall|i: int| 0 <= i < s.len() ==> Checksum::ser_wf(#[trigger] s[i]),
    ensures
        parse_checksums(checksums_wire(s) + rest, s.len() as nat) == Some(
            (s, checksums_wire(s).len() as int),
        ),
    decreases s.len(),
{
    if s.len() == 0 {
        assert(s =~= Seq::<ChecksumV>::empty());
    } else {
        let w0 = Checksum::wire(s[0]);
        let wr = checksums_wire(s.skip(1));
        let b = checksums_wire(s) + rest;
        assert(b =~= w0 + (wr + rest));
        lemma_checksum_roundtrip(s[0], wr + rest);
        assert(b.skip(w0.len() as int) =~= wr + rest);
        lemma_checksums_roundtrip(s.skip(1), rest);
        assert(seq![s[0]] + s.skip(1) =~= s);
    }
}

/// Archive-wide sequence of digests over one payload, as stored per entry.
#[derive(Debug)]
pub struct ChecksumHeader {
    pub size: u64,
    pub count: u64,
    pub checksums: Vec<Checksum>,
}

/// Mathematical image of a [`ChecksumHeader`].
pub struct ChecksumHeaderV {
    pub size: u64,
    pub count: u64,
    pub checksums: Seq<ChecksumV>,
}

impl View for ChecksumHeader {
    type V = ChecksumHeaderV;

    open spec fn view(&self) -> ChecksumHeaderV {
        ChecksumHeaderV {
            size: self.size,
            count: self.count,
            checksums: checksum_views(self.checksums@),
        }
    }
}

impl Default for ChecksumHeader {
    /// An empty header: no digests.
    fn default() -> (r: Self)
        ensures
            r@.size == 0,
            r@.count == 0,
            r@.checksums.len() == 0,
    {
        let r = ChecksumHeader { size: 0, count: 0, checksums: Vec::new() };
        proof {
            assert(r@.checksums =~= Seq::<ChecksumV>::empty());
        }
        r
    }
}

impl Ser for ChecksumHeader {
    open spec fn wire(v: ChecksumHeaderV) -> Seq<u8> {
        uleb(v.size as nat) + uleb(v.count as nat) + checksums_wire(v.checksums)
    }

    open spec fn ser_wf(v: ChecksumHeaderV) -> bool {
        &&& v.count == v.checksums.len()
        &&& forall|i: int| 0 <= i < v.checksums.len() ==> Checksum::ser_wf(#[trigger] v.checksums[i])
    }

    fn ser(&self, out: &mut Vec<u8>) {
        write_uleb(out, self.size);
        write_uleb(out, self.count);
        let ghost head = old(out)@ + uleb(self.size as nat) + uleb(self.count as nat);
        proof {
            assert(out@ =~= head + checksums_wire(self@.checksums.take(0)));
        }
        let n = self.checksums.len();
        let mut i: usize = 0;
        while i < n
            invariant
                i <= n,
                n == self.checksums@.len(),
                Self::ser_wf(self@),
                out@ == head + checksums_wire(self@.checksums.take(i as int)),
            decreases n - i,
        {
            proof {
                assert(self@.checksums[i as int] == self.checksums@[i as int]@);
            }
            self.checksums[i].ser(out);
            proof {
                lemma_checksums_wire_push(self@.checksums.take(i as int), self@.checksums[i as int]);
                assert(self@.checksums.take(i + 1) =~= self@.checksums.take(i as int).push(
                    self@.checksums[i as int],
                ));
                assert(out@ =~= head + checksums_wire(self@.checksums.take(i + 1)));
            }
            i = i + 1;
        }
        proof {
            assert(self@.checksums.take(n as int) =~= self@.checksums);
            assert(out@ =~= old(out)@ + Self::wire(self@));
        }
    }
}

impl Deser for ChecksumHeader {
    open spec fn parse(b: Seq<u8>) -> Option<(ChecksumHeaderV, int)> {
        if !leb_ok(b) {
            None
        } else {
            let n1 = leb_len(b);
            let size = leb_value(b);
            let b2 = b.skip(n1);
            if !leb_ok(b2) {
                None
            } else {
                let n2 = leb_len(b2);
                let count = leb_value(b2);
                match parse_checksums(b2.skip(n2), count) {
                    None => None,
                    Some(q) => Some(
                        (
                            ChecksumHeaderV {
                                size: size as u64,
                                count: count as u64,
                                checksums: q.0,
                            },
                            n1 + n2 + q.1,
                        ),
                    ),
                }
            }
        }
    }

    fn deser(buf: &[u8], pos: &mut usize) -> (r: Result<Self, Error>) {
        let ghost p0 = *pos;
        let ghost b = buf@.skip(p0 as int);
        let size = read_uleb(buf, pos)?;
        proof {
            crate::varint::lemma_leb_len_pos(b);
            assert(b.skip(leb_len(b)) =~= buf@.skip(*pos as int));
        }
        let ghost b2 = buf@.skip(*pos as int);
        let count = read_uleb(buf, pos)?;
        proof {
            crate::varint::lemma_leb_len_pos(b2);
            assert(b2.skip(leb_len(b2)) =~= buf@.skip(*pos as int));
        }
        let ghost p3 = *pos;
        let ghost b3 = buf@.skip(p3 as int);
        proof {
            // the mathematical parse of `b` works on exactly these suffixes
            assert(b.skip(leb_len(b)) == b2);
            assert(b2.skip(leb_len(b2)) == b3);
        }
        let mut checksums: Vec<Checksum> = Vec::new();
        let mut i: u64 = 0;
        proof {
            assert(checksum_views(checksums@) =~= Seq::<ChecksumV>::empty());
        }
        #[verifier::loop_isolation(false)]
        while i < count
            invariant
                i <= count,
                *pos <= buf@.len(),
                p3 <= buf@.len(),
                b3 == buf@.skip(p3 as int),
                *pos >= p3,
                match parse_checksums(buf@.skip(*pos as int), (count - i) as nat) {
                    Some(q) => parse_checksums(b3, count as nat) == Some(
                        (checksum_views(checksums@) + q.0, (*pos - p3) + q.1),
                    ),
                    None => parse_checksums(b3, count as nat) is None,
                },
            decreases count - i,
        {
            let ghost cur = buf@.skip(*pos as int);
            let ghost done = checksum_views(checksums@);
            let ghost before = *pos;
            let ghost krem = (count - i) as nat;
            let c = match Checksum::deser(buf, pos) {
                Ok(c) => c,
                Err(e) => {
                    proof {
                        assert(parse_checksums(cur, krem) is None);
                        assert(parse_checksums(b3, count as nat) is None);
                        assert(Self::parse(b) is None);
                    }
                    return Err(e);
                },
            };
            checksums.push(c);
            i = i + 1;
            proof {
                let p = Checksum::parse(cur)->Some_0;
                crate::varint::lemma_leb_len_pos(cur);
                assert(p.1 >= 0);
                assert(cur.skip(p.1) =~= buf@.skip(*pos as int));
                assert(checksum_views(checksums@) =~= done.push(c@));
                match parse_checksums(buf@.skip(*pos as int), (count - i) as nat) {
                    Some(q) => {
                        assert(parse_checksums(cur, krem) == Some(
                            (seq![p.0] + q.0, p.1 + q.1),
                        ));
                        assert(done + (seq![p.0] + q.0) =~= done.push(c@) + q.0);
                    },
                    None => {
                        assert(parse_checksums(cur, krem) is None);
                    },
                }
            }
        }
        proof {
            assert(checksum_views(checksums@) + Seq::<ChecksumV>::empty() =~= checksum_views(
                checksums@,
            ));
        }
        Ok(ChecksumHeader { size, count, checksums })
    }
}

/// A serialized checksum header, followed by anything, reads back as itself.
pub proof fn lemma_checksum_header_roundtrip(v: ChecksumHeaderV, rest: Seq<u8>)
    requires
        ChecksumHeader::ser_wf(v),
    ensures
        ChecksumHeader::parse(ChecksumHeader::wire(v) + rest) == Some(
            (v, ChecksumHeader::wire(v).len() as int),
        ),
{
    let cw = checksums_wire(v.checksums);
    let b = ChecksumHeader::wire(v) + rest;
    crate::varint::lemma_uleb_len_le_10(v.size as nat);
    crate::varint::lemma_uleb_len_le_10(v.count as nat);
    crate::varint::lemma_leb_roundtrip(v.size as nat, uleb(v.count as nat) + cw + rest);
    assert(b =~= uleb(v.size as nat) + (uleb(v.count as nat) + cw + rest));
    let n1 = leb_len(b);
    let b2 = b.skip(n1);
    assert(b2 =~= uleb(v.count as nat) + (cw + rest));
    crate::varint::lemma_leb_roundtrip(v.count as nat, cw + rest);
    let n2 = leb_len(b2);
    let b3 = b2.skip(n2);
    assert(b3 =~= cw + rest);
    lemma_checksums_roundtrip(v.checksums, rest);
}

/// Whatever parses as a checksum can be serialized again.
pub proof fn lemma_checksum_parse_wf(b: Seq<u8>)
    ensures
        Checksum::parse(b) matches Some(p) ==> Checksum::ser_wf(p.0),
{
    if Checksum::parse(b) is Some {
        crate::varint::lemma_leb_len_pos(b);
        let n = leb_len(b);
        let kind = checksum_of_tag(leb_value(b))->Some_0;
        assert(b.subrange(n, n + spec_digest_len(kind) as int).len() == spec_digest_len(kind));
    }
}

/// A sequence of `k` parsed checksums has `k` members, all serializable.
pub proof fn lemma_parse_checksums_wf(b: Seq<u8>, k: nat)
    ensures
        parse_checksums(b, k) matches Some(q) ==> {
            &&& q.0.len() == k
            &&& forall|i: int| 0 <= i < q.0.len() ==> Checksum::ser_wf(#[trigger] q.0[i])
        },
    decreases k,
{
    if k > 0 && parse_checksums(b, k) is Some {
        let p = Checksum::parse(b)->Some_0;
        lemma_checksum_parse_wf(b);
        lemma_parse_checksums_wf(b.skip(p.1), (k - 1) as nat);
    }
}

/// Whatever parses as a checksum header can be serialized again.
pub proof fn lemma_checksum_header_parse_wf(b: Seq<u8>)
    ensures
        ChecksumHeader::parse(b) matches Some(p) ==> ChecksumHeader::ser_wf(p.0),
{
    if ChecksumHeader::parse(b) is Some {
        let b2 = b.skip(leb_len(b));
        lemma_parse_checksums_wf(b2.skip(leb_len(b2)), leb_value(b2));
    }
}

/// What SHA3-512 returns for a byte string; the digest is a function of the
/// input alone.
pub uninterp spec fn sha3_512_of(b: Seq<u8>) -> Seq<u8>;

/// Relies on `sha3::Sha3_512` through the digest API: a 64-byte digest that
/// depends on the input bytes alone.
#[verifier::external_body]
fn sha3_512(data: &[u8]) -> (r: Vec<u8>)
    ensures
        r@ == sha3_512_of(data@),
        r@.len() == 64,
{
    <sha3::Sha3_512 as sha3::Digest>::digest(data).to_vec()
}

/// The digest bytes an algorithm stores for a payload; the reserved
/// algorithms store none.
pub open spec fn digest_of(k: ChecksumKind, b: Seq<u8>) -> Seq<u8> {
    match k {
        ChecksumKind::SHA3 => sha3_512_of(b),
        _ => Seq::empty(),
    }
}

/// Computes the digest an algorithm stores for a payload.
pub fn compute_digest(k: ChecksumKind, data: &[u8]) -> (r: Vec<u8>)
    ensures
        r@ == digest_of(k, data@),
        r@.len() == spec_digest_len(k),
{
    match k {
        ChecksumKind::SHA3 => sha3_512(data),
        _ => {
            let r: Vec<u8> = Vec::new();
            proof {
                assert(r@ =~= digest_of(k, data@));
            }
            r
        },
    }
}

/// The header an append with checksum algorithm `k` records for payload `b`:
/// a single digest, with `size` covering the count and the digest record.
pub open spec fn one_checksum_header(k: ChecksumKind, b: Seq<u8>) -> ChecksumHeaderV {
    ChecksumHeaderV {
        size: (2 + spec_digest_len(k)) as u64,
        count: 1,
        checksums: seq![ChecksumV { kind: k, payload: digest_of(k, b) }],
    }
}

/// Builds the checksum header an append with algorithm `k` stores for
/// payload `data`.
pub fn build_checksum_header(k: ChecksumKind, data: &[u8]) -> (r: ChecksumHeader)
    ensures
        r@ == one_checksum_header(k, data@),
        ChecksumHeader::ser_wf(r@),
{
    let dl = k.digest_len();
    let payload = compute_digest(k, data);
    let mut checksums: Vec<Checksum> = Vec::new();
    checksums.push(Checksum { kind: k, payload });
    let r = ChecksumHeader { size: 2 + dl as u64, count: 1, checksums };
    proof {
        assert(r@.checksums =~= one_checksum_header(k, data@).checksums);
    }
    r
}

/// Every digest a header stores is the one its algorithm computes for `b`.
pub open spec fn checksums_match(v: ChecksumHeaderV, b: Seq<u8>) -> bool {
    forall|i: int|
        0 <= i < v.checksums.len() ==> (#[trigger] v.checksums[i]).payload == digest_of(
            v.checksums[i].kind,
            b,
        )
}

/// Recomputes every digest in `h` over `data` and compares.
pub fn verify_checksums(h: &ChecksumHeader, data: &[u8]) -> (r: bool)
    ensures
        r == checksums_match(h@, data@),
{
    let n = h.checksums.len();
    let mut i: usize = 0;
    while i < n
        invariant
            i <= n,
            n == h.checksums@.len(),
            forall|j: int|
                0 <= j < i ==> (#[trigger] h@.checksums[j]).payload == digest_of(
                    h@.checksums[j].kind,
                    data@,
                ),
        decreases n - i,
    {
        let expect = compute_digest(h.checksums[i].kind, data);
        if !crate::io::bytes_eq(h.checksums[i].payload.as_slice(), expect.as_slice()) {
            proof {
                assert(h@.checksums[i as int].payload != digest_of(
                    h@.checksums[i as int].kind,
                    data@,
                ));
            }
            return false;
        }
        i = i + 1;
    }
    true
}

} // verus!
