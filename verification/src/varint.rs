//! Unsigned LEB128: the variable-length integer encoding every multi-byte
//! number in the archive format uses, plus the reverse-encoded index locator
//! that closes an attached archive.

use vstd::prelude::*;

use crate::Error;

verus! {

/// Bytes of the unsigned LEB128 encoding of `v`: seven value bits per byte,
/// least significant group first; every byte but the last has the high bit set.
pub open spec fn uleb(v: nat) -> Seq<u8>
    decreases v,
{
    if v < 128 {
        seq![v as u8]
    } else {
        seq![((v % 128) + 128) as u8] + uleb(v / 128)
    }
}

/// Number of bytes in the LEB128 encoding of `v`.
pub open spec fn uleb_len(v: nat) -> nat
    decreases v,
{
    if v < 128 {
        1
    } else {
        (1 + uleb_len(v / 128)) as nat
    }
}

/// `b` starts with a complete LEB128 encoding: a byte with the continuation
/// bit clear arrives before the sequence ends.
pub open spec fn leb_terminated(b: Seq<u8>) -> bool
    decreases b.len(),
{
    b.len() > 0 && (b[0] < 128 || leb_terminated(b.skip(1)))
}

/// Length in bytes of the LEB128 encoding at the front of `b`.
pub open spec fn leb_len(b: Seq<u8>) -> int
    decreases b.len(),
{
    if b.len() == 0 {
        0
    } else if b[0] < 128 {
        1
    } else {
        1 + leb_len(b.skip(1))
    }
}

/// Value of the LEB128 encoding at the front of `b`.
pub open spec fn leb_value(b: Seq<u8>) -> nat
    decreases b.len(),
{
    if b.len() == 0 {
        0
    } else if b[0] < 128 {
        b[0] as nat
    } else {
        (b[0] - 128) as nat + 128 * leb_value(b.skip(1))
    }
}

/// The front of `b` decodes as an in-range integer of at most `n` bytes.
pub open spec fn leb_ok_n(b: Seq<u8>, n: int) -> bool {
    leb_terminated(b) && leb_len(b) <= n && leb_value(b) <= u64::MAX
}

/// The front of `b` is what the readers of this format accept: a terminated
/// encoding of at most ten bytes whose value fits in 64 bits.
pub open spec fn leb_ok(b: Seq<u8>) -> bool {
    leb_ok_n(b, 10)
}

/// Decoding the encoding of `v`, with anything at all after it, yields `v`
/// and consumes exactly the encoding.
pub proof fn lemma_leb_roundtrip(v: nat, rest: Seq<u8>)
    ensures
        leb_terminated(uleb(v) + rest),
        leb_len(uleb(v) + rest) == uleb_len(v),
        leb_value(uleb(v) + rest) == v,
        uleb(v).len() == uleb_len(v),
    decreases v,
{
    let b = uleb(v) + rest;
    if v < 128 {
        assert(b[0] == v as u8);
    } else {
        lemma_leb_roundtrip(v / 128, rest);
        assert(b[0] == ((v % 128) + 128) as u8);
        assert(b.skip(1) =~= uleb(v / 128) + rest);
    }
}

/// 128 to the `k`.
pub open spec fn pow128(k: nat) -> nat
    decreases k,
{
    if k == 0 {
        1
    } else {
        128 * pow128((k - 1) as nat)
    }
}

/// Values below `128^k` encode in at most `k` bytes.
pub proof fn lemma_uleb_len_bound(v: nat, k: nat)
    requires
        k >= 1,
        v < pow128(k),
    ensures
        uleb_len(v) <= k,
    decreases k,
{
    if v >= 128 {
        assert(v / 128 < pow128((k - 1) as nat)) by {
            assert(pow128(k) == 128 * pow128((k - 1) as nat));
            assert(v < 128 * pow128((k - 1) as nat));
            assert(v / 128 < pow128((k - 1) as nat)) by (nonlinear_arith)
                requires
                    v < 128 * pow128((k - 1) as nat),
            ;
        }
        lemma_uleb_len_bound(v / 128, (k - 1) as nat);
    }
}

/// The values of `128^9` and `128^10`, the ULEB width boundaries around
/// 64 bits.
pub proof fn lemma_pow128_values()
    ensures
        pow128(9) == 0x8000000000000000,
        pow128(10) == 0x400000000000000000,
{
    assert(pow128(0) == 1);
    assert(pow128(1) == 128 * pow128(0));
    assert(pow128(2) == 128 * pow128(1));
    assert(pow128(3) == 128 * pow128(2));
    assert(pow128(4) == 128 * pow128(3));
    assert(pow128(5) == 128 * pow128(4));
    assert(pow128(6) == 128 * pow128(5));
    assert(pow128(7) == 128 * pow128(6));
    assert(pow128(8) == 128 * pow128(7));
    assert(pow128(9) == 128 * pow128(8));
    assert(pow128(10) == 128 * pow128(9));
}

/// Every 64-bit value encodes in at most ten bytes.
pub proof fn lemma_uleb_len_le_10(v: nat)
    requires
        v <= u64::MAX,
    ensures
        uleb_len(v) <= 10,
{
    lemma_pow128_values();
    lemma_uleb_len_bound(v, 10);
}

/// Values from `128^k` on need more than `k` bytes.
pub proof fn lemma_uleb_len_lower(v: nat, k: nat)
    requires
        v >= pow128(k),
    ensures
        uleb_len(v) >= k + 1,
    decreases k,
{
    if k > 0 {
        assert(pow128(k) == 128 * pow128((k - 1) as nat));
        assert(v / 128 >= pow128((k - 1) as nat)) by (nonlinear_arith)
            requires
                v >= 128 * pow128((k - 1) as nat),
        ;
        lemma_uleb_len_lower(v / 128, (k - 1) as nat);
    }
}

/// Appends the LEB128 encoding of `v` to `out`.
pub fn write_uleb(out: &mut Vec<u8>, v: u64)
    ensures
        final(out)@ == old(out)@ + uleb(v as nat),
    decreases v,
{
    if v < 128 {
        out.push(v as u8);
        assert(final(out)@ =~= old(out)@ + uleb(v as nat));
    } else {
        let b: u8 = (v % 128 + 128) as u8;
        out.push(b);
        write_uleb(out, v / 128);
        assert(final(out)@ =~= old(out)@ + uleb(v as nat));
    }
}

/// Length in bytes of the LEB128 encoding of `val`, computed without
/// serializing it.
pub fn leb128_usize(val: u64) -> (r: usize)
    ensures
        r == uleb_len(val as nat),
        1 <= r <= 10,
    decreases val,
{
    proof {
        lemma_uleb_len_le_10(val as nat);
    }
    if val < 128 {
        1
    } else {
        1 + leb128_usize(val / 128)
    }
}

/// The front encoding, when there is one, is at least one byte long.
pub proof fn lemma_leb_len_pos(b: Seq<u8>)
    ensures
        leb_len(b) >= 0,
        b.len() > 0 ==> leb_len(b) >= 1,
    decreases b.len(),
{
    if b.len() > 0 && b[0] >= 128 {
        lemma_leb_len_pos(b.skip(1));
    }
}

/// Reads one LEB128 integer of at most `rem` bytes starting at `i`,
/// returning the value and the position after it.
fn read_uleb_at(buf: &[u8], i: usize, rem: usize) -> (r: Result<(u64, usize), Error>)
    requires
        i <= buf@.len(),
    ensures
        leb_ok_n(buf@.skip(i as int), rem as int) ==> {
            &&& r matches Ok(p)
            &&& p.0 == leb_value(buf@.skip(i as int))
            &&& p.1 == i + leb_len(buf@.skip(i as int))
            &&& p.1 <= buf@.len()
        },
        !leb_ok_n(buf@.skip(i as int), rem as int) ==> (r matches Err(e) && e is Leb128),
        r matches Ok(p) ==> i <= p.1 <= buf@.len(),
    decreases buf@.len() - i,
{
    let ghost s = buf@.skip(i as int);
    proof {
        lemma_leb_len_pos(s);
    }
    if i == buf.len() || rem == 0 {
        return Err(Error::Leb128);
    }
    let b = buf[i];
    if b < 128 {
        Ok((b as u64, i + 1))
    } else {
        let low: u64 = (b - 128) as u64;
        proof {
            assert(s.skip(1) =~= buf@.skip(i + 1));
        }
        match read_uleb_at(buf, i + 1, rem - 1) {
            Ok((v, j)) => {
                if v > (u64::MAX - low) / 128 {
                    proof {
                        // the full value 128 * v + low cannot fit in 64 bits
                        assert(128 * v + low > u64::MAX) by (nonlinear_arith)
                            requires
                                v > (u64::MAX - low) / 128,
                                low < 128,
                        ;
                    }
                    Err(Error::Leb128)
                } else {
                    proof {
                        assert(128 * v + low <= u64::MAX) by (nonlinear_arith)
                            requires
                                v <= (u64::MAX - low) / 128,
                                low < 128,
                        ;
                    }
                    Ok((low + 128 * v, j))
                }
            },
            Err(e) => Err(e),
        }
    }
}

/// Reads one LEB128 integer at `*pos`, advancing `*pos` past it. Accepts what
/// the format's readers accept: at most ten bytes, value within 64 bits.
pub fn read_uleb(buf: &[u8], pos: &mut usize) -> (r: Result<u64, Error>)
    requires
        *old(pos) <= buf@.len(),
    ensures
        leb_ok(buf@.skip(*old(pos) as int)) ==> {
            &&& r matches Ok(v)
            &&& v == leb_value(buf@.skip(*old(pos) as int))
            &&& *final(pos) == *old(pos) + leb_len(buf@.skip(*old(pos) as int))
            &&& *final(pos) <= buf@.len()
        },
        !leb_ok(buf@.skip(*old(pos) as int)) ==> {
            &&& r matches Err(e)
            &&& e is Leb128
            &&& *final(pos) == *old(pos)
        },
        *old(pos) <= *final(pos) <= buf@.len(),
{
    match read_uleb_at(buf, *pos, 10) {
        Ok((v, j)) => {
            *pos = j;
            Ok(v)
        },
        Err(e) => Err(e),
    }
}

/// Value the locator encodes for an index of raw length `offset`: the
/// distance from the start of the index to the end of the file, the
/// locator's own bytes included. The length estimate takes the encoded
/// length of an upper bound of the final value.
pub open spec fn locator_value(offset: nat) -> nat {
    offset + uleb_len(offset + offset / 128 + 1)
}

/// The bytes that end an attached archive: the LEB128 encoding of the
/// locator value, reversed, so a reader can find it from the tail.
pub open spec fn locator_bytes(offset: nat) -> Seq<u8> {
    uleb(locator_value(offset)).reverse()
}

/// The length estimate agrees with the final encoding: the value written
/// accounts for exactly the bytes the locator occupies. This holds for most
/// index lengths, but not all of them.
pub open spec fn locator_exact(offset: nat) -> bool {
    uleb_len(locator_value(offset)) == uleb_len(offset + offset / 128 + 1)
}

/// Length in bytes of the locator for an index of raw length `offset`:
/// the encoded length of an upper bound of the locator value.
pub fn locator_len_estimate(offset: u64) -> (r: usize)
    ensures
        r == uleb_len((offset + offset / 128 + 1) as nat),
        1 <= r <= 10,
{
    let margin = offset / 128 + 1;
    if offset > u64::MAX - margin {
        // the bound exceeds 64 bits, so its encoding is exactly ten bytes
        proof {
            lemma_pow128_values();
            lemma_uleb_len_lower((offset + offset / 128 + 1) as nat, 9);
            lemma_uleb_len_bound((offset + offset / 128 + 1) as nat, 10);
        }
        10
    } else {
        leb128_usize(offset + margin)
    }
}

/// Builds the index locator for an index of raw length `offset`.
pub fn make_index_locator(offset: u64) -> (r: Vec<u8>)
    requires
        locator_value(offset as nat) <= u64::MAX,
    ensures
        r@ == locator_bytes(offset as nat),
        1 <= r@.len() <= 10,
{
    let lenbuf = locator_len_estimate(offset) as u64;
    let l: u64 = offset + lenbuf;
    let mut fwd: Vec<u8> = Vec::new();
    write_uleb(&mut fwd, l);
    proof {
        lemma_leb_roundtrip(l as nat, Seq::<u8>::empty());
        assert(fwd@ + Seq::<u8>::empty() =~= fwd@);
        lemma_uleb_len_le_10(l as nat);
    }
    let mut r: Vec<u8> = Vec::new();
    let mut i: usize = fwd.len();
    while i > 0
        invariant
            i <= fwd@.len(),
            r@.len() == fwd@.len() - i,
            forall|j: int| 0 <= j < r@.len() ==> r@[j] == fwd@[fwd@.len() - 1 - j],
        decreases i,
    {
        i = i - 1;
        let b = fwd[i];
        r.push(b);
    }
    proof {
        assert(r@ =~= fwd@.reverse());
    }
    r
}

/// Reads the locator from the final bytes of an archive, exactly as they
/// sit in the file: reverses them and decodes a LEB128 integer from the
/// front, which stops at what was the last byte of the forward encoding.
pub fn parse_locator(tail: &[u8]) -> (r: Result<u64, Error>)
    ensures
        leb_ok(tail@.reverse()) ==> (r matches Ok(v) && v == leb_value(tail@.reverse())),
        !leb_ok(tail@.reverse()) ==> (r matches Err(e) && e is Leb128),
{
    let mut rev: Vec<u8> = Vec::new();
    let mut i: usize = tail.len();
    while i > 0
        invariant
            i <= tail@.len(),
            rev@.len() == tail@.len() - i,
            forall|j: int| 0 <= j < rev@.len() ==> rev@[j] == tail@[tail@.len() - 1 - j],
        decreases i,
    {
        i = i - 1;
        let b = tail[i];
        rev.push(b);
    }
    proof {
        assert(rev@ =~= tail@.reverse());
        assert(rev@.skip(0) =~= rev@);
    }
    let mut pos: usize = 0;
    read_uleb(rev.as_slice(), &mut pos)
}

/// The locator round-trips: however many archive bytes precede it, reading
/// the tail back yields the value that was encoded.
pub proof fn lemma_locator_roundtrip(l: nat, junk: Seq<u8>)
    requires
        l <= u64::MAX,
    ensures
        leb_ok((junk + uleb(l).reverse()).reverse()),
        leb_value((junk + uleb(l).reverse()).reverse()) == l,
        leb_len((junk + uleb(l).reverse()).reverse()) == uleb_len(l),
{
    lemma_leb_roundtrip(l, junk.reverse());
    lemma_uleb_len_le_10(l);
    assert((junk + uleb(l).reverse()).reverse() =~= uleb(l) + junk.reverse());
}

} // verus!
