//! The uniform byte sink/source contract every header type implements.
//!
//! Serialization appends a value's canonical bytes to a `Vec<u8>`;
//! deserialization reads them back from a slice, advancing a cursor. Each
//! implementing type gives `wire`, the mathematical byte image of its view,
//! and `parse`, the mathematical reading, and the executable methods are
//! proved against them.

use vstd::prelude::*;

use crate::Error;

verus! {

/// Serialization into a byte sink.
pub trait Ser: View {
    /// The canonical bytes of a value with view `v`.
    spec fn wire(v: Self::V) -> Seq<u8>;

    /// The views whose byte image is meaningful: internal lengths and counts
    /// agree with the data they describe.
    spec fn ser_wf(v: Self::V) -> bool;

    /// Appends the canonical bytes of `self` to `out`.
    fn ser(&self, out: &mut Vec<u8>)
        requires
            Self::ser_wf(self@),
        ensures
            final(out)@ == old(out)@ + Self::wire(self@),
    ;
}

/// Deserialization from a byte source.
pub trait Deser: Sized + View {
    /// Reads one value from the front of `b`: the view of the value and the
    /// number of bytes it occupies, or `None` when `b` does not start with
    /// a well-formed encoding.
    spec fn parse(b: Seq<u8>) -> Option<(Self::V, int)>;

    /// Reads one value at `*pos`, advancing `*pos` past it on success.
    fn deser(buf: &[u8], pos: &mut usize) -> (r: Result<Self, Error>)
        requires
            *old(pos) <= buf@.len(),
        ensures
            match Self::parse(buf@.skip(*old(pos) as int)) {
                Some(p) => {
                    &&& r matches Ok(v) && v@ == p.0
                    &&& *final(pos) == *old(pos) + p.1
                },
                None => r is Err,
            },
            *old(pos) <= *final(pos) <= buf@.len(),
    ;
}

/// Appends all of `data` to `out`.
pub fn push_bytes(out: &mut Vec<u8>, data: &[u8])
    ensures
        final(out)@ == old(out)@ + data@,
{
    let mut i: usize = 0;
    while i < data.len()
        invariant
            i <= data@.len(),
            out@ == old(out)@ + data@.take(i as int),
        decreases data@.len() - i,
    {
        let b = data[i];
        out.push(b);
        i = i + 1;
        proof {
            assert(out@ =~= old(out)@ + data@.take(i as int));
        }
    }
    proof {
        assert(out@ =~= old(out)@ + data@);
    }
}

/// Compares two byte strings.
pub fn bytes_eq(a: &[u8], b: &[u8]) -> (r: bool)
    ensures
        r == (a@ == b@),
{
    if a.len() != b.len() {
        return false;
    }
    let n = a.len();
    let mut i: usize = 0;
    while i < n
        invariant
            i <= n,
            n == a@.len() == b@.len(),
            forall|j: int| 0 <= j < i ==> a@[j] == b@[j],
        decreases n - i,
    {
        if a[i] != b[i] {
            return false;
        }
        i = i + 1;
    }
    proof {
        assert(a@ =~= b@);
    }
    true
}

/// Reads exactly `n` bytes at `*pos`, advancing `*pos` past them; fails when
/// fewer than `n` remain.
pub fn read_bytes(buf: &[u8], pos: &mut usize, n: usize) -> (r: Result<Vec<u8>, Error>)
    requires
        *old(pos) <= buf@.len(),
    ensures
        *old(pos) + n <= buf@.len() ==> {
            &&& r matches Ok(v)
            &&& v@ == buf@.subrange(*old(pos) as int, *old(pos) + n)
            &&& *final(pos) == *old(pos) + n
        },
        *old(pos) + n > buf@.len() ==> {
            &&& r matches Err(e)
            &&& e is Io
            &&& *final(pos) == *old(pos)
        },
        *old(pos) <= *final(pos) <= buf@.len(),
{
    if n > buf.len() - *pos {
        return Err(Error::unexpected_eof());
    }
    let start = *pos;
    let total = buf.len();
    let mut v: Vec<u8> = Vec::new();
    let mut i: usize = 0;
    while i < n
        invariant
            i <= n,
            start + n <= total,
            total == buf@.len(),
            v@ == buf@.subrange(start as int, start + i),
        decreases n - i,
    {
        let b = buf[start + i];
        v.push(b);
        i = i + 1;
        proof {
            assert(v@ =~= buf@.subrange(start as int, start + i));
        }
    }
    *pos = start + n;
    Ok(v)
}

/// The view of an optional value.
pub open spec fn view_opt<T: View>(v: Option<T>) -> Option<T::V> {
    match v {
        Option::None => Option::None,
        Option::Some(x) => Option::Some(x@),
    }
}

/// Bytes of an optional field: nothing when absent, the value's wire
/// image when present.
pub open spec fn wire_opt<T: Ser>(v: Option<T::V>) -> Seq<u8> {
    match v {
        Option::None => Seq::empty(),
        Option::Some(x) => T::wire(x),
    }
}

/// An absent field is well formed; a present one must be.
pub open spec fn ser_wf_opt<T: Ser>(v: Option<T::V>) -> bool {
    match v {
        Option::None => true,
        Option::Some(x) => T::ser_wf(x),
    }
}

/// Reads an optional field: nothing when the flag bit says it is absent.
pub open spec fn parse_opt<T: Deser>(b: Seq<u8>, present: bool) -> Option<(Option<T::V>, int)> {
    if !present {
        Some((Option::None, 0))
    } else {
        match T::parse(b) {
            Option::None => Option::None,
            Option::Some(p) => Some((Option::Some(p.0), p.1)),
        }
    }
}

/// Serializes an optional field.
pub fn ser_opt<T: Ser>(v: &Option<T>, out: &mut Vec<u8>)
    requires
        ser_wf_opt::<T>(view_opt(*v)),
    ensures
        final(out)@ == old(out)@ + wire_opt::<T>(view_opt(*v)),
{
    match v {
        Option::None => {
            proof {
                assert(out@ =~= old(out)@ + Seq::<u8>::empty());
            }
        },
        Option::Some(x) => {
            x.ser(out);
        },
    }
}

/// Deserializes an optional field.
pub fn deser_opt<T: Deser>(buf: &[u8], pos: &mut usize, present: bool) -> (r: Result<
    Option<T>,
    Error,
>)
    requires
        *old(pos) <= buf@.len(),
    ensures
        match parse_opt::<T>(buf@.skip(*old(pos) as int), present) {
            Some(p) => {
                &&& r matches Ok(v) && view_opt(v) == p.0
                &&& *final(pos) == *old(pos) + p.1
            },
            None => r is Err,
        },
        *old(pos) <= *final(pos) <= buf@.len(),
{
    if !present {
        Ok(Option::None)
    } else {
        match T::deser(buf, pos) {
            Ok(x) => Ok(Option::Some(x)),
            Err(e) => Err(e),
        }
    }
}

} // verus!
