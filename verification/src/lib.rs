//! REPAK: a single-file resource archive of named byte payloads, each
//! optionally checksummed, compressed, and encrypted.
//!
//! The library works on in-memory bytes: callers read the archive file into a
//! buffer, hand it to [`open`], and write the buffer [`REPAK::save`] returns.

use vstd::prelude::*;

pub mod checksum;
pub mod compress;
pub mod encrypt;
pub mod index;
pub mod io;
pub mod text;
pub mod varint;

pub use checksum::ChecksumKind;
pub use compress::CompressionAlgorithm;
pub use encrypt::EncryptionAlgorithm;

use crate::checksum::{ChecksumHeader, build_checksum_header, one_checksum_header};
use crate::compress::{CompressionHeader, CompressionHeaderV, compress_bytes, deflate_of};
use crate::encrypt::{EncryptionHeader, EncryptionHeaderV};
use crate::index::{
    IndexEntry, IndexEntryV, IndexHeader, IndexHeaderV, contains_name, empty_checksum_header,
    entries_sorted, entry_views, find_entry, insert_entry, lemma_insert_entry_props, name_key,
    normalize, normalize_entries, sorted_insert,
};
use crate::io::{Deser, Ser, push_bytes};
use crate::varint::{leb_ok, leb_value, locator_bytes, make_index_locator, parse_locator};

verus! {

/// Everything a library call can fail with.
#[derive(Debug, PartialEq, Eq)]
pub enum Error {
    /// The underlying byte buffer is too short for a read the format requires.
    Io(String),
    /// Malformed or overflowing variable-length integer.
    Leb128,
    /// A stored offset does not fit the platform's address range.
    OffsetTooLarge,
    /// An entry name is not well-formed UTF-8.
    InvalidUtf8,
    /// The archive to open does not exist.
    FileNotFound(String),
    /// Structural violation, with a human-readable cause.
    Deser(String),
    /// An append would create a duplicate name.
    AlreadyExists(String),
}

impl Error {
    /// The byte source ended before a read the format requires.
    pub fn unexpected_eof() -> (r: Error)
        ensures
            r is Io,
    {
        Error::Io("unexpected end of input".to_owned())
    }
}

/// A payload staged by an append, already transformed, waiting at its
/// assigned offset for the next save.
#[derive(Debug)]
pub struct Staged {
    pub offset: u64,
    pub bytes: Vec<u8>,
}

/// Mathematical image of a [`Staged`] payload.
pub struct StagedV {
    pub offset: u64,
    pub bytes: Seq<u8>,
}

impl View for Staged {
    type V = StagedV;

    open spec fn view(&self) -> StagedV {
        StagedV { offset: self.offset, bytes: self.bytes@ }
    }
}

/// Mathematical image of a [`REPAK`] engine.
pub struct REPAKV {
    pub index: IndexHeaderV,
    pub index_attached: bool,
    pub file_path: Seq<char>,
    pub last_insertion_offset: u64,
    pub staged: Seq<StagedV>,
}

/// Staged payloads keep to their reserved ranges: each ends by the next
/// one's offset, and the last by the insertion cursor.
pub open spec fn staged_bounded(v: REPAKV) -> bool {
    forall|i: int|
        0 <= i < v.staged.len() ==> (#[trigger] v.staged[i]).offset + v.staged[i].bytes.len() <= (
        if i + 1 < v.staged.len() {
            v.staged[i + 1].offset as int
        } else {
            v.last_insertion_offset as int
        })
}

/// The engine's invariant: the directory is in strict name order (names
/// unique), its count matches, every entry serializes, the reserved index
/// checksum slot is empty, and staged payloads keep to their reserved
/// ranges.
pub open spec fn engine_wf(v: REPAKV) -> bool {
    &&& IndexHeader::ser_wf(v.index)
    &&& entries_sorted(v.index.entries)
    &&& v.index.checksum == empty_checksum_header()
    &&& staged_bounded(v)
}

/// Public interface.
///
/// Open or create a repak archive, look up or append entries, save. The
/// engine works on in-memory bytes: the caller reads the archive file into
/// a buffer and writes the buffer `save` returns.
#[derive(Debug)]
pub struct REPAK {
    index: IndexHeader,
    index_attached: bool,
    file_path: String,
    last_insertion_offset: u64,
    staged: Vec<Staged>,
}

impl View for REPAK {
    type V = REPAKV;

    closed spec fn view(&self) -> REPAKV {
        REPAKV {
            index: self.index@,
            index_attached: self.index_attached,
            file_path: self.file_path@,
            last_insertion_offset: self.last_insertion_offset,
            staged: self.staged@.map_values(|s: Staged| s@),
        }
    }
}

/// How an append transforms an entry: checksum over the source, then
/// compression, then the reserved encryption stage.
#[derive(Clone, Copy, Debug)]
pub struct AppendOptions {
    pub checksum: Option<ChecksumKind>,
    pub compression: Option<CompressionAlgorithm>,
    pub encryption: Option<EncryptionAlgorithm>,
}

impl Default for AppendOptions {
    /// No transform: the entry is stored raw and its flag byte is zero.
    fn default() -> (r: Self)
        ensures
            r.checksum is None,
            r.compression is None,
            r.encryption is None,
    {
        AppendOptions { checksum: None, compression: None, encryption: None }
    }
}

/// The options whose write pipeline this library implements: any checksum,
/// and at most `Stored` or `Deflate` compression.
pub open spec fn options_supported(o: AppendOptions) -> bool {
    match o.compression {
        Some(a) => a == CompressionAlgorithm::Stored || a == CompressionAlgorithm::Deflate,
        None => true,
    }
}

/// The algorithm an entry's compression header records: the requested one,
/// except that deflate output longer than the source falls back to
/// `Stored`, so every payload fits the range its offset reserves.
pub open spec fn effective_compression(data: Seq<u8>, a: CompressionAlgorithm) -> CompressionAlgorithm {
    if a == CompressionAlgorithm::Deflate && deflate_of(data).len() > data.len() {
        CompressionAlgorithm::Stored
    } else {
        a
    }
}

/// The bytes an entry stores in the archive: its source after the
/// compression stage (encryption is reserved and changes nothing). Never
/// longer than the source.
pub open spec fn stored_of(data: Seq<u8>, o: AppendOptions) -> Seq<u8> {
    match o.compression {
        Some(CompressionAlgorithm::Deflate) => if deflate_of(data).len() <= data.len() {
            deflate_of(data)
        } else {
            data
        },
        _ => data,
    }
}

/// The directory entry an append records: the assigned offset, the source
/// size, and one sub-header per enabled stage.
pub open spec fn appended_entry(
    off: u64,
    data: Seq<u8>,
    o: AppendOptions,
    name: Seq<char>,
) -> IndexEntryV {
    IndexEntryV {
        offset: off,
        size: data.len() as u64,
        name,
        encryption: match o.encryption {
            Some(a) => Some(EncryptionHeaderV { algorithm: a, size: 1, payload: Seq::empty() }),
            None => None,
        },
        compression: match o.compression {
            Some(a) => Some(
                CompressionHeaderV {
                    size: 1,
                    algorithm: effective_compression(data, a),
                    payload: Seq::empty(),
                },
            ),
            None => None,
        },
        checksum: match o.checksum {
            Some(k) => Some(one_checksum_header(k, data)),
            None => None,
        },
    }
}

/// Creates a new repak archive: an empty directory bound to a target path.
/// Nothing touches the filesystem until the saved bytes are written out.
pub fn create(output: &str) -> (r: Result<REPAK, Error>)
    ensures
        r matches Ok(p) && p@ == (REPAKV {
            index: IndexHeaderV {
                count: 0,
                entries: Seq::empty(),
                checksum: empty_checksum_header(),
            },
            index_attached: false,
            file_path: output@,
            last_insertion_offset: 0,
            staged: Seq::empty(),
        }),
        r matches Ok(p) && engine_wf(p@),
{
    let r = REPAK {
        index: IndexHeader::default(),
        index_attached: false,
        file_path: output.to_owned(),
        last_insertion_offset: 0,
        staged: Vec::new(),
    };
    proof {
        assert(r@.index.entries =~= Seq::<IndexEntryV>::empty());
        assert(r@.staged =~= Seq::<StagedV>::empty());
        assert(r@.index.checksum.checksums =~= Seq::<crate::checksum::ChecksumV>::empty());
    }
    Ok(r)
}

/// The engine an open produces from a parsed directory: the entries
/// rebuilt into name order, the count refreshed, nothing staged.
pub open spec fn opened_engine(
    path: Seq<char>,
    h: IndexHeaderV,
    attached: bool,
    base: u64,
) -> REPAKV {
    REPAKV {
        index: IndexHeaderV {
            count: normalize(h.entries).len() as u64,
            entries: normalize(h.entries),
            checksum: empty_checksum_header(),
        },
        index_attached: attached,
        file_path: path,
        last_insertion_offset: base,
        staged: Seq::empty(),
    }
}

/// Builds the engine around a freshly parsed directory.
fn engine_from_header(path: &str, h: IndexHeader, attached: bool, base: u64) -> (r: REPAK)
    requires
        IndexHeader::ser_wf(h@),
    ensures
        r@ == opened_engine(path@, h@, attached, base),
        engine_wf(r@),
{
    let ghost hv = h@;
    let IndexHeader { count: _, entries, checksum: _ } = h;
    let entries = normalize_entries(entries);
    proof {
        index::lemma_normalize_props(hv.entries);
        assert forall|i: int| 0 <= i < entry_views(entries@).len() implies IndexEntry::ser_wf(
            #[trigger] entry_views(entries@)[i],
        ) by {
            let j = choose|j: int|
                0 <= j < hv.entries.len() && entry_views(entries@)[i] == hv.entries[j];
            assert(IndexEntry::ser_wf(hv.entries[j]));
        }
    }
    let count = entries.len() as u64;
    let ck = checksum::ChecksumHeader::default();
    proof {
        assert(ck@.checksums =~= Seq::<crate::checksum::ChecksumV>::empty());
        assert(ck@ == empty_checksum_header());
    }
    let r = REPAK {
        index: IndexHeader { count, entries, checksum: ck },
        index_attached: attached,
        file_path: path.to_owned(),
        last_insertion_offset: base,
        staged: Vec::new(),
    };
    proof {
        assert(r@.staged =~= Seq::<StagedV>::empty());
    }
    r
}

/// Opens a repak archive from the bytes of its file and, when one exists,
/// of its sidecar. `pak` is `None` when the archive file does not exist.
/// With a sidecar the directory comes from it alone; otherwise the locator
/// at the archive's tail says where the attached directory begins.
pub fn open(path: &str, pak: Option<&Vec<u8>>, sidecar: Option<&Vec<u8>>) -> (r: Result<
    REPAK,
    Error,
>)
    ensures
        pak is None ==> (r matches Err(e) && e matches Error::FileNotFound(p) && p@ == path@),
        pak is Some && sidecar is Some ==> (match IndexHeader::parse((sidecar->Some_0)@) {
            Some(h) => r matches Ok(eng) && eng@ == opened_engine(path@, h.0, false, 0) && engine_wf(
                eng@,
            ),
            None => r is Err,
        }),
        pak is Some && sidecar is Some ==> (index::header_reject_reason((sidecar->Some_0)@) matches
            Some(cause) ==> (r matches Err(e) && e matches Error::Deser(m) && m@ == cause)),
        pak is Some && sidecar is None ==> {
            let t = (pak->Some_0)@;
            &&& t.len() < 10 ==> (r matches Err(e) && e is Io)
            &&& t.len() >= 10 ==> {
                let rev = t.skip(t.len() - 10).reverse();
                &&& !leb_ok(rev) ==> (r matches Err(e) && e is Leb128)
                &&& leb_ok(rev) ==> {
                    let l = leb_value(rev);
                    &&& l > i64::MAX ==> (r matches Err(e) && e is OffsetTooLarge)
                    &&& l <= i64::MAX && l > t.len() ==> (r matches Err(e) && e is Io)
                    &&& l <= i64::MAX && l <= t.len() ==> (match IndexHeader::parse(
                        t.skip(t.len() - l),
                    ) {
                        Some(h) => r matches Ok(eng) && eng@ == opened_engine(
                            path@,
                            h.0,
                            true,
                            (t.len() - l) as u64,
                        ) && engine_wf(eng@),
                        None => r is Err,
                    })
                    &&& l <= i64::MAX && l <= t.len() ==> (index::header_reject_reason(
                        t.skip(t.len() - l),
                    ) matches Some(cause) ==> (r matches Err(e) && e matches Error::Deser(m) && m@
                        == cause))
                }
            }
        },
{
    let pb = match pak {
        Some(pb) => pb,
        None => {
            return Err(Error::FileNotFound(path.to_owned()));
        },
    };
    if let Some(sb) = sidecar {
        let mut pos: usize = 0;
        proof {
            assert(sb@.skip(0) =~= sb@);
            index::lemma_index_header_parse_wf(sb@);
        }
        let h = IndexHeader::deser(sb.as_slice(), &mut pos)?;
        return Ok(engine_from_header(path, h, false, 0));
    }
    if pb.len() < 10 {
        return Err(Error::Io("archive is too short to hold a locator".to_owned()));
    }
    let tail = vstd::slice::slice_subrange(pb.as_slice(), pb.len() - 10, pb.len());
    proof {
        assert(tail@ =~= pb@.skip(pb@.len() - 10));
    }
    let l = parse_locator(tail)?;
    if l > 0x7fff_ffff_ffff_ffff {
        return Err(Error::OffsetTooLarge);
    }
    if l > pb.len() as u64 {
        return Err(Error::Io("locator points before the start of the archive".to_owned()));
    }
    let base: usize = pb.len() - l as usize;
    let mut pos: usize = base;
    proof {
        index::lemma_index_header_parse_wf(pb@.skip(base as int));
    }
    let h = IndexHeader::deser(pb.as_slice(), &mut pos)?;
    Ok(engine_from_header(path, h, true, base as u64))
}

/// Reference to a single resource in the archive: a read-only view of its
/// directory entry, from which the payload can be extracted.
#[derive(Debug)]
pub struct Entry<'a> {
    inner: &'a IndexEntry,
}

impl<'a> View for Entry<'a> {
    type V = IndexEntryV;

    closed spec fn view(&self) -> IndexEntryV {
        (*self.inner)@
    }
}

/// The archive bytes `pak` store `orig` for the entry `e`: the region at
/// the entry's offset holds the transformed bytes, the sizes agree, and
/// every stored digest is the one computed over `orig`.
pub open spec fn entry_data_at(e: IndexEntryV, pak: Seq<u8>, orig: Seq<u8>) -> bool {
    &&& e.size == orig.len()
    &&& match e.compression {
        None => e.offset + orig.len() <= pak.len() && pak.subrange(
            e.offset as int,
            e.offset + orig.len(),
        ) == orig,
        Some(c) => match c.algorithm {
            CompressionAlgorithm::Stored => e.offset + orig.len() <= pak.len() && pak.subrange(
                e.offset as int,
                e.offset + orig.len(),
            ) == orig,
            CompressionAlgorithm::Deflate => e.offset + deflate_of(orig).len() <= pak.len()
                && pak.subrange(e.offset as int, e.offset + deflate_of(orig).len()) == deflate_of(
                orig,
            ),
            _ => false,
        },
    }
    &&& match e.checksum {
        None => true,
        Some(h) => crate::checksum::checksums_match(h, orig),
    }
}

impl<'a> Entry<'a> {
    /// Byte position of the payload within the archive.
    pub fn offset(&self) -> (r: u64)
        ensures
            r == self@.offset,
    {
        self.inner.offset
    }

    /// Uncompressed source size in bytes.
    pub fn size(&self) -> (r: u64)
        ensures
            r == self@.size,
    {
        self.inner.size
    }

    /// The entry's name.
    pub fn name(&self) -> (r: &str)
        ensures
            r@ == self@.name,
    {
        self.inner.name.as_str()
    }

    /// Extracts the entry's payload from the archive bytes, running the
    /// inverse transform pipeline: decompression, then digest verification
    /// over the recovered source bytes.
    pub fn read_payload(&self, pak: &Vec<u8>) -> (r: Result<Vec<u8>, Error>)
        ensures
            forall|orig: Seq<u8>|
                entry_data_at(self@, pak@, orig) ==> (r matches Ok(d) && d@ == orig),
            ({
                &&& self@.compression is None
                &&& self@.offset + self@.size <= pak@.len()
                &&& self@.checksum matches Some(h) && !crate::checksum::checksums_match(
                    h,
                    pak@.subrange(self@.offset as int, self@.offset + self@.size),
                )
            }) ==> (r matches Err(e) && e is Deser),
    {
        if self.inner.offset > pak.len() as u64 {
            return Err(Error::unexpected_eof());
        }
        let off = self.inner.offset as usize;
        let data: Vec<u8> = match &self.inner.compression {
            Some(c) if !matches!(c.algorithm, CompressionAlgorithm::Stored) => {
                match c.algorithm {
                    CompressionAlgorithm::Deflate => {
                        let tail = vstd::slice::slice_subrange(pak.as_slice(), off, pak.len());
                        proof {
                            assert(tail@ =~= pak@.skip(off as int));
                            assert forall|orig: Seq<u8>|
                                entry_data_at(self@, pak@, orig) implies tail@ == deflate_of(orig)
                                + pak@.skip(self@.offset + deflate_of(orig).len()) by {
                                assert(tail@ =~= deflate_of(orig) + pak@.skip(
                                    self@.offset + deflate_of(orig).len(),
                                ));
                            }
                        }
                        let d = crate::compress::decompress_bytes(
                            CompressionAlgorithm::Deflate,
                            tail,
                        )?;
                        if d.len() as u64 != self.inner.size {
                            return Err(Error::Deser("Payload size mismatch".to_owned()));
                        }
                        d
                    },
                    _ => {
                        return Err(
                            Error::Deser("Unsupported compression algorithm".to_owned()),
                        );
                    },
                }
            },
            _ => {
                if self.inner.size > (pak.len() - off) as u64 {
                    return Err(Error::unexpected_eof());
                }
                let len = self.inner.size as usize;
                let raw = vstd::slice::slice_subrange(pak.as_slice(), off, off + len);
                let mut d: Vec<u8> = Vec::new();
                push_bytes(&mut d, raw);
                proof {
                    assert(d@ =~= pak@.subrange(self@.offset as int, self@.offset + self@.size));
                }
                d
            },
        };
        if let Some(h) = &self.inner.checksum {
            if !crate::checksum::verify_checksums(h, data.as_slice()) {
                return Err(Error::Deser("Checksum mismatch".to_owned()));
            }
        }
        Ok(data)
    }
}

impl REPAK {
    /// The offset the next appended payload will be assigned.
    pub fn last_insertion_offset(&self) -> (r: u64)
        ensures
            r == self@.last_insertion_offset,
    {
        self.last_insertion_offset
    }

    /// Looks up a name in the archive; the returned handle borrows the
    /// directory entry. Returns `Some` exactly when the name is present.
    pub fn lookup<'a>(&'a self, id: String) -> (r: Result<Option<Entry<'a>>, Error>)
        ensures
            r matches Ok(o) && (match o {
                Some(en) => contains_name(self@.index.entries, id@) && exists|i: int|
                    0 <= i < self@.index.entries.len() && #[trigger] self@.index.entries[i] == en@
                        && en@.name == id@,
                None => !contains_name(self@.index.entries, id@),
            }),
    {
        match find_entry(&self.index.entries, id.as_str()) {
            Some(i) => {
                let en = Entry { inner: &self.index.entries[i] };
                proof {
                    assert(self@.index.entries[i as int] == en@);
                    assert(contains_name(self@.index.entries, id@)) by {
                        assert(self@.index.entries[i as int].name == id@);
                    }
                }
                Ok(Some(en))
            },
            None => Ok(None),
        }
    }

    /// Appends a file's bytes to the archive under a new name, staging the
    /// transformed payload at the next free offset. A duplicate name is
    /// rejected, and the engine is left unchanged on any failure.
    pub fn append(&mut self, id: String, data: Vec<u8>, options: AppendOptions) -> (r: Result<
        (),
        Error,
    >)
        requires
            engine_wf(old(self)@),
            old(self)@.last_insertion_offset + data@.len() <= u64::MAX,
        ensures
            contains_name(old(self)@.index.entries, id@) ==> {
                &&& r matches Err(e) && e matches Error::AlreadyExists(n) && n@ == id@
                &&& final(self)@ == old(self)@
            },
            !contains_name(old(self)@.index.entries, id@) && !options_supported(options) ==> {
                &&& r matches Err(e) && e is Deser
                &&& final(self)@ == old(self)@
            },
            !contains_name(old(self)@.index.entries, id@) && options_supported(options) ==> {
                &&& r is Ok
                &&& final(self)@.index.entries == insert_entry(
                    old(self)@.index.entries,
                    appended_entry(old(self)@.last_insertion_offset, data@, options, id@),
                )
                &&& final(self)@.index.count == final(self)@.index.entries.len()
                &&& final(self)@.staged == old(self)@.staged.push(
                    StagedV {
                        offset: old(self)@.last_insertion_offset,
                        bytes: stored_of(data@, options),
                    },
                )
                &&& final(self)@.last_insertion_offset == old(self)@.last_insertion_offset
                    + data@.len()
                &&& final(self)@.index_attached == old(self)@.index_attached
                &&& final(self)@.file_path == old(self)@.file_path
                &&& engine_wf(final(self)@)
            },
    {
        if find_entry(&self.index.entries, id.as_str()).is_some() {
            return Err(Error::AlreadyExists(id));
        }
        let name_bytes_len = id.as_str().as_bytes().len();
        proof {
            assert(name_key(id@).len() == name_bytes_len);
        }
        let size = data.len() as u64;
        let checksum = match options.checksum {
            Some(k) => Some(build_checksum_header(k, data.as_slice())),
            None => None,
        };
        let encryption = match options.encryption {
            Some(a) => Some(EncryptionHeader { algorithm: a, size: 1, payload: Vec::new() }),
            None => None,
        };
        let (stored, effective): (Vec<u8>, Option<CompressionAlgorithm>) = match options
            .compression {
            Some(a) => {
                let c = compress_bytes(a, data.as_slice())?;
                if c.len() > data.len() {
                    (data, Some(CompressionAlgorithm::Stored))
                } else {
                    (c, Some(a))
                }
            },
            None => (data, None),
        };
        let compression = match effective {
            Some(a) => Some(CompressionHeader { size: 1, algorithm: a, payload: Vec::new() }),
            None => None,
        };
        let entry = IndexEntry {
            offset: self.last_insertion_offset,
            size,
            name: id,
            encryption,
            compression,
            checksum,
        };
        let ghost old_entries = self@.index.entries;
        let ghost ev = entry@;
        proof {
            assert(ev == appended_entry(self@.last_insertion_offset, data@, options, id@));
            assert(IndexEntry::ser_wf(ev));
            lemma_insert_entry_props(old_entries, ev);
        }
        sorted_insert(&mut self.index.entries, entry);
        self.index.count = self.index.entries.len() as u64;
        self.staged.push(Staged { offset: self.last_insertion_offset, bytes: stored });
        self.last_insertion_offset = self.last_insertion_offset + size;
        proof {
            assert(stored@ == stored_of(data@, options));
            assert(stored@.len() <= data@.len());
            assert(self@.staged =~= old(self)@.staged.push(
                StagedV { offset: old(self)@.last_insertion_offset, bytes: stored@ },
            ));
            assert(staged_bounded(self@)) by {
                let old_staged = old(self)@.staged;
                assert forall|i: int|
                    0 <= i < self@.staged.len() implies (#[trigger] self@.staged[i]).offset
                    + self@.staged[i].bytes.len() <= (if i + 1 < self@.staged.len() {
                    self@.staged[i + 1].offset as int
                } else {
                    self@.last_insertion_offset as int
                }) by {
                    if i < old_staged.len() {
                        assert(self@.staged[i] == old_staged[i]);
                        if i + 1 < old_staged.len() {
                            assert(self@.staged[i + 1] == old_staged[i + 1]);
                        }
                    }
                }
            }
            assert forall|i: int| 0 <= i < self@.index.entries.len() implies IndexEntry::ser_wf(
                #[trigger] self@.index.entries[i],
            ) by {
                if self@.index.entries[i] != ev {
                    let j = choose|j: int|
                        0 <= j < old_entries.len() && self@.index.entries[i] == old_entries[j];
                    assert(IndexEntry::ser_wf(old_entries[j]));
                }
            }
        }
        Ok(())
    }
}

/// A run of zero bytes.
pub open spec fn zeros(n: nat) -> Seq<u8> {
    Seq::new(n, |i: int| 0u8)
}

/// What seeking to `off` and writing `data` does to a file of bytes `buf`:
/// the gap up to `off` fills with zeros, the written range is replaced,
/// and what lies beyond it stays.
pub open spec fn write_at(buf: Seq<u8>, off: nat, data: Seq<u8>) -> Seq<u8> {
    let padded = if buf.len() < off {
        buf + zeros((off - buf.len()) as nat)
    } else {
        buf
    };
    padded.take(off as int) + data + (if padded.len() > off + data.len() {
        padded.skip((off + data.len()) as int)
    } else {
        Seq::empty()
    })
}

/// Writes every staged payload at its offset, in order.
pub open spec fn write_staged(buf: Seq<u8>, staged: Seq<StagedV>) -> Seq<u8>
    decreases staged.len(),
{
    if staged.len() == 0 {
        buf
    } else {
        write_staged(write_at(buf, staged[0].offset as nat, staged[0].bytes), staged.skip(1))
    }
}

/// Where the payload region ends and the index will begin: at the first
/// staged payload's offset, or at the insertion cursor when nothing is
/// staged.
pub open spec fn payload_base(v: REPAKV) -> u64 {
    if v.staged.len() > 0 {
        v.staged[0].offset
    } else {
        v.last_insertion_offset
    }
}

/// The archive bytes a save produces: the old payload region, the staged
/// payloads at their offsets, the serialized index, and the locator.
pub open spec fn save_wire(v: REPAKV, old_bytes: Seq<u8>) -> Seq<u8> {
    let body = write_staged(old_bytes.take(payload_base(v) as int), v.staged);
    let iw = IndexHeader::wire(v.index);
    body + iw + locator_bytes(iw.len() as nat)
}

/// The machine limits within which a save succeeds: the old file covers
/// the payload region, every staged write fits the address range, and the
/// locator arithmetic fits 64 bits.
pub open spec fn save_ok(v: REPAKV, old_bytes: Seq<u8>) -> bool {
    &&& payload_base(v) <= old_bytes.len()
    &&& forall|i: int|
        0 <= i < v.staged.len() ==> (#[trigger] v.staged[i]).offset + v.staged[i].bytes.len()
            <= usize::MAX
    &&& crate::varint::locator_value(IndexHeader::wire(v.index).len() as nat) <= u64::MAX
}

/// Seeks to `off` in the buffer and writes `data`, zero-filling any gap.
fn write_at_vec(out: &mut Vec<u8>, off: usize, data: &[u8])
    requires
        off + data@.len() <= usize::MAX,
    ensures
        final(out)@ == write_at(old(out)@, off as nat, data@),
{
    while out.len() < off
        invariant
            out@.len() <= off || out@.len() == old(out)@.len(),
            out@ == (if old(out)@.len() < off && out@.len() > old(out)@.len() {
                old(out)@ + zeros((out@.len() - old(out)@.len()) as nat)
            } else {
                old(out)@
            }),
        decreases off - out@.len(),
    {
        out.push(0);
        proof {
            assert(out@ =~= old(out)@ + zeros((out@.len() - old(out)@.len()) as nat));
        }
    }
    let ghost padded = out@;
    proof {
        assert(padded == (if old(out)@.len() < off {
            old(out)@ + zeros((off - old(out)@.len()) as nat)
        } else {
            old(out)@
        })) by {
            if old(out)@.len() < off {
                assert(padded =~= old(out)@ + zeros((off - old(out)@.len()) as nat));
            }
        }
    }
    let mut i: usize = 0;
    let n = data.len();
    #[verifier::loop_isolation(false)]
    while i < n
        invariant
            i <= n,
            out@.len() == (if padded.len() > off + i {
                padded.len() as int
            } else {
                (off + i) as int
            }),
            forall|k: int| 0 <= k < off ==> out@[k] == padded[k],
            forall|k: int| 0 <= k < i ==> out@[off + k] == data@[k],
            forall|k: int| off + i <= k < out@.len() ==> out@[k] == padded[k],
        decreases n - i,
    {
        let b = data[i];
        if off + i < out.len() {
            vstd::pervasive::VecAdditionalExecFns::set(out, off + i, b);
        } else {
            out.push(b);
        }
        i = i + 1;
    }
    proof {
        assert(final(out)@ =~= write_at(old(out)@, off as nat, data@));
    }
}

impl REPAK {
    /// Saves the archive: produces the complete new file bytes from the
    /// engine state and the archive file's current bytes. The engine is
    /// unchanged, so a second save produces the same bytes again.
    pub fn save(&self, old_bytes: &Vec<u8>) -> (r: Result<Vec<u8>, Error>)
        requires
            engine_wf(self@),
        ensures
            save_ok(self@, old_bytes@) ==> (r matches Ok(out) && out@ == save_wire(
                self@,
                old_bytes@,
            )),
            !save_ok(self@, old_bytes@) ==> (r matches Err(e) && (e is Io || e is OffsetTooLarge)),
    {
        let base64: u64 = if self.staged.len() > 0 {
            self.staged[0].offset
        } else {
            self.last_insertion_offset
        };
        proof {
            if self.staged@.len() > 0 {
                assert(self@.staged[0] == self.staged@[0]@);
            }
            assert(payload_base(self@) == base64);
        }
        if base64 > old_bytes.len() as u64 {
            return Err(Error::Io("archive is shorter than its payload region".to_owned()));
        }
        let base = base64 as usize;
        let mut out: Vec<u8> = Vec::new();
        push_bytes(&mut out, vstd::slice::slice_subrange(old_bytes.as_slice(), 0, base));
        proof {
            assert(out@ =~= old_bytes@.take(payload_base(self@) as int));
        }
        let ghost buf0 = out@;
        let ghost staged_v = self@.staged;
        let n = self.staged.len();
        let mut i: usize = 0;
        proof {
            assert(staged_v.skip(0) =~= staged_v);
        }
        #[verifier::loop_isolation(false)]
        while i < n
            invariant
                i <= n,
                write_staged(buf0, staged_v) == write_staged(out@, staged_v.skip(i as int)),
                forall|j: int|
                    0 <= j < i ==> (#[trigger] staged_v[j]).offset + staged_v[j].bytes.len()
                        <= usize::MAX,
            decreases n - i,
        {
            let off64 = self.staged[i].offset;
            let blen = self.staged[i].bytes.len();
            if off64 > usize::MAX as u64 - blen as u64 {
                return Err(Error::OffsetTooLarge);
            }
            let off = off64 as usize;
            let ghost before = out@;
            write_at_vec(&mut out, off, self.staged[i].bytes.as_slice());
            proof {
                assert(staged_v.skip(i as int)[0] == staged_v[i as int]);
                assert(staged_v.skip(i as int).skip(1) =~= staged_v.skip(i + 1));
                assert(write_staged(before, staged_v.skip(i as int)) == write_staged(
                    out@,
                    staged_v.skip(i + 1),
                ));
            }
            i = i + 1;
        }
        proof {
            assert(staged_v.skip(n as int).len() == 0);
            assert(write_staged(buf0, staged_v) == out@);
        }
        let mut iw: Vec<u8> = Vec::new();
        self.index.ser(&mut iw);
        proof {
            assert(iw@ =~= IndexHeader::wire(self@.index));
        }
        let iwl = iw.len() as u64;
        let est = crate::varint::locator_len_estimate(iwl) as u64;
        if iwl > u64::MAX - est {
            return Err(Error::Io("index is too large for a locator".to_owned()));
        }
        let locator = make_index_locator(iwl);
        push_bytes(&mut out, iw.as_slice());
        push_bytes(&mut out, locator.as_slice());
        proof {
            assert(out@ =~= save_wire(self@, old_bytes@));
        }
        Ok(out)
    }
}

/// Entry names are unique: the directory's strict name order leaves no
/// room for two entries with one name.
pub proof fn lemma_names_unique(s: Seq<IndexEntryV>)
    requires
        entries_sorted(s),
    ensures
        forall|i: int, j: int|
            0 <= i < j < s.len() ==> (#[trigger] s[i]).name != (#[trigger] s[j]).name,
{
    assert forall|i: int, j: int|
        0 <= i < j < s.len() implies (#[trigger] s[i]).name != (#[trigger] s[j]).name by {
        if s[i].name == s[j].name {
            index::lemma_lex_irreflexive(name_key(s[i].name));
        }
    }
}

/// The transform pipeline inverts: when an append's entry sits in an
/// archive whose bytes hold the staged payload at the entry's offset,
/// extraction recovers exactly the appended source bytes.
pub proof fn lemma_pipeline_roundtrip(
    off: u64,
    data: Seq<u8>,
    o: AppendOptions,
    name: Seq<char>,
    pak: Seq<u8>,
)
    requires
        options_supported(o),
        data.len() <= u64::MAX,
        off + stored_of(data, o).len() <= pak.len(),
        pak.subrange(off as int, off + stored_of(data, o).len()) == stored_of(data, o),
    ensures
        entry_data_at(appended_entry(off, data, o, name), pak, data),
{
    let e = appended_entry(off, data, o, name);
    match o.checksum {
        Some(k) => {
            let h = one_checksum_header(k, data);
            assert(crate::checksum::checksums_match(h, data)) by {
                assert forall|i: int| 0 <= i < h.checksums.len() implies (#[trigger] h.checksums[i]).payload
                    == crate::checksum::digest_of(h.checksums[i].kind, data) by {
                    assert(h.checksums[i] == h.checksums[0]);
                }
            }
        },
        None => {},
    }
}

/// Writing staged payloads within the address range keeps the buffer's
/// length within it too, or leaves it where it was.
proof fn lemma_write_staged_len(buf: Seq<u8>, staged: Seq<StagedV>)
    requires
        buf.len() <= u64::MAX,
        forall|i: int|
            0 <= i < staged.len() ==> (#[trigger] staged[i]).offset + staged[i].bytes.len()
                <= usize::MAX,
    ensures
        write_staged(buf, staged).len() <= u64::MAX,
    decreases staged.len(),
{
    if staged.len() > 0 {
        let w = write_at(buf, staged[0].offset as nat, staged[0].bytes);
        assert(w.len() <= u64::MAX);
        assert forall|i: int|
            0 <= i < staged.skip(1).len() implies (#[trigger] staged.skip(1)[i]).offset + staged.skip(
            1,
        )[i].bytes.len() <= usize::MAX by {
            assert(staged.skip(1)[i] == staged[i + 1]);
        }
        lemma_write_staged_len(w, staged.skip(1));
    }
}

/// Staged payloads sit one after another: each ends at or before the next
/// one's offset. The engine invariant guarantees it: appends never stage
/// more bytes than the range their offset reserves.
pub open spec fn staged_disjoint(staged: Seq<StagedV>) -> bool {
    forall|i: int|
        0 <= i < staged.len() - 1 ==> (#[trigger] staged[i]).offset + staged[i].bytes.len()
            <= staged[i + 1].offset
}

/// Writing at or past the end of the buffer appends: the old bytes stay, a
/// zero gap fills up to the offset, and the data follows.
proof fn lemma_write_at_append(buf: Seq<u8>, off: nat, data: Seq<u8>)
    requires
        buf.len() <= off,
    ensures
        write_at(buf, off, data) == buf + zeros((off - buf.len()) as nat) + data,
        write_at(buf, off, data).len() == off + data.len(),
        write_at(buf, off, data).subrange(off as int, (off + data.len()) as int) == data,
        write_at(buf, off, data).subrange(0, buf.len() as int) == buf,
{
    let w = write_at(buf, off, data);
    assert(w =~= buf + zeros((off - buf.len()) as nat) + data);
    assert(w.subrange(off as int, (off + data.len()) as int) =~= data);
    assert(w.subrange(0, buf.len() as int) =~= buf);
}

/// Writing disjoint staged payloads at or past the end of the buffer
/// leaves the buffer's bytes alone and places each payload at its offset.
proof fn lemma_write_staged_places(buf: Seq<u8>, staged: Seq<StagedV>)
    requires
        staged_disjoint(staged),
        staged.len() > 0 ==> buf.len() <= staged[0].offset,
    ensures
        write_staged(buf, staged).len() >= buf.len(),
        write_staged(buf, staged).subrange(0, buf.len() as int) == buf,
        forall|i: int|
            0 <= i < staged.len() ==> (#[trigger] staged[i]).offset + staged[i].bytes.len()
                <= write_staged(buf, staged).len(),
        forall|i: int|
            0 <= i < staged.len() ==> write_staged(buf, staged).subrange(
                (#[trigger] staged[i]).offset as int,
                staged[i].offset + staged[i].bytes.len() as int,
            ) == staged[i].bytes,
    decreases staged.len(),
{
    if staged.len() > 0 {
        let o0 = staged[0].offset as nat;
        let b0 = staged[0].bytes;
        let w = write_at(buf, o0, b0);
        lemma_write_at_append(buf, o0, b0);
        let rest = staged.skip(1);
        assert(staged_disjoint(rest)) by {
            assert forall|i: int|
                0 <= i < rest.len() - 1 implies (#[trigger] rest[i]).offset + rest[i].bytes.len()
                <= rest[i + 1].offset by {
                assert(rest[i] == staged[i + 1] && rest[i + 1] == staged[i + 2]);
            }
        }
        assert(rest.len() > 0 ==> w.len() <= rest[0].offset) by {
            if rest.len() > 0 {
                assert(rest[0] == staged[1]);
            }
        }
        lemma_write_staged_places(w, rest);
        let r = write_staged(buf, staged);
        assert(r == write_staged(w, rest));
        assert(r.subrange(0, buf.len() as int) =~= r.subrange(0, w.len() as int).subrange(
            0,
            buf.len() as int,
        ));
        assert(r.subrange(o0 as int, (o0 + b0.len()) as int) =~= r.subrange(
            0,
            w.len() as int,
        ).subrange(o0 as int, (o0 + b0.len()) as int));
        assert(w.subrange(o0 as int, (o0 + b0.len()) as int) == b0);
        assert forall|i: int|
            0 <= i < staged.len() implies write_staged(buf, staged).subrange(
            (#[trigger] staged[i]).offset as int,
            staged[i].offset + staged[i].bytes.len() as int,
        ) == staged[i].bytes by {
            if i > 0 {
                assert(rest[i - 1] == staged[i]);
            }
        }
        assert forall|i: int|
            0 <= i < staged.len() implies (#[trigger] staged[i]).offset + staged[i].bytes.len()
            <= write_staged(buf, staged).len() by {
            if i > 0 {
                assert(rest[i - 1] == staged[i]);
            }
        }
    }
}

/// What a save writes for a staged payload can be read back: the saved
/// archive holds the payload's bytes at its assigned offset.
pub proof fn lemma_save_places_staged(v: REPAKV, old_bytes: Seq<u8>, j: int)
    requires
        engine_wf(v),
        save_ok(v, old_bytes),
        0 <= j < v.staged.len(),
    ensures
        v.staged[j].offset + v.staged[j].bytes.len() <= save_wire(v, old_bytes).len(),
        save_wire(v, old_bytes).subrange(
            v.staged[j].offset as int,
            v.staged[j].offset + v.staged[j].bytes.len() as int,
        ) == v.staged[j].bytes,
{
    assert(staged_disjoint(v.staged));
    let buf = old_bytes.take(payload_base(v) as int);
    lemma_write_staged_places(buf, v.staged);
    let body = write_staged(buf, v.staged);
    let b = save_wire(v, old_bytes);
    assert(b.subrange(
        v.staged[j].offset as int,
        v.staged[j].offset + v.staged[j].bytes.len() as int,
    ) =~= body.subrange(
        v.staged[j].offset as int,
        v.staged[j].offset + v.staged[j].bytes.len() as int,
    ));
}

/// What the format promises end to end: an entry appended with supported
/// options, whose staged payload a save wrote, stores exactly its source
/// bytes; extraction through the inverse pipeline recovers them.
pub proof fn lemma_saved_entry_extractable(
    v: REPAKV,
    old_bytes: Seq<u8>,
    j: int,
    data: Seq<u8>,
    o: AppendOptions,
    name: Seq<char>,
)
    requires
        engine_wf(v),
        save_ok(v, old_bytes),
        0 <= j < v.staged.len(),
        v.staged[j].bytes == stored_of(data, o),
        options_supported(o),
        data.len() <= u64::MAX,
    ensures
        entry_data_at(
            appended_entry(v.staged[j].offset, data, o, name),
            save_wire(v, old_bytes),
            data,
        ),
{
    lemma_save_places_staged(v, old_bytes, j);
    lemma_pipeline_roundtrip(v.staged[j].offset, data, o, name, save_wire(v, old_bytes));
}

/// Saving and reopening an archive is the identity: the reopened engine
/// carries the directory that was saved, and saving it again produces the
/// same bytes. The locator's length estimate must be exact, which holds
/// for most directory sizes.
#[verifier::rlimit(100)]
#[verifier::spinoff_prover]
pub proof fn lemma_save_reopen_identity(v: REPAKV, old_bytes: Seq<u8>)
    requires
        engine_wf(v),
        save_ok(v, old_bytes),
        forall|i: int|
            0 <= i < v.index.entries.len() ==> index::entry_canonical(
                #[trigger] v.index.entries[i],
            ),
        crate::varint::locator_exact(IndexHeader::wire(v.index).len() as nat),
        IndexHeader::wire(v.index).len() + 10 <= i64::MAX,
    ensures
        ({
            let b = save_wire(v, old_bytes);
            let rev = b.skip(b.len() - 10).reverse();
            &&& b.len() >= 10
            &&& leb_ok(rev)
            &&& leb_value(rev) <= i64::MAX
            &&& leb_value(rev) <= b.len()
            &&& IndexHeader::parse(b.skip(b.len() - leb_value(rev))) matches Some(h) && h.0
                == v.index
            &&& {
                let e2 = opened_engine(
                    v.file_path,
                    v.index,
                    true,
                    (b.len() - leb_value(rev)) as u64,
                );
                &&& e2.index == v.index
                &&& engine_wf(e2)
                &&& save_ok(e2, b)
                &&& save_wire(e2, b) == b
            }
        }),
{
    let body = write_staged(old_bytes.take(payload_base(v) as int), v.staged);
    let iw = IndexHeader::wire(v.index);
    let n = iw.len() as nat;
    let b = save_wire(v, old_bytes);
    let kest = crate::varint::uleb_len(n + n / 128 + 1);
    let l = crate::varint::locator_value(n);
    let loc = locator_bytes(n);
    crate::varint::lemma_uleb_len_le_10(n + n / 128 + 1);
    assert(l == n + kest);
    assert(l <= u64::MAX);
    crate::varint::lemma_leb_roundtrip(l, Seq::<u8>::empty());
    assert(loc.len() == crate::varint::uleb_len(l));
    assert(loc.len() == kest);
    assert(n >= 9) by {
        crate::varint::lemma_leb_roundtrip(v.index.count as nat, Seq::<u8>::empty());
        assert(crate::varint::uleb_len(v.index.count as nat) >= 1);
    }
    let k = loc.len() as int;
    assert(b.len() == body.len() + n + k);
    assert(b.len() - l == body.len());
    // the last ten bytes end with the reversed locator
    let junk = b.subrange(b.len() - 10, b.len() - k);
    assert(b.skip(b.len() - 10) =~= junk + loc);
    crate::varint::lemma_locator_roundtrip(l, junk);
    assert((junk + crate::varint::uleb(l).reverse()).reverse() == b.skip(b.len() - 10).reverse())
        by {
        assert(junk + crate::varint::uleb(l).reverse() =~= b.skip(b.len() - 10));
    }
    let rev = b.skip(b.len() - 10).reverse();
    assert(leb_ok(rev) && leb_value(rev) == l);
    // parsing at the locator's target reads back the saved directory
    assert(b.skip(b.len() - l) =~= iw + loc);
    index::lemma_index_header_roundtrip(v.index, loc);
    assert(IndexHeader::parse(b.skip(b.len() - l)) == Some((v.index, n as int)));
    // the reopened engine carries the same directory
    let e2 = opened_engine(v.file_path, v.index, true, (b.len() - l) as u64);
    index::lemma_normalize_sorted_id(v.index.entries);
    assert(e2.index == v.index);
    // and saving it reproduces the same bytes
    lemma_write_staged_len(old_bytes.take(payload_base(v) as int), v.staged);
    assert(body.len() <= u64::MAX);
    assert(payload_base(e2) == body.len());
    assert(e2.staged =~= Seq::<StagedV>::empty());
    assert(write_staged(b.take(payload_base(e2) as int), e2.staged) == b.take(
        payload_base(e2) as int,
    ));
    assert(b.take(body.len() as int) =~= body);
    assert(save_wire(e2, b) =~= b);
}

} // verus!
