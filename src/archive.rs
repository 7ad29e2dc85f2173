//! The archive frame: a sixteen-byte header (magic, version, CRC-32 of the
//! body, both numbers big-endian) followed by the encoded value.

use vstd::prelude::*;

use crate::cbor::{bounded, dec, decode, enc, encode, lemma_round_trip};
use crate::merge::{default_settings, merge_spec, MergeSettings};
use crate::value::{Json, Value};

verus! {

broadcast use vstd::std_specs::vec::group_vec_axioms, vstd::seq::group_seq_axioms;

/// The length of the header.
pub const HEADER_LEN: usize = 16;

/// The magic bytes: the UTF-8 text `WALL•A`.
pub open spec fn magic() -> Seq<u8> {
    seq![0x57u8, 0x41u8, 0x4cu8, 0x4cu8, 0xe2u8, 0x80u8, 0xa2u8, 0x41u8]
}

/// The version bytes: 1, big-endian.
pub open spec fn version_bytes() -> Seq<u8> {
    seq![0u8, 0u8, 0u8, 1u8]
}

/// The big-endian bytes of `c`.
pub open spec fn be32(c: u32) -> Seq<u8> {
    seq![
        ((c >> 24u32) & 0xff) as u8,
        ((c >> 16u32) & 0xff) as u8,
        ((c >> 8u32) & 0xff) as u8,
        (c & 0xff) as u8,
    ]
}

/// The number whose big-endian bytes are the four at `p`.
pub open spec fn be32_value(b: Seq<u8>, p: int) -> u32 {
    ((b[p] as u32) << 24u32) | ((b[p + 1] as u32) << 16u32) | ((b[p + 2] as u32) << 8u32) | (b[p
        + 3] as u32)
}

/// The header of a body whose checksum is `c`.
pub open spec fn header(c: u32) -> Seq<u8> {
    magic() + version_bytes() + be32(c)
}

/// The CRC-32 checksum of some bytes.
pub uninterp spec fn crc32_of(b: Seq<u8>) -> u32;

/// Relies on `crc32fast::hash`: the CRC-32 checksum of the bytes, which
/// depends on the bytes alone.
#[verifier::external_body]
fn crc32(b: &[u8]) -> (r: u32)
    ensures
        r == crc32_of(b@),
{
    crc32fast::hash(b)
}

/// Why an archive could not be read.
#[derive(Debug, Clone, Copy, PartialEq, Eq, Structural)]
pub enum ArchiveError {
    /// The file is shorter than a header.
    Truncated,
    /// The file does not start with the magic bytes.
    BadMagic,
    /// The header names a version other than 1.
    UnsupportedVersion,
    /// The checksum in the header is not that of the body.
    ChecksumMismatch {
        /// The checksum that the header holds.
        stored: u32,
        /// The checksum of the body.
        computed: u32,
    },
    /// The body is not the encoding of one value.
    Malformed,
}

/// What reading an archive file gives, where `crc` is the checksum of its
/// body.
pub open spec fn frame_result(file: Seq<u8>, crc: u32) -> Result<Json, ArchiveError> {
    if file.len() < 16 {
        Err(ArchiveError::Truncated)
    } else if file.subrange(0, 8) != magic() {
        Err(ArchiveError::BadMagic)
    } else if file.subrange(8, 12) != version_bytes() {
        Err(ArchiveError::UnsupportedVersion)
    } else if be32_value(file, 12) != crc {
        Err(ArchiveError::ChecksumMismatch { stored: be32_value(file, 12), computed: crc })
    } else {
        match dec(file.subrange(16, file.len() as int)) {
            Some(j) => Ok(j),
            None => Err(ArchiveError::Malformed),
        }
    }
}

/// What reading an archive file gives.
pub open spec fn archive_result(file: Seq<u8>) -> Result<Json, ArchiveError> {
    if file.len() < 16 {
        Err(ArchiveError::Truncated)
    } else {
        frame_result(file, crc32_of(file.subrange(16, file.len() as int)))
    }
}

/// The header of an archive file.
#[derive(Debug, Clone, Copy, PartialEq, Eq)]
pub struct Metadata {
    /// The magic bytes.
    pub magic: [u8; 8],
    /// The format version, big-endian.
    pub version: [u8; 4],
    /// The CRC-32 of the body, big-endian.
    pub checksum: [u8; 4],
}

/// The big-endian bytes of `c`.
fn be_bytes(c: u32) -> (r: [u8; 4])
    ensures
        r@ == be32(c),
{
    let r = [
        ((c >> 24u32) & 0xff) as u8,
        ((c >> 16u32) & 0xff) as u8,
        ((c >> 8u32) & 0xff) as u8,
        (c & 0xff) as u8,
    ];
    assert(r@ =~= be32(c));
    r
}

impl Metadata {
    /// The header of a body whose checksum is `checksum`.
    pub fn for_checksum(checksum: u32) -> (r: Metadata)
        ensures
            r.magic@ == magic(),
            r.version@ == version_bytes(),
            r.checksum@ == be32(checksum),
    {
        let m = [0x57u8, 0x41u8, 0x4cu8, 0x4cu8, 0xe2u8, 0x80u8, 0xa2u8, 0x41u8];
        let v = [0u8, 0u8, 0u8, 1u8];
        assert(m@ =~= magic());
        assert(v@ =~= version_bytes());
        Metadata { magic: m, version: v, checksum: be_bytes(checksum) }
    }

    /// The header of `body`.
    pub fn for_body(body: &[u8]) -> (r: Metadata)
        ensures
            r.magic@ == magic(),
            r.version@ == version_bytes(),
            r.checksum@ == be32(crc32_of(body@)),
    {
        Metadata::for_checksum(crc32(body))
    }

    /// Reads a header from the first sixteen bytes of `bytes`.
    pub fn from_reader(bytes: &[u8]) -> (r: Result<Metadata, ArchiveError>)
        ensures
            bytes@.len() < 16 ==> r == Err::<Metadata, ArchiveError>(ArchiveError::Truncated),
            bytes@.len() >= 16 ==> (r matches Ok(md) && md.magic@ == bytes@.subrange(0, 8)
                && md.version@ == bytes@.subrange(8, 12) && md.checksum@ == bytes@.subrange(
                12,
                16,
            )),
    {
        if bytes.len() < HEADER_LEN {
            return Err(ArchiveError::Truncated);
        }
        let m = [bytes[0], bytes[1], bytes[2], bytes[3], bytes[4], bytes[5], bytes[6], bytes[7]];
        let v = [bytes[8], bytes[9], bytes[10], bytes[11]];
        let c = [bytes[12], bytes[13], bytes[14], bytes[15]];
        assert(m@ =~= bytes@.subrange(0, 8));
        assert(v@ =~= bytes@.subrange(8, 12));
        assert(c@ =~= bytes@.subrange(12, 16));
        Ok(Metadata { magic: m, version: v, checksum: c })
    }

    /// The sixteen bytes of this header.
    pub fn as_bytes(&self) -> (r: Vec<u8>)
        ensures
            r@ == self.magic@ + self.version@ + self.checksum@,
    {
        let mut out: Vec<u8> = Vec::new();
        let mut i: usize = 0;
        while i < 8
            invariant
                i <= 8,
                out@ == self.magic@.subrange(0, i as int),
            decreases 8 - i,
        {
            out.push(self.magic[i]);
            i = i + 1;
            assert(out@ =~= self.magic@.subrange(0, i as int));
        }
        let mut i: usize = 0;
        while i < 4
            invariant
                i <= 4,
                out@ == self.magic@ + self.version@.subrange(0, i as int),
            decreases 4 - i,
        {
            out.push(self.version[i]);
            i = i + 1;
            assert(out@ =~= self.magic@ + self.version@.subrange(0, i as int));
        }
        let mut i: usize = 0;
        while i < 4
            invariant
                i <= 4,
                out@ == self.magic@ + self.version@ + self.checksum@.subrange(0, i as int),
            decreases 4 - i,
        {
            out.push(self.checksum[i]);
            i = i + 1;
            assert(out@ =~= self.magic@ + self.version@ + self.checksum@.subrange(0, i as int));
        }
        assert(self.magic@.subrange(0, 8) =~= self.magic@);
        assert(self.version@.subrange(0, 4) =~= self.version@);
        assert(self.checksum@.subrange(0, 4) =~= self.checksum@);
        out
    }

    /// The checksum that this header holds.
    pub fn stored_checksum(&self) -> (r: u32)
        ensures
            r == be32_value(self.checksum@, 0),
    {
        ((self.checksum[0] as u32) << 24u32) | ((self.checksum[1] as u32) << 16u32) | ((
        self.checksum[2] as u32) << 8u32) | (self.checksum[3] as u32)
    }

    /// Tells whether the checksum that this header holds is `computed`.
    pub fn matches_checksum(&self, computed: u32) -> (r: bool)
        ensures
            r == (be32_value(self.checksum@, 0) == computed),
    {
        self.stored_checksum() == computed
    }

    /// Tells whether the checksum that this header holds is that of `body`.
    pub fn matches_body(&self, body: &[u8]) -> (r: bool)
        ensures
            r == (be32_value(self.checksum@, 0) == crc32_of(body@)),
    {
        self.matches_checksum(crc32(body))
    }
}

impl Default for Metadata {
    /// The header written before the body's checksum is known: its checksum
    /// bytes are zero.
    fn default() -> (r: Metadata)
        ensures
            r.magic@ == magic(),
            r.version@ == version_bytes(),
            r.checksum@ == seq![0u8, 0u8, 0u8, 0u8],
    {
        let r = Metadata::for_checksum(0);
        assert(r.checksum@ =~= seq![0u8, 0u8, 0u8, 0u8]) by {
            assert(((0u32 >> 24u32) & 0xff) == 0) by (bit_vector);
            assert(((0u32 >> 16u32) & 0xff) == 0) by (bit_vector);
            assert(((0u32 >> 8u32) & 0xff) == 0) by (bit_vector);
            assert((0u32 & 0xff) == 0) by (bit_vector);
        }
        r
    }
}

/// Tells whether the bytes of `a` are those of `b`.
fn same_bytes(a: &[u8], b: &[u8]) -> (r: bool)
    ensures
        r == (a@ == b@),
{
    if a.len() != b.len() {
        return false;
    }
    let mut i: usize = 0;
    while i < a.len()
        invariant
            a@.len() == b@.len(),
            i <= a@.len(),
            forall|j: int| 0 <= j < i ==> a@[j] == b@[j],
        decreases a.len() - i,
    {
        if a[i] != b[i] {
            return false;
        }
        i = i + 1;
    }
    assert(a@ =~= b@);
    true
}

/// Reads an archive file whose body has the checksum `crc`: checks the
/// header's magic, version and checksum, then decodes the body.
pub fn read_frame(file: &[u8], crc: u32) -> (r: Result<Value, ArchiveError>)
    ensures
        match r {
            Ok(v) => frame_result(file@, crc) == Ok::<Json, ArchiveError>(v@),
            Err(e) => frame_result(file@, crc) == Err::<Json, ArchiveError>(e),
        },
{
    let md = match Metadata::from_reader(file) {
        Ok(md) => md,
        Err(e) => return Err(e),
    };
    let expected = Metadata::for_checksum(crc);
    if !same_bytes(md.magic.as_slice(), expected.magic.as_slice()) {
        return Err(ArchiveError::BadMagic);
    }
    if !same_bytes(md.version.as_slice(), expected.version.as_slice()) {
        return Err(ArchiveError::UnsupportedVersion);
    }
    let stored = md.stored_checksum();
    assert(be32_value(md.checksum@, 0) == be32_value(file@, 12));
    if stored != crc {
        return Err(ArchiveError::ChecksumMismatch { stored, computed: crc });
    }
    let body = &file[HEADER_LEN..file.len()];
    match decode(body) {
        Some(v) => Ok(v),
        None => Err(ArchiveError::Malformed),
    }
}

/// Reads an archive file: checks its header against its body, then
/// decodes the body.
pub fn read_archive_value(file: &[u8]) -> (r: Result<Value, ArchiveError>)
    ensures
        match r {
            Ok(v) => archive_result(file@) == Ok::<Json, ArchiveError>(v@),
            Err(e) => archive_result(file@) == Err::<Json, ArchiveError>(e),
        },
{
    if file.len() < HEADER_LEN {
        return Err(ArchiveError::Truncated);
    }
    let crc = crc32(&file[HEADER_LEN..file.len()]);
    read_frame(file, crc)
}

/// Frames a body whose checksum is `crc`: the header, then the body.
pub fn frame_body(body: Vec<u8>, crc: u32) -> (r: Vec<u8>)
    ensures
        r@ == header(crc) + body@,
{
    let mut out = Metadata::for_checksum(crc).as_bytes();
    let mut i: usize = 0;
    let ghost start = out@;
    while i < body.len()
        invariant
            i <= body@.len(),
            out@ == start + body@.subrange(0, i as int),
        decreases body.len() - i,
    {
        out.push(body[i]);
        i = i + 1;
        assert(out@ =~= start + body@.subrange(0, i as int));
    }
    assert(body@.subrange(0, i as int) =~= body@);
    out
}

/// The bytes of an archive file that holds `v`.
pub fn archive_bytes(v: &Value) -> (r: Vec<u8>)
    ensures
        r@ == header(crc32_of(enc(v@))) + enc(v@),
{
    let body = encode(v);
    let crc = crc32(body.as_slice());
    frame_body(body, crc)
}

/// An archive file written for a value reads back as that value: its
/// header passes the checks and its body decodes to the value.
pub proof fn lemma_frame_integrity(v: Json)
    requires
        bounded(v),
    ensures
        archive_result(header(crc32_of(enc(v))) + enc(v)) == Ok::<Json, ArchiveError>(v),
{
    let body = enc(v);
    let c = crc32_of(body);
    let file = header(c) + body;
    assert(file.subrange(0, 8) =~= magic());
    assert(file.subrange(8, 12) =~= version_bytes());
    assert(file.subrange(16, file.len() as int) =~= body);
    assert(file[12] == ((c >> 24u32) & 0xff) as u8);
    assert(file[13] == ((c >> 16u32) & 0xff) as u8);
    assert(file[14] == ((c >> 8u32) & 0xff) as u8);
    assert(file[15] == (c & 0xff) as u8);
    assert(((((c >> 24u32) & 0xff) as u8 as u32) << 24u32) | ((((c >> 16u32) & 0xff) as u8 as u32)
        << 16u32) | ((((c >> 8u32) & 0xff) as u8 as u32) << 8u32) | ((c & 0xff) as u8 as u32) == c)
        by (bit_vector);
    lemma_round_trip(v);
}

/// A file whose header holds another checksum than that of its body is
/// refused with a checksum mismatch.
pub proof fn lemma_checksum_guard(file: Seq<u8>)
    requires
        file.len() >= 16,
        file.subrange(0, 8) == magic(),
        file.subrange(8, 12) == version_bytes(),
        be32_value(file, 12) != crc32_of(file.subrange(16, file.len() as int)),
    ensures
        archive_result(file) is Err,
        archive_result(file)->Err_0 is ChecksumMismatch,
{
}

/// The values of archive files read in order and merged under the default
/// settings, the first file the oldest; `None` for no files; the first
/// error met, if any.
pub open spec fn collect_result(files: Seq<Seq<u8>>) -> Result<Option<Json>, ArchiveError>
    decreases files.len(),
{
    if files.len() == 0 {
        Ok(None)
    } else {
        match collect_result(files.subrange(0, files.len() - 1)) {
            Err(e) => Err(e),
            Ok(acc) => match archive_result(files[files.len() - 1]) {
                Err(e) => Err(e),
                Ok(v) => Ok(
                    Some(
                        match acc {
                            None => v,
                            Some(a) => merge_spec(default_settings(), a, v),
                        },
                    ),
                ),
            },
        }
    }
}

/// Reads archive files, given oldest first, and merges their values in that
/// order under the default settings. Gives `None` when there are no files,
/// and stops at the first file that cannot be read.
pub fn collect_archived_values(files: &Vec<Vec<u8>>) -> (r: Result<Option<Value>, ArchiveError>)
    ensures
        match r {
            Ok(None) => collect_result(files@.map_values(|f: Vec<u8>| f@)) == Ok::<
                Option<Json>,
                ArchiveError,
            >(None),
            Ok(Some(v)) => collect_result(files@.map_values(|f: Vec<u8>| f@)) == Ok::<
                Option<Json>,
                ArchiveError,
            >(Some(v@)),
            Err(e) => collect_result(files@.map_values(|f: Vec<u8>| f@)) == Err::<
                Option<Json>,
                ArchiveError,
            >(e),
        },
{
    let ghost fs = files@.map_values(|f: Vec<u8>| f@);
    let settings = MergeSettings::default();
    let mut acc: Option<Value> = None;
    let mut i: usize = 0;
    assert(fs.subrange(0, 0) =~= Seq::<Seq<u8>>::empty());
    while i < files.len()
        invariant
            fs == files@.map_values(|f: Vec<u8>| f@),
            settings == default_settings(),
            i <= files@.len(),
            collect_result(fs.subrange(0, i as int)) == Ok::<Option<Json>, ArchiveError>(
                match acc {
                    None => None,
                    Some(a) => Some(a@),
                },
            ),
        decreases files.len() - i,
    {
        let ghost p = fs.subrange(0, i + 1);
        assert(p.subrange(0, p.len() - 1) =~= fs.subrange(0, i as int));
        assert(p[p.len() - 1] == files@[i as int]@);
        let v = match read_archive_value(files[i].as_slice()) {
            Ok(v) => v,
            Err(e) => {
                proof {
                    lemma_collect_error(fs, i as int + 1, e);
                }
                return Err(e);
            },
        };
        acc = match acc {
            None => Some(v),
            Some(a) => Some(settings.merge(a, v)),
        };
        i = i + 1;
    }
    assert(fs.subrange(0, files@.len() as int) =~= fs);
    Ok(acc)
}

/// Once reading stops at an error, reading more files keeps that error.
proof fn lemma_collect_error(fs: Seq<Seq<u8>>, n: int, e: ArchiveError)
    requires
        0 < n <= fs.len(),
        collect_result(fs.subrange(0, n)) == Err::<Option<Json>, ArchiveError>(e),
    ensures
        collect_result(fs) == Err::<Option<Json>, ArchiveError>(e),
    decreases fs.len() - n,
{
    if n < fs.len() {
        let p = fs.subrange(0, n + 1);
        assert(p.subrange(0, p.len() - 1) =~= fs.subrange(0, n));
        lemma_collect_error(fs, n + 1, e);
    } else {
        assert(fs.subrange(0, n) =~= fs);
    }
}

} // verus!
