use vstd::prelude::*;
use vstd::utf8::{encode_utf8, valid_utf8};

use crate::error::Error;
use crate::text::utf8_string;

verus! {

/// Signature of a local file header.
pub const LFH_SIGNATURE: u32 = 0x04034b50;

/// Signature of a central directory file header: the members are over.
pub const CDFH_SIGNATURE: u32 = 0x02014b50;

/// Size of a local file header without its name and extra field.
pub const LFH_SIZE: u64 = 30;

/// The little-endian 16-bit integer at `i` of `s`.
pub open spec fn le16(s: Seq<u8>, i: int) -> int {
    s[i] as int + 256 * s[i + 1] as int
}

/// The little-endian 32-bit integer at `i` of `s`.
pub open spec fn le32(s: Seq<u8>, i: int) -> int {
    s[i] as int + 256 * s[i + 1] as int + 65536 * s[i + 2] as int + 16777216 * s[i + 3] as int
}

/// What raw DEFLATE decoding makes of `b`; `None` where `b` does not
/// begin with a complete DEFLATE stream.
pub uninterp spec fn inflated(b: Seq<u8>) -> Option<Seq<u8>>;

#[verifier::external_type_specification]
#[verifier::external_body]
pub struct ExDecompressError(miniz_oxide::inflate::DecompressError);

/// Relies on `miniz_oxide::inflate::decompress_to_vec_with_limit`: raw
/// DEFLATE data decoded whole, never grown past `limit` bytes (an error then).
#[verifier::external_body]
fn inflate_with_limit(b: &[u8], limit: usize) -> (r: Result<
    Vec<u8>,
    miniz_oxide::inflate::DecompressError,
>)
    ensures
        r matches Ok(v) ==> inflated(b@) == Some(v@) && v@.len() <= limit,
        inflated(b@) is Some && inflated(b@)->0.len() <= limit ==> r is Ok,
{
    miniz_oxide::inflate::decompress_to_vec_with_limit(b, limit)
}

fn read_le16(s: &[u8], i: usize) -> (r: u64)
    requires
        i + 2 <= s@.len(),
    ensures
        r == le16(s@, i as int),
{
    s[i] as u64 + 256 * (s[i + 1] as u64)
}

fn read_le32(s: &[u8], i: usize) -> (r: u64)
    requires
        i + 4 <= s@.len(),
    ensures
        r == le32(s@, i as int),
{
    s[i] as u64 + 256 * (s[i + 1] as u64) + 65536 * (s[i + 2] as u64) + 16777216 * (
    s[i + 3] as u64)
}

/// A member of the archive: its name, where its compressed data lies, and
/// the size its header declares for it once inflated.
#[derive(Debug)]
pub struct DeflatedFile {
    pub name: String,
    pub start: u64,
    pub end: u64,
    pub size: usize,
}

impl DeflatedFile {
    /// The member inflated and read as UTF-8 text. Inflating stops at the
    /// declared size.
    pub fn extract_string(&self, data: &[u8]) -> (r: Result<String, Error>)
        ensures
            (self.start > self.end || self.end > data@.len()) ==> r == Err::<String, Error>(
                Error::Truncated,
            ),
            r matches Ok(s) ==> self.start <= self.end <= data@.len() && inflated(
                data@.subrange(self.start as int, self.end as int),
            ) == Some(encode_utf8(s@)) && encode_utf8(s@).len() <= self.size,
            self.start <= self.end <= data@.len() ==> match inflated(
                data@.subrange(self.start as int, self.end as int),
            ) {
                Some(w) => w.len() <= self.size ==> ((valid_utf8(w) <==> r is Ok) && (!valid_utf8(w)
                    ==> r == Err::<String, Error>(Error::NotUtf8))),
                None => r == Err::<String, Error>(Error::Inflate),
            },
            r matches Err(e) ==> e == Error::Truncated || e == Error::Inflate || e == Error::NotUtf8,
    {
        if self.start > self.end || self.end > data.len() as u64 {
            return Err(Error::Truncated);
        }
        let bytes = vstd::slice::slice_subrange(data, self.start as usize, self.end as usize);
        let contents = match inflate_with_limit(bytes, self.size) {
            Ok(v) => v,
            Err(_) => return Err(Error::Inflate),
        };
        match utf8_string(contents) {
            Some(s) => Ok(s),
            None => Err(Error::NotUtf8),
        }
    }
}

/// The members of a ZIP archive, read one local file header at a time.
pub struct FileIter<'a> {
    pub data: &'a [u8],
    pub pos: u64,
}

impl<'a> FileIter<'a> {
    /// A reader at the start of `data`.
    pub fn new(data: &'a [u8]) -> (r: Self)
        ensures
            r.data == data,
            r.pos == 0,
    {
        FileIter { data, pos: 0 }
    }

    /// The next member. The central directory's signature ends the members;
    /// any other signature is a corrupt archive. The cursor moves past the
    /// member's data.
    pub fn read_zip_header(&mut self) -> (r: Result<Option<DeflatedFile>, Error>)
        ensures
            final(self).data == old(self).data,
            ({
                let s = old(self).data@;
                let p = old(self).pos as int;
                if p + 30 > s.len() {
                    r == Err::<Option<DeflatedFile>, Error>(Error::Truncated)
                } else if le32(s, p) != LFH_SIGNATURE {
                    if le32(s, p) == CDFH_SIGNATURE {
                        r == Ok::<Option<DeflatedFile>, Error>(None)
                    } else {
                        r == Err::<Option<DeflatedFile>, Error>(Error::CorruptArchive)
                    }
                } else {
                    let name_end = p + 30 + le16(s, p + 26);
                    let data_start = name_end + le16(s, p + 28);
                    &&& name_end > s.len() ==> r == Err::<Option<DeflatedFile>, Error>(
                        Error::Truncated,
                    )
                    &&& r matches Ok(Some(f)) ==> {
                        &&& encode_utf8(f.name@) == s.subrange(p + 30, name_end)
                        &&& f.start == data_start
                        &&& f.end == data_start + le32(s, p + 18)
                        &&& f.size == le32(s, p + 22)
                        &&& final(self).pos == f.end
                    }
                    &&& r matches Ok(x) ==> x is Some
                    &&& (name_end <= s.len() && s.len() <= u64::MAX - 0x20000 && valid_utf8(
                        s.subrange(p + 30, name_end),
                    ) && data_start + le32(s, p + 18) <= u64::MAX) ==> r is Ok
                    &&& (name_end <= s.len() && s.len() <= u64::MAX - 0x20000 && !valid_utf8(
                        s.subrange(p + 30, name_end),
                    )) ==> r == Err::<Option<DeflatedFile>, Error>(Error::NotUtf8)
                    &&& r is Ok ==> final(self).pos > old(self).pos
                }
            }),
    {
        let len = self.data.len() as u64;
        if self.pos > len || len - self.pos < LFH_SIZE {
            return Err(Error::Truncated);
        }
        let p = self.pos as usize;
        let signature = read_le32(self.data, p);
        if signature != LFH_SIGNATURE as u64 {
            if signature == CDFH_SIGNATURE as u64 {
                return Ok(None);
            }
            return Err(Error::CorruptArchive);
        }
        let compressed_size = read_le32(self.data, p + 18);
        let uncompressed_size = read_le32(self.data, p + 22);
        let filename_len = read_le16(self.data, p + 26);
        let extra_len = read_le16(self.data, p + 28);
        let name_start = self.pos + LFH_SIZE;
        if filename_len > len - name_start {
            return Err(Error::Truncated);
        }
        // offsets past this could not be added up; no archive is that large
        if len > u64::MAX - 0x20000 {
            return Err(Error::Truncated);
        }
        let name_end = name_start + filename_len;
        let name_bytes = crate::bytes::to_vec(
            vstd::slice::slice_subrange(self.data, name_start as usize, name_end as usize),
        );
        let name = match utf8_string(name_bytes) {
            Some(n) => n,
            None => return Err(Error::NotUtf8),
        };
        let start = name_end + extra_len;
        let end = match start.checked_add(compressed_size) {
            Some(e) => e,
            None => return Err(Error::Truncated),
        };
        self.pos = end;
        Ok(Some(DeflatedFile { name, start, end, size: uncompressed_size as usize }))
    }
}

} // verus!
