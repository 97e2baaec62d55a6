//! Reading an existing ZIP archive into an indexed view.
//!
//! `ZipFile::from` locates the end-of-central-directory record, walks the
//! central directory and produces one `ZipEntry` per record.  The spec
//! functions beside the parser state exactly which archives parse and what
//! the resulting view holds, so every later edit is proved against the same
//! model.

use vstd::prelude::*;
use crate::utils::{u16_at, u32_at, get_leu16_value, get_leu32_value};
use vstd::utf8::valid_utf8;
use vstd::slice::slice_subrange;
use vstd::string::StringSliceAdditionalSpecFns;

verus! {

pub const LOCAL_FILE_HEADER: u32 = 0x4034b50;

pub const CENTRAL_DIRECTORY_END: u32 = 0x6054b50;

pub const CENTRAL_DIRECTORY: u32 = 0x2014b50;

/// The two compression methods the ZIP side understands; every other method
/// is rejected while the central directory is parsed.
#[derive(Clone, Copy, PartialEq, Eq, Structural, Debug)]
pub enum CompressMethod {
    Stored,
    Deflated,
}

/// The wire value of a compression method.
pub open spec fn method_value(m: CompressMethod) -> u16 {
    match m {
        CompressMethod::Stored => 0,
        CompressMethod::Deflated => 8,
    }
}

/// The compression method a wire value denotes, if any.
pub open spec fn spec_method_of(value: u16) -> Option<CompressMethod> {
    if value == 0 {
        Some(CompressMethod::Stored)
    } else if value == 8 {
        Some(CompressMethod::Deflated)
    } else {
        None
    }
}

impl CompressMethod {
    /// Decodes a wire value; `None` for every method other than stored or
    /// deflate.
    pub fn convert_from_u16(value: u16) -> (r: Option<CompressMethod>)
        ensures
            r == spec_method_of(value),
    {
        match value {
            0 => Some(CompressMethod::Stored),
            8 => Some(CompressMethod::Deflated),
            _ => None,
        }
    }

    /// The wire value of this method.
    pub fn value(&self) -> (r: u16)
        ensures
            r == method_value(*self),
    {
        match self {
            CompressMethod::Stored => 0,
            CompressMethod::Deflated => 8,
        }
    }
}

/// A structural fault found while parsing a ZIP archive: where it was seen
/// and a fixed description.
#[derive(Debug)]
pub struct ZipFormatError {
    pub offset: usize,
    pub reason: &'static str,
}

/// The mathematical model of one central-directory record.
pub ghost struct EntryV {
    pub origin_size: u32,
    pub compressed_size: u32,
    pub file_name: Seq<u8>,
    pub crc_32: u32,
    pub compress_method: CompressMethod,
    pub modify_time: u32,
    pub local_file_header_offset: u32,
    pub central_directory_header_offset: u32,
    pub entry_size: u32,
    pub ext_len: u16,
}

/// The mathematical model of a parsed archive.
pub ghost struct ArchiveV {
    pub cd_offset: u32,
    pub entries: Seq<EntryV>,
}

/// The ways ZIP parsing can fail, each with the offset it is reported at.
pub ghost enum ZipErrV {
    NoEnd(int),
    BadMagic(int),
    BadName(int),
    BadMethod(int),
    Truncated(int),
}

/// The offset an error is reported at.
pub open spec fn err_offset(e: ZipErrV) -> int {
    match e {
        ZipErrV::NoEnd(o) => o,
        ZipErrV::BadMagic(o) => o,
        ZipErrV::BadName(o) => o,
        ZipErrV::BadMethod(o) => o,
        ZipErrV::Truncated(o) => o,
    }
}

/// The fixed description each kind of error carries.
pub open spec fn err_reason(e: ZipErrV) -> Seq<char> {
    match e {
        ZipErrV::NoEnd(_) => "Central directory end not found"@,
        ZipErrV::BadMagic(_) => "magic of central directory error"@,
        ZipErrV::BadName(_) => "convert string fail"@,
        ZipErrV::BadMethod(_) => "unknown compress method"@,
        ZipErrV::Truncated(_) => "central directory out of bounds"@,
    }
}

/// The backwards scan for the end-of-central-directory magic, starting
/// `s` bytes before `len - 22` and reaching down to offset 0; the window
/// mirrors the comment-length cap of 65535.  `Ok` carries the record
/// offset, `Err` the offset the scan stopped at.
pub open spec fn eocd_scan(d: Seq<u8>, s: int) -> Result<int, int>
    recommends
        0 <= s,
        s + 22 <= d.len(),
    decreases d.len() - 22 - s,
        when 0 <= s && s + 22 <= d.len()
{
    let p = d.len() - 22 - s;
    if u32_at(d, p) == CENTRAL_DIRECTORY_END {
        Ok(p)
    } else if p == 0 {
        Err(0)
    } else if s + 1 > 65535 {
        Err(p - 1)
    } else {
        eocd_scan(d, s + 1)
    }
}

/// Where the end-of-central-directory record stands, or where the failed
/// scan stopped.
pub open spec fn spec_find_eocd(d: Seq<u8>) -> Result<int, int> {
    if d.len() < 22 {
        Err(0)
    } else {
        eocd_scan(d, 0)
    }
}

/// The declared file-name length of the central-directory record at `o`.
pub open spec fn cd_name_len(d: Seq<u8>, o: int) -> u16 {
    u16_at(d, o + 28)
}

/// The total size of the central-directory record at `o`: the fixed part
/// plus name, extra and comment.
pub open spec fn cd_entry_size(d: Seq<u8>, o: int) -> int {
    46 + cd_name_len(d, o) + u16_at(d, o + 30) + u16_at(d, o + 32)
}

/// The model of the central-directory record at `o`, assuming its bounds,
/// magic, name and method checks all passed.
pub open spec fn spec_cd_entry(d: Seq<u8>, o: int) -> EntryV {
    EntryV {
        origin_size: u32_at(d, o + 24),
        compressed_size: u32_at(d, o + 20),
        file_name: d.subrange(o + 46, o + 46 + cd_name_len(d, o)),
        crc_32: u32_at(d, o + 16),
        compress_method: spec_method_of(u16_at(d, o + 10))->Some_0,
        modify_time: u32_at(d, o + 12),
        local_file_header_offset: u32_at(d, o + 42),
        central_directory_header_offset: o as u32,
        entry_size: cd_entry_size(d, o) as u32,
        ext_len: u16_at(d, o + 30),
    }
}

/// Parses `n` central-directory records starting at `o`: either all their
/// models in order, or the first fault.
pub open spec fn spec_parse_cd(d: Seq<u8>, o: int, n: int) -> Result<Seq<EntryV>, ZipErrV>
    decreases n,
{
    if n <= 0 {
        Ok(Seq::empty())
    } else if !(0 <= o && o + 4 <= d.len()) {
        Err(ZipErrV::Truncated(o))
    } else if u32_at(d, o) != CENTRAL_DIRECTORY {
        Err(ZipErrV::BadMagic(o))
    } else if !(o + 46 + cd_name_len(d, o) <= d.len()) {
        Err(ZipErrV::Truncated(o))
    } else if !valid_utf8(d.subrange(o + 46, o + 46 + cd_name_len(d, o))) {
        Err(ZipErrV::BadName(o))
    } else if spec_method_of(u16_at(d, o + 10)) is None {
        Err(ZipErrV::BadMethod(o))
    } else if o > u32::MAX || o + cd_entry_size(d, o) > usize::MAX {
        Err(ZipErrV::Truncated(o))
    } else {
        match spec_parse_cd(d, o + cd_entry_size(d, o), n - 1) {
            Ok(rest) => Ok(seq![spec_cd_entry(d, o)] + rest),
            Err(e) => Err(e),
        }
    }
}

/// The whole read side in one statement: find the end record, read the
/// directory offset and count from it, and parse that many records.
pub open spec fn spec_parse_zip(d: Seq<u8>) -> Result<ArchiveV, ZipErrV> {
    match spec_find_eocd(d) {
        Err(off) => Err(ZipErrV::NoEnd(off)),
        Ok(e) => {
            let cd_off = u32_at(d, e + 16);
            let n = u16_at(d, e + 10);
            match spec_parse_cd(d, cd_off as int, n as int) {
                Ok(es) => Ok(ArchiveV { cd_offset: cd_off, entries: es }),
                Err(err) => Err(err),
            }
        },
    }
}

/// Checks whether `bytes` is well-formed UTF-8, scalar by scalar.
pub fn is_utf8(bytes: &[u8]) -> (r: bool)
    ensures
        r == valid_utf8(bytes@),
{
    let n = bytes.len();
    let mut i: usize = 0;
    proof {
        assert(bytes@.subrange(0, n as int) =~= bytes@);
    }
    loop
        invariant
            i <= n,
            n == bytes@.len(),
            valid_utf8(bytes@) == valid_utf8(bytes@.subrange(i as int, n as int)),
        decreases n - i,
    {
        let ghost rem = bytes@.subrange(i as int, n as int);
        if i == n {
            proof {
                assert(rem.len() == 0);
            }
            return true;
        }
        proof {
            assert(rem[0] == bytes@[i as int]);
        }
        let b0 = bytes[i];
        let width: usize = if b0 <= 0x7f {
            1
        } else if 0xc0 <= b0 && b0 <= 0xdf {
            2
        } else if 0xe0 <= b0 && b0 <= 0xef {
            3
        } else if 0xf0 <= b0 && b0 <= 0xf7 {
            4
        } else {
            proof {
                assert(!vstd::utf8::valid_leading_and_continuation_bytes_first_codepoint(rem));
            }
            return false;
        };
        if n - i < width {
            proof {
                assert(!vstd::utf8::valid_leading_and_continuation_bytes_first_codepoint(rem));
            }
            return false;
        }
        // gather the continuation bytes and compute the codepoint
        let cp: u32;
        if width == 1 {
            cp = b0 as u32;
        } else {
            let b1 = bytes[i + 1];
            if !(0x80 <= b1 && b1 <= 0xbf) {
                proof {
                    assert(rem[1] == bytes@[i + 1]);
                    assert(!vstd::utf8::valid_leading_and_continuation_bytes_first_codepoint(rem));
                }
                return false;
            }
            if width == 2 {
                cp = (((b0 & 0x1f) as u32) << 6) | ((b1 & 0x3f) as u32);
            } else {
                let b2 = bytes[i + 2];
                if !(0x80 <= b2 && b2 <= 0xbf) {
                    proof {
                        assert(rem[1] == bytes@[i + 1]);
                        assert(rem[2] == bytes@[i + 2]);
                        assert(!vstd::utf8::valid_leading_and_continuation_bytes_first_codepoint(
                            rem,
                        ));
                    }
                    return false;
                }
                if width == 3 {
                    cp = (((b0 & 0x0f) as u32) << 12) | (((b1 & 0x3f) as u32) << 6) | ((b2
                        & 0x3f) as u32);
                } else {
                    let b3 = bytes[i + 3];
                    if !(0x80 <= b3 && b3 <= 0xbf) {
                        proof {
                            assert(rem[1] == bytes@[i + 1]);
                            assert(rem[2] == bytes@[i + 2]);
                            assert(rem[3] == bytes@[i + 3]);
                            assert(
                                !vstd::utf8::valid_leading_and_continuation_bytes_first_codepoint(
                                rem,
                            ));
                        }
                        return false;
                    }
                    cp = (((b0 & 0x07) as u32) << 18) | (((b1 & 0x3f) as u32) << 12) | (((b2
                        & 0x3f) as u32) << 6) | ((b3 & 0x3f) as u32);
                }
            }
        }
        proof {
            assert(rem[0] == bytes@[i as int]);
            if 1 < width {
                assert(rem[1] == bytes@[i + 1]);
            }
            if 2 < width {
                assert(rem[2] == bytes@[i + 2]);
            }
            if 3 < width {
                assert(rem[3] == bytes@[i + 3]);
            }
            assert(vstd::utf8::valid_leading_and_continuation_bytes_first_codepoint(rem));
            assert(vstd::utf8::length_of_first_codepoint(rem) == width);
            if width == 1 {
                assert(b0 & 0x7f == b0) by (bit_vector)
                    requires
                        b0 <= 0x7f,
                ;
            }
            assert(cp == vstd::utf8::decode_first_codepoint(rem));
        }
        // reject overlong encodings and surrogates
        let ok: bool = if width == 2 {
            0x80 <= cp
        } else if width == 3 {
            0x800 <= cp && !(0xd800 <= cp && cp <= 0xdfff)
        } else if width == 4 {
            0x10000 <= cp && cp <= 0x10ffff
        } else {
            true
        };
        if !ok {
            proof {
                assert(!vstd::utf8::valid_first_scalar(rem));
            }
            return false;
        }
        proof {
            if width == 1 {
                assert(b0 & 0x7f <= 0x7f) by (bit_vector);
            }
            if width == 2 {
                let b1 = bytes@[i + 1];
                assert(((((b0 & 0x1f) as u32) << 6) | ((b1 & 0x3f) as u32)) <= 0x7ff)
                    by (bit_vector);
            }
            assert(vstd::utf8::valid_first_scalar(rem));
            assert(vstd::utf8::pop_first_scalar(rem) =~= bytes@.subrange(
                i + width,
                n as int,
            ));
        }
        i = i + width;
    }
}

/// One entry of the archive view, decoded from its central-directory record.
pub struct ZipEntry {
    pub origin_size: u32,
    pub compressed_size: u32,
    pub file_name: Vec<u8>,
    pub crc_32: u32,
    pub compress_method: CompressMethod,
    pub modify_time: u32,
    pub local_file_header_offset: u32,
    pub central_directory_header_offset: u32,
    pub entry_size: u32,
    pub ext_len: u16,
}

impl View for ZipEntry {
    type V = EntryV;

    open spec fn view(&self) -> EntryV {
        EntryV {
            origin_size: self.origin_size,
            compressed_size: self.compressed_size,
            file_name: self.file_name@,
            crc_32: self.crc_32,
            compress_method: self.compress_method,
            modify_time: self.modify_time,
            local_file_header_offset: self.local_file_header_offset,
            central_directory_header_offset: self.central_directory_header_offset,
            entry_size: self.entry_size,
            ext_len: self.ext_len,
        }
    }
}

impl ZipEntry {
    /// A copy of this entry with the same view.
    pub fn duplicate(&self) -> (r: ZipEntry)
        ensures
            r@ == self@,
    {
        ZipEntry {
            origin_size: self.origin_size,
            compressed_size: self.compressed_size,
            file_name: copy_bytes(&self.file_name),
            crc_32: self.crc_32,
            compress_method: self.compress_method,
            modify_time: self.modify_time,
            local_file_header_offset: self.local_file_header_offset,
            central_directory_header_offset: self.central_directory_header_offset,
            entry_size: self.entry_size,
            ext_len: self.ext_len,
        }
    }
}

/// An owned copy of a byte vector.
pub fn copy_bytes(src: &Vec<u8>) -> (r: Vec<u8>)
    ensures
        r@ == src@,
{
    vstd::slice::slice_to_vec(src.as_slice())
}

/// Whether two byte slices hold the same bytes.
pub fn bytes_eq(a: &[u8], b: &[u8]) -> (r: bool)
    ensures
        r == (a@ == b@),
{
    if a.len() != b.len() {
        return false;
    }
    let n = a.len();
    let mut i: usize = 0;
    while i < n
        invariant
            i <= n,
            n == a@.len(),
            n == b@.len(),
            forall|j: int| 0 <= j < i ==> a@[j] == b@[j],
        decreases n - i,
    {
        if a[i] != b[i] {
            return false;
        }
        i = i + 1;
    }
    proof {
        assert(a@ =~= b@);
    }
    true
}

/// The position `get_file` resolves a name to: the index of the last entry
/// carrying that name, because a later record wins over an earlier one.
pub open spec fn spec_name_index(es: Seq<EntryV>, name: Seq<u8>) -> Option<int>
    decreases es.len(),
{
    if es.len() == 0 {
        None
    } else if es.last().file_name == name {
        Some(es.len() - 1)
    } else {
        spec_name_index(es.drop_last(), name)
    }
}

/// A parsed archive: the input bytes, the central-directory offset the end
/// record declared, and one entry per central-directory record, in order.
pub struct ZipFile {
    pub data: Vec<u8>,
    pub central_directory_offset: u32,
    pub entries: Vec<ZipEntry>,
}

impl View for ZipFile {
    type V = ArchiveV;

    open spec fn view(&self) -> ArchiveV {
        ArchiveV {
            cd_offset: self.central_directory_offset,
            entries: self.entries@.map_values(|e: ZipEntry| e@),
        }
    }
}

/// The compressed payload of an entry, located through its local file
/// header: `None` when the header or the payload would fall outside the
/// buffer.
pub open spec fn spec_compress_data(d: Seq<u8>, e: EntryV) -> Option<Seq<u8>> {
    let ho = e.local_file_header_offset as int;
    if ho + 30 > d.len() {
        None
    } else {
        let nl = u16_at(d, ho + 26) as int;
        let el = u16_at(d, ho + 28) as int;
        let csize = u32_at(d, ho + 18) as int;
        let start = ho + 30 + nl + el;
        if start + csize > d.len() {
            None
        } else {
            Some(d.subrange(start, start + csize))
        }
    }
}

/// The bytes of an entry's local file header, name and extra field
/// included: `None` when they would fall outside the buffer.
pub open spec fn spec_header_data(d: Seq<u8>, e: EntryV) -> Option<Seq<u8>> {
    let ho = e.local_file_header_offset as int;
    if ho + 30 > d.len() {
        None
    } else {
        let nl = u16_at(d, ho + 26) as int;
        let el = u16_at(d, ho + 28) as int;
        if ho + 30 + nl + el > d.len() {
            None
        } else {
            Some(d.subrange(ho, ho + 30 + nl + el))
        }
    }
}

impl ZipFile {
    /// How many entries the archive holds.
    pub fn file_count(&self) -> (r: usize)
        ensures
            r == self@.entries.len(),
    {
        self.entries.len()
    }

    /// The entry at position `idx`, if there is one.
    pub fn get_entry(&self, idx: usize) -> (r: Option<&ZipEntry>)
        ensures
            match r {
                Some(e) => idx < self@.entries.len() && e@ == self@.entries[idx as int],
                None => idx >= self@.entries.len(),
            },
    {
        if idx < self.entries.len() {
            Some(&self.entries[idx])
        } else {
            None
        }
    }

    /// The local-file-header offset of the entry at `idx`.
    pub fn get_header_offset(&self, idx: usize) -> (r: Option<u32>)
        ensures
            match r {
                Some(o) => idx < self@.entries.len() && o == self@.entries[idx as int]
                    .local_file_header_offset,
                None => idx >= self@.entries.len(),
            },
    {
        match self.get_entry(idx) {
            Some(e) => Some(e.local_file_header_offset),
            None => None,
        }
    }

    /// The position the archive resolves `name` to; the last entry with the
    /// name wins.
    pub fn get_file_index(&self, name: &str) -> (r: Option<usize>)
        ensures
            match r {
                Some(i) => Some(i as int) == spec_name_index(self@.entries, name.spec_bytes()),
                None => spec_name_index(self@.entries, name.spec_bytes()) is None,
            },
    {
        let name_bytes = name.as_bytes();
        let n = self.entries.len();
        let mut i: usize = n;
        proof {
            assert(self@.entries.subrange(0, n as int) =~= self@.entries);
        }
        while i > 0
            invariant
                i <= n,
                n == self@.entries.len(),
                name_bytes@ == name.spec_bytes(),
                spec_name_index(self@.entries, name.spec_bytes()) == spec_name_index(
                    self@.entries.subrange(0, i as int),
                    name.spec_bytes(),
                ),
            decreases i,
        {
            i = i - 1;
            let ghost pre = self@.entries.subrange(0, i + 1);
            proof {
                assert(pre.last() == self@.entries[i as int]);
                assert(pre.drop_last() =~= self@.entries.subrange(0, i as int));
            }
            if bytes_eq(self.entries[i].file_name.as_slice(), name_bytes) {
                return Some(i);
            }
        }
        proof {
            assert(self@.entries.subrange(0, 0).len() == 0);
        }
        None
    }

    /// The entry `name` resolves to, if any.
    pub fn get_file(&self, name: &str) -> (r: Option<&ZipEntry>)
        ensures
            match r {
                Some(e) => {
                    &&& spec_name_index(self@.entries, name.spec_bytes()) is Some
                    &&& e@ == self@.entries[spec_name_index(
                        self@.entries,
                        name.spec_bytes(),
                    )->Some_0]
                },
                None => spec_name_index(self@.entries, name.spec_bytes()) is None,
            },
    {
        proof {
            lemma_name_index_in_range(self@.entries, name.spec_bytes());
        }
        match self.get_file_index(name) {
            Some(idx) => self.get_entry(idx),
            None => None,
        }
    }

    /// The raw compressed payload of the entry at `idx`, read through its
    /// local file header.
    pub fn get_file_compress_data(&self, idx: usize) -> (r: Option<&[u8]>)
        ensures
            match r {
                Some(s) => idx < self@.entries.len() && Some(s@) == spec_compress_data(
                    self.data@,
                    self@.entries[idx as int],
                ),
                None => idx >= self@.entries.len() || spec_compress_data(
                    self.data@,
                    self@.entries[idx as int],
                ) is None,
            },
    {
        let header_offset = match self.get_header_offset(idx) {
            Some(o) => o,
            None => {
                return None;
            },
        };
        let dlen = self.data.len();
        if header_offset as u64 + 30 > dlen as u64 {
            return None;
        }
        let ho = header_offset as usize;
        let file_name_len = get_leu16_value(self.data.as_slice(), ho + 26);
        let ext_len = get_leu16_value(self.data.as_slice(), ho + 28);
        let compress_size = get_leu32_value(self.data.as_slice(), ho + 18);
        let start64 = ho as u64 + 30 + file_name_len as u64 + ext_len as u64;
        if start64 + compress_size as u64 > dlen as u64 {
            return None;
        }
        let start = ho + 30 + file_name_len as usize + ext_len as usize;
        Some(slice_subrange(self.data.as_slice(), start, start + compress_size as usize))
    }

    /// The local file header bytes of the entry at `idx`, name and extra
    /// included.
    pub fn get_entry_header_data(&self, idx: usize) -> (r: Option<&[u8]>)
        ensures
            match r {
                Some(s) => idx < self@.entries.len() && Some(s@) == spec_header_data(
                    self.data@,
                    self@.entries[idx as int],
                ),
                None => idx >= self@.entries.len() || spec_header_data(
                    self.data@,
                    self@.entries[idx as int],
                ) is None,
            },
    {
        let header_offset = match self.get_header_offset(idx) {
            Some(o) => o,
            None => {
                return None;
            },
        };
        let dlen = self.data.len();
        if header_offset as u64 + 30 > dlen as u64 {
            return None;
        }
        let ho = header_offset as usize;
        let file_name_len = get_leu16_value(self.data.as_slice(), ho + 26);
        let ext_len = get_leu16_value(self.data.as_slice(), ho + 28);
        let end64 = ho as u64 + 30 + file_name_len as u64 + ext_len as u64;
        if end64 > dlen as u64 {
            return None;
        }
        let end = ho + 30 + file_name_len as usize + ext_len as usize;
        Some(slice_subrange(self.data.as_slice(), ho, end))
    }
}

impl ZipFile {
    /// The uncompressed bytes of the entry `name` resolves to: the payload
    /// itself for a stored entry, its decoded form for a deflated one.
    /// `None` exactly when the name is absent, the local header or payload
    /// falls outside the buffer, or the stream does not decode.
    pub fn get_uncompress_data(&self, name: &str) -> (r: Option<Vec<u8>>)
        ensures
            match spec_name_index(self@.entries, name.spec_bytes()) {
                None => r is None,
                Some(i) => match spec_compress_data(self.data@, self@.entries[i]) {
                    None => r is None,
                    Some(raw) => match self@.entries[i].compress_method {
                        CompressMethod::Stored => r is Some && r->Some_0@ == raw,
                        CompressMethod::Deflated => {
                            &&& r is Some <==> crate::compress::inflate_ok(raw)
                            &&& r is Some ==> r->Some_0@ == crate::compress::inflate_of(raw)
                        },
                    },
                },
            },
    {
        proof {
            lemma_name_index_in_range(self@.entries, name.spec_bytes());
        }
        let idx = match self.get_file_index(name) {
            Some(i) => i,
            None => {
                return None;
            },
        };
        let compress_method = self.entries[idx].compress_method;
        let raw = match self.get_file_compress_data(idx) {
            Some(s) => s,
            None => {
                return None;
            },
        };
        match compress_method {
            CompressMethod::Stored => Some(vstd::slice::slice_to_vec(raw)),
            CompressMethod::Deflated => crate::compress::deflate_decompress(raw),
        }
    }
}

/// A decoded local file header; only what the emitter needs is kept: the
/// field values, the name and extra bytes, and where the payload starts.
pub struct LocalFileHeader {
    pub global_offset: usize,
    pub compress_version: u16,
    pub flags: u16,
    pub method_raw: u16,
    pub modify_time: u32,
    pub crc_32: u32,
    pub compressed_size: u32,
    pub origin_size: u32,
    pub file_name_len: u16,
    pub ext_len: u16,
    pub file_name: Vec<u8>,
    pub ext_data: Vec<u8>,
}

impl LocalFileHeader {
    /// Decodes the local file header at `offset`; `None` when the fixed
    /// part, the name or the extra field falls outside the buffer.
    pub fn from_slice(data: &[u8], offset: usize) -> (r: Option<LocalFileHeader>)
        ensures
            match r {
                Some(h) => {
                    &&& offset + 30 + h.file_name_len + h.ext_len <= data@.len()
                    &&& h.global_offset == offset
                    &&& h.compress_version == u16_at(data@, offset + 4)
                    &&& h.flags == u16_at(data@, offset + 6)
                    &&& h.method_raw == u16_at(data@, offset + 8)
                    &&& h.modify_time == u32_at(data@, offset + 10)
                    &&& h.crc_32 == u32_at(data@, offset + 14)
                    &&& h.compressed_size == u32_at(data@, offset + 18)
                    &&& h.origin_size == u32_at(data@, offset + 22)
                    &&& h.file_name_len == u16_at(data@, offset + 26)
                    &&& h.ext_len == u16_at(data@, offset + 28)
                    &&& h.file_name@ == data@.subrange(
                        offset + 30,
                        offset + 30 + h.file_name_len,
                    )
                    &&& h.ext_data@ == data@.subrange(
                        offset + 30 + h.file_name_len,
                        offset + 30 + h.file_name_len + h.ext_len,
                    )
                },
                None => offset + 30 > data@.len() || offset + 30 + u16_at(data@, offset + 26)
                    + u16_at(data@, offset + 28) > data@.len(),
            },
    {
        let len = data.len();
        if !(offset <= len && len - offset >= 30) {
            return None;
        }
        let file_name_len = get_leu16_value(data, offset + 26);
        let ext_len = get_leu16_value(data, offset + 28);
        if len - offset - 30 < file_name_len as usize + ext_len as usize {
            return None;
        }
        let name_start = offset + 30;
        let ext_start = name_start + file_name_len as usize;
        let ext_end = ext_start + ext_len as usize;
        Some(
            LocalFileHeader {
                global_offset: offset,
                compress_version: get_leu16_value(data, offset + 4),
                flags: get_leu16_value(data, offset + 6),
                method_raw: get_leu16_value(data, offset + 8),
                modify_time: get_leu32_value(data, offset + 10),
                crc_32: get_leu32_value(data, offset + 14),
                compressed_size: get_leu32_value(data, offset + 18),
                origin_size: get_leu32_value(data, offset + 22),
                file_name_len,
                ext_len,
                file_name: vstd::slice::slice_to_vec(
                    slice_subrange(data, name_start, ext_start),
                ),
                ext_data: vstd::slice::slice_to_vec(slice_subrange(data, ext_start, ext_end)),
            },
        )
    }

    /// Where this header's payload starts in the archive.
    pub fn get_data_offset(&self) -> (r: usize)
        requires
            self.global_offset + 30 + self.file_name_len + self.ext_len <= usize::MAX,
        ensures
            r == self.global_offset + 30 + self.file_name_len + self.ext_len,
    {
        self.global_offset + self.file_name_len as usize + self.ext_len as usize + 30
    }

    /// How many payload bytes this header declares.
    pub fn get_data_len(&self) -> (r: u32)
        ensures
            r == self.compressed_size,
    {
        self.compressed_size
    }
}

/// Composition of a parsed prefix with the result for the remaining
/// records: the parse of a whole directory equals its first records
/// followed by the parse of the rest.
pub open spec fn cd_step(acc: Seq<EntryV>, rest: Result<Seq<EntryV>, ZipErrV>) -> Result<
    Seq<EntryV>,
    ZipErrV,
> {
    match rest {
        Ok(s) => Ok(acc + s),
        Err(e) => Err(e),
    }
}

impl ZipFile {
    /// Parses a complete archive: locates the end-of-central-directory
    /// record, then decodes exactly the declared number of central-directory
    /// records.  The result, and every error with its offset and reason, is
    /// the one `spec_parse_zip` describes.
    #[verifier::rlimit(100)]
    #[verifier::spinoff_prover]
    pub fn from(data: &Vec<u8>) -> (r: Result<ZipFile, ZipFormatError>)
        ensures
            match r {
                Ok(z) => {
                    &&& z.data@ == data@
                    &&& spec_parse_zip(data@) == Ok::<ArchiveV, ZipErrV>(z@)
                },
                Err(e) => {
                    &&& spec_parse_zip(data@) is Err
                    &&& e.offset as int == err_offset(spec_parse_zip(data@)->Err_0)
                    &&& e.reason@ == err_reason(spec_parse_zip(data@)->Err_0)
                },
            },
    {
        let d = data.as_slice();
        let len = data.len();
        if len < 22 {
            return Err(
                ZipFormatError { offset: 0, reason: "Central directory end not found" },
            );
        }
        let mut seek: usize = 0;
        let mut eocd: usize = 0;
        loop
            invariant
                len == data@.len(),
                22 <= len,
                d@ == data@,
                seek <= 65535,
                22 + seek <= len,
                spec_find_eocd(data@) == eocd_scan(data@, seek as int),
            ensures
                spec_find_eocd(data@) == Ok::<int, int>(eocd as int),
                eocd + 22 <= len,
            decreases len - 22 - seek,
        {
            let p = len - 22 - seek;
            if get_leu32_value(d, p) == CENTRAL_DIRECTORY_END {
                eocd = p;
                break;
            }
            if p == 0 {
                return Err(
                    ZipFormatError { offset: 0, reason: "Central directory end not found" },
                );
            }
            if seek >= 65535 {
                return Err(
                    ZipFormatError { offset: p - 1, reason: "Central directory end not found" },
                );
            }
            seek = seek + 1;
        }
        let central_directory_offset = get_leu32_value(d, eocd + 16);
        let dir_count = get_leu16_value(d, eocd + 10);
        let ghost cd0 = central_directory_offset as int;
        let ghost n0 = dir_count as int;

        let mut entries: Vec<ZipEntry> = Vec::new();
        let mut current_offset: usize = central_directory_offset as usize;
        let mut k: usize = 0;
        proof {
            assert(Seq::<EntryV>::empty() =~= entries@.map_values(|e: ZipEntry| e@));
            match spec_parse_cd(data@, cd0, n0) {
                Ok(s) => {
                    assert(Seq::<EntryV>::empty() + s =~= s);
                },
                Err(_) => {},
            }
        }
        while k < dir_count as usize
            invariant
                len == data@.len(),
                d@ == data@,
                k <= dir_count,
                entries@.len() == k,
                spec_find_eocd(data@) == Ok::<int, int>(eocd as int),
                eocd + 22 <= len,
                central_directory_offset == u32_at(data@, eocd + 16),
                dir_count == u16_at(data@, eocd + 10),
                cd0 == central_directory_offset as int,
                n0 == dir_count as int,
                spec_parse_cd(data@, cd0, n0) == cd_step(
                    entries@.map_values(|e: ZipEntry| e@),
                    spec_parse_cd(data@, current_offset as int, n0 - k),
                ),
            decreases dir_count - k,
        {
            let ghost m = n0 - k;
            let ghost o = current_offset as int;
            let ghost acc = entries@.map_values(|e: ZipEntry| e@);

            if !(current_offset <= len && len - current_offset >= 4) {
                return Err(
                    ZipFormatError {
                        offset: current_offset,
                        reason: "central directory out of bounds",
                    },
                );
            }
            if get_leu32_value(d, current_offset) != CENTRAL_DIRECTORY {
                return Err(
                    ZipFormatError {
                        offset: current_offset,
                        reason: "magic of central directory error",
                    },
                );
            }
            if len - current_offset < 46 {
                proof {
                    assert(46 + cd_name_len(data@, o) >= 46);
                }
                return Err(
                    ZipFormatError {
                        offset: current_offset,
                        reason: "central directory out of bounds",
                    },
                );
            }
            let file_name_len = get_leu16_value(d, current_offset + 28);
            let ext_len = get_leu16_value(d, current_offset + 30);
            let comment_len = get_leu16_value(d, current_offset + 32);
            if len - current_offset - 46 < file_name_len as usize {
                return Err(
                    ZipFormatError {
                        offset: current_offset,
                        reason: "central directory out of bounds",
                    },
                );
            }
            let name_slice = slice_subrange(
                d,
                current_offset + 46,
                current_offset + 46 + file_name_len as usize,
            );
            if !is_utf8(name_slice) {
                return Err(
                    ZipFormatError { offset: current_offset, reason: "convert string fail" },
                );
            }
            let compress_method = match CompressMethod::convert_from_u16(
                get_leu16_value(d, current_offset + 10),
            ) {
                Some(mth) => mth,
                None => {
                    return Err(
                        ZipFormatError {
                            offset: current_offset,
                            reason: "unknown compress method",
                        },
                    );
                },
            };
            let entry_size64: u64 = 46u64 + file_name_len as u64 + ext_len as u64
                + comment_len as u64;
            if current_offset as u64 > u32::MAX as u64 || current_offset as u64 > usize::MAX as u64
                - entry_size64 {
                return Err(
                    ZipFormatError {
                        offset: current_offset,
                        reason: "central directory out of bounds",
                    },
                );
            }
            let entry = ZipEntry {
                origin_size: get_leu32_value(d, current_offset + 24),
                compressed_size: get_leu32_value(d, current_offset + 20),
                file_name: vstd::slice::slice_to_vec(name_slice),
                crc_32: get_leu32_value(d, current_offset + 16),
                compress_method,
                modify_time: get_leu32_value(d, current_offset + 12),
                local_file_header_offset: get_leu32_value(d, current_offset + 42),
                central_directory_header_offset: current_offset as u32,
                entry_size: 46 + file_name_len as u32 + ext_len as u32 + comment_len as u32,
                ext_len,
            };
            proof {
                assert(entry@ == spec_cd_entry(data@, o));
                assert(cd_entry_size(data@, o) == entry_size64);
            }
            let next_offset = current_offset + entry_size64 as usize;
            proof {
                let rest = spec_parse_cd(data@, o + cd_entry_size(data@, o), m - 1);
                assert(spec_parse_cd(data@, o, m) == cd_step(seq![entry@], rest));
                match rest {
                    Ok(s) => {
                        assert(acc + (seq![entry@] + s) =~= acc.push(entry@) + s);
                    },
                    Err(_) => {},
                }
                assert(acc.push(entry@) =~= entries@.push(entry).map_values(
                    |e: ZipEntry| e@,
                ));
            }
            entries.push(entry);
            current_offset = next_offset;
            k = k + 1;
        }
        proof {
            let acc = entries@.map_values(|e: ZipEntry| e@);
            assert(spec_parse_cd(data@, current_offset as int, 0) == Ok::<Seq<EntryV>, ZipErrV>(
                Seq::empty(),
            ));
            assert(acc + Seq::<EntryV>::empty() =~= acc);
        }
        let res = ZipFile {
            data: copy_bytes(data),
            central_directory_offset,
            entries,
        };
        Ok(res)
    }
}

/// A name lookup that returns an index always returns one inside the entry
/// sequence.
pub proof fn lemma_name_index_in_range(es: Seq<EntryV>, name: Seq<u8>)
    ensures
        match spec_name_index(es, name) {
            Some(i) => 0 <= i < es.len() && es[i].file_name == name,
            None => true,
        },
    decreases es.len(),
{
    if es.len() > 0 && !(es.last().file_name == name) {
        lemma_name_index_in_range(es.drop_last(), name);
        assert(es.drop_last().len() == es.len() - 1);
        if spec_name_index(es.drop_last(), name) is Some {
            let i = spec_name_index(es.drop_last(), name)->Some_0;
            assert(es.drop_last()[i] == es[i]);
        }
    }
}

} // verus!
