//! Building a new archive from a parsed one.
//!
//! A `ZipEditor` holds a mutation plan: one slot per source entry (keep,
//! replace, or remove) plus a list of appended entries.  `finish` emits a
//! complete archive; the spec functions in this module state the emitted
//! bytes exactly, so the alignment discipline and the header conventions
//! are part of the contract rather than of the prose.

use vstd::prelude::*;
use crate::zip::{
    ZipFile, ZipEntry, EntryV, CompressMethod, method_value, LOCAL_FILE_HEADER,
    CENTRAL_DIRECTORY, CENTRAL_DIRECTORY_END, copy_bytes, ZipFormatError,
};
use crate::utils::{le16_bytes, le32_bytes, push_leu16, push_leu32, u16_at, u32_at};
use vstd::string::StringSliceAdditionalSpecFns;

verus! {

/// Appends every byte of `src` to `out`.
pub fn push_bytes(out: &mut Vec<u8>, src: &[u8])
    ensures
        final(out)@ == old(out)@ + src@,
{
    let n = src.len();
    let mut i: usize = 0;
    while i < n
        invariant
            i <= n,
            n == src@.len(),
            out@ == old(out)@ + src@.subrange(0, i as int),
        decreases n - i,
    {
        proof {
            assert(old(out)@ + src@.subrange(0, i + 1) =~= (old(out)@ + src@.subrange(
                0,
                i as int,
            )).push(src@[i as int]));
        }
        out.push(src[i]);
        i = i + 1;
    }
    proof {
        assert(src@.subrange(0, n as int) =~= src@);
    }
}

/// Appends `n` zero bytes to `out`.
pub fn push_zeros(out: &mut Vec<u8>, n: usize)
    ensures
        final(out)@ == old(out)@ + spec_zeros(n as int),
{
    let mut i: usize = 0;
    while i < n
        invariant
            i <= n,
            out@ == old(out)@ + spec_zeros(i as int),
        decreases n - i,
    {
        proof {
            assert(old(out)@ + spec_zeros(i + 1) =~= (old(out)@ + spec_zeros(i as int)).push(
                0u8,
            ));
        }
        out.push(0u8);
        i = i + 1;
    }
}

/// A sequence of `n` zero bytes.
pub open spec fn spec_zeros(n: int) -> Seq<u8> {
    Seq::new(n as nat, |i: int| 0u8)
}

/// An entry the plan will append to the archive.
pub struct AppendZipEntry {
    pub data: Vec<u8>,
    pub compress_method: CompressMethod,
    pub file_name: Vec<u8>,
    pub modify_time: u32,
}

/// The model of an appended entry.
pub ghost struct AppendV {
    pub data: Seq<u8>,
    pub compress_method: CompressMethod,
    pub file_name: Seq<u8>,
}

impl View for AppendZipEntry {
    type V = AppendV;

    open spec fn view(&self) -> AppendV {
        AppendV {
            data: self.data@,
            compress_method: self.compress_method,
            file_name: self.file_name@,
        }
    }
}

/// One slot of the plan, aligned with one source entry: keep it, replace
/// its payload, or leave it out of the output.
pub struct EditZipEntry {
    pub origin_entry: ZipEntry,
    pub remove: bool,
    pub edit: Option<Vec<u8>>,
}

/// The model of one plan slot.
pub ghost struct EditV {
    pub origin_entry: EntryV,
    pub remove: bool,
    pub edit: Option<Seq<u8>>,
}

impl View for EditZipEntry {
    type V = EditV;

    open spec fn view(&self) -> EditV {
        EditV {
            origin_entry: self.origin_entry@,
            remove: self.remove,
            edit: match self.edit {
                Some(ref v) => Some(v@),
                None => None,
            },
        }
    }
}

/// The whole mutation plan.
pub struct ZipEditor {
    pub editable_entries: Vec<EditZipEntry>,
    pub append_entries: Vec<AppendZipEntry>,
}

/// The model of the plan: one slot per source entry plus the appended
/// entries in insertion order.
pub ghost struct EditorV {
    pub edits: Seq<EditV>,
    pub appends: Seq<AppendV>,
}

impl View for ZipEditor {
    type V = EditorV;

    open spec fn view(&self) -> EditorV {
        EditorV {
            edits: self.editable_entries@.map_values(|e: EditZipEntry| e@),
            appends: self.append_entries@.map_values(|e: AppendZipEntry| e@),
        }
    }
}

impl ZipEditor {
    /// An empty plan over no source archive.
    pub fn new() -> (r: ZipEditor)
        ensures
            r@.edits.len() == 0,
            r@.appends.len() == 0,
    {
        let r = ZipEditor { editable_entries: Vec::new(), append_entries: Vec::new() };
        proof {
            assert(r@.edits =~= Seq::<EditV>::empty());
            assert(r@.appends =~= Seq::<AppendV>::empty());
        }
        r
    }

    /// A fresh plan over `zip_file`: every source entry kept unchanged,
    /// nothing appended.
    pub fn from(zip_file: &ZipFile) -> (r: ZipEditor)
        ensures
            r@.appends.len() == 0,
            r@.edits.len() == zip_file@.entries.len(),
            forall|i: int|
                0 <= i < r@.edits.len() ==> r@.edits[i] == (EditV {
                    origin_entry: zip_file@.entries[i],
                    remove: false,
                    edit: None,
                }),
    {
        let mut res = ZipEditor { editable_entries: Vec::new(), append_entries: Vec::new() };
        let n = zip_file.entries.len();
        let mut i: usize = 0;
        while i < n
            invariant
                i <= n,
                n == zip_file@.entries.len(),
                res.append_entries@.len() == 0,
                res@.edits.len() == i,
                forall|j: int|
                    0 <= j < i ==> res@.edits[j] == (EditV {
                        origin_entry: zip_file@.entries[j],
                        remove: false,
                        edit: None,
                    }),
            decreases n - i,
        {
            let entry = zip_file.entries[i].duplicate();
            let ghost pre = res@.edits;
            res.editable_entries.push(
                EditZipEntry { origin_entry: entry, remove: false, edit: None },
            );
            proof {
                assert(res@.edits =~= pre.push(res.editable_entries@.last()@));
            }
            i = i + 1;
        }
        res
    }

    /// Queues a new entry after all surviving source entries.
    pub fn append_file(&mut self, data: Vec<u8>, file_name: String, method: CompressMethod)
        ensures
            final(self)@.edits == old(self)@.edits,
            final(self)@.appends == old(self)@.appends.push(
                AppendV {
                    data: data@,
                    compress_method: method,
                    file_name: vstd::utf8::encode_utf8(file_name@),
                },
            ),
    {
        let name_bytes = file_name.as_str().as_bytes_vec();
        self.append_entries.push(
            AppendZipEntry {
                data,
                compress_method: method,
                file_name: name_bytes,
                modify_time: 0,
            },
        );
        proof {
            assert(final(self)@.appends =~= old(self)@.appends.push(
                final(self).append_entries@.last()@,
            ));
        }
    }

    /// Replaces the payload of the entry `name` resolves to in `origin_zip`;
    /// `None`, with the plan unchanged, when the name is absent or outside
    /// the plan.
    pub fn edit_file(&mut self, origin_zip: &ZipFile, name: &str, data: Vec<u8>) -> (r: Option<
        (),
    >)
        ensures
            final(self)@.appends == old(self)@.appends,
            match crate::zip::spec_name_index(origin_zip@.entries, name.spec_bytes()) {
                Some(i) => {
                    if i < old(self)@.edits.len() {
                        &&& r is Some
                        &&& final(self)@.edits == old(self)@.edits.update(
                            i,
                            EditV {
                                origin_entry: old(self)@.edits[i].origin_entry,
                                remove: old(self)@.edits[i].remove,
                                edit: Some(data@),
                            },
                        )
                    } else {
                        r is None && final(self)@.edits == old(self)@.edits
                    }
                },
                None => r is None && final(self)@.edits == old(self)@.edits,
            },
    {
        proof {
            crate::zip::lemma_name_index_in_range(origin_zip@.entries, name.spec_bytes());
        }
        let idx = match origin_zip.get_file_index(name) {
            Some(i) => i,
            None => {
                return None;
            },
        };
        if idx >= self.editable_entries.len() {
            return None;
        }
        let origin_entry = self.editable_entries[idx].origin_entry.duplicate();
        let remove = self.editable_entries[idx].remove;
        self.editable_entries.set(idx, EditZipEntry { origin_entry, remove, edit: Some(data) });
        proof {
            assert(final(self)@.edits =~= old(self)@.edits.update(
                idx as int,
                final(self).editable_entries@[idx as int]@,
            ));
        }
        Some(())
    }

    /// Marks the entry `name` resolves to in `origin_zip` as removed;
    /// `None`, with the plan unchanged, when the name is absent or outside
    /// the plan.
    pub fn remove_file(&mut self, origin_zip: &ZipFile, name: &str) -> (r: Option<()>)
        ensures
            final(self)@.appends == old(self)@.appends,
            match crate::zip::spec_name_index(origin_zip@.entries, name.spec_bytes()) {
                Some(i) => {
                    if i < old(self)@.edits.len() {
                        &&& r is Some
                        &&& final(self)@.edits == old(self)@.edits.update(
                            i,
                            EditV {
                                origin_entry: old(self)@.edits[i].origin_entry,
                                remove: true,
                                edit: old(self)@.edits[i].edit,
                            },
                        )
                    } else {
                        r is None && final(self)@.edits == old(self)@.edits
                    }
                },
                None => r is None && final(self)@.edits == old(self)@.edits,
            },
    {
        proof {
            crate::zip::lemma_name_index_in_range(origin_zip@.entries, name.spec_bytes());
        }
        let idx = match origin_zip.get_file_index(name) {
            Some(i) => i,
            None => {
                return None;
            },
        };
        if idx >= self.editable_entries.len() {
            return None;
        }
        let origin_entry = self.editable_entries[idx].origin_entry.duplicate();
        let edit = match &self.editable_entries[idx].edit {
            Some(v) => Some(copy_bytes(v)),
            None => None,
        };
        self.editable_entries.set(idx, EditZipEntry { origin_entry, remove: true, edit });
        proof {
            assert(final(self)@.edits =~= old(self)@.edits.update(
                idx as int,
                final(self).editable_entries@[idx as int]@,
            ));
        }
        Some(())
    }
}

/// The header fields of one entry about to be emitted.
pub struct FileHeaderBuilder {
    pub file_name: Vec<u8>,
    pub compress_method: CompressMethod,
    pub origin_size: u32,
    pub compress_size: u32,
    pub crc32: u32,
    pub lfd_ext: Option<Vec<u8>>,
}

/// The model of the header fields of one emitted entry.
pub ghost struct HeaderV {
    pub file_name: Seq<u8>,
    pub compress_method: CompressMethod,
    pub origin_size: u32,
    pub compress_size: u32,
    pub crc32: u32,
    pub ext: Seq<u8>,
}

impl View for FileHeaderBuilder {
    type V = HeaderV;

    open spec fn view(&self) -> HeaderV {
        HeaderV {
            file_name: self.file_name@,
            compress_method: self.compress_method,
            origin_size: self.origin_size,
            compress_size: self.compress_size,
            crc32: self.crc32,
            ext: match self.lfd_ext {
                Some(ref v) => v@,
                None => Seq::empty(),
            },
        }
    }
}

/// How many zero bytes pad the local header's extra field so that a stored
/// entry's payload starts on a multiple of `align`; deflated entries are
/// never padded.
pub open spec fn lfh_pad(h: HeaderV, offset: int, align: int) -> int
    recommends
        align >= 1,
{
    if h.compress_method != CompressMethod::Stored {
        0
    } else {
        (align - ((offset + 30 + h.file_name.len() + h.ext.len()) % align)) % align
    }
}

/// The exact bytes of the local file header written for `h` at `offset`:
/// magic, zeroed version/flag/time fields, CRC and sizes, then name, extra
/// and alignment padding.
pub open spec fn spec_lfh_bytes(h: HeaderV, offset: int, align: int) -> Seq<u8>
    recommends
        align >= 1,
{
    le32_bytes(LOCAL_FILE_HEADER) + le16_bytes(0) + le16_bytes(0) + le16_bytes(
        method_value(h.compress_method),
    ) + le32_bytes(0) + le32_bytes(h.crc32) + le32_bytes(h.compress_size) + le32_bytes(
        h.origin_size,
    ) + le16_bytes(h.file_name.len() as u16) + le16_bytes(
        (h.ext.len() + lfh_pad(h, offset, align)) as u16,
    ) + h.file_name + h.ext + spec_zeros(lfh_pad(h, offset, align))
}

/// The exact 46-byte central-directory record written for `h`, followed by
/// its name; extras and comments are always empty in output.
pub open spec fn spec_cd_record_bytes(h: HeaderV, lfh_offset: u32) -> Seq<u8> {
    le32_bytes(CENTRAL_DIRECTORY) + le16_bytes(0) + le16_bytes(0) + le16_bytes(0) + le16_bytes(
        method_value(h.compress_method),
    ) + le32_bytes(0) + le32_bytes(h.crc32) + le32_bytes(h.compress_size) + le32_bytes(
        h.origin_size,
    ) + le16_bytes(h.file_name.len() as u16) + le16_bytes(0) + le16_bytes(0) + le16_bytes(0)
        + le16_bytes(0) + le32_bytes(0) + le32_bytes(lfh_offset) + h.file_name
}

/// The exact 22-byte end-of-central-directory record: both count fields,
/// the directory size and offset, and an empty comment.
pub open spec fn spec_eocd_bytes(count: u16, cd_size: u32, cd_offset: u32) -> Seq<u8> {
    le32_bytes(CENTRAL_DIRECTORY_END) + le16_bytes(0) + le16_bytes(0) + le16_bytes(count)
        + le16_bytes(count) + le32_bytes(cd_size) + le32_bytes(cd_offset) + le16_bytes(0)
}

impl FileHeaderBuilder {
    /// Header fields for a copied entry: sizes, CRC and name from the
    /// central directory, the extra field read back from the local header.
    /// `None` when the local header falls outside the buffer.
    pub fn from_entry(zip: &ZipFile, entry: &ZipEntry) -> (r: Option<FileHeaderBuilder>)
        ensures
            match r {
                Some(b) => {
                    let ho = entry@.local_file_header_offset as int;
                    let nl = u16_at(zip.data@, ho + 26) as int;
                    let el = u16_at(zip.data@, ho + 28) as int;
                    &&& ho + 30 + nl + el <= zip.data@.len()
                    &&& b@ == (HeaderV {
                        file_name: entry@.file_name,
                        compress_method: entry@.compress_method,
                        origin_size: entry@.origin_size,
                        compress_size: entry@.compressed_size,
                        crc32: entry@.crc_32,
                        ext: zip.data@.subrange(ho + 30 + nl, ho + 30 + nl + el),
                    })
                },
                None => {
                    let ho = entry@.local_file_header_offset as int;
                    ho + 30 > zip.data@.len() || ho + 30 + u16_at(zip.data@, ho + 26) + u16_at(
                        zip.data@,
                        ho + 28,
                    ) > zip.data@.len()
                },
            },
    {
        let lfh_offset = entry.local_file_header_offset as usize;
        let dlen = zip.data.len();
        if !(lfh_offset <= dlen && dlen - lfh_offset >= 30) {
            return None;
        }
        let file_name_len = crate::utils::get_leu16_value(zip.data.as_slice(), lfh_offset + 26);
        let ext_len = crate::utils::get_leu16_value(zip.data.as_slice(), lfh_offset + 28);
        if dlen - lfh_offset - 30 < file_name_len as usize + ext_len as usize {
            return None;
        }
        let ext_start = lfh_offset + 30 + file_name_len as usize;
        let ext_end = ext_start + ext_len as usize;
        let ext = if ext_len == 0 {
            None
        } else {
            Some(
                vstd::slice::slice_to_vec(
                    vstd::slice::slice_subrange(zip.data.as_slice(), ext_start, ext_end),
                ),
            )
        };
        proof {
            if ext_len == 0 {
                assert(zip.data@.subrange(ext_start as int, ext_end as int) =~= Seq::<
                    u8,
                >::empty());
            }
        }
        Some(
            FileHeaderBuilder {
                file_name: copy_bytes(&entry.file_name),
                compress_method: entry.compress_method,
                origin_size: entry.origin_size,
                compress_size: entry.compressed_size,
                crc32: entry.crc_32,
                lfd_ext: ext,
            },
        )
    }

    /// Header fields for an appended entry: no extra field.
    pub fn new(
        file_name: Vec<u8>,
        compress_method: CompressMethod,
        origin_size: u32,
        compress_size: u32,
        crc32: u32,
    ) -> (r: FileHeaderBuilder)
        ensures
            r@ == (HeaderV {
                file_name: file_name@,
                compress_method,
                origin_size,
                compress_size,
                crc32,
                ext: Seq::empty(),
            }),
    {
        FileHeaderBuilder {
            file_name,
            compress_method,
            origin_size,
            compress_size,
            crc32,
            lfd_ext: None,
        }
    }

    /// Records the compressed size that will stand in both headers.
    pub fn set_compressed_size(&mut self, size: u32)
        ensures
            final(self)@ == (HeaderV { compress_size: size, ..old(self)@ }),
    {
        self.compress_size = size;
    }

    /// Replaces the local header's extra field.
    pub fn set_ldf_ext(&mut self, value: Vec<u8>)
        ensures
            final(self)@ == (HeaderV { ext: value@, ..old(self)@ }),
    {
        self.lfd_ext = Some(value);
    }

    /// Writes this entry's central-directory record, pointing at
    /// `lfh_offset`; returns how many bytes were written.
    pub fn write_cd(&self, out: &mut Vec<u8>, lfh_offset: u32) -> (r: usize)
        requires
            self@.file_name.len() <= 0xFFFF,
        ensures
            final(out)@ == old(out)@ + spec_cd_record_bytes(self@, lfh_offset),
            r == 46 + self@.file_name.len(),
    {
        push_leu32(out, CENTRAL_DIRECTORY);
        push_leu16(out, 0);
        push_leu16(out, 0);
        push_leu16(out, 0);
        push_leu16(out, self.compress_method.value());
        push_leu32(out, 0);
        push_leu32(out, self.crc32);
        push_leu32(out, self.compress_size);
        push_leu32(out, self.origin_size);
        push_leu16(out, self.file_name.len() as u16);
        push_leu16(out, 0);
        push_leu16(out, 0);
        push_leu16(out, 0);
        push_leu16(out, 0);
        push_leu32(out, 0);
        push_leu32(out, lfh_offset);
        push_bytes(out, self.file_name.as_slice());
        proof {
            assert(final(out)@ =~= old(out)@ + spec_cd_record_bytes(self@, lfh_offset));
        }
        46 + self.file_name.len()
    }

    /// Writes this entry's local file header for a payload that will start
    /// right after it at `offset`, padding the extra field of a stored
    /// entry so that the payload starts on a multiple of `align`; returns
    /// how many bytes were written.
    #[verifier::rlimit(100)]
    #[verifier::spinoff_prover]
    pub fn write_lfh(&self, out: &mut Vec<u8>, offset: usize, align: usize) -> (r: usize)
        requires
            align >= 1,
            offset + 30 + self@.file_name.len() + self@.ext.len() <= usize::MAX,
            self@.file_name.len() <= 0xFFFF,
            self@.ext.len() + lfh_pad(self@, offset as int, align as int) <= 0xFFFF,
        ensures
            final(out)@ == old(out)@ + spec_lfh_bytes(self@, offset as int, align as int),
            r == 30 + self@.file_name.len() + self@.ext.len() + lfh_pad(
                self@,
                offset as int,
                align as int,
            ),
    {
        let name_len = self.file_name.len();
        let ext_len = match &self.lfd_ext {
            Some(v) => v.len(),
            None => 0,
        };
        let origin_lfd_len = 30 + name_len + ext_len;
        let align_count: usize = if !matches!(self.compress_method, CompressMethod::Stored) {
            0
        } else {
            (align - ((offset + origin_lfd_len) % align)) % align
        };
        proof {
            assert(align_count == lfh_pad(self@, offset as int, align as int));
        }
        let new_ext_len = ext_len + align_count;
        push_leu32(out, LOCAL_FILE_HEADER);
        push_leu16(out, 0);
        push_leu16(out, 0);
        push_leu16(out, self.compress_method.value());
        push_leu32(out, 0);
        push_leu32(out, self.crc32);
        push_leu32(out, self.compress_size);
        push_leu32(out, self.origin_size);
        push_leu16(out, name_len as u16);
        push_leu16(out, new_ext_len as u16);
        push_bytes(out, self.file_name.as_slice());
        match &self.lfd_ext {
            Some(ext_data) => {
                push_bytes(out, ext_data.as_slice());
            },
            None => {},
        };
        push_zeros(out, align_count);
        proof {
            if self.lfd_ext is None {
                assert(self@.ext =~= Seq::<u8>::empty());
            }
            assert(final(out)@ =~= old(out)@ + spec_lfh_bytes(
                self@,
                offset as int,
                align as int,
            ));
        }
        30 + name_len + new_ext_len
    }
}

/// The ways emission can fail: a copied entry whose local header or
/// payload falls outside the source buffer, or a value that exceeds the
/// field that must hold it.
pub ghost enum EmitErrV {
    Lfh(int),
    TooBig,
}

/// The offset an emission error is reported at.
pub open spec fn emit_err_offset(e: EmitErrV) -> int {
    match e {
        EmitErrV::Lfh(o) => o,
        EmitErrV::TooBig => 0,
    }
}

/// The fixed description each kind of emission error carries.
pub open spec fn emit_err_reason(e: EmitErrV) -> Seq<char> {
    match e {
        EmitErrV::Lfh(_) => "local file header out of bounds"@,
        EmitErrV::TooBig => "archive too large"@,
    }
}

/// What one plan slot contributes to the output: nothing for a removed
/// entry; otherwise the header fields and the payload bytes that will be
/// written.  A kept entry copies its compressed payload verbatim and keeps
/// its extra field; a replaced entry drops the extra field, recomputes the
/// sizes and the CRC, and is recompressed when the source entry was
/// deflated.
pub open spec fn spec_out_of_edit(zd: Seq<u8>, ed: EditV) -> Result<
    Option<(HeaderV, Seq<u8>)>,
    EmitErrV,
> {
    if ed.remove {
        Ok(None)
    } else {
        let ho = ed.origin_entry.local_file_header_offset as int;
        let nl = u16_at(zd, ho + 26) as int;
        let el = u16_at(zd, ho + 28) as int;
        if ho + 30 > zd.len() || ho + 30 + nl + el > zd.len() {
            Err(EmitErrV::Lfh(ho))
        } else {
            let base = HeaderV {
                file_name: ed.origin_entry.file_name,
                compress_method: ed.origin_entry.compress_method,
                origin_size: ed.origin_entry.origin_size,
                compress_size: ed.origin_entry.compressed_size,
                crc32: ed.origin_entry.crc_32,
                ext: zd.subrange(ho + 30 + nl, ho + 30 + nl + el),
            };
            match ed.edit {
                None => {
                    let data_off = ho + 30 + nl + el;
                    let dl = u32_at(zd, ho + 18) as int;
                    if data_off + dl > zd.len() {
                        Err(EmitErrV::Lfh(ho))
                    } else {
                        Ok(Some((base, zd.subrange(data_off, data_off + dl))))
                    }
                },
                Some(new) => {
                    if ed.origin_entry.compress_method is Stored {
                        if new.len() > u32::MAX {
                            Err(EmitErrV::TooBig)
                        } else {
                            Ok(
                                Some(
                                    (
                                        HeaderV {
                                            origin_size: new.len() as u32,
                                            compress_size: new.len() as u32,
                                            crc32: crate::compress::crc32_of(new),
                                            ext: Seq::empty(),
                                            ..base
                                        },
                                        new,
                                    ),
                                ),
                            )
                        }
                    } else {
                        let comp = crate::compress::deflate_of(new);
                        if new.len() > u32::MAX || comp.len() > u32::MAX {
                            Err(EmitErrV::TooBig)
                        } else {
                            Ok(
                                Some(
                                    (
                                        HeaderV {
                                            origin_size: new.len() as u32,
                                            compress_size: comp.len() as u32,
                                            crc32: crate::compress::crc32_of(new),
                                            ext: Seq::empty(),
                                            ..base
                                        },
                                        comp,
                                    ),
                                ),
                            )
                        }
                    }
                },
            }
        }
    }
}

/// What one appended entry contributes: its CRC is always computed from
/// the given bytes, and a deflated entry carries the compressed stream.
pub open spec fn spec_out_of_append(app: AppendV) -> Result<(HeaderV, Seq<u8>), EmitErrV> {
    let crc = crate::compress::crc32_of(app.data);
    if app.compress_method is Stored {
        if app.data.len() > u32::MAX {
            Err(EmitErrV::TooBig)
        } else {
            Ok(
                (
                    HeaderV {
                        file_name: app.file_name,
                        compress_method: app.compress_method,
                        origin_size: app.data.len() as u32,
                        compress_size: app.data.len() as u32,
                        crc32: crc,
                        ext: Seq::empty(),
                    },
                    app.data,
                ),
            )
        }
    } else {
        let comp = crate::compress::deflate_of(app.data);
        if app.data.len() > u32::MAX || comp.len() > u32::MAX {
            Err(EmitErrV::TooBig)
        } else {
            Ok(
                (
                    HeaderV {
                        file_name: app.file_name,
                        compress_method: app.compress_method,
                        origin_size: app.data.len() as u32,
                        compress_size: comp.len() as u32,
                        crc32: crc,
                        ext: Seq::empty(),
                    },
                    comp,
                ),
            )
        }
    }
}

/// Emits one entry onto the accumulated output: its local header at the
/// current end of the output, then its payload, and its central-directory
/// record onto the directory buffer.
pub open spec fn spec_emit_one(
    h: HeaderV,
    payload: Seq<u8>,
    out: Seq<u8>,
    cd: Seq<u8>,
    cnt: int,
    align: int,
) -> Result<(Seq<u8>, Seq<u8>, int), EmitErrV> {
    let off = out.len() as int;
    if off > u32::MAX || off + 0x40000 > usize::MAX {
        Err(EmitErrV::TooBig)
    } else if h.file_name.len() > 0xFFFF {
        Err(EmitErrV::TooBig)
    } else if h.ext.len() + lfh_pad(h, off, align) > 0xFFFF {
        Err(EmitErrV::TooBig)
    } else {
        Ok(
            (
                out + spec_lfh_bytes(h, off, align) + payload,
                cd + spec_cd_record_bytes(h, off as u32),
                cnt + 1,
            ),
        )
    }
}

/// Emits the surviving source entries, in source order, onto the
/// accumulated state.
pub open spec fn spec_emit_edits(
    zd: Seq<u8>,
    edits: Seq<EditV>,
    out: Seq<u8>,
    cd: Seq<u8>,
    cnt: int,
    align: int,
) -> Result<(Seq<u8>, Seq<u8>, int), EmitErrV>
    decreases edits.len(),
{
    if edits.len() == 0 {
        Ok((out, cd, cnt))
    } else {
        match spec_out_of_edit(zd, edits[0]) {
            Err(e) => Err(e),
            Ok(None) => spec_emit_edits(zd, edits.drop_first(), out, cd, cnt, align),
            Ok(Some((h, payload))) => match spec_emit_one(h, payload, out, cd, cnt, align) {
                Err(e) => Err(e),
                Ok((out2, cd2, c2)) => spec_emit_edits(
                    zd,
                    edits.drop_first(),
                    out2,
                    cd2,
                    c2,
                    align,
                ),
            },
        }
    }
}

/// Emits the appended entries, in insertion order, onto the accumulated
/// state.
pub open spec fn spec_emit_appends(
    appends: Seq<AppendV>,
    out: Seq<u8>,
    cd: Seq<u8>,
    cnt: int,
    align: int,
) -> Result<(Seq<u8>, Seq<u8>, int), EmitErrV>
    decreases appends.len(),
{
    if appends.len() == 0 {
        Ok((out, cd, cnt))
    } else {
        match spec_out_of_append(appends[0]) {
            Err(e) => Err(e),
            Ok((h, payload)) => match spec_emit_one(h, payload, out, cd, cnt, align) {
                Err(e) => Err(e),
                Ok((out2, cd2, c2)) => spec_emit_appends(
                    appends.drop_first(),
                    out2,
                    cd2,
                    c2,
                    align,
                ),
            },
        }
    }
}

/// The complete output archive for a plan over a source buffer: every
/// surviving source entry, then every appended entry, then the central
/// directory, then the end record carrying the emitted count and where the
/// directory starts.
pub open spec fn spec_finish(zd: Seq<u8>, plan: EditorV, align: int) -> Result<
    Seq<u8>,
    EmitErrV,
> {
    match spec_emit_edits(zd, plan.edits, Seq::empty(), Seq::empty(), 0, align) {
        Err(e) => Err(e),
        Ok((out1, cd1, c1)) => match spec_emit_appends(plan.appends, out1, cd1, c1, align) {
            Err(e) => Err(e),
            Ok((out2, cd2, c2)) => {
                if c2 > 0xFFFF || out2.len() > u32::MAX || cd2.len() > u32::MAX {
                    Err(EmitErrV::TooBig)
                } else {
                    Ok(
                        out2 + cd2 + spec_eocd_bytes(
                            c2 as u16,
                            cd2.len() as u32,
                            out2.len() as u32,
                        ),
                    )
                }
            },
        },
    }
}

/// The plan `finish` works from: the slots are only consulted when a
/// source archive is handed in.
pub open spec fn spec_finish_plan(editor: EditorV, origin: bool) -> EditorV {
    if origin {
        editor
    } else {
        EditorV { edits: Seq::empty(), appends: editor.appends }
    }
}

/// Writes one entry: its local header at the current end of `out`, its
/// payload, and its central-directory record onto `cd`; returns the new
/// entry count.  Exactly the step `spec_emit_one` describes.
#[verifier::rlimit(100)]
#[verifier::spinoff_prover]
fn emit_one(
    header: &FileHeaderBuilder,
    payload: &Vec<u8>,
    out: &mut Vec<u8>,
    cd: &mut Vec<u8>,
    cnt: u128,
    align: usize,
) -> (r: Result<u128, ZipFormatError>)
    requires
        1 <= align <= 0xFFFF,
        cnt < u128::MAX,
    ensures
        match r {
            Ok(c2) => {
                &&& spec_emit_one(
                    header@,
                    payload@,
                    old(out)@,
                    old(cd)@,
                    cnt as int,
                    align as int,
                ) == Ok::<(Seq<u8>, Seq<u8>, int), EmitErrV>(
                    (final(out)@, final(cd)@, c2 as int),
                )
                &&& c2 == cnt + 1
            },
            Err(e) => {
                &&& spec_emit_one(
                    header@,
                    payload@,
                    old(out)@,
                    old(cd)@,
                    cnt as int,
                    align as int,
                ) == Err::<(Seq<u8>, Seq<u8>, int), EmitErrV>(EmitErrV::TooBig)
                &&& e.offset == 0
                &&& e.reason@ == "archive too large"@
                &&& final(out)@ == old(out)@
                &&& final(cd)@ == old(cd)@
            },
        },
{
    let off = out.len();
    if off as u64 > u32::MAX as u64 || off as u64 + 0x40000 > usize::MAX as u64 {
        return Err(ZipFormatError { offset: 0, reason: "archive too large" });
    }
    if header.file_name.len() > 0xFFFF {
        return Err(ZipFormatError { offset: 0, reason: "archive too large" });
    }
    let ext_len = match &header.lfd_ext {
        Some(v) => v.len(),
        None => 0,
    };
    if ext_len > 0xFFFF {
        proof {
            if header.lfd_ext is None {
                assert(header@.ext =~= Seq::<u8>::empty());
            }
            assert(lfh_pad(header@, off as int, align as int) >= 0);
        }
        return Err(ZipFormatError { offset: 0, reason: "archive too large" });
    }
    let pad: usize = if !matches!(header.compress_method, CompressMethod::Stored) {
        0
    } else {
        (align - ((off + 30 + header.file_name.len() + ext_len) % align)) % align
    };
    proof {
        if header.lfd_ext is None {
            assert(header@.ext =~= Seq::<u8>::empty());
        }
        assert(pad == lfh_pad(header@, off as int, align as int));
    }
    if ext_len + pad > 0xFFFF {
        return Err(ZipFormatError { offset: 0, reason: "archive too large" });
    }
    let lfh_offset = off as u32;
    header.write_lfh(out, off, align);
    push_bytes(out, payload.as_slice());
    header.write_cd(cd, lfh_offset);
    proof {
        assert(final(out)@ =~= old(out)@ + spec_lfh_bytes(
            header@,
            off as int,
            align as int,
        ) + payload@);
    }
    Ok(cnt + 1)
}

/// Builds the header fields and payload one plan slot contributes, or
/// `None` for a removed entry.  Exactly what `spec_out_of_edit` states.
#[verifier::rlimit(100)]
#[verifier::spinoff_prover]
fn prepare_edit(zip: &ZipFile, ed: &EditZipEntry) -> (r: Result<
    Option<(FileHeaderBuilder, Vec<u8>)>,
    ZipFormatError,
>)
    ensures
        match r {
            Ok(None) => spec_out_of_edit(zip.data@, ed@) == Ok::<
                Option<(HeaderV, Seq<u8>)>,
                EmitErrV,
            >(None),
            Ok(Some((h, p))) => spec_out_of_edit(zip.data@, ed@) == Ok::<
                Option<(HeaderV, Seq<u8>)>,
                EmitErrV,
            >(Some((h@, p@))),
            Err(e) => {
                &&& spec_out_of_edit(zip.data@, ed@) is Err
                &&& e.offset as int == emit_err_offset(spec_out_of_edit(zip.data@, ed@)->Err_0)
                &&& e.reason@ == emit_err_reason(spec_out_of_edit(zip.data@, ed@)->Err_0)
            },
        },
{
    if ed.remove {
        return Ok(None);
    }
    let ho_u32 = ed.origin_entry.local_file_header_offset;
    let header_base = match FileHeaderBuilder::from_entry(zip, &ed.origin_entry) {
        Some(h) => h,
        None => {
            return Err(
                ZipFormatError {
                    offset: ho_u32 as usize,
                    reason: "local file header out of bounds",
                },
            );
        },
    };
    match &ed.edit {
        None => {
            let lfh = match crate::zip::LocalFileHeader::from_slice(
                zip.data.as_slice(),
                ho_u32 as usize,
            ) {
                Some(h) => h,
                None => {
                    return Err(
                        ZipFormatError {
                            offset: ho_u32 as usize,
                            reason: "local file header out of bounds",
                        },
                    );
                },
            };
            let dtotal = zip.data.len();
            let data_start = lfh.get_data_offset();
            let data_len = lfh.get_data_len();
            if data_start as u64 + data_len as u64 > dtotal as u64 {
                return Err(
                    ZipFormatError {
                        offset: ho_u32 as usize,
                        reason: "local file header out of bounds",
                    },
                );
            }
            let payload = copy_bytes_range(&zip.data, data_start, data_len as usize);
            Ok(Some((header_base, payload)))
        },
        Some(new_file) => {
            if new_file.len() as u64 > u32::MAX as u64 {
                return Err(ZipFormatError { offset: 0, reason: "archive too large" });
            }
            let crc = crate::compress::crc32(new_file.as_slice());
            if matches!(ed.origin_entry.compress_method, CompressMethod::Stored) {
                let header_build = FileHeaderBuilder::new(
                    copy_bytes(&ed.origin_entry.file_name),
                    ed.origin_entry.compress_method,
                    new_file.len() as u32,
                    new_file.len() as u32,
                    crc,
                );
                Ok(Some((header_build, copy_bytes(new_file))))
            } else {
                let comp = crate::compress::deflate_compress(new_file.as_slice()).unwrap();
                if comp.len() as u64 > u32::MAX as u64 {
                    return Err(ZipFormatError { offset: 0, reason: "archive too large" });
                }
                let header_build = FileHeaderBuilder::new(
                    copy_bytes(&ed.origin_entry.file_name),
                    ed.origin_entry.compress_method,
                    new_file.len() as u32,
                    comp.len() as u32,
                    crc,
                );
                Ok(Some((header_build, comp)))
            }
        },
    }
}

/// Builds the header fields and payload of one appended entry.  Exactly
/// what `spec_out_of_append` states.
#[verifier::rlimit(100)]
#[verifier::spinoff_prover]
fn prepare_append(new_entry: &AppendZipEntry) -> (r: Result<
    (FileHeaderBuilder, Vec<u8>),
    ZipFormatError,
>)
    ensures
        match r {
            Ok((h, p)) => spec_out_of_append(new_entry@) == Ok::<(HeaderV, Seq<u8>), EmitErrV>(
                (h@, p@),
            ),
            Err(e) => {
                &&& spec_out_of_append(new_entry@) == Err::<
                    (HeaderV, Seq<u8>),
                    EmitErrV,
                >(EmitErrV::TooBig)
                &&& e.offset == 0
                &&& e.reason@ == "archive too large"@
            },
        },
{
    if new_entry.data.len() as u64 > u32::MAX as u64 {
        return Err(ZipFormatError { offset: 0, reason: "archive too large" });
    }
    let crc32_hash = crate::compress::crc32(new_entry.data.as_slice());
    if matches!(new_entry.compress_method, CompressMethod::Stored) {
        let header_build = FileHeaderBuilder::new(
            copy_bytes(&new_entry.file_name),
            new_entry.compress_method,
            new_entry.data.len() as u32,
            new_entry.data.len() as u32,
            crc32_hash,
        );
        Ok((header_build, copy_bytes(&new_entry.data)))
    } else {
        let comp = crate::compress::deflate_compress(new_entry.data.as_slice()).unwrap();
        if comp.len() as u64 > u32::MAX as u64 {
            return Err(ZipFormatError { offset: 0, reason: "archive too large" });
        }
        let header_build = FileHeaderBuilder::new(
            copy_bytes(&new_entry.file_name),
            new_entry.compress_method,
            new_entry.data.len() as u32,
            comp.len() as u32,
            crc32_hash,
        );
        Ok((header_build, comp))
    }
}

/// Walking one slot forward: what the emission of the plan's tail from
/// slot `i` is, in terms of the emission from slot `i + 1`.
pub proof fn lemma_edits_step(
    zd: Seq<u8>,
    edits: Seq<EditV>,
    i: int,
    out: Seq<u8>,
    cd: Seq<u8>,
    cnt: int,
    align: int,
)
    requires
        0 <= i < edits.len(),
    ensures
        ({
            let rem = edits.skip(i);
            match spec_out_of_edit(zd, edits[i]) {
                Err(e) => spec_emit_edits(zd, rem, out, cd, cnt, align) == Err::<
                    (Seq<u8>, Seq<u8>, int),
                    EmitErrV,
                >(e),
                Ok(None) => spec_emit_edits(zd, rem, out, cd, cnt, align) == spec_emit_edits(
                    zd,
                    edits.skip(i + 1),
                    out,
                    cd,
                    cnt,
                    align,
                ),
                Ok(Some((h, p))) => match spec_emit_one(h, p, out, cd, cnt, align) {
                    Err(e) => spec_emit_edits(zd, rem, out, cd, cnt, align) == Err::<
                        (Seq<u8>, Seq<u8>, int),
                        EmitErrV,
                    >(e),
                    Ok((o2, c2, n2)) => spec_emit_edits(zd, rem, out, cd, cnt, align)
                        == spec_emit_edits(zd, edits.skip(i + 1), o2, c2, n2, align),
                },
            }
        }),
{
    let rem = edits.skip(i);
    assert(rem[0] == edits[i]);
    assert(rem.drop_first() =~= edits.skip(i + 1));
}

/// Walking one appended entry forward, as `lemma_edits_step` does for the
/// plan slots.
pub proof fn lemma_appends_step(
    appends: Seq<AppendV>,
    i: int,
    out: Seq<u8>,
    cd: Seq<u8>,
    cnt: int,
    align: int,
)
    requires
        0 <= i < appends.len(),
    ensures
        ({
            let rem = appends.skip(i);
            match spec_out_of_append(appends[i]) {
                Err(e) => spec_emit_appends(rem, out, cd, cnt, align) == Err::<
                    (Seq<u8>, Seq<u8>, int),
                    EmitErrV,
                >(e),
                Ok((h, p)) => match spec_emit_one(h, p, out, cd, cnt, align) {
                    Err(e) => spec_emit_appends(rem, out, cd, cnt, align) == Err::<
                        (Seq<u8>, Seq<u8>, int),
                        EmitErrV,
                    >(e),
                    Ok((o2, c2, n2)) => spec_emit_appends(rem, out, cd, cnt, align)
                        == spec_emit_appends(appends.skip(i + 1), o2, c2, n2, align),
                },
            }
        }),
{
    let rem = appends.skip(i);
    assert(rem[0] == appends[i]);
    assert(rem.drop_first() =~= appends.skip(i + 1));
}

/// Writes the 22-byte end record.
fn write_eocd(out: &mut Vec<u8>, count: u16, cd_size: u32, cd_offset: u32)
    ensures
        final(out)@ == old(out)@ + spec_eocd_bytes(count, cd_size, cd_offset),
{
    push_leu32(out, CENTRAL_DIRECTORY_END);
    push_leu16(out, 0);
    push_leu16(out, 0);
    push_leu16(out, count);
    push_leu16(out, count);
    push_leu32(out, cd_size);
    push_leu32(out, cd_offset);
    push_leu16(out, 0);
    proof {
        assert(final(out)@ =~= old(out)@ + spec_eocd_bytes(count, cd_size, cd_offset));
    }
}

impl ZipEditor {
    /// Emits the complete archive the plan describes: every surviving
    /// source entry in source order, then every appended entry, then the
    /// central directory and the end record.  The call returns `Ok` with
    /// exactly the bytes `spec_finish` states for the plan, and fails
    /// exactly on the faults that spec names.
    #[verifier::rlimit(100)]
    #[verifier::spinoff_prover]
    pub fn finish(&self, origin_zip: Option<&ZipFile>, align: usize) -> (r: Result<
        Vec<u8>,
        ZipFormatError,
    >)
        requires
            1 <= align <= 0xFFFF,
        ensures
            ({
                let zd = match origin_zip {
                    Some(z) => z.data@,
                    None => Seq::empty(),
                };
                let plan = spec_finish_plan(self@, origin_zip is Some);
                match r {
                    Ok(v) => spec_finish(zd, plan, align as int) == Ok::<Seq<u8>, EmitErrV>(v@),
                    Err(e) => {
                        &&& spec_finish(zd, plan, align as int) is Err
                        &&& e.offset as int == emit_err_offset(
                            spec_finish(zd, plan, align as int)->Err_0,
                        )
                        &&& e.reason@ == emit_err_reason(
                            spec_finish(zd, plan, align as int)->Err_0,
                        )
                    },
                }
            }),
    {
        let ghost zd: Seq<u8> = match origin_zip {
            Some(z) => z.data@,
            None => Seq::empty(),
        };
        let ghost plan = spec_finish_plan(self@, origin_zip is Some);
        let mut out: Vec<u8> = Vec::new();
        let mut central_directory_data: Vec<u8> = Vec::new();
        let mut file_count: u128 = 0;
        proof {
            assert(out@ =~= Seq::<u8>::empty());
            assert(central_directory_data@ =~= Seq::<u8>::empty());
        }

        match origin_zip {
            Some(zip) => {
                let n = self.editable_entries.len();
                let mut i: usize = 0;
                proof {
                    assert(plan.edits.skip(0) =~= plan.edits);
                }
                while i < n
                    invariant
                        1 <= align <= 0xFFFF,
                        n == self.editable_entries@.len(),
                        i <= n,
                        file_count <= i as u128,
                        origin_zip == Some(zip),
                        zd == zip.data@,
                        plan == self@,
                        plan.edits == self@.edits,
                        spec_emit_edits(
                            zd,
                            plan.edits,
                            Seq::empty(),
                            Seq::empty(),
                            0,
                            align as int,
                        ) == spec_emit_edits(
                            zd,
                            plan.edits.skip(i as int),
                            out@,
                            central_directory_data@,
                            file_count as int,
                            align as int,
                        ),
                    decreases n - i,
                {
                    let ghost rem = plan.edits.skip(i as int);
                    proof {
                        assert(rem[0] == self@.edits[i as int]);
                        assert(self.editable_entries@[i as int]@ == self@.edits[i as int]);
                        lemma_edits_step(
                            zd,
                            plan.edits,
                            i as int,
                            out@,
                            central_directory_data@,
                            file_count as int,
                            align as int,
                        );
                    }
                    let ed = &self.editable_entries[i];
                    match prepare_edit(zip, ed) {
                        Ok(None) => {},
                        Ok(Some((header_build, payload))) => {
                            match emit_one(
                                &header_build,
                                &payload,
                                &mut out,
                                &mut central_directory_data,
                                file_count,
                                align,
                            ) {
                                Ok(c2) => {
                                    file_count = c2;
                                },
                                Err(e) => {
                                    return Err(e);
                                },
                            }
                        },
                        Err(e) => {
                            return Err(e);
                        },
                    }
                    i = i + 1;
                }
                proof {
                    assert(plan.edits.skip(n as int) =~= Seq::<EditV>::empty());
                }
            },
            None => {
                proof {
                    assert(plan.edits.len() == 0);
                }
            },
        }
        let ghost out1 = out@;
        let ghost cd1 = central_directory_data@;
        let ghost c1 = file_count as int;
        proof {
            assert(spec_emit_edits(zd, plan.edits, Seq::empty(), Seq::empty(), 0, align as int)
                == Ok::<(Seq<u8>, Seq<u8>, int), EmitErrV>((out1, cd1, c1)));
        }

        let m = self.append_entries.len();
        let mut j: usize = 0;
        proof {
            assert(plan.appends == self@.appends);
            assert(plan.appends.skip(0) =~= plan.appends);
        }
        while j < m
            invariant
                1 <= align <= 0xFFFF,
                m == self.append_entries@.len(),
                j <= m,
                file_count as int <= c1 + j,
                c1 <= usize::MAX,
                zd == (match origin_zip {
                    Some(z) => z.data@,
                    None => Seq::<u8>::empty(),
                }),
                plan == spec_finish_plan(self@, origin_zip is Some),
                plan.appends == self@.appends,
                spec_emit_edits(zd, plan.edits, Seq::empty(), Seq::empty(), 0, align as int)
                    == Ok::<(Seq<u8>, Seq<u8>, int), EmitErrV>((out1, cd1, c1)),
                spec_emit_appends(plan.appends, out1, cd1, c1, align as int)
                    == spec_emit_appends(
                    plan.appends.skip(j as int),
                    out@,
                    central_directory_data@,
                    file_count as int,
                    align as int,
                ),
            decreases m - j,
        {
            let ghost rem = plan.appends.skip(j as int);
            proof {
                assert(rem[0] == self@.appends[j as int]);
                assert(self.append_entries@[j as int]@ == self@.appends[j as int]);
                lemma_appends_step(
                    plan.appends,
                    j as int,
                    out@,
                    central_directory_data@,
                    file_count as int,
                    align as int,
                );
            }
            let new_entry = &self.append_entries[j];
            match prepare_append(new_entry) {
                Ok((header_build, payload)) => {
                    match emit_one(
                        &header_build,
                        &payload,
                        &mut out,
                        &mut central_directory_data,
                        file_count,
                        align,
                    ) {
                        Ok(c2) => {
                            file_count = c2;
                        },
                        Err(e) => {
                            return Err(e);
                        },
                    }
                },
                Err(e) => {
                    return Err(e);
                },
            }
            j = j + 1;
        }
        let ghost out2 = out@;
        let ghost cd2 = central_directory_data@;
        let ghost c2 = file_count as int;
        proof {
            assert(plan.appends.skip(m as int) =~= Seq::<AppendV>::empty());
            assert(spec_emit_appends(plan.appends, out1, cd1, c1, align as int) == Ok::<
                (Seq<u8>, Seq<u8>, int),
                EmitErrV,
            >((out2, cd2, c2)));
        }

        if file_count > 0xFFFF {
            proof {
                assert(spec_finish(zd, plan, align as int) == Err::<Seq<u8>, EmitErrV>(
                    EmitErrV::TooBig,
                ));
            }
            return Err(ZipFormatError { offset: 0, reason: "archive too large" });
        }
        let out_len = out.len();
        let cd_len = central_directory_data.len();
        if out_len as u64 > u32::MAX as u64 || cd_len as u64 > u32::MAX as u64 {
            proof {
                assert(spec_finish(zd, plan, align as int) == Err::<Seq<u8>, EmitErrV>(
                    EmitErrV::TooBig,
                ));
            }
            return Err(ZipFormatError { offset: 0, reason: "archive too large" });
        }
        proof {
            assert(spec_finish(zd, plan, align as int) == Ok::<Seq<u8>, EmitErrV>(
                out2 + cd2 + spec_eocd_bytes(c2 as u16, cd2.len() as u32, out2.len() as u32),
            ));
        }
        let central_directory_offset = out_len as u32;
        push_bytes(&mut out, central_directory_data.as_slice());
        write_eocd(&mut out, file_count as u16, cd_len as u32, central_directory_offset);
        proof {
            assert(out@ =~= out2 + cd2 + spec_eocd_bytes(
                c2 as u16,
                cd2.len() as u32,
                out2.len() as u32,
            ));
        }
        Ok(out)
    }
}

/// An owned copy of `len` bytes of `src` starting at `start`.
pub fn copy_bytes_range(src: &Vec<u8>, start: usize, len: usize) -> (r: Vec<u8>)
    requires
        start + len <= src@.len(),
    ensures
        r@ == src@.subrange(start as int, start + len),
{
    let total = src.len();
    let end = start + len;
    vstd::slice::slice_to_vec(vstd::slice::slice_subrange(src.as_slice(), start, end))
}

} // verus!
