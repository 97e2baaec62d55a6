//! The package facade: one value that owns the parsed archive and the
//! mutation plan, with the handful of operations a caller edits a package
//! through.

use vstd::prelude::*;
use crate::zip::{
    ZipFile, ZipFormatError, CompressMethod, EntryV, spec_name_index, spec_compress_data,
    spec_parse_zip, ArchiveV, ZipErrV, err_offset, err_reason, bytes_eq,
    lemma_name_index_in_range,
};
use crate::editor::{
    ZipEditor, AppendZipEntry, EditV, AppendV, EditorV, spec_finish, spec_finish_plan,
    emit_err_offset, emit_err_reason, EmitErrV,
};
use vstd::utf8::encode_utf8;
use vstd::string::StringSliceAdditionalSpecFns;
use vstd::string::StrSliceExecFns;
use vstd::string::StringExecFns;
use vstd::slice::slice_subrange;

verus! {

/// Whether `a` begins with `prefix`.
pub fn bytes_starts_with(a: &[u8], prefix: &[u8]) -> (r: bool)
    ensures
        r == (a@.len() >= prefix@.len() && a@.subrange(0, prefix@.len() as int) == prefix@),
{
    if a.len() < prefix.len() {
        return false;
    }
    bytes_eq(slice_subrange(a, 0, prefix.len()), prefix)
}

/// Whether `a` ends with `suffix`.
pub fn bytes_ends_with(a: &[u8], suffix: &[u8]) -> (r: bool)
    ensures
        r == (a@.len() >= suffix@.len() && a@.subrange(
            a@.len() - suffix@.len(),
            a@.len() as int,
        ) == suffix@),
{
    if a.len() < suffix.len() {
        return false;
    }
    bytes_eq(slice_subrange(a, a.len() - suffix.len(), a.len()), suffix)
}

/// The decimal digit characters.
pub open spec fn digit_char(d: int) -> char {
    if d == 0 {
        '0'
    } else if d == 1 {
        '1'
    } else if d == 2 {
        '2'
    } else if d == 3 {
        '3'
    } else if d == 4 {
        '4'
    } else if d == 5 {
        '5'
    } else if d == 6 {
        '6'
    } else if d == 7 {
        '7'
    } else if d == 8 {
        '8'
    } else {
        '9'
    }
}

/// The decimal digits of `n`, most significant first.
pub open spec fn spec_decimal(n: int) -> Seq<char>
    recommends
        n >= 0,
    decreases n,
{
    if n < 10 {
        seq![digit_char(n)]
    } else {
        spec_decimal(n / 10) + seq![digit_char(n % 10)]
    }
}

/// Appends the decimal digits of `n` to `s`.
pub fn push_decimal(s: &mut String, n: usize)
    ensures
        final(s)@ == old(s)@ + spec_decimal(n as int),
    decreases n,
{
    if n >= 10 {
        push_decimal(s, n / 10);
    }
    let d = n % 10;
    let ghost mid = s@;
    match d {
        0 => s.append("0"),
        1 => s.append("1"),
        2 => s.append("2"),
        3 => s.append("3"),
        4 => s.append("4"),
        5 => s.append("5"),
        6 => s.append("6"),
        7 => s.append("7"),
        8 => s.append("8"),
        _ => s.append("9"),
    }
    proof {
        reveal_strlit("0");
        reveal_strlit("1");
        reveal_strlit("2");
        reveal_strlit("3");
        reveal_strlit("4");
        reveal_strlit("5");
        reveal_strlit("6");
        reveal_strlit("7");
        reveal_strlit("8");
        reveal_strlit("9");
        assert(final(s)@ =~= mid + seq![digit_char(d as int)]);
        if n >= 10 {
            assert(final(s)@ =~= old(s)@ + (spec_decimal(n as int / 10) + seq![
                digit_char(n as int % 10),
            ]));
        }
    }
}

/// The dex entry name carrying index `n`.
pub open spec fn spec_dex_name(n: int) -> Seq<char> {
    "classes"@ + spec_decimal(n) + ".dex"@
}

/// Whether an entry name counts as a dex file: it begins with `classes`
/// and ends with `.dex`.
pub open spec fn spec_is_dex_name(name: Seq<u8>) -> bool {
    let pre = encode_utf8("classes"@);
    let suf = encode_utf8(".dex"@);
    &&& name.len() >= pre.len()
    &&& name.subrange(0, pre.len() as int) == pre
    &&& name.len() >= suf.len()
    &&& name.subrange(name.len() - suf.len(), name.len() as int) == suf
}

/// How many entries of the archive count as dex files.
pub open spec fn spec_dex_count(es: Seq<EntryV>) -> int
    decreases es.len(),
{
    if es.len() == 0 {
        0
    } else {
        spec_dex_count(es.drop_last()) + if spec_is_dex_name(es.last().file_name) {
            1int
        } else {
            0int
        }
    }
}

/// Whether some queued entry already carries this name.
pub open spec fn spec_appends_has_name(aps: Seq<AppendV>, name: Seq<u8>) -> bool {
    exists|i: int| 0 <= i < aps.len() && #[trigger] aps[i].file_name == name
}

/// Whether the dex name for index `n` is already spoken for, in the
/// archive or in the plan.
pub open spec fn spec_dex_taken(es: Seq<EntryV>, aps: Seq<AppendV>, n: int) -> bool {
    ||| spec_name_index(es, encode_utf8(spec_dex_name(n))) is Some
    ||| spec_appends_has_name(aps, encode_utf8(spec_dex_name(n)))
}

/// Whether any queued entry carries exactly `name`.
pub fn appends_has_name(aps: &Vec<AppendZipEntry>, name: &[u8]) -> (r: bool)
    ensures
        r == spec_appends_has_name(aps@.map_values(|e: AppendZipEntry| e@), name@),
{
    let ghost apsv = aps@.map_values(|e: AppendZipEntry| e@);
    let n = aps.len();
    let mut i: usize = 0;
    while i < n
        invariant
            i <= n,
            n == aps@.len(),
            apsv == aps@.map_values(|e: AppendZipEntry| e@),
            forall|j: int| 0 <= j < i ==> #[trigger] apsv[j].file_name != name@,
        decreases n - i,
    {
        if bytes_eq(aps[i].file_name.as_slice(), name) {
            proof {
                assert(apsv[i as int].file_name == name@);
            }
            return true;
        }
        i = i + 1;
    }
    false
}

/// An Android package under edit: the parsed archive, the plan built over
/// it, and the index from which the next dex name is searched.
pub struct ApkFile {
    pub zip: ZipFile,
    pub editor: ZipEditor,
    pub dex_count: usize,
}

/// A plan slot that still carries the source entry unchanged.
pub open spec fn fresh_edit(e: EntryV) -> EditV {
    EditV { origin_entry: e, remove: false, edit: None }
}

impl ApkFile {
    /// Parses the archive and counts the dex entries it holds; the editor
    /// starts as the identity plan.
    pub fn from(data: &Vec<u8>) -> (r: Result<ApkFile, ZipFormatError>)
        ensures
            match r {
                Ok(a) => {
                    &&& spec_parse_zip(data@) == Ok::<ArchiveV, ZipErrV>(a.zip@)
                    &&& a.zip.data@ == data@
                    &&& a.editor@.appends.len() == 0
                    &&& a.editor@.edits.len() == a.zip@.entries.len()
                    &&& forall|i: int|
                        0 <= i < a.editor@.edits.len() ==> a.editor@.edits[i] == fresh_edit(
                            a.zip@.entries[i],
                        )
                    &&& a.dex_count as int == spec_dex_count(a.zip@.entries)
                },
                Err(e) => {
                    &&& spec_parse_zip(data@) is Err
                    &&& e.offset as int == err_offset(spec_parse_zip(data@)->Err_0)
                    &&& e.reason@ == err_reason(spec_parse_zip(data@)->Err_0)
                },
            },
    {
        let zip = match ZipFile::from(data) {
            Ok(z) => z,
            Err(e) => {
                return Err(e);
            },
        };
        let editor = ZipEditor::from(&zip);
        let prefix = "classes".as_bytes();
        let suffix = ".dex".as_bytes();
        let n = zip.entries.len();
        let mut dex_count: usize = 0;
        let mut i: usize = 0;
        proof {
            assert(zip@.entries.subrange(0, 0) =~= Seq::<EntryV>::empty());
        }
        while i < n
            invariant
                i <= n,
                n == zip@.entries.len(),
                dex_count <= i,
                prefix@ == encode_utf8("classes"@),
                suffix@ == encode_utf8(".dex"@),
                dex_count as int == spec_dex_count(zip@.entries.subrange(0, i as int)),
            decreases n - i,
        {
            let ghost pre_entries = zip@.entries.subrange(0, i + 1);
            proof {
                assert(pre_entries.drop_last() =~= zip@.entries.subrange(0, i as int));
                assert(pre_entries.last() == zip@.entries[i as int]);
            }
            let name = zip.entries[i].file_name.as_slice();
            if bytes_starts_with(name, prefix) && bytes_ends_with(name, suffix) {
                dex_count = dex_count + 1;
            }
            i = i + 1;
        }
        proof {
            assert(zip@.entries.subrange(0, n as int) =~= zip@.entries);
        }
        Ok(ApkFile { zip, editor, dex_count })
    }

    /// Queues a new dex entry under the next free index: starting at the
    /// running count, the first index whose name stands neither in the
    /// archive nor in the plan is chosen, so the new name collides with
    /// nothing; the count then moves past the chosen index.
    #[verifier::rlimit(100)]
    #[verifier::spinoff_prover]
    pub fn add_dex(&mut self, data: Vec<u8>) -> (r: bool)
        ensures
            final(self).zip == old(self).zip,
            final(self).editor@.edits == old(self).editor@.edits,
            !r ==> *final(self) == *old(self),
            r == (exists|m: int|
                old(self).dex_count <= m <= old(self).dex_count + old(self).zip@.entries.len()
                    + old(self).editor@.appends.len() && m < usize::MAX
                    && !#[trigger] spec_dex_taken(
                    old(self).zip@.entries,
                    old(self).editor@.appends,
                    m,
                )),
            r ==> ({
                let chosen = final(self).dex_count - 1;
                &&& old(self).dex_count <= chosen < usize::MAX
                &&& !spec_dex_taken(old(self).zip@.entries, old(self).editor@.appends, chosen)
                &&& forall|m: int|
                    old(self).dex_count <= m < chosen ==> #[trigger] spec_dex_taken(
                        old(self).zip@.entries,
                        old(self).editor@.appends,
                        m,
                    )
                &&& final(self).editor@.appends == old(self).editor@.appends.push(
                    AppendV {
                        data: data@,
                        compress_method: CompressMethod::Deflated,
                        file_name: encode_utf8(spec_dex_name(chosen)),
                    },
                )
            }),
    {
        let ghost es = self.zip@.entries;
        let ghost aps = self.editor@.appends;
        let window: u128 = self.zip.entries.len() as u128 + self.editor.append_entries.len()
            as u128;
        let mut candidate: usize = self.dex_count;
        let mut tries: u128 = 0;
        let mut found = false;
        loop
            invariant_except_break
                !found,
            invariant
                *self == *old(self),
                es == old(self).zip@.entries,
                aps == old(self).editor@.appends,
                window == old(self).zip@.entries.len() + old(self).editor@.appends.len(),
                old(self).dex_count <= candidate,
                candidate as int == old(self).dex_count + tries,
                tries <= window + 1,
                forall|m: int|
                    old(self).dex_count <= m < candidate ==> #[trigger] spec_dex_taken(
                        es,
                        aps,
                        m,
                    ),
            ensures
                *self == *old(self),
                old(self).dex_count <= candidate,
                found ==> candidate as int <= old(self).dex_count + window,
                found ==> candidate < usize::MAX && !spec_dex_taken(es, aps, candidate as int),
                forall|m: int|
                    old(self).dex_count <= m < candidate ==> #[trigger] spec_dex_taken(
                        es,
                        aps,
                        m,
                    ),
                !found ==> forall|m: int|
                    old(self).dex_count <= m <= old(self).dex_count + window && m < usize::MAX
                        ==> #[trigger] spec_dex_taken(es, aps, m),
            decreases window + 2 - tries,
        {
            if tries > window {
                proof {
                    assert(candidate as int > old(self).dex_count + window);
                }
                break;
            }
            if candidate == usize::MAX {
                break;
            }
            let mut name = String::from_str("classes");
            push_decimal(&mut name, candidate);
            name.append(".dex");
            proof {
                assert(name@ == spec_dex_name(candidate as int));
            }
            let in_zip = self.zip.get_file_index(name.as_str()).is_some();
            let in_plan = appends_has_name(
                &self.editor.append_entries,
                name.as_str().as_bytes(),
            );
            proof {
                crate::zip::lemma_name_index_in_range(es, encode_utf8(spec_dex_name(
                    candidate as int,
                )));
            }
            if !(in_zip || in_plan) {
                found = true;
                break;
            }
            candidate = candidate + 1;
            tries = tries + 1;
        }
        if !found {
            return false;
        }
        let mut file_name = String::from_str("classes");
        push_decimal(&mut file_name, candidate);
        file_name.append(".dex");
        proof {
            assert(file_name@ == spec_dex_name(candidate as int));
        }
        self.dex_count = candidate + 1;
        self.editor.append_file(data, file_name, CompressMethod::Deflated);
        true
    }

    /// The uncompressed manifest bytes, when the archive holds a readable
    /// manifest entry: `None` exactly when the name is absent, the payload
    /// falls outside the buffer, or the stream does not decode.
    pub fn get_manifest(&self) -> (r: Option<Vec<u8>>)
        ensures
            match spec_name_index(self.zip@.entries, encode_utf8("AndroidManifest.xml"@)) {
                None => r is None,
                Some(i) => match spec_compress_data(self.zip.data@, self.zip@.entries[i]) {
                    None => r is None,
                    Some(raw) => match self.zip@.entries[i].compress_method {
                        CompressMethod::Stored => r is Some && r->Some_0@ == raw,
                        CompressMethod::Deflated => {
                            &&& r is Some <==> crate::compress::inflate_ok(raw)
                            &&& r is Some ==> r->Some_0@ == crate::compress::inflate_of(raw)
                        },
                    },
                },
            },
    {
        self.zip.get_uncompress_data("AndroidManifest.xml")
    }

    /// Queues a replacement of the manifest's payload; without a manifest
    /// entry the plan stays as it was.
    pub fn set_manifest(&mut self, data: Vec<u8>)
        ensures
            final(self).zip == old(self).zip,
            final(self).dex_count == old(self).dex_count,
            final(self).editor@.appends == old(self).editor@.appends,
            match spec_name_index(old(self).zip@.entries, encode_utf8("AndroidManifest.xml"@)) {
                Some(i) => {
                    if i < old(self).editor@.edits.len() {
                        final(self).editor@.edits == old(self).editor@.edits.update(
                            i,
                            EditV {
                                origin_entry: old(self).editor@.edits[i].origin_entry,
                                remove: old(self).editor@.edits[i].remove,
                                edit: Some(data@),
                            },
                        )
                    } else {
                        final(self).editor@.edits == old(self).editor@.edits
                    }
                },
                None => final(self).editor@.edits == old(self).editor@.edits,
            },
    {
        let _ = self.editor.edit_file(&self.zip, "AndroidManifest.xml", data);
    }

    /// Queues a new deflated entry under `assets/`.
    pub fn add_assets(&mut self, name: &str, data: Vec<u8>)
        ensures
            final(self).zip == old(self).zip,
            final(self).dex_count == old(self).dex_count,
            final(self).editor@.edits == old(self).editor@.edits,
            final(self).editor@.appends == old(self).editor@.appends.push(
                AppendV {
                    data: data@,
                    compress_method: CompressMethod::Deflated,
                    file_name: encode_utf8("assets/"@ + name@),
                },
            ),
    {
        let mut path = String::from_str("assets/");
        path.append(name);
        self.editor.append_file(data, path, CompressMethod::Deflated);
    }

    /// Queues a new entry under `path` with the method the caller picked.
    pub fn add_file(&mut self, path: &str, data: Vec<u8>, compress_method: CompressMethod)
        ensures
            final(self).zip == old(self).zip,
            final(self).dex_count == old(self).dex_count,
            final(self).editor@.edits == old(self).editor@.edits,
            final(self).editor@.appends == old(self).editor@.appends.push(
                AppendV { data: data@, compress_method, file_name: encode_utf8(path@) },
            ),
    {
        self.editor.append_file(data, String::from_str(path), compress_method);
    }

    /// Queues a replacement of an existing entry's payload; `None`, with
    /// the plan unchanged, when `path` is absent.
    pub fn edit_file(&mut self, path: &str, data: Vec<u8>) -> (r: Option<()>)
        ensures
            final(self).zip == old(self).zip,
            final(self).dex_count == old(self).dex_count,
            final(self).editor@.appends == old(self).editor@.appends,
            match spec_name_index(old(self).zip@.entries, path.spec_bytes()) {
                Some(i) => {
                    if i < old(self).editor@.edits.len() {
                        &&& r is Some
                        &&& final(self).editor@.edits == old(self).editor@.edits.update(
                            i,
                            EditV {
                                origin_entry: old(self).editor@.edits[i].origin_entry,
                                remove: old(self).editor@.edits[i].remove,
                                edit: Some(data@),
                            },
                        )
                    } else {
                        r is None && final(self).editor@.edits == old(self).editor@.edits
                    }
                },
                None => r is None && final(self).editor@.edits == old(self).editor@.edits,
            },
    {
        self.editor.edit_file(&self.zip, path, data)
    }

    /// Marks an existing entry as removed; `None`, with the plan
    /// unchanged, when `path` is absent.
    pub fn remove_file(&mut self, path: &str) -> (r: Option<()>)
        ensures
            final(self).zip == old(self).zip,
            final(self).dex_count == old(self).dex_count,
            final(self).editor@.appends == old(self).editor@.appends,
            match spec_name_index(old(self).zip@.entries, path.spec_bytes()) {
                Some(i) => {
                    if i < old(self).editor@.edits.len() {
                        &&& r is Some
                        &&& final(self).editor@.edits == old(self).editor@.edits.update(
                            i,
                            EditV {
                                origin_entry: old(self).editor@.edits[i].origin_entry,
                                remove: true,
                                edit: old(self).editor@.edits[i].edit,
                            },
                        )
                    } else {
                        r is None && final(self).editor@.edits == old(self).editor@.edits
                    }
                },
                None => r is None && final(self).editor@.edits == old(self).editor@.edits,
            },
    {
        self.editor.remove_file(&self.zip, path)
    }

    /// Emits the edited archive with the standard alignment of 4: `Ok`
    /// with exactly the bytes `spec_finish` states, an error exactly on
    /// the faults that spec names.
    pub fn save(&self) -> (r: Result<Vec<u8>, ZipFormatError>)
        ensures
            match r {
                Ok(v) => spec_finish(self.zip.data@, self.editor@, 4) == Ok::<
                    Seq<u8>,
                    EmitErrV,
                >(v@),
                Err(e) => {
                    &&& spec_finish(self.zip.data@, self.editor@, 4) is Err
                    &&& e.offset as int == emit_err_offset(
                        spec_finish(self.zip.data@, self.editor@, 4)->Err_0,
                    )
                    &&& e.reason@ == emit_err_reason(
                        spec_finish(self.zip.data@, self.editor@, 4)->Err_0,
                    )
                },
            },
    {
        proof {
            assert(spec_finish_plan(self.editor@, true) == self.editor@);
        }
        self.editor.finish(Some(&self.zip), 4)
    }
}

} // verus!
