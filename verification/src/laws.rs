//! The laws of the archive writer, proved once over the emission model
//! that `finish` is verified against: alignment of stored payloads, the
//! end record's bookkeeping, the digests of appended entries, what an
//! unedited plan preserves, that consecutive dex names differ, and that
//! the records the writer emits read back field by field.

use vstd::prelude::*;
use crate::utils::{u16_at, u32_at, le16_bytes, le32_bytes, lemma_le16_roundtrip,
    lemma_le32_roundtrip, lemma_read_le16, lemma_read_le32};
use crate::zip::{EntryV, ZipErrV, spec_parse_cd, method_value, spec_method_of,
    CENTRAL_DIRECTORY};
use vstd::utf8::valid_utf8;
use crate::editor::{
    EditV, AppendV, EditorV, HeaderV, EmitErrV, lfh_pad, spec_lfh_bytes, spec_cd_record_bytes,
    spec_eocd_bytes, spec_out_of_edit, spec_out_of_append, spec_emit_one,
    spec_emit_edits, spec_emit_appends, spec_finish,
};
use crate::compress::crc32_of;
use crate::wrap::{spec_decimal, spec_dex_name, digit_char};

verus! {

/// The local file header occupies 30 bytes plus the name, the extra field
/// and the alignment padding.
pub proof fn lemma_lfh_bytes_len(h: HeaderV, offset: int, align: int)
    requires
        align >= 1,
    ensures
        spec_lfh_bytes(h, offset, align).len() == 30 + h.file_name.len() + h.ext.len()
            + lfh_pad(h, offset, align),
        lfh_pad(h, offset, align) >= 0,
{
    assert(lfh_pad(h, offset, align) >= 0) by {
        if h.compress_method is Stored {
            let x = offset + 30 + h.file_name.len() + h.ext.len();
            assert((align - (x % align)) % align >= 0) by (nonlinear_arith)
                requires
                    align >= 1,
            ;
        }
    }
}

/// Every stored entry the writer emits has its payload begin on a
/// multiple of the alignment: the data start that the padded local header
/// produces is divisible by `align`.
pub proof fn lemma_emit_one_aligned(
    h: HeaderV,
    payload: Seq<u8>,
    out: Seq<u8>,
    cd: Seq<u8>,
    cnt: int,
    align: int,
)
    requires
        align >= 1,
        h.compress_method is Stored,
        spec_emit_one(h, payload, out, cd, cnt, align) is Ok,
    ensures
        ({
            let (o2, cd2, c2) = spec_emit_one(h, payload, out, cd, cnt, align)->Ok_0;
            let data_start = out.len() + 30 + h.file_name.len() + h.ext.len() + lfh_pad(
                h,
                out.len() as int,
                align,
            );
            &&& o2 == out + spec_lfh_bytes(h, out.len() as int, align) + payload
            &&& o2.len() == data_start + payload.len()
            &&& data_start % align == 0
        }),
{
    let off = out.len() as int;
    lemma_lfh_bytes_len(h, off, align);
    let x = off + 30 + h.file_name.len() + h.ext.len();
    let p = lfh_pad(h, off, align);
    assert(p == (align - (x % align)) % align);
    assert((x + (align - (x % align)) % align) % align == 0) by (nonlinear_arith)
        requires
            align >= 1,
            x >= 0,
    ;
}

/// How many plan slots survive into the output.
pub open spec fn spec_survivor_count(edits: Seq<EditV>) -> int
    decreases edits.len(),
{
    if edits.len() == 0 {
        0
    } else {
        (if edits[0].remove {
            0int
        } else {
            1int
        }) + spec_survivor_count(edits.drop_first())
    }
}

/// Emitting the plan slots raises the record count by exactly the number
/// of surviving slots.
pub proof fn lemma_emit_edits_count(
    zd: Seq<u8>,
    edits: Seq<EditV>,
    out: Seq<u8>,
    cd: Seq<u8>,
    cnt: int,
    align: int,
)
    requires
        spec_emit_edits(zd, edits, out, cd, cnt, align) is Ok,
    ensures
        spec_emit_edits(zd, edits, out, cd, cnt, align)->Ok_0.2 == cnt + spec_survivor_count(
            edits,
        ),
    decreases edits.len(),
{
    if edits.len() == 0 {
    } else {
        match spec_out_of_edit(zd, edits[0]) {
            Err(_) => {},
            Ok(None) => {
                lemma_emit_edits_count(zd, edits.drop_first(), out, cd, cnt, align);
            },
            Ok(Some((h, payload))) => {
                let (o2, cd2, c2) = spec_emit_one(h, payload, out, cd, cnt, align)->Ok_0;
                lemma_emit_edits_count(zd, edits.drop_first(), o2, cd2, c2, align);
            },
        }
    }
}

/// No plan has a negative number of survivors.
pub proof fn lemma_survivor_count_nonneg(edits: Seq<EditV>)
    ensures
        spec_survivor_count(edits) >= 0,
    decreases edits.len(),
{
    if edits.len() > 0 {
        lemma_survivor_count_nonneg(edits.drop_first());
    }
}

/// Emitting the appended entries raises the record count by exactly their
/// number.
pub proof fn lemma_emit_appends_count(
    appends: Seq<AppendV>,
    out: Seq<u8>,
    cd: Seq<u8>,
    cnt: int,
    align: int,
)
    requires
        spec_emit_appends(appends, out, cd, cnt, align) is Ok,
    ensures
        spec_emit_appends(appends, out, cd, cnt, align)->Ok_0.2 == cnt + appends.len(),
    decreases appends.len(),
{
    if appends.len() == 0 {
    } else {
        match spec_out_of_append(appends[0]) {
            Err(_) => {},
            Ok((h, payload)) => {
                let (o2, cd2, c2) = spec_emit_one(h, payload, out, cd, cnt, align)->Ok_0;
                lemma_emit_appends_count(appends.drop_first(), o2, cd2, c2, align);
            },
        }
    }
}

/// The fields of the end record read back as what was written: both count
/// fields, the directory size and the directory offset.
pub proof fn lemma_eocd_fields(count: u16, cd_size: u32, cd_offset: u32)
    ensures
        spec_eocd_bytes(count, cd_size, cd_offset).len() == 22,
        u16_at(spec_eocd_bytes(count, cd_size, cd_offset), 8) == count,
        u16_at(spec_eocd_bytes(count, cd_size, cd_offset), 10) == count,
        u32_at(spec_eocd_bytes(count, cd_size, cd_offset), 12) == cd_size,
        u32_at(spec_eocd_bytes(count, cd_size, cd_offset), 16) == cd_offset,
{
    let e = spec_eocd_bytes(count, cd_size, cd_offset);
    lemma_le16_roundtrip(count);
    lemma_le32_roundtrip(cd_size);
    lemma_le32_roundtrip(cd_offset);
    assert(e[8] == le16_bytes(count)[0]);
    assert(e[9] == le16_bytes(count)[1]);
    assert(e[10] == le16_bytes(count)[0]);
    assert(e[11] == le16_bytes(count)[1]);
    assert(e[12] == le32_bytes(cd_size)[0]);
    assert(e[13] == le32_bytes(cd_size)[1]);
    assert(e[14] == le32_bytes(cd_size)[2]);
    assert(e[15] == le32_bytes(cd_size)[3]);
    assert(e[16] == le32_bytes(cd_offset)[0]);
    assert(e[17] == le32_bytes(cd_offset)[1]);
    assert(e[18] == le32_bytes(cd_offset)[2]);
    assert(e[19] == le32_bytes(cd_offset)[3]);
}

/// After a successful emission, the end record's entry count equals the
/// number of central-directory records that were emitted - the surviving
/// slots plus the appended entries - and the directory offset stored in it
/// points at the first directory byte.
#[verifier::rlimit(100)]
#[verifier::spinoff_prover]
pub proof fn lemma_finish_eocd(
    zd: Seq<u8>,
    plan: EditorV,
    align: int,
    out1: Seq<u8>,
    cd1: Seq<u8>,
    c1: int,
    out2: Seq<u8>,
    cd2: Seq<u8>,
    c2: int,
    v: Seq<u8>,
)
    requires
        spec_emit_edits(zd, plan.edits, Seq::empty(), Seq::empty(), 0, align) == Ok::<
            (Seq<u8>, Seq<u8>, int),
            EmitErrV,
        >((out1, cd1, c1)),
        spec_emit_appends(plan.appends, out1, cd1, c1, align) == Ok::<
            (Seq<u8>, Seq<u8>, int),
            EmitErrV,
        >((out2, cd2, c2)),
        spec_finish(zd, plan, align) == Ok::<Seq<u8>, EmitErrV>(v),
    ensures
        c2 == spec_survivor_count(plan.edits) + plan.appends.len(),
        0 <= c2 <= 0xFFFF,
        v == out2 + cd2 + spec_eocd_bytes(c2 as u16, cd2.len() as u32, out2.len() as u32),
        v.len() == out2.len() + cd2.len() + 22,
        u16_at(v, v.len() - 14) as int == c2,
        u16_at(v, v.len() - 12) as int == c2,
        u32_at(v, v.len() - 10) as int == cd2.len(),
        u32_at(v, v.len() - 6) as int == out2.len(),
{
    lemma_emit_edits_count(zd, plan.edits, Seq::empty(), Seq::empty(), 0, align);
    lemma_emit_appends_count(plan.appends, out1, cd1, c1, align);
    lemma_survivor_count_nonneg(plan.edits);
    assert((out2 + cd2).len() == out2.len() + cd2.len());
    let cnt16 = c2 as u16;
    let sz = cd2.len() as u32;
    let off = out2.len() as u32;
    let e = spec_eocd_bytes(cnt16, sz, off);
    assert(v == out2 + cd2 + e);
    assert(v =~= (out2 + cd2) + e);
    lemma_eocd_read(v, out2 + cd2, cnt16, sz, off);
}

/// An end record appended after any bytes reads back field by field.
pub proof fn lemma_eocd_read(v: Seq<u8>, x: Seq<u8>, count: u16, cd_size: u32, cd_offset: u32)
    requires
        v == x + spec_eocd_bytes(count, cd_size, cd_offset),
    ensures
        v.len() == x.len() + 22,
        u16_at(v, x.len() + 8int) == count,
        u16_at(v, x.len() + 10int) == count,
        u32_at(v, x.len() + 12int) == cd_size,
        u32_at(v, x.len() + 16int) == cd_offset,
{
    let e = spec_eocd_bytes(count, cd_size, cd_offset);
    lemma_eocd_fields(count, cd_size, cd_offset);
    let base = x.len() as int;
    assert(u16_at(v, base + 8) == u16_at(e, 8)) by {
        assert(v[base + 8] == e[8] && v[base + 9] == e[9]);
    }
    assert(u16_at(v, base + 10) == u16_at(e, 10)) by {
        assert(v[base + 10] == e[10] && v[base + 11] == e[11]);
    }
    assert(u32_at(v, base + 12) == u32_at(e, 12)) by {
        assert(v[base + 12] == e[12] && v[base + 13] == e[13] && v[base + 14] == e[14] && v[base
            + 15] == e[15]);
    }
    assert(u32_at(v, base + 16) == u32_at(e, 16)) by {
        assert(v[base + 16] == e[16] && v[base + 17] == e[17] && v[base + 18] == e[18] && v[base
            + 19] == e[19]);
    }
}

/// One central-directory record round-trips: the 46 bytes and the name
/// the writer emits for an entry parse back to an entry carrying the same
/// name, method, sizes, digest and local-header offset, with the zeroed
/// time and the empty extras the writer always uses.
#[verifier::rlimit(100)]
#[verifier::spinoff_prover]
pub proof fn lemma_cd_record_parse_back(d: Seq<u8>, o: int, h: HeaderV, lfh_offset: u32)
    requires
        0 <= o <= u32::MAX,
        h.file_name.len() <= 0xFFFF,
        valid_utf8(h.file_name),
        o + 46 + h.file_name.len() <= d.len(),
        o + 46 + h.file_name.len() <= usize::MAX,
        d.subrange(o, o + 46 + h.file_name.len()) == spec_cd_record_bytes(h, lfh_offset),
    ensures
        spec_parse_cd(d, o, 1) == Ok::<Seq<EntryV>, ZipErrV>(
            seq![
                EntryV {
                    origin_size: h.origin_size,
                    compressed_size: h.compress_size,
                    file_name: h.file_name,
                    crc_32: h.crc32,
                    compress_method: h.compress_method,
                    modify_time: 0,
                    local_file_header_offset: lfh_offset,
                    central_directory_header_offset: o as u32,
                    entry_size: (46 + h.file_name.len()) as u32,
                    ext_len: 0,
                },
            ],
        ),
{
    let cb = spec_cd_record_bytes(h, lfh_offset);
    let nl = h.file_name.len() as int;
    assert(cb.subrange(0, 4) =~= le32_bytes(CENTRAL_DIRECTORY));
    lemma_read_le32(d, o, cb, 0, CENTRAL_DIRECTORY);
    assert(cb.subrange(10, 12) =~= le16_bytes(method_value(h.compress_method)));
    lemma_read_le16(d, o, cb, 10, method_value(h.compress_method));
    assert(cb.subrange(12, 16) =~= le32_bytes(0));
    lemma_read_le32(d, o, cb, 12, 0);
    assert(cb.subrange(16, 20) =~= le32_bytes(h.crc32));
    lemma_read_le32(d, o, cb, 16, h.crc32);
    assert(cb.subrange(20, 24) =~= le32_bytes(h.compress_size));
    lemma_read_le32(d, o, cb, 20, h.compress_size);
    assert(cb.subrange(24, 28) =~= le32_bytes(h.origin_size));
    lemma_read_le32(d, o, cb, 24, h.origin_size);
    assert(cb.subrange(28, 30) =~= le16_bytes(h.file_name.len() as u16));
    lemma_read_le16(d, o, cb, 28, h.file_name.len() as u16);
    assert(cb.subrange(30, 32) =~= le16_bytes(0));
    lemma_read_le16(d, o, cb, 30, 0);
    assert(cb.subrange(32, 34) =~= le16_bytes(0));
    lemma_read_le16(d, o, cb, 32, 0);
    assert(cb.subrange(42, 46) =~= le32_bytes(lfh_offset));
    lemma_read_le32(d, o, cb, 42, lfh_offset);
    assert(d.subrange(o + 46, o + 46 + nl) =~= h.file_name) by {
        assert(cb.subrange(46, 46 + nl) =~= h.file_name);
        assert(forall|j: int|
            0 <= j < nl ==> #[trigger] d.subrange(o + 46, o + 46 + nl)[j] == d[o + 46 + j]);
        assert(forall|j: int| 0 <= j < nl ==> #[trigger] d[o + 46 + j] == cb[46 + j]);
    }
    assert(spec_method_of(method_value(h.compress_method)) == Some(h.compress_method));
    assert(spec_parse_cd(d, o + 46 + nl, 0) == Ok::<Seq<EntryV>, ZipErrV>(Seq::empty()));
    let entry = EntryV {
        origin_size: h.origin_size,
        compressed_size: h.compress_size,
        file_name: h.file_name,
        crc_32: h.crc32,
        compress_method: h.compress_method,
        modify_time: 0,
        local_file_header_offset: lfh_offset,
        central_directory_header_offset: o as u32,
        entry_size: (46 + h.file_name.len()) as u32,
        ext_len: 0,
    };
    assert(seq![entry] + Seq::<EntryV>::empty() =~= seq![entry]);
}

/// The CRC field of a local file header holds the CRC the header fields
/// carry, and so does the central-directory record's.
pub proof fn lemma_header_crc_fields(h: HeaderV, offset: int, align: int, lfh_offset: u32)
    requires
        align >= 1,
    ensures
        u32_at(spec_lfh_bytes(h, offset, align), 14) == h.crc32,
        u32_at(spec_cd_record_bytes(h, lfh_offset), 16) == h.crc32,
{
    lemma_le32_roundtrip(h.crc32);
    let l = spec_lfh_bytes(h, offset, align);
    assert(l[14] == le32_bytes(h.crc32)[0]);
    assert(l[15] == le32_bytes(h.crc32)[1]);
    assert(l[16] == le32_bytes(h.crc32)[2]);
    assert(l[17] == le32_bytes(h.crc32)[3]);
    let c = spec_cd_record_bytes(h, lfh_offset);
    assert(c[16] == le32_bytes(h.crc32)[0]);
    assert(c[17] == le32_bytes(h.crc32)[1]);
    assert(c[18] == le32_bytes(h.crc32)[2]);
    assert(c[19] == le32_bytes(h.crc32)[3]);
}

/// The local file header the writer emits reads back field by field, so
/// the reader locates the payload exactly where the writer put it: at the
/// header offset plus 30 plus the name and the padded extra field.
#[verifier::rlimit(100)]
#[verifier::spinoff_prover]
pub proof fn lemma_lfh_fields_read_back(d: Seq<u8>, o: int, h: HeaderV, offset: int, align: int)
    requires
        align >= 1,
        0 <= o,
        h.file_name.len() <= 0xFFFF,
        h.ext.len() + lfh_pad(h, offset, align) <= 0xFFFF,
        o + spec_lfh_bytes(h, offset, align).len() <= d.len(),
        d.subrange(o, o + spec_lfh_bytes(h, offset, align).len()) == spec_lfh_bytes(
            h,
            offset,
            align,
        ),
    ensures
        u32_at(d, o) == crate::zip::LOCAL_FILE_HEADER,
        u16_at(d, o + 8) == method_value(h.compress_method),
        u32_at(d, o + 14) == h.crc32,
        u32_at(d, o + 18) == h.compress_size,
        u32_at(d, o + 22) == h.origin_size,
        u16_at(d, o + 26) == h.file_name.len() as u16,
        u16_at(d, o + 28) == (h.ext.len() + lfh_pad(h, offset, align)) as u16,
        d.subrange(o + 30, o + 30 + h.file_name.len()) == h.file_name,
{
    lemma_lfh_bytes_len(h, offset, align);
    let lb = spec_lfh_bytes(h, offset, align);
    let nl = h.file_name.len() as int;
    assert(lb.subrange(0, 4) =~= le32_bytes(crate::zip::LOCAL_FILE_HEADER));
    lemma_read_le32(d, o, lb, 0, crate::zip::LOCAL_FILE_HEADER);
    assert(lb.subrange(8, 10) =~= le16_bytes(method_value(h.compress_method)));
    lemma_read_le16(d, o, lb, 8, method_value(h.compress_method));
    assert(lb.subrange(14, 18) =~= le32_bytes(h.crc32));
    lemma_read_le32(d, o, lb, 14, h.crc32);
    assert(lb.subrange(18, 22) =~= le32_bytes(h.compress_size));
    lemma_read_le32(d, o, lb, 18, h.compress_size);
    assert(lb.subrange(22, 26) =~= le32_bytes(h.origin_size));
    lemma_read_le32(d, o, lb, 22, h.origin_size);
    assert(lb.subrange(26, 28) =~= le16_bytes(h.file_name.len() as u16));
    lemma_read_le16(d, o, lb, 26, h.file_name.len() as u16);
    assert(lb.subrange(28, 30) =~= le16_bytes((h.ext.len() + lfh_pad(h, offset, align)) as u16));
    lemma_read_le16(d, o, lb, 28, (h.ext.len() + lfh_pad(h, offset, align)) as u16);
    assert(d.subrange(o + 30, o + 30 + nl) =~= h.file_name) by {
        assert(lb.subrange(30, 30 + nl) =~= h.file_name);
        assert(forall|j: int|
            0 <= j < nl ==> #[trigger] d.subrange(o + 30, o + 30 + nl)[j] == d[o + 30 + j]);
        assert(forall|j: int| 0 <= j < nl ==> #[trigger] d[o + 30 + j] == lb[30 + j]);
    }
}

/// Every appended entry is emitted with the CRC32 digest of its
/// uncompressed bytes, and both of its headers carry that digest in their
/// CRC field.
pub proof fn lemma_append_crc(app: AppendV, offset: int, align: int, lfh_offset: u32)
    requires
        align >= 1,
        spec_out_of_append(app) is Ok,
    ensures
        ({
            let (h, payload) = spec_out_of_append(app)->Ok_0;
            &&& h.crc32 == crc32_of(app.data)
            &&& u32_at(spec_lfh_bytes(h, offset, align), 14) == crc32_of(app.data)
            &&& u32_at(spec_cd_record_bytes(h, lfh_offset), 16) == crc32_of(app.data)
        }),
{
    let (h, payload) = spec_out_of_append(app)->Ok_0;
    lemma_header_crc_fields(h, offset, align, lfh_offset);
}

/// A slot that keeps its source entry contributes exactly that entry's
/// name, method, sizes, digest and compressed payload to the output, with
/// the extra field read back from its local header.
pub proof fn lemma_fresh_edit_preserves(zd: Seq<u8>, e: EntryV)
    requires
        spec_out_of_edit(zd, crate::wrap::fresh_edit(e)) is Ok,
    ensures
        ({
            let r = spec_out_of_edit(zd, crate::wrap::fresh_edit(e))->Ok_0;
            &&& r is Some
            &&& {
                let (h, payload) = r->Some_0;
                let ho = e.local_file_header_offset as int;
                let nl = u16_at(zd, ho + 26) as int;
                let el = u16_at(zd, ho + 28) as int;
                &&& h.file_name == e.file_name
                &&& h.compress_method == e.compress_method
                &&& h.origin_size == e.origin_size
                &&& h.compress_size == e.compressed_size
                &&& h.crc32 == e.crc_32
                &&& payload == zd.subrange(
                    ho + 30 + nl + el,
                    ho + 30 + nl + el + u32_at(zd, ho + 18),
                )
            }
        }),
{
}

/// Consecutive dex indices always give different names: the decimal part
/// differs in its length or in its last digit.
pub proof fn lemma_dex_names_distinct(n: int)
    requires
        n >= 0,
    ensures
        spec_dex_name(n) != spec_dex_name(n + 1),
{
    let a = spec_decimal(n);
    let b = spec_decimal(n + 1);
    lemma_decimal_shape(n);
    lemma_decimal_shape(n + 1);
    if n == 9 {
        assert(a.len() == 1);
        assert(b == spec_decimal(1) + seq![digit_char(0)]);
        assert(b.len() == 2);
        assert(spec_dex_name(n).len() != spec_dex_name(n + 1).len());
    } else {
        assert(0 <= n % 10 <= 9) by (nonlinear_arith)
            requires
                n >= 0,
        ;
        if n % 10 == 9 {
            assert((n + 1) % 10 == 0) by (nonlinear_arith)
                requires
                    n >= 0,
                    n % 10 == 9,
            ;
        } else {
            assert((n + 1) % 10 == n % 10 + 1) by (nonlinear_arith)
                requires
                    n >= 0,
                    0 <= n % 10 < 9,
            ;
        }
        assert(a.last() == digit_char(n % 10));
        assert(b.last() == digit_char((n + 1) % 10));
        assert(a.last() != b.last());
        lemma_dex_name_last_digit(n, n + 1);
    }
}

/// The decimal form of a number is never empty.
pub proof fn lemma_decimal_shape(n: int)
    requires
        n >= 0,
    ensures
        spec_decimal(n).len() >= 1,
        spec_decimal(n).last() == digit_char(n % 10),
{
    if n < 10 {
        assert(n % 10 == n) by (nonlinear_arith)
            requires
                0 <= n < 10,
        ;
    }
}

/// Two dex names whose decimal parts differ in length or in their last
/// digit are different names.
pub proof fn lemma_dex_name_last_digit(m: int, k: int)
    requires
        m >= 0,
        k >= 0,
        spec_decimal(m).len() != spec_decimal(k).len() || spec_decimal(m).last()
            != spec_decimal(k).last(),
    ensures
        spec_dex_name(m) != spec_dex_name(k),
{
    lemma_decimal_shape(m);
    lemma_decimal_shape(k);
    let a = spec_decimal(m);
    let b = spec_decimal(k);
    let sa = spec_dex_name(m);
    let sb = spec_dex_name(k);
    if a.len() != b.len() {
        assert(sa.len() != sb.len());
    } else {
        if sa == sb {
            let pos = "classes"@.len() + a.len() - 1;
            assert(sa[pos] == a.last());
            assert(sb[pos] == b.last());
            assert(false);
        }
    }
}

} // verus!
