//! End-to-end tests of the ZIP side: emission, parsing them back, the
//! alignment discipline, digests, and the plan operations.

use apk_editor::compress::{crc32, deflate_decompress};
use apk_editor::editor::ZipEditor;
use apk_editor::utils::{get_le32_value, get_leu16_value, get_leu32_value, push_le32, push_leu16,
    push_leu32};
use apk_editor::wrap::ApkFile;
use apk_editor::zip::{CompressMethod, LocalFileHeader, ZipFile};

fn stored(editor: &mut ZipEditor, name: &str, data: &[u8]) {
    editor.append_file(data.to_vec(), String::from(name), CompressMethod::Stored);
}

fn deflated(editor: &mut ZipEditor, name: &str, data: &[u8]) {
    editor.append_file(data.to_vec(), String::from(name), CompressMethod::Deflated);
}

/// A fresh archive holding the given entries.
fn build_archive(entries: &[(&str, &[u8], bool)]) -> Vec<u8> {
    let mut editor = ZipEditor::new();
    for (name, data, store) in entries {
        if *store {
            stored(&mut editor, name, data);
        } else {
            deflated(&mut editor, name, data);
        }
    }
    editor.finish(None, 4).expect("emission failed")
}

#[test]
fn le_helpers_roundtrip() {
    let mut v: Vec<u8> = Vec::new();
    push_leu32(&mut v, 0xDEADBEEF);
    push_leu16(&mut v, 0xCAFE);
    push_le32(&mut v, -2);
    assert_eq!(get_leu32_value(&v, 0), 0xDEADBEEF);
    assert_eq!(get_leu16_value(&v, 4), 0xCAFE);
    assert_eq!(get_le32_value(&v, 6), -2);
}

#[test]
fn entry_header_data_spans_header_name_and_extra() {
    let bytes = build_archive(&[("a.txt", b"abc", true)]);
    let zip = ZipFile::from(&bytes).expect("parse failed");
    let header = zip.get_entry_header_data(0).expect("header slice");
    // local header magic, then the name after the fixed 30 bytes
    assert_eq!(get_leu32_value(header, 0), 0x4034b50);
    let name_len = get_leu16_value(header, 26) as usize;
    assert_eq!(&header[30..30 + name_len], b"a.txt");
    // the slice ends where the payload starts
    let entry = zip.get_entry(0).unwrap();
    let lfh = LocalFileHeader::from_slice(&bytes, entry.local_file_header_offset as usize)
        .unwrap();
    assert_eq!(
        entry.local_file_header_offset as usize + header.len(),
        lfh.get_data_offset()
    );
}

#[test]
fn empty_archive_parses() {
    let bytes = build_archive(&[]);
    assert_eq!(bytes.len(), 22);
    let zip = ZipFile::from(&bytes).expect("parse failed");
    assert_eq!(zip.file_count(), 0);
    assert_eq!(zip.central_directory_offset, 0);
}

#[test]
fn eocd_counts_match_entries() {
    let bytes = build_archive(&[
        ("a.txt", b"alpha", true),
        ("b.txt", b"beta", false),
        ("c.txt", b"gamma", true),
    ]);
    // the end record stands in the last 22 bytes: both counts at 8 and 10,
    // the directory size at 12, the directory offset at 16
    let eocd = bytes.len() - 22;
    assert_eq!(get_leu16_value(&bytes, eocd + 8), 3);
    assert_eq!(get_leu16_value(&bytes, eocd + 10), 3);
    let cd_size = get_leu32_value(&bytes, eocd + 12) as usize;
    let cd_off = get_leu32_value(&bytes, eocd + 16) as usize;
    assert_eq!(cd_off + cd_size, eocd);
    // the first central-directory record stands exactly at the offset
    assert_eq!(get_leu32_value(&bytes, cd_off), 0x2014b50);
    let zip = ZipFile::from(&bytes).expect("parse failed");
    assert_eq!(zip.file_count(), 3);
}

#[test]
fn stored_entries_are_aligned() {
    // names of varying length push the data start around; every stored
    // payload must begin on a multiple of four
    let bytes = build_archive(&[
        ("x", b"0123", true),
        ("xy", b"4567", true),
        ("xyz", b"89ab", true),
        ("wxyz", b"cdef", true),
    ]);
    let zip = ZipFile::from(&bytes).expect("parse failed");
    assert_eq!(zip.file_count(), 4);
    for i in 0..4 {
        let entry = zip.get_entry(i).unwrap();
        assert!(matches!(entry.compress_method, CompressMethod::Stored));
        let lfh = LocalFileHeader::from_slice(&bytes, entry.local_file_header_offset as usize)
            .expect("local header out of bounds");
        assert_eq!(lfh.get_data_offset() % 4, 0, "entry {} misaligned", i);
    }
}

#[test]
fn appended_crc_in_both_headers() {
    let payload = b"hello test";
    let bytes = build_archive(&[("assets/ext.txt", payload, false)]);
    let expected = crc32(payload);
    let zip = ZipFile::from(&bytes).expect("parse failed");
    let entry = zip.get_file("assets/ext.txt").expect("entry absent");
    assert_eq!(entry.crc_32, expected);
    assert!(matches!(entry.compress_method, CompressMethod::Deflated));
    // the local header carries the same digest at offset 14
    let lfh_off = entry.local_file_header_offset as usize;
    assert_eq!(get_leu32_value(&bytes, lfh_off + 14), expected);
    // and the payload really decodes back
    assert_eq!(zip.get_uncompress_data("assets/ext.txt").unwrap(), payload.to_vec());
}

#[test]
fn save_without_edits_preserves_entries() {
    let base = build_archive(&[
        ("AndroidManifest.xml", b"not really xml", true),
        ("classes.dex", b"dex bytes here!!", true),
        ("resources.arsc", b"resource table bytes", false),
    ]);
    let src = ZipFile::from(&base).expect("parse failed");
    let apk = ApkFile::from(&base).expect("parse failed");
    let out = apk.save().expect("save failed");
    let re = ZipFile::from(&out).expect("reparse failed");
    assert_eq!(re.file_count(), 3);
    for name in ["AndroidManifest.xml", "classes.dex", "resources.arsc"] {
        let a = src.get_file(name).expect("entry in source");
        let b = re.get_file(name).expect("entry in output");
        assert_eq!(a.crc_32, b.crc_32, "{}", name);
        assert_eq!(
            src.get_uncompress_data(name).unwrap(),
            re.get_uncompress_data(name).unwrap(),
            "{}",
            name
        );
    }
    // the stored dex payload is 4-aligned in the output
    let dex = re.get_file("classes.dex").unwrap();
    let lfh = LocalFileHeader::from_slice(&out, dex.local_file_header_offset as usize).unwrap();
    assert_eq!(lfh.get_data_offset() % 4, 0);
}

#[test]
fn comment_of_maximum_length_parses() {
    let mut bytes = build_archive(&[("a.txt", b"abc", true)]);
    // declare a 65535-byte comment in the end record and append it
    let eocd = bytes.len() - 22;
    bytes[eocd + 20] = 0xFF;
    bytes[eocd + 21] = 0xFF;
    bytes.extend(std::iter::repeat(0u8).take(65535));
    let zip = ZipFile::from(&bytes).expect("comment of 65535 bytes must parse");
    assert_eq!(zip.file_count(), 1);
}

#[test]
fn comment_of_maximum_length_on_empty_archive_parses() {
    // the end record stands at offset 0, the comment fills the rest: the
    // backwards scan must reach the very first byte
    let mut bytes = build_archive(&[]);
    bytes[20] = 0xFF;
    bytes[21] = 0xFF;
    bytes.extend(std::iter::repeat(0u8).take(65535));
    assert_eq!(bytes.len(), 22 + 65535);
    let zip = ZipFile::from(&bytes).expect("end record at offset 0 must be found");
    assert_eq!(zip.file_count(), 0);
}

#[test]
fn remove_absent_leaves_plan_unchanged() {
    let base = build_archive(&[("keep.txt", b"data", true)]);
    let mut apk = ApkFile::from(&base).expect("parse failed");
    let before = apk.save().expect("save failed");
    assert!(apk.remove_file("not-there.txt").is_none());
    let after = apk.save().expect("save failed");
    assert_eq!(before, after);
    // removing a present entry works and drops it from the output
    assert!(apk.remove_file("keep.txt").is_some());
    let out = apk.save().expect("save failed");
    let re = ZipFile::from(&out).expect("reparse failed");
    assert_eq!(re.file_count(), 0);
}

#[test]
fn edit_absent_is_none() {
    let base = build_archive(&[("keep.txt", b"data", true)]);
    let mut apk = ApkFile::from(&base).expect("parse failed");
    assert!(apk.edit_file("missing.bin", b"xx".to_vec()).is_none());
    assert!(apk.edit_file("keep.txt", b"other data".to_vec()).is_some());
    let out = apk.save().expect("save failed");
    let re = ZipFile::from(&out).expect("reparse failed");
    assert_eq!(re.get_uncompress_data("keep.txt").unwrap(), b"other data".to_vec());
}

#[test]
fn edited_stored_entry_gets_fresh_crc() {
    let base = build_archive(&[("AndroidManifest.xml", b"old manifest", true)]);
    let mut apk = ApkFile::from(&base).expect("parse failed");
    let new_manifest = b"new manifest bytes".to_vec();
    apk.set_manifest(new_manifest.clone());
    let out = apk.save().expect("save failed");
    let re = ZipFile::from(&out).expect("reparse failed");
    let entry = re.get_file("AndroidManifest.xml").expect("manifest absent");
    assert_eq!(entry.crc_32, crc32(&new_manifest));
    assert_eq!(entry.origin_size as usize, new_manifest.len());
    assert_eq!(re.get_uncompress_data("AndroidManifest.xml").unwrap(), new_manifest);
}

#[test]
fn edited_deflated_entry_is_recompressed() {
    let base = build_archive(&[("AndroidManifest.xml", b"old manifest", false)]);
    let mut apk = ApkFile::from(&base).expect("parse failed");
    let new_manifest = b"completely different payload".to_vec();
    apk.set_manifest(new_manifest.clone());
    let out = apk.save().expect("save failed");
    let re = ZipFile::from(&out).expect("reparse failed");
    let entry = re.get_file("AndroidManifest.xml").expect("manifest absent");
    assert_eq!(entry.crc_32, crc32(&new_manifest));
    assert!(matches!(entry.compress_method, CompressMethod::Deflated));
    assert_eq!(re.get_uncompress_data("AndroidManifest.xml").unwrap(), new_manifest);
    // the stored stream really is a deflate stream of the new bytes
    let idx = 0;
    let raw = re.get_file_compress_data(idx).expect("payload slice");
    assert_eq!(deflate_decompress(raw).unwrap(), new_manifest);
}

#[test]
fn add_dex_twice_gives_distinct_names() {
    let base = build_archive(&[("classes.dex", b"dexdexdexdexdex!", true)]);
    let mut apk = ApkFile::from(&base).expect("parse failed");
    assert_eq!(apk.dex_count, 1);
    assert!(apk.add_dex(b"second dex".to_vec()));
    assert!(apk.add_dex(b"third dex".to_vec()));
    assert_eq!(apk.editor.append_entries.len(), 2);
    let n1 = apk.editor.append_entries[0].file_name.clone();
    let n2 = apk.editor.append_entries[1].file_name.clone();
    assert_eq!(n1, b"classes1.dex".to_vec());
    assert_eq!(n2, b"classes2.dex".to_vec());
    assert_ne!(n1, n2);
    let out = apk.save().expect("save failed");
    let re = ZipFile::from(&out).expect("reparse failed");
    assert_eq!(re.get_uncompress_data("classes1.dex").unwrap(), b"second dex".to_vec());
    assert_eq!(re.get_uncompress_data("classes2.dex").unwrap(), b"third dex".to_vec());
}

#[test]
fn add_dex_skips_names_already_present() {
    // the running count alone would collide here: the archive already
    // holds the name for index one, so the next free index is two
    let base = build_archive(&[("classes1.dex", b"first dex bytes!", true)]);
    let mut apk = ApkFile::from(&base).expect("parse failed");
    assert_eq!(apk.dex_count, 1);
    assert!(apk.add_dex(b"second dex".to_vec()));
    assert_eq!(apk.editor.append_entries[0].file_name, b"classes2.dex".to_vec());
    let out = apk.save().expect("save failed");
    let re = ZipFile::from(&out).expect("reparse failed");
    assert_eq!(re.get_uncompress_data("classes2.dex").unwrap(), b"second dex".to_vec());
}

#[test]
fn corrupt_deflate_stream_reads_as_none() {
    let bytes0 = build_archive(&[("blob.bin", b"payload to squash", false)]);
    let zip0 = ZipFile::from(&bytes0).expect("parse failed");
    let entry = zip0.get_entry(0).unwrap();
    let lfh = LocalFileHeader::from_slice(&bytes0, entry.local_file_header_offset as usize)
        .unwrap();
    let start = lfh.get_data_offset();
    let mut bytes = bytes0.clone();
    // a reserved block type makes the stream undecodable
    for b in bytes[start..start + lfh.get_data_len() as usize].iter_mut() {
        *b = 0xFF;
    }
    let zip = ZipFile::from(&bytes).expect("headers still parse");
    assert!(zip.get_uncompress_data("blob.bin").is_none());
}

#[test]
fn add_assets_prefixes_path() {
    let base = build_archive(&[("a.txt", b"x", true)]);
    let mut apk = ApkFile::from(&base).expect("parse failed");
    apk.add_assets("ext.txt", b"hello test".to_vec());
    let out = apk.save().expect("save failed");
    let re = ZipFile::from(&out).expect("reparse failed");
    assert_eq!(re.get_uncompress_data("assets/ext.txt").unwrap(), b"hello test".to_vec());
}

#[test]
fn last_entry_wins_name_lookup() {
    let bytes = build_archive(&[("dup.txt", b"first", true), ("dup.txt", b"second", true)]);
    let zip = ZipFile::from(&bytes).expect("parse failed");
    assert_eq!(zip.file_count(), 2);
    assert_eq!(zip.get_uncompress_data("dup.txt").unwrap(), b"second".to_vec());
}

#[test]
fn eocd_not_found_is_reported() {
    let junk = vec![0u8; 64];
    let err = match ZipFile::from(&junk) {
        Err(e) => e,
        Ok(_) => panic!("junk must not parse"),
    };
    assert_eq!(err.reason, "Central directory end not found");
    let tiny = vec![0u8; 5];
    let err = match ZipFile::from(&tiny) {
        Err(e) => e,
        Ok(_) => panic!("tiny buffer must not parse"),
    };
    assert_eq!(err.reason, "Central directory end not found");
}

#[test]
fn bad_central_directory_magic_is_reported() {
    let mut bytes = build_archive(&[]);
    // claim one record; the bytes at offset zero are the end record itself
    bytes[10] = 1;
    bytes[8] = 1;
    let err = match ZipFile::from(&bytes) {
        Err(e) => e,
        Ok(_) => panic!("malformed archive must not parse"),
    };
    assert_eq!(err.reason, "magic of central directory error");
    assert_eq!(err.offset, 0);
}

#[test]
fn unknown_method_is_reported() {
    let mut bytes = build_archive(&[("a.txt", b"abc", true)]);
    let eocd = bytes.len() - 22;
    let cd_off = get_leu32_value(&bytes, eocd + 16) as usize;
    // overwrite the method field of the only record
    bytes[cd_off + 10] = 5;
    let err = match ZipFile::from(&bytes) {
        Err(e) => e,
        Ok(_) => panic!("malformed archive must not parse"),
    };
    assert_eq!(err.reason, "unknown compress method");
    assert_eq!(err.offset, cd_off);
}

#[test]
fn invalid_name_bytes_are_reported() {
    let mut bytes = build_archive(&[("a.txt", b"abc", true)]);
    let eocd = bytes.len() - 22;
    let cd_off = get_leu32_value(&bytes, eocd + 16) as usize;
    // a lone 0xFF is not well-formed UTF-8
    bytes[cd_off + 46] = 0xFF;
    let err = match ZipFile::from(&bytes) {
        Err(e) => e,
        Ok(_) => panic!("malformed archive must not parse"),
    };
    assert_eq!(err.reason, "convert string fail");
    assert_eq!(err.offset, cd_off);
}

#[test]
fn truncated_directory_is_reported() {
    let mut bytes = build_archive(&[("a.txt", b"abc", true)]);
    let eocd = bytes.len() - 22;
    // point the directory past the end of the buffer
    let bad = (bytes.len() as u32).to_le_bytes();
    bytes[eocd + 16..eocd + 20].copy_from_slice(&bad);
    let err = match ZipFile::from(&bytes) {
        Err(e) => e,
        Ok(_) => panic!("malformed archive must not parse"),
    };
    assert_eq!(err.reason, "central directory out of bounds");
}

#[test]
fn compress_method_wire_values() {
    assert_eq!(CompressMethod::Stored.value(), 0);
    assert_eq!(CompressMethod::Deflated.value(), 8);
    assert!(matches!(CompressMethod::convert_from_u16(0), Some(CompressMethod::Stored)));
    assert!(matches!(CompressMethod::convert_from_u16(8), Some(CompressMethod::Deflated)));
    assert!(CompressMethod::convert_from_u16(7).is_none());
}

#[test]
fn get_manifest_reads_deflated_entry() {
    let manifest = b"manifest payload".to_vec();
    let base = build_archive(&[("AndroidManifest.xml", &manifest, false)]);
    let apk = ApkFile::from(&base).expect("parse failed");
    assert_eq!(apk.get_manifest().unwrap(), manifest);
}

#[test]
fn get_manifest_absent_is_none() {
    let base = build_archive(&[("a.txt", b"x", true)]);
    let apk = ApkFile::from(&base).expect("parse failed");
    assert!(apk.get_manifest().is_none());
}
