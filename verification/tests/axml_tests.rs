//! End-to-end tests of the binary-XML codec and the manifest facade:
//! regeneration, parsing it back, interning, and the manifest edits.

use apk_editor::axml::{
    AndroidXml, ResourceChunk, StringChunk, StringChunkBuilder, XmlContent, XmlNode,
    encode_utf16_units,
};
use apk_editor::manifest_editor::{Activity, AndroidManifest, Provider};
use apk_editor::utils::push_leu32;
use apk_editor::wrap::ApkFile;
use apk_editor::editor::ZipEditor;
use apk_editor::zip::{CompressMethod, ZipFile};

fn leaf(tag: &str) -> XmlNode {
    XmlNode { tag_name: encode_utf16_units(tag), attrs: Vec::new(), children: Vec::new() }
}

/// A minimal manifest document: `<manifest>` with an `application` child,
/// preceded by another child when `application_second` is set.
fn minimal_manifest(application_second: bool) -> Vec<u8> {
    let mut root_children: Vec<Box<XmlNode>> = Vec::new();
    if application_second {
        root_children.push(Box::new(leaf("uses-sdk")));
    }
    root_children.push(Box::new(leaf("application")));
    let root = XmlNode {
        tag_name: encode_utf16_units("manifest"),
        attrs: Vec::new(),
        children: root_children,
    };
    let mut resource_raw: Vec<u8> = Vec::new();
    push_leu32(&mut resource_raw, 0x00080180);
    push_leu32(&mut resource_raw, 8);
    let xml = AndroidXml {
        string_chunk: StringChunk {
            chunk_offset: 8,
            chunk_size: 0,
            string_count: 0,
            style_count: 0,
            string_pool_offset: 28,
            style_pool_offset: 0,
            string_index_global_offset: 36,
            style_index_global_offset: 40,
            strings: Vec::new(),
        },
        resource_chunk: ResourceChunk {
            chunk_offset: 0,
            chunk_size: 8,
            chunk_count: 0,
            raw: resource_raw,
        },
        content: XmlContent {
            namespace_prefix: encode_utf16_units("android"),
            namespace_uri: encode_utf16_units("http://schemas.android.com/apk/res/android"),
            root_node: Box::new(root),
        },
    };
    let mut builder = StringChunkBuilder::new();
    xml.regenerate(&mut builder)
}

fn assert_same_tree(a: &XmlNode, b: &XmlNode) {
    assert_eq!(a.tag_name, b.tag_name);
    assert_eq!(a.attrs.len(), b.attrs.len());
    for (x, y) in a.attrs.iter().zip(b.attrs.iter()) {
        assert_eq!(x.namespace_uri, y.namespace_uri);
        assert_eq!(x.name_index, y.name_index);
        assert_eq!(x.name, y.name);
        assert_eq!(x.value_type, y.value_type);
        assert_eq!(x.string_data, y.string_data);
        assert_eq!(x.data, y.data);
    }
    assert_eq!(a.children.len(), b.children.len());
    for (x, y) in a.children.iter().zip(b.children.iter()) {
        assert_same_tree(x, y);
    }
}

#[test]
fn put_is_idempotent() {
    let mut builder = StringChunkBuilder::new();
    let alpha = encode_utf16_units("alpha");
    let beta = encode_utf16_units("beta");
    let first = builder.put(&alpha);
    let second = builder.put(&beta);
    assert_eq!(first, 0);
    assert_eq!(second, 1);
    assert_eq!(builder.put(&alpha), first);
    assert_eq!(builder.put(&beta), second);
    assert_eq!(builder.string_arr.len(), 2);
}

#[test]
fn regenerated_manifest_parses_back() {
    let bytes = minimal_manifest(false);
    let xml = AndroidXml::from_data(&bytes).expect("parse failed");
    let root = &xml.content.root_node;
    assert_eq!(root.tag_name, encode_utf16_units("manifest"));
    assert_eq!(root.children.len(), 1);
    assert_eq!(root.children[0].tag_name, encode_utf16_units("application"));
    assert_eq!(xml.content.namespace_prefix, encode_utf16_units("android"));
    assert_eq!(
        xml.content.namespace_uri,
        encode_utf16_units("http://schemas.android.com/apk/res/android")
    );
}

#[test]
fn parse_regenerate_parse_keeps_tree() {
    let bytes = minimal_manifest(true);
    let xml = AndroidXml::from_data(&bytes).expect("parse failed");
    let mut builder = StringChunkBuilder::from_string_chunk(&xml.string_chunk);
    let bytes2 = xml.regenerate(&mut builder);
    let xml2 = AndroidXml::from_data(&bytes2).expect("reparse failed");
    assert_same_tree(&xml.content.root_node, &xml2.content.root_node);
    assert_eq!(xml.content.namespace_prefix, xml2.content.namespace_prefix);
    assert_eq!(xml.content.namespace_uri, xml2.content.namespace_uri);
}

#[test]
fn regenerate_twice_gives_same_tree() {
    let bytes = minimal_manifest(false);
    let xml = AndroidXml::from_data(&bytes).expect("parse failed");
    let mut builder = StringChunkBuilder::from_string_chunk(&xml.string_chunk);
    let out1 = xml.regenerate(&mut builder);
    let out2 = xml.regenerate(&mut builder);
    let t1 = AndroidXml::from_data(&out1).expect("first output must parse");
    let t2 = AndroidXml::from_data(&out2).expect("second output must parse");
    assert_same_tree(&t1.content.root_node, &t2.content.root_node);
}

#[test]
fn provider_is_appended_with_both_attributes() {
    let bytes = minimal_manifest(false);
    let mut manifest = AndroidManifest::from(&bytes).expect("parse failed");
    assert_eq!(manifest.application_node_index, 0);
    manifest.add_content_provider(Provider {
        class_name: String::from("a.b.C"),
        authorities: String::from("a.b.P"),
    });
    let out = manifest.get_data();
    let xml = AndroidXml::from_data(&out).expect("reparse failed");
    let application = &xml.content.root_node.children[0];
    assert_eq!(application.children.len(), 1);
    let provider = &application.children[0];
    assert_eq!(provider.tag_name, encode_utf16_units("provider"));
    assert_eq!(provider.attrs.len(), 2);
    let name_attr = &provider.attrs[0];
    assert_eq!(name_attr.name_index, 3);
    assert_eq!(name_attr.value_type, 0x3000008);
    assert_eq!(name_attr.string_data, Some(encode_utf16_units("a.b.C")));
    assert_eq!(
        name_attr.namespace_uri,
        Some(encode_utf16_units("http://schemas.android.com/apk/res/android"))
    );
    let auth_attr = &provider.attrs[1];
    assert_eq!(auth_attr.name_index, 5);
    assert_eq!(auth_attr.string_data, Some(encode_utf16_units("a.b.P")));
    // the raw data word points at the pool entry holding the value
    let via_pool = xml.string_chunk.get_string(name_attr.data).expect("index in pool");
    assert_eq!(via_pool, encode_utf16_units("a.b.C"));
}

#[test]
fn activity_is_appended_with_name() {
    let bytes = minimal_manifest(false);
    let mut manifest = AndroidManifest::from(&bytes).expect("parse failed");
    manifest.add_activity(Activity { class_name: String::from("a.b.MainActivity") });
    let out = manifest.get_data();
    let xml = AndroidXml::from_data(&out).expect("reparse failed");
    let application = &xml.content.root_node.children[0];
    assert_eq!(application.children.len(), 1);
    let activity = &application.children[0];
    assert_eq!(activity.tag_name, encode_utf16_units("activity"));
    assert_eq!(activity.attrs.len(), 1);
    assert_eq!(activity.attrs[0].name_index, 3);
    assert_eq!(activity.attrs[0].string_data, Some(encode_utf16_units("a.b.MainActivity")));
}

#[test]
fn application_found_when_not_first_child() {
    let bytes = minimal_manifest(true);
    let manifest = AndroidManifest::from(&bytes).expect("parse failed");
    assert_eq!(manifest.application_node_index, 1);
}

#[test]
fn mismatched_end_tag_is_an_error() {
    let mut bytes = minimal_manifest(false);
    let n = bytes.len();
    // the root's end tag stands just before the 24-byte namespace close;
    // point its name index at a different pool string
    let end_tag = n - 48;
    assert_eq!(u32::from_le_bytes(bytes[end_tag..end_tag + 4].try_into().unwrap()), 0x00100103);
    bytes[end_tag + 20] = 3;
    let err = match AndroidXml::from_data(&bytes) {
        Err(e) => e,
        Ok(_) => panic!("mismatched end tag must not parse"),
    };
    assert_eq!(err.offset, end_tag);
}

#[test]
fn element_left_open_is_an_error() {
    let mut bytes = minimal_manifest(false);
    let n = bytes.len();
    // drop the root's end tag and the namespace close, fixing the length
    bytes.truncate(n - 48);
    let new_len = (bytes.len() as u32).to_le_bytes();
    bytes[4..8].copy_from_slice(&new_len);
    let err = match AndroidXml::from_data(&bytes) {
        Err(e) => e,
        Ok(_) => panic!("an element left open must not parse"),
    };
    assert_eq!(err.offset, bytes.len());
}

#[test]
fn bad_magic_is_reported_at_start() {
    let junk = vec![0u8; 32];
    let err = match AndroidXml::from_data(&junk) {
        Err(e) => e,
        Ok(_) => panic!("junk must not parse"),
    };
    assert_eq!(err.offset, 0);
}

#[test]
fn wrong_declared_length_is_reported() {
    let mut bytes = minimal_manifest(false);
    bytes.push(0);
    let err = match AndroidXml::from_data(&bytes) {
        Err(e) => e,
        Ok(_) => panic!("length mismatch must not parse"),
    };
    assert_eq!(err.offset, 4);
}

#[test]
fn manifest_edit_round_trips_through_package() {
    // a package holding the manifest, edited end to end
    let manifest_bytes = minimal_manifest(false);
    let mut editor = ZipEditor::new();
    editor.append_file(
        manifest_bytes.clone(),
        String::from("AndroidManifest.xml"),
        CompressMethod::Deflated,
    );
    editor.append_file(b"dexdexdexdexdex!".to_vec(), String::from("classes.dex"),
        CompressMethod::Stored);
    let package = editor.finish(None, 4).expect("emission failed");

    let mut apk = ApkFile::from(&package).expect("package must parse");
    let manifest_in = apk.get_manifest().expect("manifest must decode");
    assert_eq!(manifest_in, manifest_bytes);

    let mut manifest = AndroidManifest::from(&manifest_in).expect("manifest must parse");
    manifest.add_content_provider(Provider {
        class_name: String::from("io.sample.Prov"),
        authorities: String::from("io.sample.Provider"),
    });
    let new_manifest = manifest.get_data();
    apk.set_manifest(new_manifest.clone());
    apk.add_assets("ext.txt", b"hello test".to_vec());
    let out = apk.save().expect("save failed");

    let re = ZipFile::from(&out).expect("output must parse");
    assert_eq!(re.get_uncompress_data("AndroidManifest.xml").unwrap(), new_manifest);
    assert_eq!(re.get_uncompress_data("assets/ext.txt").unwrap(), b"hello test".to_vec());
    let xml = AndroidXml::from_data(&new_manifest).expect("new manifest must parse");
    let application = &xml.content.root_node.children[0];
    assert_eq!(application.children[0].tag_name, encode_utf16_units("provider"));
}
