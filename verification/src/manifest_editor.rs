//! High-level manifest edits: parse the binary manifest, find the
//! application element, append activities or content providers to it, and
//! regenerate the bytes.

use vstd::prelude::*;
use crate::axml::{
    AndroidXml, AxmlV, NodeV, AttrV, FileFormatError, StringChunkBuilder, XmlAttributeValue,
    XmlNode, spec_parse_axml, spec_put_index, spec_put_state, spec_regen_bytes,
    spec_content_bytes, spec_pool_chunk_bytes, node_fits, node_puts, pool_emit_fits, utf16,
    encode_utf16_units, units_eq, node_view, append_grandchild, lemma_put_growth,
    lemma_pool_strings_len, node_fits_exec, node_puts_capped,
};

verus! {

/// Where the application element stands among the root's children: the
/// first child tagged `application`, or the first position when none is.
pub open spec fn spec_app_index_from(cs: Seq<NodeV>, i: int) -> int
    decreases cs.len() - i,
{
    if i < 0 || i >= cs.len() {
        0
    } else if cs[i].tag_name == utf16("application"@) {
        i
    } else {
        spec_app_index_from(cs, i + 1)
    }
}

/// The position `AndroidManifest::from` remembers for the application
/// element.
pub open spec fn spec_app_index(cs: Seq<NodeV>) -> int {
    spec_app_index_from(cs, 0)
}

/// The scan from `i` stops at the first `application` child at or after
/// `i`, given that one exists at `w`.
pub proof fn lemma_app_index_from_finds(cs: Seq<NodeV>, i: int, w: int)
    requires
        0 <= i <= w < cs.len(),
        cs[w].tag_name == utf16("application"@),
    ensures
        i <= spec_app_index_from(cs, i) <= w,
        cs[spec_app_index_from(cs, i)].tag_name == utf16("application"@),
        forall|j: int|
            i <= j < spec_app_index_from(cs, i) ==> cs[j].tag_name != utf16("application"@),
    decreases cs.len() - i,
{
    if cs[i].tag_name == utf16("application"@) {
    } else {
        lemma_app_index_from_finds(cs, i + 1, w);
    }
}

/// An application element is found wherever it stands among the root's
/// children: the remembered position is the first child tagged
/// `application`, not merely the first child.
pub proof fn lemma_app_index_finds(cs: Seq<NodeV>, w: int)
    requires
        0 <= w < cs.len(),
        cs[w].tag_name == utf16("application"@),
    ensures
        0 <= spec_app_index(cs) < cs.len(),
        cs[spec_app_index(cs)].tag_name == utf16("application"@),
        forall|j: int|
            0 <= j < spec_app_index(cs) ==> cs[j].tag_name != utf16("application"@),
{
    lemma_app_index_from_finds(cs, 0, w);
}

/// An activity to add: the class implementing it.
pub struct Activity {
    pub class_name: String,
}

/// A content provider to add: the class implementing it and the
/// authorities it answers for.
pub struct Provider {
    pub class_name: String,
    pub authorities: String,
}

/// A manifest under edit: the parsed document, the interning builder
/// seeded from its pool, and where the application element stands.
pub struct AndroidManifest {
    pub xml: AndroidXml,
    pub string_chunk_builder: StringChunkBuilder,
    pub application_node_index: usize,
}

/// The node a provider edit appends: a `provider` element with `name` and
/// `authorities` attributes, both resolved through the builder.
pub open spec fn spec_provider_node(
    b: Seq<Seq<u16>>,
    class_name: Seq<char>,
    authorities: Seq<char>,
) -> NodeV {
    let b1 = spec_put_state(b, utf16(class_name));
    NodeV {
        tag_name: utf16("provider"@),
        attrs: seq![
            AttrV {
                namespace_uri: Some(utf16("http://schemas.android.com/apk/res/android"@)),
                name_index: 3,
                name: utf16("name"@),
                value_type: 0x3000008,
                string_data: Some(utf16(class_name)),
                data: spec_put_index(b, utf16(class_name)) as u32,
            },
            AttrV {
                namespace_uri: Some(utf16("http://schemas.android.com/apk/res/android"@)),
                name_index: 5,
                name: utf16("authorities"@),
                value_type: 0x3000008,
                string_data: Some(utf16(authorities)),
                data: spec_put_index(b1, utf16(authorities)) as u32,
            },
        ],
        children: Seq::empty(),
    }
}

/// The node an activity edit appends: an `activity` element with a `name`
/// attribute resolved through the builder.
pub open spec fn spec_activity_node(b: Seq<Seq<u16>>, class_name: Seq<char>) -> NodeV {
    NodeV {
        tag_name: utf16("activity"@),
        attrs: seq![
            AttrV {
                namespace_uri: Some(utf16("http://schemas.android.com/apk/res/android"@)),
                name_index: 3,
                name: utf16("name"@),
                value_type: 0x3000008,
                string_data: Some(utf16(class_name)),
                data: spec_put_index(b, utf16(class_name)) as u32,
            },
        ],
        children: Seq::empty(),
    }
}

/// One child of the root with one more child of its own at the end.
pub open spec fn spec_with_grandchild(cs: Seq<NodeV>, idx: int, node: NodeV) -> Seq<NodeV> {
    cs.update(
        idx,
        NodeV {
            tag_name: cs[idx].tag_name,
            attrs: cs[idx].attrs,
            children: cs[idx].children.push(node),
        },
    )
}

impl AndroidManifest {
    /// Parses the manifest, remembers where the application element
    /// stands - scanning all of the root's children - and seeds the
    /// builder from the parsed pool so existing indices survive.
    pub fn from(data: &Vec<u8>) -> (r: Result<AndroidManifest, FileFormatError>)
        ensures
            match r {
                Ok(m) => {
                    &&& spec_parse_axml(data@) == Ok::<AxmlV, int>(m.xml@)
                    &&& m.string_chunk_builder@ == StringChunkBuilder::spec_seed(
                        Seq::empty(),
                        m.xml@.pool.strings,
                    )
                    &&& m.application_node_index as int == spec_app_index(
                        m.xml@.content.root.children,
                    )
                },
                Err(e) => {
                    &&& spec_parse_axml(data@) is Err
                    &&& e.offset as int == spec_parse_axml(data@)->Err_0
                },
            },
    {
        let xml = match AndroidXml::from_data(data) {
            Ok(x) => x,
            Err(e) => {
                return Err(e);
            },
        };
        let app_tag = encode_utf16_units("application");
        let ghost cs = xml@.content.root.children;
        let n = xml.content.root_node.children.len();
        let mut application_node_index: usize = 0;
        let mut i: usize = 0;
        let mut found = false;
        proof {
            assert(forall|x: int|
                0 <= x < cs.len() ==> #[trigger] cs[x] == node_view(
                    *xml.content.root_node.children@[x],
                ));
        }
        while i < n
            invariant_except_break
                !found,
                application_node_index == 0,
                spec_app_index(cs) == spec_app_index_from(cs, i as int),
            invariant
                i <= n,
                n == cs.len(),
                n == xml.content.root_node.children@.len(),
                cs == xml@.content.root.children,
                forall|x: int|
                    0 <= x < cs.len() ==> #[trigger] cs[x] == node_view(
                        *xml.content.root_node.children@[x],
                    ),
                app_tag@ == utf16("application"@),
            ensures
                spec_app_index(cs) == application_node_index,
                application_node_index < n || application_node_index == 0,
            decreases n - i,
        {
            if units_eq(&xml.content.root_node.children[i].tag_name, &app_tag) {
                application_node_index = i;
                found = true;
                proof {
                    assert(cs[i as int].tag_name == utf16("application"@));
                    assert(spec_app_index_from(cs, i as int) == i);
                }
                break;
            }
            proof {
                assert(cs[i as int].tag_name != utf16("application"@));
            }
            i = i + 1;
        }
        let mut string_chunk_builder = StringChunkBuilder::new();
        proof {
            assert(string_chunk_builder@ =~= Seq::<Seq<u16>>::empty());
            lemma_pool_strings_len(
                data@,
                8int,
                xml@.pool.string_pool_offset as int,
                8int + 28,
                xml@.pool.string_count as int,
            );
            assert(xml@.pool.strings.len() <= u32::MAX);
        }
        string_chunk_builder.init(&xml.string_chunk);
        Ok(AndroidManifest { xml, string_chunk_builder, application_node_index })
    }

    /// Decides whether `get_data` may be called on this manifest: the
    /// tree is regenerable, the builder has room for its strings, and the
    /// emitted pool and document fit their size words.  Unverified callers
    /// test this before regenerating.
    pub fn regen_fits(&self) -> (r: bool)
        ensures
            r == ({
                &&& node_fits(self.xml@.content.root)
                &&& self.string_chunk_builder@.len() + node_puts(self.xml@.content.root) + 4
                    <= u32::MAX
                &&& pool_emit_fits(
                    spec_content_bytes(self.xml@.content, self.string_chunk_builder@).1,
                )
                &&& 8 + spec_pool_chunk_bytes(
                    spec_content_bytes(self.xml@.content, self.string_chunk_builder@).1,
                ).len() + self.xml@.res.raw.len() + spec_content_bytes(
                    self.xml@.content,
                    self.string_chunk_builder@,
                ).0.len() <= u32::MAX
            }),
    {
        if !node_fits_exec(&self.xml.content.root_node) {
            return false;
        }
        let puts = match node_puts_capped(&self.xml.content.root_node) {
            Some(v) => v,
            None => {
                return false;
            },
        };
        let blen = self.string_chunk_builder.string_arr.len();
        if blen as u64 > u32::MAX as u64 || blen as u64 + puts + 4 > u32::MAX as u64 {
            return false;
        }
        let mut scratch = self.string_chunk_builder.duplicate();
        let content = self.xml.content.to_data(&mut scratch);
        if !scratch.pool_fits_exec() {
            return false;
        }
        let pool_len = scratch.pool_chunk_len_exec();
        let total: u128 = 8 + pool_len as u128 + self.xml.resource_chunk.raw.len() as u128
            + content.len() as u128;
        total <= u32::MAX as u128
    }

    /// Regenerates the manifest bytes from the edited tree.
    pub fn get_data(&mut self) -> (r: Vec<u8>)
        requires
            node_fits(old(self).xml@.content.root),
            old(self).string_chunk_builder@.len() + node_puts(old(self).xml@.content.root) + 4
                <= u32::MAX,
            pool_emit_fits(
                spec_content_bytes(
                    old(self).xml@.content,
                    old(self).string_chunk_builder@,
                ).1,
            ),
            8 + spec_pool_chunk_bytes(
                spec_content_bytes(old(self).xml@.content, old(self).string_chunk_builder@).1,
            ).len() + old(self).xml@.res.raw.len() + spec_content_bytes(
                old(self).xml@.content,
                old(self).string_chunk_builder@,
            ).0.len() <= u32::MAX,
        ensures
            r@ == spec_regen_bytes(old(self).xml@, old(self).string_chunk_builder@),
            final(self).xml == old(self).xml,
            final(self).application_node_index == old(self).application_node_index,
            final(self).string_chunk_builder@ == spec_content_bytes(
                old(self).xml@.content,
                old(self).string_chunk_builder@,
            ).1,
    {
        self.xml.regenerate(&mut self.string_chunk_builder)
    }

    /// Appends a `provider` element to the application element, interning
    /// the class name and the authorities.
    pub fn add_content_provider(&mut self, cp: Provider)
        requires
            old(self).application_node_index < old(self).xml@.content.root.children.len(),
            old(self).string_chunk_builder@.len() + 2 <= u32::MAX,
        ensures
            final(self).application_node_index == old(self).application_node_index,
            final(self).string_chunk_builder@ == spec_put_state(
                spec_put_state(old(self).string_chunk_builder@, utf16(cp.class_name@)),
                utf16(cp.authorities@),
            ),
            final(self).xml@.pool == old(self).xml@.pool,
            final(self).xml@.res == old(self).xml@.res,
            final(self).xml@.content.prefix == old(self).xml@.content.prefix,
            final(self).xml@.content.uri == old(self).xml@.content.uri,
            final(self).xml@.content.root.tag_name == old(self).xml@.content.root.tag_name,
            final(self).xml@.content.root.attrs == old(self).xml@.content.root.attrs,
            final(self).xml@.content.root.children == spec_with_grandchild(
                old(self).xml@.content.root.children,
                old(self).application_node_index as int,
                spec_provider_node(
                    old(self).string_chunk_builder@,
                    cp.class_name@,
                    cp.authorities@,
                ),
            ),
    {
        let ghost b0 = self.string_chunk_builder@;
        let name_attr = XmlAttributeValue::new_name_attr(
            cp.class_name.as_str(),
            &mut self.string_chunk_builder,
        );
        proof {
            lemma_put_growth(b0, utf16(cp.class_name@));
        }
        let authorities_attr = XmlAttributeValue::new_authorities_attr(
            cp.authorities.as_str(),
            &mut self.string_chunk_builder,
        );
        let mut attrs: Vec<XmlAttributeValue> = Vec::new();
        attrs.push(name_attr);
        attrs.push(authorities_attr);
        let node = XmlNode {
            tag_name: encode_utf16_units("provider"),
            attrs,
            children: Vec::new(),
        };
        proof {
            assert(node@.attrs =~= spec_provider_node(b0, cp.class_name@, cp.authorities@)
                .attrs);
            assert(node@.children =~= Seq::<NodeV>::empty());
            assert(node@ == spec_provider_node(b0, cp.class_name@, cp.authorities@));
        }
        append_grandchild(
            &mut self.xml.content.root_node,
            self.application_node_index,
            Box::new(node),
        );
    }

    /// Appends an `activity` element to the application element,
    /// interning the class name.
    pub fn add_activity(&mut self, activity: Activity)
        requires
            old(self).application_node_index < old(self).xml@.content.root.children.len(),
            old(self).string_chunk_builder@.len() + 1 <= u32::MAX,
        ensures
            final(self).application_node_index == old(self).application_node_index,
            final(self).string_chunk_builder@ == spec_put_state(
                old(self).string_chunk_builder@,
                utf16(activity.class_name@),
            ),
            final(self).xml@.pool == old(self).xml@.pool,
            final(self).xml@.res == old(self).xml@.res,
            final(self).xml@.content.prefix == old(self).xml@.content.prefix,
            final(self).xml@.content.uri == old(self).xml@.content.uri,
            final(self).xml@.content.root.tag_name == old(self).xml@.content.root.tag_name,
            final(self).xml@.content.root.attrs == old(self).xml@.content.root.attrs,
            final(self).xml@.content.root.children == spec_with_grandchild(
                old(self).xml@.content.root.children,
                old(self).application_node_index as int,
                spec_activity_node(old(self).string_chunk_builder@, activity.class_name@),
            ),
    {
        let ghost b0 = self.string_chunk_builder@;
        let name_attr = XmlAttributeValue::new_name_attr(
            activity.class_name.as_str(),
            &mut self.string_chunk_builder,
        );
        let mut attrs: Vec<XmlAttributeValue> = Vec::new();
        attrs.push(name_attr);
        let node = XmlNode {
            tag_name: encode_utf16_units("activity"),
            attrs,
            children: Vec::new(),
        };
        proof {
            assert(node@.attrs =~= spec_activity_node(b0, activity.class_name@).attrs);
            assert(node@.children =~= Seq::<NodeV>::empty());
            assert(node@ == spec_activity_node(b0, activity.class_name@));
        }
        append_grandchild(
            &mut self.xml.content.root_node,
            self.application_node_index,
            Box::new(node),
        );
    }
}

} // verus!
