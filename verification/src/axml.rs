//! The Android binary-XML codec: parsing the chunked wire format into a
//! string pool, an opaque resource map and an element tree, and
//! regenerating a valid byte stream after the tree was edited.
//!
//! Strings travel through this format as UTF-16 code units, so the model
//! keeps them as `Vec<u16>` and the spec functions speak of `Seq<u16>`;
//! the public constructors encode Rust strings on the way in.

use vstd::prelude::*;
use crate::utils::{u16_at, u32_at, get_leu16_value, get_leu32_value, le16_bytes, le32_bytes,
    push_leu16, push_leu32, lemma_read_le16, lemma_read_le32};
use crate::editor::{push_bytes, push_zeros, spec_zeros};

verus! {

pub const START_TAG: u32 = 0x00100102;

pub const END_TAG: u32 = 0x00100103;

pub const START_NAMESPACE: u32 = 0x00100100;

pub const END_NAMESPACE: u32 = 0x00100101;

pub const STRING_CHUNK: u32 = 0x001C0001;

pub const RESOURCE_CHUNK: u32 = 0x00080180;

pub const XML_MAGIC: u32 = 0x00080003;

/// A structural fault in a binary-XML stream: where it was found.
#[derive(Debug)]
pub struct FileFormatError {
    pub offset: usize,
}

/// The UTF-16 code units of one character: the unit itself below the
/// supplementary planes, a surrogate pair above them.
pub open spec fn utf16_char(c: char) -> Seq<u16> {
    if (c as u32) < 0x10000 {
        seq![(c as u32) as u16]
    } else {
        seq![
            (0xD800 + (((c as u32) - 0x10000) / 0x400)) as u16,
            (0xDC00 + (((c as u32) - 0x10000) % 0x400)) as u16,
        ]
    }
}

/// The UTF-16 code units of a character sequence.
pub open spec fn utf16(s: Seq<char>) -> Seq<u16>
    decreases s.len(),
{
    if s.len() == 0 {
        Seq::empty()
    } else {
        utf16_char(s[0]) + utf16(s.drop_first())
    }
}

/// Encoding one more character appends its units.
pub proof fn lemma_utf16_push(s: Seq<char>, c: char)
    ensures
        utf16(s.push(c)) == utf16(s) + utf16_char(c),
    decreases s.len(),
{
    if s.len() == 0 {
        let t = s.push(c);
        assert(t[0] == c);
        assert(t.drop_first() =~= Seq::<char>::empty());
        assert(utf16(t.drop_first()) =~= Seq::<u16>::empty());
        assert(utf16(t) == utf16_char(t[0]) + utf16(t.drop_first()));
        assert(utf16(s) =~= Seq::<u16>::empty());
        assert(utf16(t) =~= utf16(s) + utf16_char(c));
    } else {
        assert(s.push(c)[0] == s[0]);
        assert(s.push(c).drop_first() =~= s.drop_first().push(c));
        lemma_utf16_push(s.drop_first(), c);
        assert(utf16(s.push(c)) =~= utf16(s) + utf16_char(c));
    }
}

/// Encodes a string's characters as UTF-16 code units.
pub fn encode_utf16_units(s: &str) -> (r: Vec<u16>)
    ensures
        r@ == utf16(s@),
{
    let n = s.unicode_len();
    let mut out: Vec<u16> = Vec::new();
    let mut i: usize = 0;
    proof {
        assert(s@.subrange(0, 0) =~= Seq::<char>::empty());
        assert(out@ =~= utf16(s@.subrange(0, 0)));
    }
    while i < n
        invariant
            i <= n,
            n == s@.len(),
            out@ == utf16(s@.subrange(0, i as int)),
        decreases n - i,
    {
        let c = s.get_char(i);
        let v = c as u32;
        proof {
            vstd::utf8::char_is_scalar(c);
            assert(s@.subrange(0, i + 1) =~= s@.subrange(0, i as int).push(s@[i as int]));
            lemma_utf16_push(s@.subrange(0, i as int), s@[i as int]);
        }
        if v < 0x10000 {
            out.push(v as u16);
            proof {
                assert(out@ =~= utf16(s@.subrange(0, i as int)) + utf16_char(c));
            }
        } else {
            let hi = 0xD800 + ((v - 0x10000) / 0x400);
            let lo = 0xDC00 + ((v - 0x10000) % 0x400);
            proof {
                assert(v <= 0x10FFFF);
                assert((v - 0x10000) / 0x400 <= 0x3FF) by (nonlinear_arith)
                    requires
                        0x10000 <= v <= 0x10FFFF,
                ;
                assert((v - 0x10000) % 0x400 <= 0x3FF) by (nonlinear_arith)
                    requires
                        v >= 0x10000,
                ;
            }
            out.push(hi as u16);
            out.push(lo as u16);
            proof {
                assert(out@ =~= utf16(s@.subrange(0, i as int)) + utf16_char(c));
            }
        }
        i = i + 1;
    }
    proof {
        assert(s@.subrange(0, n as int) =~= s@);
    }
    out
}

/// One attribute of an element: an optional namespace, the name with its
/// resource-map index, the value type, an optional string value, and the
/// raw data word.
pub struct XmlAttributeValue {
    pub namespace_uri: Option<Vec<u16>>,
    pub name_index: u32,
    pub name: Vec<u16>,
    pub value_type: u32,
    pub string_data: Option<Vec<u16>>,
    pub data: u32,
}

/// The model of one attribute.
pub ghost struct AttrV {
    pub namespace_uri: Option<Seq<u16>>,
    pub name_index: u32,
    pub name: Seq<u16>,
    pub value_type: u32,
    pub string_data: Option<Seq<u16>>,
    pub data: u32,
}

impl View for XmlAttributeValue {
    type V = AttrV;

    open spec fn view(&self) -> AttrV {
        AttrV {
            namespace_uri: match self.namespace_uri {
                Some(ref v) => Some(v@),
                None => None,
            },
            name_index: self.name_index,
            name: self.name@,
            value_type: self.value_type,
            string_data: match self.string_data {
                Some(ref v) => Some(v@),
                None => None,
            },
            data: self.data,
        }
    }
}

/// One element of the tree: its tag, its attributes in order, its
/// children in order.
pub struct XmlNode {
    pub tag_name: Vec<u16>,
    pub attrs: Vec<XmlAttributeValue>,
    pub children: Vec<Box<XmlNode>>,
}

/// The model of one element.
pub ghost struct NodeV {
    pub tag_name: Seq<u16>,
    pub attrs: Seq<AttrV>,
    pub children: Seq<NodeV>,
}

/// The model of an element with nothing in it.
pub open spec fn empty_node() -> NodeV {
    NodeV { tag_name: Seq::empty(), attrs: Seq::empty(), children: Seq::empty() }
}

/// The model of an element value, children included.
pub open spec fn node_view(n: XmlNode) -> NodeV
    decreases n,
{
    NodeV {
        tag_name: n.tag_name@,
        attrs: n.attrs@.map_values(|a: XmlAttributeValue| a@),
        children: Seq::new(
            n.children@.len(),
            |i: int|
                if 0 <= i < n.children@.len() {
                    node_view(*n.children@[i])
                } else {
                    empty_node()
                },
        ),
    }
}

impl View for XmlNode {
    type V = NodeV;

    open spec fn view(&self) -> NodeV {
        node_view(*self)
    }
}

impl XmlNode {
    /// Walks the children one position at a time: mutable access to the
    /// child at `i`, for editing the subtree in place.
    pub fn walk_children(&mut self, i: usize) -> (child: &mut Box<XmlNode>)
        requires
            i < old(self).children@.len(),
        ensures
            *child == old(self).children@[i as int],
            final(self).tag_name == old(self).tag_name,
            final(self).attrs == old(self).attrs,
            final(self).children@ == old(self).children@.update(i as int, *final(child)),
    {
        vstd::std_specs::vec::vec_index_mut(&mut self.children, i)
    }

    /// Appends a child after the existing ones.
    pub fn push_child(&mut self, new_child: Box<XmlNode>)
        ensures
            final(self).tag_name == old(self).tag_name,
            final(self).attrs == old(self).attrs,
            final(self).children@ == old(self).children@.push(new_child),
    {
        self.children.push(new_child);
    }
}

/// The interning string-pool builder: the strings in index order, each
/// held at the position its first `put` assigned.
pub struct StringChunkBuilder {
    pub string_arr: Vec<Vec<u16>>,
}

impl View for StringChunkBuilder {
    type V = Seq<Seq<u16>>;

    open spec fn view(&self) -> Seq<Seq<u16>> {
        self.string_arr@.map_values(|v: Vec<u16>| v@)
    }
}

/// The index `put` returns: the first position holding `s`, or one past
/// the end when `s` is new.
pub open spec fn spec_put_index(b: Seq<Seq<u16>>, s: Seq<u16>) -> int
    decreases b.len(),
{
    if b.len() == 0 {
        0
    } else if b[0] == s {
        0
    } else {
        1 + spec_put_index(b.drop_first(), s)
    }
}

/// The pool after `put`: unchanged when `s` was present, extended by `s`
/// otherwise.
pub open spec fn spec_put_state(b: Seq<Seq<u16>>, s: Seq<u16>) -> Seq<Seq<u16>> {
    if spec_put_index(b, s) < b.len() {
        b
    } else {
        b.push(s)
    }
}

/// The index `put` hands out always points at `s` in the new pool, and
/// never moves past the end.
pub proof fn lemma_put_index_range(b: Seq<Seq<u16>>, s: Seq<u16>)
    ensures
        0 <= spec_put_index(b, s) <= b.len(),
        spec_put_state(b, s)[spec_put_index(b, s)] == s,
        spec_put_state(b, s).len() == if spec_put_index(b, s) < b.len() {
            b.len()
        } else {
            b.len() + 1
        },
    decreases b.len(),
{
    if b.len() > 0 && b[0] != s {
        lemma_put_index_range(b.drop_first(), s);
        if spec_put_index(b.drop_first(), s) < b.drop_first().len() {
            assert(b[1 + spec_put_index(b.drop_first(), s)] == b.drop_first()[spec_put_index(
                b.drop_first(),
                s,
            )]);
        } else {
            assert(spec_put_state(b, s) =~= b.push(s));
        }
    }
}

/// Equal code-unit vectors.
pub fn units_eq(a: &Vec<u16>, b: &Vec<u16>) -> (r: bool)
    ensures
        r == (a@ == b@),
{
    if a.len() != b.len() {
        return false;
    }
    let n = a.len();
    let mut i: usize = 0;
    while i < n
        invariant
            i <= n,
            n == a@.len(),
            n == b@.len(),
            forall|j: int| 0 <= j < i ==> a@[j] == b@[j],
        decreases n - i,
    {
        if a[i] != b[i] {
            return false;
        }
        i = i + 1;
    }
    proof {
        assert(a@ =~= b@);
    }
    true
}

/// An owned copy of a code-unit vector.
pub fn copy_units(src: &Vec<u16>) -> (r: Vec<u16>)
    ensures
        r@ == src@,
{
    vstd::slice::slice_to_vec(src.as_slice())
}

impl StringChunkBuilder {
    /// An empty pool.
    pub fn new() -> (r: StringChunkBuilder)
        ensures
            r@.len() == 0,
    {
        let r = StringChunkBuilder { string_arr: Vec::new() };
        proof {
            assert(r@ =~= Seq::<Seq<u16>>::empty());
        }
        r
    }

    /// Interns `value`: the index of its first earlier occurrence, or a
    /// fresh index at the end.  Calling it again with the same string
    /// returns the same index and leaves the pool unchanged.
    pub fn put(&mut self, value: &Vec<u16>) -> (r: u32)
        requires
            old(self)@.len() < u32::MAX,
        ensures
            r as int == spec_put_index(old(self)@, value@),
            final(self)@ == spec_put_state(old(self)@, value@),
            r < final(self)@.len(),
            final(self)@[r as int] == value@,
    {
        proof {
            lemma_put_index_range(self@, value@);
        }
        let n = self.string_arr.len();
        let mut i: usize = 0;
        proof {
            assert(self@.subrange(0, n as int) =~= self@);
        }
        while i < n
            invariant
                i <= n,
                self@ == old(self)@,
                n == self@.len(),
                n < u32::MAX,
                spec_put_index(self@, value@) == i + spec_put_index(
                    self@.subrange(i as int, n as int),
                    value@,
                ),
                forall|j: int| 0 <= j < i ==> self@[j] != value@,
            decreases n - i,
        {
            let ghost tail = self@.subrange(i as int, n as int);
            proof {
                assert(tail[0] == self@[i as int]);
                assert(tail.drop_first() =~= self@.subrange(i + 1, n as int));
            }
            if units_eq(&self.string_arr[i], value) {
                proof {
                    assert(self@[i as int] == self.string_arr@[i as int]@);
                    assert(spec_put_index(self@, value@) == i);
                    lemma_put_index_range(self@, value@);
                }
                return i as u32;
            }
            i = i + 1;
        }
        proof {
            assert(self@.subrange(n as int, n as int) =~= Seq::<Seq<u16>>::empty());
            assert(spec_put_index(self@, value@) == n);
        }
        let ghost pre = self@;
        self.string_arr.push(copy_units(value));
        proof {
            assert(self@ =~= pre.push(value@));
        }
        n as u32
    }
}

/// Interning is idempotent: a second `put` of the same string returns the
/// same index as the first and leaves the pool as it was.
pub proof fn lemma_put_idempotent(b: Seq<Seq<u16>>, s: Seq<u16>)
    ensures
        spec_put_index(spec_put_state(b, s), s) == spec_put_index(b, s),
        spec_put_state(spec_put_state(b, s), s) == spec_put_state(b, s),
    decreases b.len(),
{
    lemma_put_index_range(b, s);
    if spec_put_index(b, s) < b.len() {
    } else {
        lemma_put_index_push(b, s);
    }
}

/// Looking a string up in a pool that was just extended by it finds the
/// new entry.
pub proof fn lemma_put_index_push(b: Seq<Seq<u16>>, s: Seq<u16>)
    requires
        spec_put_index(b, s) >= b.len(),
    ensures
        spec_put_index(b.push(s), s) == spec_put_index(b, s),
    decreases b.len(),
{
    if b.len() == 0 {
        assert(b.push(s)[0] == s);
    } else {
        lemma_put_index_range(b, s);
        assert(b.push(s).drop_first() =~= b.drop_first().push(s));
        lemma_put_index_push(b.drop_first(), s);
    }
}

/// The model of a parsed string-pool chunk.
pub ghost struct PoolV {
    pub chunk_offset: int,
    pub chunk_size: u32,
    pub string_count: u32,
    pub style_count: u32,
    pub string_pool_offset: u32,
    pub style_pool_offset: u32,
    pub strings: Seq<Seq<u16>>,
}

/// The string at index `i` of the pool chunk at `chunk_off`: its index
/// entry gives a byte offset into the string area, where a 16-bit length
/// precedes that many UTF-16 code units.
pub open spec fn spec_pool_read_string(
    d: Seq<u8>,
    chunk_off: int,
    spool: int,
    idx_off: int,
    i: int,
) -> Result<Seq<u16>, ()> {
    let ie = idx_off + 4 * i;
    if !(0 <= ie && ie + 4 <= d.len()) {
        Err(())
    } else {
        let so = chunk_off + spool + u32_at(d, ie);
        if !(so + 2 <= d.len()) {
            Err(())
        } else {
            let sl = u16_at(d, so) as int;
            if !(so + 2 + 2 * sl <= d.len()) {
                Err(())
            } else {
                Ok(Seq::new(sl as nat, |j: int| u16_at(d, so + 2 + 2 * j)))
            }
        }
    }
}

/// The first `k` strings of the pool chunk, in index order.
pub open spec fn spec_pool_strings(
    d: Seq<u8>,
    chunk_off: int,
    spool: int,
    idx_off: int,
    k: int,
) -> Result<Seq<Seq<u16>>, ()>
    decreases k,
{
    if k <= 0 {
        Ok(Seq::empty())
    } else {
        match spec_pool_strings(d, chunk_off, spool, idx_off, k - 1) {
            Err(e) => Err(e),
            Ok(pre) => match spec_pool_read_string(d, chunk_off, spool, idx_off, k - 1) {
                Err(e) => Err(e),
                Ok(s) => Ok(pre.push(s)),
            },
        }
    }
}

/// Once one pool string fails to read, the whole pool fails.
pub proof fn lemma_pool_strings_err(
    d: Seq<u8>,
    chunk_off: int,
    spool: int,
    idx_off: int,
    i: int,
    k: int,
)
    requires
        0 <= i < k,
        spec_pool_strings(d, chunk_off, spool, idx_off, i) is Ok,
        spec_pool_read_string(d, chunk_off, spool, idx_off, i) is Err,
    ensures
        spec_pool_strings(d, chunk_off, spool, idx_off, k) is Err,
    decreases k,
{
    if k > i + 1 {
        lemma_pool_strings_err(d, chunk_off, spool, idx_off, i, k - 1);
    }
}

/// The pool chunk at `o`: its header fields and all its strings, read
/// eagerly.  Every fault is reported at the chunk offset.
pub open spec fn spec_parse_pool(d: Seq<u8>, o: int) -> Result<PoolV, int> {
    if !(0 <= o && o + 4 <= d.len()) {
        Err(o)
    } else if u32_at(d, o) != STRING_CHUNK {
        Err(o)
    } else if !(o + 28 <= d.len()) {
        Err(o)
    } else {
        let size = u32_at(d, o + 4);
        let sc = u32_at(d, o + 8);
        if o + size > usize::MAX {
            Err(o)
        } else {
            match spec_pool_strings(d, o, u32_at(d, o + 20) as int, o + 28, sc as int) {
                Err(_) => Err(o),
                Ok(strs) => Ok(
                    PoolV {
                        chunk_offset: o,
                        chunk_size: size,
                        string_count: sc,
                        style_count: u32_at(d, o + 12),
                        string_pool_offset: u32_at(d, o + 20),
                        style_pool_offset: u32_at(d, o + 24),
                        strings: strs,
                    },
                ),
            }
        }
    }
}

/// A parsed string-pool chunk: the header fields as read, and the strings
/// themselves, decoded eagerly while parsing - so a pool whose entries
/// fall outside the buffer is rejected even when nothing references them.
pub struct StringChunk {
    pub chunk_offset: usize,
    pub chunk_size: u32,
    pub string_count: u32,
    pub style_count: u32,
    pub string_pool_offset: u32,
    pub style_pool_offset: u32,
    pub string_index_global_offset: usize,
    pub style_index_global_offset: usize,
    pub strings: Vec<Vec<u16>>,
}

impl View for StringChunk {
    type V = PoolV;

    open spec fn view(&self) -> PoolV {
        PoolV {
            chunk_offset: self.chunk_offset as int,
            chunk_size: self.chunk_size,
            string_count: self.string_count,
            style_count: self.style_count,
            string_pool_offset: self.string_pool_offset,
            style_pool_offset: self.style_pool_offset,
            strings: self.strings@.map_values(|v: Vec<u16>| v@),
        }
    }
}

/// Reads the pool string at index `i`; exactly `spec_pool_read_string`.
fn read_pool_string(data: &Vec<u8>, chunk_off: usize, spool: u32, i: u32) -> (r: Result<
    Vec<u16>,
    (),
>)
    requires
        chunk_off + 28 <= data@.len(),
    ensures
        match r {
            Ok(v) => spec_pool_read_string(
                data@,
                chunk_off as int,
                spool as int,
                chunk_off + 28,
                i as int,
            ) == Ok::<Seq<u16>, ()>(v@),
            Err(_) => spec_pool_read_string(
                data@,
                chunk_off as int,
                spool as int,
                chunk_off + 28,
                i as int,
            ) is Err,
        },
{
    let dlen = data.len();
    let ie128: u128 = chunk_off as u128 + 28 + 4 * (i as u128);
    if ie128 + 4 > dlen as u128 {
        return Err(());
    }
    let ie = ie128 as usize;
    let idx_value = get_leu32_value(data.as_slice(), ie);
    let so128: u128 = chunk_off as u128 + spool as u128 + idx_value as u128;
    if so128 + 2 > dlen as u128 {
        return Err(());
    }
    let so = so128 as usize;
    let sl = get_leu16_value(data.as_slice(), so);
    if (so as u128) + 2 + 2 * (sl as u128) > dlen as u128 {
        return Err(());
    }
    let mut units: Vec<u16> = Vec::new();
    let mut j: usize = 0;
    while j < sl as usize
        invariant
            j <= sl,
            so + 2 + 2 * (sl as int) <= data@.len(),
            so + 2 + 2 * (sl as int) <= usize::MAX,
            units@.len() == j,
            forall|x: int| 0 <= x < j ==> units@[x] == u16_at(data@, so + 2 + 2 * x),
        decreases sl - j,
    {
        units.push(get_leu16_value(data.as_slice(), so + 2 + 2 * j));
        j = j + 1;
    }
    proof {
        assert(units@ =~= Seq::new(
            u16_at(data@, so as int) as nat,
            |x: int| u16_at(data@, so + 2 + 2 * x),
        ));
    }
    Ok(units)
}

impl StringChunk {
    /// Parses the pool chunk at `*current_offset` and leaves the offset at
    /// the start of the next chunk.  Exactly `spec_parse_pool`.
    pub fn parse(data: &Vec<u8>, current_offset: &mut usize) -> (r: Result<
        StringChunk,
        FileFormatError,
    >)
        ensures
            match r {
                Ok(sc) => {
                    &&& spec_parse_pool(data@, *old(current_offset) as int) == Ok::<PoolV, int>(
                        sc@,
                    )
                    &&& *final(current_offset) as int == *old(current_offset) + sc.chunk_size
                    &&& sc.chunk_offset == *old(current_offset)
                },
                Err(e) => {
                    &&& spec_parse_pool(data@, *old(current_offset) as int) is Err
                    &&& e.offset == *old(current_offset)
                    &&& *final(current_offset) == *old(current_offset)
                },
            },
    {
        let o = *current_offset;
        let dlen = data.len();
        if !(o <= dlen && dlen - o >= 4) {
            return Err(FileFormatError { offset: o });
        }
        if get_leu32_value(data.as_slice(), o) != STRING_CHUNK {
            return Err(FileFormatError { offset: o });
        }
        if dlen - o < 28 {
            return Err(FileFormatError { offset: o });
        }
        let chunk_size = get_leu32_value(data.as_slice(), o + 4);
        let string_count = get_leu32_value(data.as_slice(), o + 8);
        let style_count = get_leu32_value(data.as_slice(), o + 12);
        let string_pool_offset = get_leu32_value(data.as_slice(), o + 20);
        let style_pool_offset = get_leu32_value(data.as_slice(), o + 24);
        if o as u128 + chunk_size as u128 > usize::MAX as u128 {
            return Err(FileFormatError { offset: o });
        }
        let mut strings: Vec<Vec<u16>> = Vec::new();
        let mut i: u32 = 0;
        proof {
            assert(strings@.map_values(|v: Vec<u16>| v@) =~= Seq::<Seq<u16>>::empty());
        }
        while i < string_count
            invariant
                i <= string_count,
                o + 28 <= data@.len(),
                o == *old(current_offset),
                *current_offset == o,
                string_count == u32_at(data@, o + 8),
                string_pool_offset == u32_at(data@, o + 20),
                u32_at(data@, o as int) == STRING_CHUNK,
                chunk_size == u32_at(data@, o + 4),
                o + chunk_size <= usize::MAX,
                spec_pool_strings(
                    data@,
                    o as int,
                    string_pool_offset as int,
                    o + 28,
                    i as int,
                ) == Ok::<Seq<Seq<u16>>, ()>(strings@.map_values(|v: Vec<u16>| v@)),
            decreases string_count - i,
        {
            let s = match read_pool_string(data, o, string_pool_offset, i) {
                Ok(v) => v,
                Err(_) => {
                    proof {
                        lemma_pool_strings_err(
                            data@,
                            o as int,
                            string_pool_offset as int,
                            o + 28,
                            i as int,
                            string_count as int,
                        );
                        assert(spec_parse_pool(data@, o as int) is Err);
                    }
                    return Err(FileFormatError { offset: o });
                },
            };
            let ghost pre = strings@.map_values(|v: Vec<u16>| v@);
            strings.push(s);
            proof {
                assert(strings@.map_values(|v: Vec<u16>| v@) =~= pre.push(
                    strings@.last()@,
                ));
            }
            i = i + 1;
        }
        let res = StringChunk {
            chunk_offset: o,
            chunk_size,
            string_count,
            style_count,
            string_pool_offset,
            style_pool_offset,
            string_index_global_offset: o + 28,
            style_index_global_offset: if dlen - o >= 32 {
                o + 32
            } else {
                o + 28
            },
            strings,
        };
        *current_offset = o + chunk_size as usize;
        Ok(res)
    }

    /// The pool string at `index`, when there is one.
    pub fn get_string(&self, index: u32) -> (r: Option<Vec<u16>>)
        ensures
            match r {
                Some(v) => index < self@.strings.len() && v@ == self@.strings[index as int],
                None => index >= self@.strings.len(),
            },
    {
        if (index as usize) < self.strings.len() {
            Some(copy_units(&self.strings[index as usize]))
        } else {
            None
        }
    }
}

/// The model of the opaque resource-map chunk: its placement and its raw
/// bytes, kept verbatim.
pub ghost struct ResV {
    pub chunk_offset: int,
    pub chunk_size: u32,
    pub chunk_count: u32,
    pub raw: Seq<u8>,
}

/// The resource-map chunk at `o`, held as raw bytes.
pub open spec fn spec_parse_resource(d: Seq<u8>, o: int) -> Result<ResV, int> {
    if !(0 <= o && o + 8 <= d.len()) {
        Err(o)
    } else if u32_at(d, o) != RESOURCE_CHUNK {
        Err(o)
    } else {
        let size = u32_at(d, o + 4);
        if size / 4 < 2 {
            Err(o)
        } else if o + size > d.len() {
            Err(o)
        } else {
            Ok(
                ResV {
                    chunk_offset: o,
                    chunk_size: size,
                    chunk_count: (size / 4 - 2) as u32,
                    raw: d.subrange(o, o + size),
                },
            )
        }
    }
}

/// The opaque resource map: parsed only far enough to copy it back out
/// verbatim on regeneration.
pub struct ResourceChunk {
    pub chunk_offset: usize,
    pub chunk_size: u32,
    pub chunk_count: u32,
    pub raw: Vec<u8>,
}

impl View for ResourceChunk {
    type V = ResV;

    open spec fn view(&self) -> ResV {
        ResV {
            chunk_offset: self.chunk_offset as int,
            chunk_size: self.chunk_size,
            chunk_count: self.chunk_count,
            raw: self.raw@,
        }
    }
}

impl ResourceChunk {
    /// Parses the resource-map chunk at `*current_offset` and leaves the
    /// offset at the next chunk.  Exactly `spec_parse_resource`.
    pub fn parse(data: &Vec<u8>, current_offset: &mut usize) -> (r: Result<
        ResourceChunk,
        FileFormatError,
    >)
        ensures
            match r {
                Ok(rc) => {
                    &&& spec_parse_resource(data@, *old(current_offset) as int) == Ok::<
                        ResV,
                        int,
                    >(rc@)
                    &&& *final(current_offset) as int == *old(current_offset) + rc.chunk_size
                },
                Err(e) => {
                    &&& spec_parse_resource(data@, *old(current_offset) as int) is Err
                    &&& e.offset == *old(current_offset)
                    &&& *final(current_offset) == *old(current_offset)
                },
            },
    {
        let o = *current_offset;
        let dlen = data.len();
        if !(o <= dlen && dlen - o >= 8) {
            return Err(FileFormatError { offset: o });
        }
        if get_leu32_value(data.as_slice(), o) != RESOURCE_CHUNK {
            return Err(FileFormatError { offset: o });
        }
        let chunk_size = get_leu32_value(data.as_slice(), o + 4);
        if chunk_size / 4 < 2 {
            return Err(FileFormatError { offset: o });
        }
        if o as u128 + chunk_size as u128 > dlen as u128 {
            return Err(FileFormatError { offset: o });
        }
        let raw = crate::editor::copy_bytes_range(data, o, chunk_size as usize);
        let res = ResourceChunk {
            chunk_offset: o,
            chunk_size,
            chunk_count: chunk_size / 4 - 2,
            raw,
        };
        *current_offset = o + chunk_size as usize;
        Ok(res)
    }
}

/// How many bytes remain from `o` to the end of `d`; zero past the end.
/// Serves as the termination measure of the recursive descent.
pub open spec fn axml_measure(d: Seq<u8>, o: int) -> int {
    if o <= d.len() {
        d.len() - o
    } else {
        0
    }
}

/// The attribute records at `o`: `k` entries of five words each, their
/// string indices resolved through the pool; `Err` carries the offset of
/// the first record that cannot be read.
pub open spec fn spec_parse_attrs(d: Seq<u8>, pool: Seq<Seq<u16>>, o: int, k: int) -> Result<
    Seq<AttrV>,
    int,
>
    decreases k,
{
    if k <= 0 {
        Ok(Seq::empty())
    } else if !(0 <= o && o + 20 <= d.len()) {
        Err(o)
    } else {
        let ns_si = u32_at(d, o);
        let name_si = u32_at(d, o + 4);
        let raw_si = u32_at(d, o + 8);
        if name_si >= pool.len() {
            Err(o)
        } else if ns_si != 0xFFFFFFFFu32 && ns_si >= pool.len() {
            Err(o)
        } else if raw_si != 0xFFFFFFFFu32 && raw_si >= pool.len() {
            Err(o)
        } else {
            let attr = AttrV {
                namespace_uri: if ns_si == 0xFFFFFFFFu32 {
                    None
                } else {
                    Some(pool[ns_si as int])
                },
                name_index: name_si,
                name: pool[name_si as int],
                value_type: u32_at(d, o + 12),
                string_data: if raw_si == 0xFFFFFFFFu32 {
                    None
                } else {
                    Some(pool[raw_si as int])
                },
                data: u32_at(d, o + 16),
            };
            match spec_parse_attrs(d, pool, o + 20, k - 1) {
                Err(e) => Err(e),
                Ok(rest) => Ok(seq![attr] + rest),
            }
        }
    }
}

/// The element subtree at `o`: a start tag with its attributes, then the
/// children up to the matching end tag.  The second component of `Ok` is
/// the offset just past the subtree.
pub open spec fn spec_parse_node(d: Seq<u8>, pool: Seq<Seq<u16>>, o: int) -> Result<
    (NodeV, int),
    int,
>
    decreases axml_measure(d, o), 0int,
{
    if !(0 <= o && o + 36 <= d.len()) {
        Err(o)
    } else if u32_at(d, o) != START_TAG {
        Err(o)
    } else {
        let name_si = u32_at(d, o + 20);
        if name_si >= pool.len() {
            Err(o)
        } else {
            let ac_raw = u32_at(d, o + 28);
            let k: int = if ac_raw >= 0x80000000u32 {
                0
            } else {
                ac_raw as int
            };
            match spec_parse_attrs(d, pool, o + 36, k) {
                Err(e) => Err(e),
                Ok(attrs) => match spec_parse_children(
                    d,
                    pool,
                    o + 36 + 20 * k,
                    pool[name_si as int],
                ) {
                    Err(e) => Err(e),
                    Ok((children, o2)) => Ok(
                        (NodeV { tag_name: pool[name_si as int], attrs, children }, o2),
                    ),
                },
            }
        }
    }
}

/// The chunks inside an open element at `o`: each start tag becomes a
/// child, and only an end tag naming the open element closes it.  Any
/// other chunk, an end tag naming something else, or input running out
/// before the close is a format error at that offset.
pub open spec fn spec_parse_children(
    d: Seq<u8>,
    pool: Seq<Seq<u16>>,
    o: int,
    tag: Seq<u16>,
) -> Result<(Seq<NodeV>, int), int>
    decreases axml_measure(d, o), 1int,
{
    if !(0 <= o && o + 4 <= d.len()) {
        Err(o)
    } else if u32_at(d, o) == START_TAG {
        match spec_parse_node(d, pool, o) {
            Err(e) => Err(e),
            Ok((child, o2)) => {
                let o2c = if o2 > o {
                    o2
                } else {
                    o + 1
                };
                match spec_parse_children(d, pool, o2c, tag) {
                    Err(e) => Err(e),
                    Ok((rest, o3)) => Ok((seq![child] + rest, o3)),
                }
            },
        }
    } else if u32_at(d, o) == END_TAG {
        if o + 24 > d.len() {
            Err(o)
        } else {
            let nsi = u32_at(d, o + 20);
            if nsi >= pool.len() {
                Err(o)
            } else if pool[nsi as int] == tag {
                Ok((Seq::empty(), o + 24))
            } else {
                Err(o)
            }
        }
    } else {
        Err(o)
    }
}

/// Composition of parsed attribute records with the result for the rest.
pub open spec fn attrs_step(acc: Seq<AttrV>, rest: Result<Seq<AttrV>, int>) -> Result<
    Seq<AttrV>,
    int,
> {
    match rest {
        Ok(s) => Ok(acc + s),
        Err(e) => Err(e),
    }
}

/// Composition of parsed children with the result for the remaining body.
pub open spec fn children_step(acc: Seq<NodeV>, rest: Result<(Seq<NodeV>, int), int>) -> Result<
    (Seq<NodeV>, int),
    int,
> {
    match rest {
        Ok((s, o)) => Ok((acc + s, o)),
        Err(e) => Err(e),
    }
}

impl XmlNode {
    /// Parses the element subtree at `*current_offset` and leaves the
    /// offset just past it.  Exactly `spec_parse_node` over the pool's
    /// strings.
    #[verifier::rlimit(100)]
    #[verifier::spinoff_prover]
    pub fn parse_node_recursion(
        data: &Vec<u8>,
        string_chunk: &StringChunk,
        current_offset: &mut usize,
    ) -> (r: Result<Box<XmlNode>, FileFormatError>)
        ensures
            match r {
                Ok(node) => {
                    &&& spec_parse_node(
                        data@,
                        string_chunk@.strings,
                        *old(current_offset) as int,
                    ) == Ok::<(NodeV, int), int>((node@, *final(current_offset) as int))
                    &&& *final(current_offset) > *old(current_offset)
                    &&& *final(current_offset) <= data@.len()
                },
                Err(e) => {
                    &&& spec_parse_node(
                        data@,
                        string_chunk@.strings,
                        *old(current_offset) as int,
                    ) is Err
                    &&& e.offset as int == spec_parse_node(
                        data@,
                        string_chunk@.strings,
                        *old(current_offset) as int,
                    )->Err_0
                },
            },
        decreases axml_measure(data@, *old(current_offset) as int),
    {
        let ghost pool = string_chunk@.strings;
        let o = *current_offset;
        let dlen = data.len();
        if !(o <= dlen && dlen - o >= 36) {
            return Err(FileFormatError { offset: o });
        }
        if get_leu32_value(data.as_slice(), o) != START_TAG {
            return Err(FileFormatError { offset: o });
        }
        let name_si = get_leu32_value(data.as_slice(), o + 20);
        let tag_name = match string_chunk.get_string(name_si) {
            Some(v) => v,
            None => {
                return Err(FileFormatError { offset: o });
            },
        };
        let ac_raw = get_leu32_value(data.as_slice(), o + 28);
        let attr_count: u32 = if ac_raw >= 0x80000000 {
            0
        } else {
            ac_raw
        };
        let ghost k = attr_count as int;

        let mut attrs: Vec<XmlAttributeValue> = Vec::new();
        let mut j: u32 = 0;
        let mut cur: usize = o + 36;
        proof {
            assert(attrs@.map_values(|a: XmlAttributeValue| a@) =~= Seq::<AttrV>::empty());
            match spec_parse_attrs(data@, pool, o + 36, k) {
                Ok(s) => {
                    assert(Seq::<AttrV>::empty() + s =~= s);
                },
                Err(_) => {},
            }
        }
        while j < attr_count
            invariant
                j <= attr_count,
                dlen == data@.len(),
                pool == string_chunk@.strings,
                o == *old(current_offset),
                *current_offset == o,
                o + 36 <= dlen,
                cur as int == o + 36 + 20 * j,
                cur <= dlen,
                u32_at(data@, o as int) == START_TAG,
                name_si == u32_at(data@, o + 20),
                name_si < pool.len(),
                ac_raw == u32_at(data@, o + 28),
                k == (if ac_raw >= 0x80000000u32 {
                    0int
                } else {
                    ac_raw as int
                }),
                k == attr_count as int,
                spec_parse_attrs(data@, pool, o + 36, k) == attrs_step(
                    attrs@.map_values(|a: XmlAttributeValue| a@),
                    spec_parse_attrs(data@, pool, cur as int, k - j),
                ),
            decreases attr_count - j,
        {
            let ghost acc = attrs@.map_values(|a: XmlAttributeValue| a@);
            if dlen - cur < 20 {
                proof {
                    assert(spec_parse_attrs(data@, pool, cur as int, k - j) == Err::<
                        Seq<AttrV>,
                        int,
                    >(cur as int));
                    assert(spec_parse_node(data@, pool, o as int) == Err::<
                        (NodeV, int),
                        int,
                    >(cur as int));
                }
                return Err(FileFormatError { offset: cur });
            }
            let namespace_si = get_leu32_value(data.as_slice(), cur);
            let attr_name_si = get_leu32_value(data.as_slice(), cur + 4);
            let attr_raw_value = get_leu32_value(data.as_slice(), cur + 8);
            let value_type = get_leu32_value(data.as_slice(), cur + 12);
            let attr_data = get_leu32_value(data.as_slice(), cur + 16);
            let attr_name = match string_chunk.get_string(attr_name_si) {
                Some(v) => v,
                None => {
                    proof {
                        assert(spec_parse_node(data@, pool, o as int) == Err::<
                            (NodeV, int),
                            int,
                        >(cur as int));
                    }
                    return Err(FileFormatError { offset: cur });
                },
            };
            let namespace_uri = if namespace_si == 0xFFFFFFFF {
                None
            } else {
                match string_chunk.get_string(namespace_si) {
                    Some(v) => Some(v),
                    None => {
                        proof {
                            assert(spec_parse_node(data@, pool, o as int) == Err::<
                                (NodeV, int),
                                int,
                            >(cur as int));
                        }
                        return Err(FileFormatError { offset: cur });
                    },
                }
            };
            let string_data = if attr_raw_value == 0xFFFFFFFF {
                None
            } else {
                match string_chunk.get_string(attr_raw_value) {
                    Some(v) => Some(v),
                    None => {
                        proof {
                            assert(spec_parse_node(data@, pool, o as int) == Err::<
                                (NodeV, int),
                                int,
                            >(cur as int));
                        }
                        return Err(FileFormatError { offset: cur });
                    },
                }
            };
            let attr = XmlAttributeValue {
                namespace_uri,
                name_index: attr_name_si,
                name: attr_name,
                value_type,
                string_data,
                data: attr_data,
            };
            proof {
                let rest = spec_parse_attrs(data@, pool, cur + 20, k - j - 1);
                assert(spec_parse_attrs(data@, pool, cur as int, k - j) == attrs_step(
                    seq![attr@],
                    rest,
                ));
                match rest {
                    Ok(s) => {
                        assert(acc + (seq![attr@] + s) =~= acc.push(attr@) + s);
                    },
                    Err(_) => {},
                }
                assert(attrs@.push(attr).map_values(|a: XmlAttributeValue| a@) =~= acc.push(
                    attr@,
                ));
            }
            attrs.push(attr);
            cur = cur + 20;
            j = j + 1;
        }
        proof {
            assert(spec_parse_attrs(data@, pool, cur as int, 0) == Ok::<Seq<AttrV>, int>(
                Seq::empty(),
            ));
            assert(attrs@.map_values(|a: XmlAttributeValue| a@) + Seq::<AttrV>::empty()
                =~= attrs@.map_values(|a: XmlAttributeValue| a@));
        }
        let ghost attrs_v = attrs@.map_values(|a: XmlAttributeValue| a@);
        let ghost start_c = cur as int;

        *current_offset = cur;
        let mut children: Vec<Box<XmlNode>> = Vec::new();
        proof {
            let cvs = Seq::new(
                children@.len(),
                |i: int|
                    if 0 <= i < children@.len() {
                        node_view(*children@[i])
                    } else {
                        empty_node()
                    },
            );
            assert(cvs =~= Seq::<NodeV>::empty());
            match spec_parse_children(data@, pool, start_c, pool[name_si as int]) {
                Ok((s, _)) => {
                    assert(Seq::<NodeV>::empty() + s =~= s);
                },
                Err(_) => {},
            }
        }
        loop
            invariant_except_break
                spec_parse_children(data@, pool, start_c, pool[name_si as int])
                    == children_step(
                    Seq::new(
                        children@.len(),
                        |i: int|
                            if 0 <= i < children@.len() {
                                node_view(*children@[i])
                            } else {
                                empty_node()
                            },
                    ),
                    spec_parse_children(
                        data@,
                        pool,
                        *current_offset as int,
                        pool[name_si as int],
                    ),
                ),
            invariant
                dlen == data@.len(),
                pool == string_chunk@.strings,
                o == *old(current_offset),
                o + 36 <= dlen,
                *current_offset >= start_c,
                *current_offset <= dlen,
                start_c == o + 36 + 20 * k,
                u32_at(data@, o as int) == START_TAG,
                name_si == u32_at(data@, o + 20),
                name_si < pool.len(),
                tag_name@ == pool[name_si as int],
                ac_raw == u32_at(data@, o + 28),
                k == (if ac_raw >= 0x80000000u32 {
                    0int
                } else {
                    ac_raw as int
                }),
                spec_parse_attrs(data@, pool, o + 36, k) == Ok::<Seq<AttrV>, int>(attrs_v),
                attrs_v == attrs@.map_values(|a: XmlAttributeValue| a@),
            ensures
                dlen == data@.len(),
                pool == string_chunk@.strings,
                o == *old(current_offset),
                o + 36 <= dlen,
                u32_at(data@, o as int) == START_TAG,
                name_si == u32_at(data@, o + 20),
                name_si < pool.len(),
                tag_name@ == pool[name_si as int],
                ac_raw == u32_at(data@, o + 28),
                k == (if ac_raw >= 0x80000000u32 {
                    0int
                } else {
                    ac_raw as int
                }),
                spec_parse_attrs(data@, pool, o + 36, k) == Ok::<Seq<AttrV>, int>(attrs_v),
                attrs_v == attrs@.map_values(|a: XmlAttributeValue| a@),
                *current_offset > o,
                *current_offset <= dlen,
                spec_parse_children(data@, pool, start_c, pool[name_si as int]) == Ok::<
                    (Seq<NodeV>, int),
                    int,
                >(
                    (
                        Seq::new(
                            children@.len(),
                            |i: int|
                                if 0 <= i < children@.len() {
                                    node_view(*children@[i])
                                } else {
                                    empty_node()
                                },
                        ),
                        *current_offset as int,
                    ),
                ),
            decreases dlen - *current_offset,
        {
            let ghost acc = Seq::new(
                children@.len(),
                |i: int|
                    if 0 <= i < children@.len() {
                        node_view(*children@[i])
                    } else {
                        empty_node()
                    },
            );
            let cur2 = *current_offset;
            if !(cur2 < dlen && dlen - cur2 >= 4) {
                proof {
                    assert(spec_parse_node(data@, pool, o as int) == Err::<
                        (NodeV, int),
                        int,
                    >(cur2 as int));
                }
                return Err(FileFormatError { offset: cur2 });
            }
            let current_tag_type = get_leu32_value(data.as_slice(), cur2);
            if current_tag_type == START_TAG {
                let child = match XmlNode::parse_node_recursion(
                    data,
                    string_chunk,
                    current_offset,
                ) {
                    Ok(c) => c,
                    Err(e) => {
                        proof {
                            assert(spec_parse_node(data@, pool, o as int) == Err::<
                                (NodeV, int),
                                int,
                            >(spec_parse_node(data@, pool, cur2 as int)->Err_0));
                        }
                        return Err(e);
                    },
                };
                proof {
                    let o2 = *current_offset as int;
                    assert(spec_parse_children(data@, pool, cur2 as int, pool[name_si as int])
                        == children_step(
                        seq![child@],
                        spec_parse_children(data@, pool, o2, pool[name_si as int]),
                    ));
                    match spec_parse_children(data@, pool, o2, pool[name_si as int]) {
                        Ok((s, _)) => {
                            assert(acc + (seq![child@] + s) =~= acc.push(child@) + s);
                        },
                        Err(_) => {},
                    }
                }
                let ghost pre_children = children@;
                children.push(child);
                proof {
                    let cvs2 = Seq::new(
                        children@.len(),
                        |i: int|
                            if 0 <= i < children@.len() {
                                node_view(*children@[i])
                            } else {
                                empty_node()
                            },
                    );
                    assert(cvs2 =~= acc.push(node_view(*children@.last())));
                }
            } else if current_tag_type == END_TAG {
                if dlen - cur2 < 24 {
                    proof {
                        assert(spec_parse_node(data@, pool, o as int) == Err::<
                            (NodeV, int),
                            int,
                        >(cur2 as int));
                    }
                    return Err(FileFormatError { offset: cur2 });
                }
                let current_name_si = get_leu32_value(data.as_slice(), cur2 + 20);
                let current_name = match string_chunk.get_string(current_name_si) {
                    Some(v) => v,
                    None => {
                        proof {
                            assert(spec_parse_node(data@, pool, o as int) == Err::<
                                (NodeV, int),
                                int,
                            >(cur2 as int));
                        }
                        return Err(FileFormatError { offset: cur2 });
                    },
                };
                if !units_eq(&current_name, &tag_name) {
                    proof {
                        assert(spec_parse_node(data@, pool, o as int) == Err::<
                            (NodeV, int),
                            int,
                        >(cur2 as int));
                    }
                    return Err(FileFormatError { offset: cur2 });
                }
                *current_offset = cur2 + 24;
                proof {
                    assert(spec_parse_children(
                        data@,
                        pool,
                        cur2 as int,
                        pool[name_si as int],
                    ) == Ok::<(Seq<NodeV>, int), int>((Seq::empty(), cur2 + 24)));
                    assert(acc + Seq::<NodeV>::empty() =~= acc);
                }
                break;
            } else {
                proof {
                    assert(spec_parse_node(data@, pool, o as int) == Err::<
                        (NodeV, int),
                        int,
                    >(cur2 as int));
                }
                return Err(FileFormatError { offset: cur2 });
            }
        }
        let ghost cvs = Seq::new(
            children@.len(),
            |i: int|
                if 0 <= i < children@.len() {
                    node_view(*children@[i])
                } else {
                    empty_node()
                },
        );
        let res = XmlNode { tag_name, attrs, children };
        proof {
            assert(res@.attrs =~= attrs_v);
            assert(res@.tag_name == pool[name_si as int]);
            assert(res@.children =~= cvs);
            assert(res@ == (NodeV { tag_name: pool[name_si as int], attrs: attrs_v, children: cvs }));
            assert(spec_parse_node(data@, pool, o as int) == Ok::<(NodeV, int), int>(
                (res@, *current_offset as int),
            ));
        }
        Ok(Box::new(res))
    }
}

/// A subtree parse that succeeds consumes at least its start tag.
pub proof fn lemma_parse_node_advances(d: Seq<u8>, pool: Seq<Seq<u16>>, o: int)
    ensures
        spec_parse_node(d, pool, o) matches Ok((n, o2)) ==> o2 >= o + 36,
    decreases axml_measure(d, o), 0int,
{
    if spec_parse_node(d, pool, o) is Ok {
        let name_si = u32_at(d, o + 20);
        let ac_raw = u32_at(d, o + 28);
        let k: int = if ac_raw >= 0x80000000u32 {
            0
        } else {
            ac_raw as int
        };
        lemma_parse_children_advances(d, pool, o + 36 + 20 * k, pool[name_si as int]);
    }
}

/// Parsing an element's body never moves the offset backwards.
pub proof fn lemma_parse_children_advances(
    d: Seq<u8>,
    pool: Seq<Seq<u16>>,
    o: int,
    tag: Seq<u16>,
)
    ensures
        spec_parse_children(d, pool, o, tag) matches Ok((cs, o3)) ==> o3 >= o,
    decreases axml_measure(d, o), 1int,
{
    if 0 <= o && o + 4 <= d.len() {
        if u32_at(d, o) == START_TAG {
            match spec_parse_node(d, pool, o) {
                Err(_) => {},
                Ok((child, o2)) => {
                    let o2c = if o2 > o {
                        o2
                    } else {
                        o + 1
                    };
                    lemma_parse_children_advances(d, pool, o2c, tag);
                },
            }
        }
    }
}

/// The single document-scope namespace: the start chunk at `o` resolves a
/// prefix and a uri through the pool and declares its own size as the
/// distance to the next chunk.
pub open spec fn spec_parse_ns(d: Seq<u8>, pool: Seq<Seq<u16>>, o: int) -> Result<
    (Seq<u16>, Seq<u16>, u32, int),
    int,
> {
    if !(0 <= o && o + 4 <= d.len()) {
        Err(o)
    } else if u32_at(d, o) != START_NAMESPACE {
        Err(o)
    } else if !(o + 24 <= d.len()) {
        Err(o)
    } else {
        let prefix_si = u32_at(d, o + 16);
        let uri_si = u32_at(d, o + 20);
        if prefix_si >= pool.len() || uri_si >= pool.len() {
            Err(o)
        } else if o + u32_at(d, o + 4) > usize::MAX {
            Err(o)
        } else {
            Ok(
                (
                    pool[prefix_si as int],
                    pool[uri_si as int],
                    u32_at(d, o + 8),
                    o + u32_at(d, o + 4),
                ),
            )
        }
    }
}

/// The namespace close at `o`: accepted exactly when its magic, bounds and
/// both resolved strings match the open.
pub open spec fn spec_valid_ns_end(
    d: Seq<u8>,
    pool: Seq<Seq<u16>>,
    o: int,
    prefix: Seq<u16>,
    uri: Seq<u16>,
) -> Option<int> {
    if !(0 <= o && o + 4 <= d.len()) {
        Some(o)
    } else if u32_at(d, o) != END_NAMESPACE {
        Some(o)
    } else if !(o + 24 <= d.len()) {
        Some(o)
    } else {
        let prefix_si = u32_at(d, o + 16);
        let uri_si = u32_at(d, o + 20);
        if prefix_si >= pool.len() || uri_si >= pool.len() {
            Some(o)
        } else if pool[prefix_si as int] != prefix || pool[uri_si as int] != uri {
            Some(o)
        } else {
            None
        }
    }
}

/// The model of the document content: the namespace pair and the root
/// element.
pub ghost struct ContentV {
    pub prefix: Seq<u16>,
    pub uri: Seq<u16>,
    pub root: NodeV,
}

/// The content after the resource map: one open namespace, one root
/// subtree, one matching namespace close.
pub open spec fn spec_parse_content(d: Seq<u8>, pool: Seq<Seq<u16>>, o: int) -> Result<
    (ContentV, int),
    int,
> {
    match spec_parse_ns(d, pool, o) {
        Err(e) => Err(e),
        Ok((prefix, uri, _line, o1)) => match spec_parse_node(d, pool, o1) {
            Err(e) => Err(e),
            Ok((root, o2)) => match spec_valid_ns_end(d, pool, o2, prefix, uri) {
                Some(e) => Err(e),
                None => Ok((ContentV { prefix, uri, root }, o2)),
            },
        },
    }
}

/// The document-scope namespace as parsed.
pub struct XmlNameSpace {
    pub namespace_offset: usize,
    pub line_number: u32,
    pub prefix: Vec<u16>,
    pub uri: Vec<u16>,
}

impl XmlNameSpace {
    /// Parses the namespace open at `*current_offset` and advances by the
    /// chunk's declared size.  Exactly `spec_parse_ns`.
    pub fn parse(data: &Vec<u8>, string_chunk: &StringChunk, current_offset: &mut usize) -> (r:
        Result<XmlNameSpace, FileFormatError>)
        ensures
            match r {
                Ok(ns) => {
                    &&& spec_parse_ns(
                        data@,
                        string_chunk@.strings,
                        *old(current_offset) as int,
                    ) == Ok::<(Seq<u16>, Seq<u16>, u32, int), int>(
                        (ns.prefix@, ns.uri@, ns.line_number, *final(current_offset) as int),
                    )
                    &&& ns.namespace_offset == *old(current_offset)
                },
                Err(e) => {
                    &&& spec_parse_ns(
                        data@,
                        string_chunk@.strings,
                        *old(current_offset) as int,
                    ) is Err
                    &&& e.offset == *old(current_offset)
                    &&& *final(current_offset) == *old(current_offset)
                },
            },
    {
        let o = *current_offset;
        let dlen = data.len();
        if !(o <= dlen && dlen - o >= 4) {
            return Err(FileFormatError { offset: o });
        }
        if get_leu32_value(data.as_slice(), o) != START_NAMESPACE {
            return Err(FileFormatError { offset: o });
        }
        if dlen - o < 24 {
            return Err(FileFormatError { offset: o });
        }
        let prefix_si = get_leu32_value(data.as_slice(), o + 16);
        let uri_si = get_leu32_value(data.as_slice(), o + 20);
        let prefix = match string_chunk.get_string(prefix_si) {
            Some(v) => v,
            None => {
                return Err(FileFormatError { offset: o });
            },
        };
        let uri = match string_chunk.get_string(uri_si) {
            Some(v) => v,
            None => {
                return Err(FileFormatError { offset: o });
            },
        };
        let size = get_leu32_value(data.as_slice(), o + 4);
        if o as u128 + size as u128 > usize::MAX as u128 {
            return Err(FileFormatError { offset: o });
        }
        let line_number = get_leu32_value(data.as_slice(), o + 8);
        *current_offset = o + size as usize;
        Ok(XmlNameSpace { namespace_offset: o, line_number, prefix, uri })
    }

    /// Checks the namespace close at `*current_offset` against this open;
    /// the offset is left where it was.  Exactly `spec_valid_ns_end`.
    pub fn valid_end_chunk(
        &self,
        data: &Vec<u8>,
        string_chunk: &StringChunk,
        current_offset: &mut usize,
    ) -> (r: Result<(), FileFormatError>)
        ensures
            *final(current_offset) == *old(current_offset),
            match r {
                Ok(_) => spec_valid_ns_end(
                    data@,
                    string_chunk@.strings,
                    *old(current_offset) as int,
                    self.prefix@,
                    self.uri@,
                ) is None,
                Err(e) => {
                    &&& spec_valid_ns_end(
                        data@,
                        string_chunk@.strings,
                        *old(current_offset) as int,
                        self.prefix@,
                        self.uri@,
                    ) == Some(e.offset as int)
                },
            },
    {
        let o = *current_offset;
        let dlen = data.len();
        if !(o <= dlen && dlen - o >= 4) {
            return Err(FileFormatError { offset: o });
        }
        if get_leu32_value(data.as_slice(), o) != END_NAMESPACE {
            return Err(FileFormatError { offset: o });
        }
        if dlen - o < 24 {
            return Err(FileFormatError { offset: o });
        }
        let prefix_si = get_leu32_value(data.as_slice(), o + 16);
        let uri_si = get_leu32_value(data.as_slice(), o + 20);
        let prefix = match string_chunk.get_string(prefix_si) {
            Some(v) => v,
            None => {
                return Err(FileFormatError { offset: o });
            },
        };
        let uri = match string_chunk.get_string(uri_si) {
            Some(v) => v,
            None => {
                return Err(FileFormatError { offset: o });
            },
        };
        if !units_eq(&prefix, &self.prefix) || !units_eq(&uri, &self.uri) {
            return Err(FileFormatError { offset: o });
        }
        Ok(())
    }
}

/// The document content: the namespace pair and the root element tree.
pub struct XmlContent {
    pub namespace_prefix: Vec<u16>,
    pub namespace_uri: Vec<u16>,
    pub root_node: Box<XmlNode>,
}

impl View for XmlContent {
    type V = ContentV;

    open spec fn view(&self) -> ContentV {
        ContentV {
            prefix: self.namespace_prefix@,
            uri: self.namespace_uri@,
            root: self.root_node@,
        }
    }
}

impl XmlContent {
    /// Parses namespace open, root subtree and namespace close.  Exactly
    /// `spec_parse_content`.
    pub fn parse(data: &Vec<u8>, string_chunk: &StringChunk, current_offset: &mut usize) -> (r:
        Result<XmlContent, FileFormatError>)
        ensures
            match r {
                Ok(c) => spec_parse_content(
                    data@,
                    string_chunk@.strings,
                    *old(current_offset) as int,
                ) == Ok::<(ContentV, int), int>((c@, *final(current_offset) as int)),
                Err(e) => {
                    &&& spec_parse_content(
                        data@,
                        string_chunk@.strings,
                        *old(current_offset) as int,
                    ) is Err
                    &&& e.offset as int == spec_parse_content(
                        data@,
                        string_chunk@.strings,
                        *old(current_offset) as int,
                    )->Err_0
                },
            },
    {
        let namespace = match XmlNameSpace::parse(data, string_chunk, current_offset) {
            Ok(ns) => ns,
            Err(e) => {
                return Err(e);
            },
        };
        let root = match XmlNode::parse_node_recursion(data, string_chunk, current_offset) {
            Ok(n) => n,
            Err(e) => {
                return Err(e);
            },
        };
        match namespace.valid_end_chunk(data, string_chunk, current_offset) {
            Ok(_) => {},
            Err(e) => {
                return Err(e);
            },
        }
        Ok(
            XmlContent {
                namespace_prefix: namespace.prefix,
                namespace_uri: namespace.uri,
                root_node: root,
            },
        )
    }
}

/// The model of a whole parsed document.
pub ghost struct AxmlV {
    pub pool: PoolV,
    pub res: ResV,
    pub content: ContentV,
}

/// The whole document: magic, declared length equal to the buffer, then
/// string pool, resource map and content in that order.
pub open spec fn spec_parse_axml(d: Seq<u8>) -> Result<AxmlV, int> {
    if d.len() < 4 {
        Err(0)
    } else if u32_at(d, 0) != XML_MAGIC {
        Err(0)
    } else if d.len() < 8 {
        Err(4)
    } else if u32_at(d, 4) != d.len() {
        Err(4)
    } else {
        match spec_parse_pool(d, 8) {
            Err(e) => Err(e),
            Ok(pool) => {
                match spec_parse_resource(d, 8 + pool.chunk_size) {
                    Err(e) => Err(e),
                    Ok(res) => {
                        match spec_parse_content(
                            d,
                            pool.strings,
                            8 + pool.chunk_size + res.chunk_size,
                        ) {
                            Err(e) => Err(e),
                            Ok((content, _)) => Ok(AxmlV { pool, res, content }),
                        }
                    },
                }
            },
        }
    }
}

/// A parsed binary-XML document: the string pool, the opaque resource map
/// and the element tree with its namespace.
pub struct AndroidXml {
    pub string_chunk: StringChunk,
    pub resource_chunk: ResourceChunk,
    pub content: XmlContent,
}

impl View for AndroidXml {
    type V = AxmlV;

    open spec fn view(&self) -> AxmlV {
        AxmlV { pool: self.string_chunk@, res: self.resource_chunk@, content: self.content@ }
    }
}

impl AndroidXml {
    /// Parses a whole document.  Exactly `spec_parse_axml`.
    pub fn from_data(data: &Vec<u8>) -> (r: Result<AndroidXml, FileFormatError>)
        ensures
            match r {
                Ok(x) => spec_parse_axml(data@) == Ok::<AxmlV, int>(x@),
                Err(e) => {
                    &&& spec_parse_axml(data@) is Err
                    &&& e.offset as int == spec_parse_axml(data@)->Err_0
                },
            },
    {
        let dlen = data.len();
        if dlen < 4 {
            return Err(FileFormatError { offset: 0 });
        }
        if get_leu32_value(data.as_slice(), 0) != XML_MAGIC {
            return Err(FileFormatError { offset: 0 });
        }
        if dlen < 8 {
            return Err(FileFormatError { offset: 4 });
        }
        let file_length = get_leu32_value(data.as_slice(), 4);
        if !(file_length as u64 == dlen as u64) {
            return Err(FileFormatError { offset: 4 });
        }
        let mut current_offset: usize = 8;
        let string_chunk = match StringChunk::parse(data, &mut current_offset) {
            Ok(sc) => sc,
            Err(e) => {
                return Err(e);
            },
        };
        let resource_chunk = match ResourceChunk::parse(data, &mut current_offset) {
            Ok(rc) => rc,
            Err(e) => {
                return Err(e);
            },
        };
        let content = match XmlContent::parse(data, &string_chunk, &mut current_offset) {
            Ok(c) => c,
            Err(e) => {
                return Err(e);
            },
        };
        Ok(AndroidXml { string_chunk, resource_chunk, content })
    }
}

/// The five words of one attribute record as regenerated, together with
/// the pool after interning the namespace and the string value.
pub open spec fn spec_attr_bytes(a: AttrV, b: Seq<Seq<u16>>) -> (Seq<u8>, Seq<Seq<u16>>) {
    let (nsi, b1): (u32, Seq<Seq<u16>>) = match a.namespace_uri {
        Some(u) => (spec_put_index(b, u) as u32, spec_put_state(b, u)),
        None => (0xFFFFFFFFu32, b),
    };
    let (vsi, b2): (u32, Seq<Seq<u16>>) = match a.string_data {
        Some(v) => (spec_put_index(b1, v) as u32, spec_put_state(b1, v)),
        None => (0xFFFFFFFFu32, b1),
    };
    (
        le32_bytes(nsi) + le32_bytes(a.name_index) + le32_bytes(vsi) + le32_bytes(a.value_type)
            + le32_bytes(a.data),
        b2,
    )
}

/// All attribute records of one element, in order.
pub open spec fn spec_attrs_bytes(attrs: Seq<AttrV>, b: Seq<Seq<u16>>) -> (
    Seq<u8>,
    Seq<Seq<u16>>,
)
    decreases attrs.len(),
{
    if attrs.len() == 0 {
        (Seq::empty(), b)
    } else {
        let (h, b1) = spec_attr_bytes(attrs[0], b);
        let (t, b2) = spec_attrs_bytes(attrs.drop_first(), b1);
        (h + t, b2)
    }
}

/// The regenerated bytes of one element subtree: start tag with fixed
/// line, comment and flag words, the attribute records, the children, and
/// the matching end tag.
pub open spec fn spec_node_bytes(n: NodeV, b: Seq<Seq<u16>>) -> (Seq<u8>, Seq<Seq<u16>>)
    decreases n, 1int,
{
    let ti = spec_put_index(b, n.tag_name) as u32;
    let b1 = spec_put_state(b, n.tag_name);
    let (ab, b2) = spec_attrs_bytes(n.attrs, b1);
    let (cb, b3) = spec_children_bytes(n.children, b2);
    let ti2 = spec_put_index(b3, n.tag_name) as u32;
    let b4 = spec_put_state(b3, n.tag_name);
    (
        le32_bytes(START_TAG) + le32_bytes((36 + 20 * n.attrs.len()) as u32) + le32_bytes(1)
            + le32_bytes(0xFFFFFFFF) + le32_bytes(0xFFFFFFFF) + le32_bytes(ti) + le32_bytes(
            0x00140014,
        ) + le32_bytes(n.attrs.len() as u32) + le32_bytes(0) + ab + cb + le32_bytes(END_TAG)
            + le32_bytes(24) + le32_bytes(1) + le32_bytes(0xFFFFFFFF) + le32_bytes(0xFFFFFFFF)
            + le32_bytes(ti2),
        b4,
    )
}

/// The regenerated bytes of a list of children, in order.
pub open spec fn spec_children_bytes(cs: Seq<NodeV>, b: Seq<Seq<u16>>) -> (Seq<u8>, Seq<Seq<u16>>)
    decreases cs, 0int,
{
    if cs.len() == 0 {
        (Seq::empty(), b)
    } else {
        let (h, b1) = spec_node_bytes(cs[0], b);
        let (t, b2) = spec_children_bytes(cs.drop_first(), b1);
        (h + t, b2)
    }
}

/// How many interning calls regenerating one element can make: two for
/// the tag, two per attribute, and those of the children.
pub open spec fn node_puts(n: NodeV) -> int
    decreases n, 1int,
{
    2 + 2 * n.attrs.len() + children_puts(n.children)
}

/// How many interning calls regenerating a list of children can make.
pub open spec fn children_puts(cs: Seq<NodeV>) -> int
    decreases cs, 0int,
{
    if cs.len() == 0 {
        0
    } else {
        node_puts(cs[0]) + children_puts(cs.drop_first())
    }
}

/// Every element fit for regeneration: few enough attributes that the
/// start tag's size word cannot wrap, recursively.
pub open spec fn node_fits(n: NodeV) -> bool
    decreases n, 1int,
{
    &&& n.attrs.len() <= 0xFFFFFF
    &&& children_fit(n.children)
}

/// Every child fit for regeneration.
pub open spec fn children_fit(cs: Seq<NodeV>) -> bool
    decreases cs, 0int,
{
    cs.len() == 0 || (node_fits(cs[0]) && children_fit(cs.drop_first()))
}

/// Each child of a fit list is itself fit.
pub proof fn lemma_children_fit_index(cs: Seq<NodeV>, i: int)
    requires
        children_fit(cs),
        0 <= i < cs.len(),
    ensures
        node_fits(cs[i]),
    decreases cs.len(),
{
    if i > 0 {
        assert(cs.drop_first()[i - 1] == cs[i]);
        lemma_children_fit_index(cs.drop_first(), i - 1);
    }
}

/// Interning can add at most one string.
pub proof fn lemma_put_growth(b: Seq<Seq<u16>>, s: Seq<u16>)
    ensures
        b.len() <= spec_put_state(b, s).len() <= b.len() + 1,
{
    lemma_put_index_range(b, s);
}

/// Emitting attribute records grows the pool by at most two strings per
/// record.
pub proof fn lemma_attrs_growth(attrs: Seq<AttrV>, b: Seq<Seq<u16>>)
    ensures
        b.len() <= spec_attrs_bytes(attrs, b).1.len() <= b.len() + 2 * attrs.len(),
    decreases attrs.len(),
{
    if attrs.len() == 0 {
    } else {
        let (h, b1) = spec_attr_bytes(attrs[0], b);
        match attrs[0].namespace_uri {
            Some(u) => lemma_put_growth(b, u),
            None => {},
        }
        let bmid: Seq<Seq<u16>> = match attrs[0].namespace_uri {
            Some(u) => spec_put_state(b, u),
            None => b,
        };
        match attrs[0].string_data {
            Some(v) => lemma_put_growth(bmid, v),
            None => {},
        }
        lemma_attrs_growth(attrs.drop_first(), b1);
    }
}

/// Regenerating an element grows the pool by at most its interning count.
pub proof fn lemma_node_growth(n: NodeV, b: Seq<Seq<u16>>)
    ensures
        b.len() <= spec_node_bytes(n, b).1.len() <= b.len() + node_puts(n),
    decreases n, 1int,
{
    lemma_put_growth(b, n.tag_name);
    let b1 = spec_put_state(b, n.tag_name);
    lemma_attrs_growth(n.attrs, b1);
    let (ab, b2) = spec_attrs_bytes(n.attrs, b1);
    lemma_children_growth(n.children, b2);
    let (cb, b3) = spec_children_bytes(n.children, b2);
    lemma_put_growth(b3, n.tag_name);
    lemma_children_puts_nonneg(n.children);
}

/// Regenerating children grows the pool by at most their interning count.
pub proof fn lemma_children_growth(cs: Seq<NodeV>, b: Seq<Seq<u16>>)
    ensures
        b.len() <= spec_children_bytes(cs, b).1.len() <= b.len() + children_puts(cs),
    decreases cs, 0int,
{
    if cs.len() == 0 {
    } else {
        let (h, b1) = spec_node_bytes(cs[0], b);
        lemma_node_growth(cs[0], b);
        lemma_children_growth(cs.drop_first(), b1);
    }
}

/// Interning counts are never negative.
pub proof fn lemma_children_puts_nonneg(cs: Seq<NodeV>)
    ensures
        children_puts(cs) >= 0,
    decreases cs, 0int,
{
    if cs.len() > 0 {
        lemma_node_puts_nonneg(cs[0]);
        lemma_children_puts_nonneg(cs.drop_first());
    }
}

/// Interning counts are never negative.
pub proof fn lemma_node_puts_nonneg(n: NodeV)
    ensures
        node_puts(n) >= 0,
    decreases n, 1int,
{
    lemma_children_puts_nonneg(n.children);
}

/// The little-endian bytes of a run of UTF-16 code units.
pub open spec fn units_le_bytes(s: Seq<u16>) -> Seq<u8>
    decreases s.len(),
{
    if s.len() == 0 {
        Seq::empty()
    } else {
        le16_bytes(s[0]) + units_le_bytes(s.drop_first())
    }
}

/// Encoding one more unit appends its two bytes.
pub proof fn lemma_units_push(s: Seq<u16>, c: u16)
    ensures
        units_le_bytes(s.push(c)) == units_le_bytes(s) + le16_bytes(c),
    decreases s.len(),
{
    if s.len() == 0 {
        assert(s.push(c)[0] == c);
        assert(s.push(c).drop_first() =~= Seq::<u16>::empty());
        assert(units_le_bytes(s.push(c).drop_first()) =~= Seq::<u8>::empty());
        assert(units_le_bytes(s.push(c)) =~= units_le_bytes(s) + le16_bytes(c));
    } else {
        assert(s.push(c)[0] == s[0]);
        assert(s.push(c).drop_first() =~= s.drop_first().push(c));
        lemma_units_push(s.drop_first(), c);
        assert(units_le_bytes(s.push(c)) =~= units_le_bytes(s) + le16_bytes(c));
    }
}

/// One stored pool string: a 16-bit length, the units, a terminator.
pub open spec fn str_entry_bytes(s: Seq<u16>) -> Seq<u8> {
    le16_bytes(s.len() as u16) + units_le_bytes(s) + le16_bytes(0)
}

/// The byte offset of string `i` within the string area: the summed sizes
/// of the entries before it.
pub open spec fn entry_off(strs: Seq<Seq<u16>>, i: int) -> int
    decreases i,
{
    if i <= 0 {
        0
    } else {
        entry_off(strs, i - 1) + 4 + 2 * strs[i - 1].len()
    }
}

/// The index table: one running offset per string.
pub open spec fn idx_table_bytes(strs: Seq<Seq<u16>>, k: int) -> Seq<u8>
    decreases k,
{
    if k <= 0 {
        Seq::empty()
    } else {
        idx_table_bytes(strs, k - 1) + le32_bytes(entry_off(strs, k - 1) as u32)
    }
}

/// The packed string area: the first `k` entries in order.
pub open spec fn strs_bytes_upto(strs: Seq<Seq<u16>>, k: int) -> Seq<u8>
    decreases k,
{
    if k <= 0 {
        Seq::empty()
    } else {
        strs_bytes_upto(strs, k - 1) + str_entry_bytes(strs[k - 1])
    }
}

/// The pool chunk's size before the trailing alignment padding.
pub open spec fn pool_unpadded_len(strs: Seq<Seq<u16>>) -> int {
    28 + 4 * strs.len() + entry_off(strs, strs.len() as int)
}

/// The zero bytes that pad the pool chunk to a multiple of four.
pub open spec fn pool_pad(strs: Seq<Seq<u16>>) -> int {
    (4 - pool_unpadded_len(strs) % 4) % 4
}

/// The exact bytes of the regenerated string-pool chunk: header with the
/// final size, zeroed style fields, index table, string area, padding.
pub open spec fn spec_pool_chunk_bytes(strs: Seq<Seq<u16>>) -> Seq<u8> {
    le32_bytes(STRING_CHUNK) + le32_bytes((pool_unpadded_len(strs) + pool_pad(strs)) as u32)
        + le32_bytes(strs.len() as u32) + le32_bytes(0) + le32_bytes(0) + le32_bytes(
        (28 + 4 * strs.len()) as u32,
    ) + le32_bytes(0) + idx_table_bytes(strs, strs.len() as int) + strs_bytes_upto(
        strs,
        strs.len() as int,
    ) + spec_zeros(pool_pad(strs))
}

/// The emitted units region is two bytes per unit.
pub proof fn lemma_units_len(s: Seq<u16>)
    ensures
        units_le_bytes(s).len() == 2 * s.len(),
    decreases s.len(),
{
    if s.len() > 0 {
        lemma_units_len(s.drop_first());
    }
}

/// The two bytes at position `2 * j` of the units region encode unit `j`.
pub proof fn lemma_units_index(s: Seq<u16>, j: int)
    requires
        0 <= j < s.len(),
    ensures
        units_le_bytes(s).len() == 2 * s.len(),
        units_le_bytes(s)[2 * j] == le16_bytes(s[j])[0],
        units_le_bytes(s)[2 * j + 1] == le16_bytes(s[j])[1],
    decreases s.len(),
{
    lemma_units_len(s);
    if j > 0 {
        lemma_units_index(s.drop_first(), j - 1);
        assert(s.drop_first()[j - 1] == s[j]);
        lemma_units_len(s.drop_first());
    }
}

/// The index table is four bytes per string.
pub proof fn lemma_idx_table_len(strs: Seq<Seq<u16>>, k: int)
    requires
        k >= 0,
    ensures
        idx_table_bytes(strs, k).len() == 4 * k,
    decreases k,
{
    if k > 0 {
        lemma_idx_table_len(strs, k - 1);
    }
}

/// The four bytes at position `4 * i` of the index table encode the byte
/// offset of string `i`.
pub proof fn lemma_idx_table_index(strs: Seq<Seq<u16>>, k: int, i: int)
    requires
        0 <= i < k,
    ensures
        idx_table_bytes(strs, k).len() == 4 * k,
        idx_table_bytes(strs, k).subrange(4 * i, 4 * i + 4) == le32_bytes(
            entry_off(strs, i) as u32,
        ),
    decreases k,
{
    lemma_idx_table_len(strs, k);
    if i == k - 1 {
        lemma_idx_table_len(strs, k - 1);
        assert(idx_table_bytes(strs, k).subrange(4 * i, 4 * i + 4) =~= le32_bytes(
            entry_off(strs, i) as u32,
        ));
    } else {
        lemma_idx_table_index(strs, k - 1, i);
        lemma_idx_table_len(strs, k - 1);
        assert(idx_table_bytes(strs, k).subrange(4 * i, 4 * i + 4) =~= idx_table_bytes(
            strs,
            k - 1,
        ).subrange(4 * i, 4 * i + 4));
    }
}

/// The string area occupies exactly the summed entry sizes.
pub proof fn lemma_strs_bytes_len(strs: Seq<Seq<u16>>, k: int)
    requires
        k >= 0,
    ensures
        strs_bytes_upto(strs, k).len() == entry_off(strs, k),
        entry_off(strs, k) >= 0,
    decreases k,
{
    if k > 0 {
        lemma_strs_bytes_len(strs, k - 1);
        lemma_units_len(strs[k - 1]);
    }
}

/// The bytes of string `i` stand at its declared offset in the string
/// area.
pub proof fn lemma_strs_bytes_index(strs: Seq<Seq<u16>>, k: int, i: int)
    requires
        0 <= i < k,
    ensures
        strs_bytes_upto(strs, k).len() == entry_off(strs, k),
        entry_off(strs, i) >= 0,
        entry_off(strs, i) + 4 + 2 * strs[i].len() <= entry_off(strs, k),
        strs_bytes_upto(strs, k).subrange(
            entry_off(strs, i),
            entry_off(strs, i) + 4 + 2 * strs[i].len(),
        ) == str_entry_bytes(strs[i]),
    decreases k,
{
    lemma_strs_bytes_len(strs, k);
    lemma_strs_bytes_len(strs, i);
    lemma_units_len(strs[i]);
    if i == k - 1 {
        lemma_strs_bytes_len(strs, k - 1);
        assert(strs_bytes_upto(strs, k).subrange(
            entry_off(strs, i),
            entry_off(strs, i) + 4 + 2 * strs[i].len(),
        ) =~= str_entry_bytes(strs[i]));
    } else {
        lemma_strs_bytes_index(strs, k - 1, i);
        lemma_strs_bytes_len(strs, k - 1);
        lemma_entry_off_mono(strs, i + 1, k - 1);
        assert(strs_bytes_upto(strs, k).subrange(
            entry_off(strs, i),
            entry_off(strs, i) + 4 + 2 * strs[i].len(),
        ) =~= strs_bytes_upto(strs, k - 1).subrange(
            entry_off(strs, i),
            entry_off(strs, i) + 4 + 2 * strs[i].len(),
        ));
    }
}

/// A pool the builder can emit: every string short enough for its length
/// prefix, and the whole chunk small enough for its size word.
pub open spec fn pool_emit_fits(strs: Seq<Seq<u16>>) -> bool {
    &&& forall|i: int| 0 <= i < strs.len() ==> #[trigger] strs[i].len() <= 0xFFFF
    &&& strs.len() <= 0xFFFFFF
    &&& pool_unpadded_len(strs) + 3 <= u32::MAX
}

/// String-area offsets never shrink as the index grows.
pub proof fn lemma_entry_off_mono(strs: Seq<Seq<u16>>, i: int, k: int)
    requires
        0 <= i <= k,
    ensures
        entry_off(strs, i) <= entry_off(strs, k),
    decreases k,
{
    if i < k {
        lemma_entry_off_mono(strs, i, k - 1);
    }
}

impl StringChunkBuilder {
    /// Emits the pool chunk for the interned strings.  Exactly
    /// `spec_pool_chunk_bytes`.
    #[verifier::rlimit(100)]
    #[verifier::spinoff_prover]
    pub fn build(&self) -> (r: Vec<u8>)
        requires
            pool_emit_fits(self@),
        ensures
            r@ == spec_pool_chunk_bytes(self@),
    {
        let n = self.string_arr.len();
        let mut payload: u64 = 0;
        let mut i: usize = 0;
        proof {
            lemma_entry_off_mono(self@, 0, n as int);
        }
        while i < n
            invariant
                i <= n,
                n == self@.len(),
                pool_emit_fits(self@),
                payload == entry_off(self@, i as int),
                payload <= u32::MAX,
            decreases n - i,
        {
            proof {
                assert(self@[i as int].len() <= 0xFFFF);
                assert(self@[i as int] == self.string_arr@[i as int]@);
                lemma_entry_off_mono(self@, i + 1, n as int);
                assert(entry_off(self@, n as int) <= pool_unpadded_len(self@));
            }
            payload = payload + 4 + 2 * (self.string_arr[i].len() as u64);
            i = i + 1;
        }
        let unpadded: u64 = 28 + 4 * (n as u64) + payload;
        let pad: u64 = (4 - (unpadded % 4)) % 4;
        let total: u64 = unpadded + pad;
        proof {
            assert(unpadded == pool_unpadded_len(self@));
            assert(pad == pool_pad(self@));
            assert(total <= u32::MAX);
        }
        let mut res: Vec<u8> = Vec::new();
        push_leu32(&mut res, STRING_CHUNK);
        push_leu32(&mut res, total as u32);
        push_leu32(&mut res, n as u32);
        push_leu32(&mut res, 0);
        push_leu32(&mut res, 0);
        push_leu32(&mut res, 28 + 4 * (n as u32));
        push_leu32(&mut res, 0);
        let ghost header = res@;

        let mut off: u64 = 0;
        let mut i2: usize = 0;
        while i2 < n
            invariant
                i2 <= n,
                n == self@.len(),
                pool_emit_fits(self@),
                off == entry_off(self@, i2 as int),
                off <= u32::MAX,
                res@ == header + idx_table_bytes(self@, i2 as int),
            decreases n - i2,
        {
            proof {
                assert(self@[i2 as int].len() <= 0xFFFF);
                assert(self@[i2 as int] == self.string_arr@[i2 as int]@);
                lemma_entry_off_mono(self@, i2 + 1, n as int);
                assert(entry_off(self@, n as int) <= pool_unpadded_len(self@));
            }
            push_leu32(&mut res, off as u32);
            proof {
                assert(res@ =~= header + idx_table_bytes(self@, i2 + 1));
            }
            off = off + 4 + 2 * (self.string_arr[i2].len() as u64);
            i2 = i2 + 1;
        }
        let ghost with_idx = res@;

        let mut i3: usize = 0;
        while i3 < n
            invariant
                i3 <= n,
                n == self@.len(),
                pool_emit_fits(self@),
                res@ == with_idx + strs_bytes_upto(self@, i3 as int),
            decreases n - i3,
        {
            let ghost before_entry = res@;
            let s = &self.string_arr[i3];
            proof {
                assert(self@[i3 as int] == self.string_arr@[i3 as int]@);
                assert(self@[i3 as int].len() <= 0xFFFF);
            }
            let sl = s.len();
            push_leu16(&mut res, sl as u16);
            let mut u: usize = 0;
            proof {
                assert(s@.subrange(0, 0) =~= Seq::<u16>::empty());
                assert(units_le_bytes(s@.subrange(0, 0)) =~= Seq::<u8>::empty());
                assert(res@ =~= before_entry + le16_bytes(sl as u16) + units_le_bytes(
                    s@.subrange(0, 0),
                ));
            }
            while u < sl
                invariant
                    u <= sl,
                    sl == s@.len(),
                    res@ == before_entry + le16_bytes(sl as u16) + units_le_bytes(
                        s@.subrange(0, u as int),
                    ),
                decreases sl - u,
            {
                proof {
                    assert(s@.subrange(0, u + 1) =~= s@.subrange(0, u as int).push(
                        s@[u as int],
                    ));
                    lemma_units_push(s@.subrange(0, u as int), s@[u as int]);
                }
                push_leu16(&mut res, s[u]);
                proof {
                    assert(res@ =~= before_entry + le16_bytes(sl as u16) + (units_le_bytes(
                        s@.subrange(0, u as int),
                    ) + le16_bytes(s@[u as int])));
                }
                u = u + 1;
            }
            push_leu16(&mut res, 0);
            proof {
                assert(s@.subrange(0, sl as int) =~= s@);
                assert(res@ =~= before_entry + str_entry_bytes(self@[i3 as int]));
                assert(res@ =~= with_idx + strs_bytes_upto(self@, i3 + 1));
            }
            i3 = i3 + 1;
        }
        push_zeros(&mut res, pad as usize);
        proof {
            assert(res@ =~= spec_pool_chunk_bytes(self@));
        }
        res
    }

    /// The builder state after interning every pool string in index order.
    pub open spec fn spec_seed(b: Seq<Seq<u16>>, strs: Seq<Seq<u16>>) -> Seq<Seq<u16>>
        decreases strs.len(),
    {
        if strs.len() == 0 {
            b
        } else {
            Self::spec_seed(spec_put_state(b, strs[0]), strs.drop_first())
        }
    }

    /// Interns every string of a parsed pool, in index order.
    pub fn init(&mut self, string_chunk: &StringChunk)
        requires
            old(self)@.len() + string_chunk@.strings.len() <= u32::MAX,
        ensures
            final(self)@ == Self::spec_seed(old(self)@, string_chunk@.strings),
    {
        let n = string_chunk.strings.len();
        let mut i: usize = 0;
        proof {
            assert(string_chunk@.strings.skip(0) =~= string_chunk@.strings);
        }
        while i < n
            invariant
                i <= n,
                n == string_chunk@.strings.len(),
                self@.len() <= old(self)@.len() + i,
                old(self)@.len() + n <= u32::MAX,
                Self::spec_seed(old(self)@, string_chunk@.strings) == Self::spec_seed(
                    self@,
                    string_chunk@.strings.skip(i as int),
                ),
            decreases n - i,
        {
            let ghost pre = self@;
            proof {
                assert(string_chunk@.strings.skip(i as int)[0] == string_chunk@.strings[
                    i as int]);
                assert(string_chunk.strings@[i as int]@ == string_chunk@.strings[i as int]);
                assert(string_chunk@.strings.skip(i as int).drop_first()
                    =~= string_chunk@.strings.skip(i + 1));
                lemma_put_index_range(pre, string_chunk@.strings[i as int]);
            }
            let _ = self.put(&string_chunk.strings[i]);
            i = i + 1;
        }
        proof {
            assert(string_chunk@.strings.skip(n as int) =~= Seq::<Seq<u16>>::empty());
        }
    }

    /// A builder seeded from a parsed pool, preserving its indices where
    /// the pool holds no duplicates.
    pub fn from_string_chunk(string_chunk: &StringChunk) -> (r: StringChunkBuilder)
        requires
            string_chunk@.strings.len() <= u32::MAX,
        ensures
            r@ == Self::spec_seed(Seq::empty(), string_chunk@.strings),
    {
        let mut res = StringChunkBuilder::new();
        proof {
            assert(res@ =~= Seq::<Seq<u16>>::empty());
        }
        res.init(string_chunk);
        res
    }
}

/// Parsing the first `k` strings of the emitted pool chunk recovers the
/// first `k` interned strings.
#[verifier::rlimit(100)]
#[verifier::spinoff_prover]
pub proof fn lemma_pool_strings_parse_back(d: Seq<u8>, o: int, strs: Seq<Seq<u16>>, k: int)
    requires
        pool_emit_fits(strs),
        0 <= o,
        0 <= k <= strs.len(),
        o + spec_pool_chunk_bytes(strs).len() <= d.len(),
        d.subrange(o, o + spec_pool_chunk_bytes(strs).len()) == spec_pool_chunk_bytes(strs),
    ensures
        spec_pool_strings(d, o, 28 + 4 * strs.len() as int, o + 28, k) == Ok::<Seq<Seq<u16>>, ()>(
            strs.subrange(0, k),
        ),
    decreases k,
{
    let cb = spec_pool_chunk_bytes(strs);
    let n = strs.len() as int;
    lemma_idx_table_len(strs, n);
    lemma_strs_bytes_len(strs, n);
    if k == 0 {
        assert(strs.subrange(0, 0) =~= Seq::<Seq<u16>>::empty());
    } else {
        lemma_pool_strings_parse_back(d, o, strs, k - 1);
        let i = k - 1;
        let s = strs[i];
        assert(s.len() <= 0xFFFF);
        lemma_units_len(s);
        lemma_strs_bytes_len(strs, i);
        lemma_entry_off_mono(strs, k, n);
        let eo = entry_off(strs, i);
        assert(eo + 4 + 2 * s.len() == entry_off(strs, k));
        assert(entry_off(strs, n) + 28 + 4 * n == pool_unpadded_len(strs));
        assert(eo <= u32::MAX);

        // the index entry at 28 + 4i carries the string's offset
        assert(cb.subrange(28, 28 + 4 * n) =~= idx_table_bytes(strs, n));
        lemma_idx_table_index(strs, n, i);
        assert(cb.subrange(28 + 4 * i, 28 + 4 * i + 4) =~= le32_bytes(eo as u32)) by {
            assert(cb.subrange(28, 28 + 4 * n).subrange(4 * i, 4 * i + 4) =~= cb.subrange(
                28 + 4 * i,
                28 + 4 * i + 4,
            ));
        }
        lemma_read_le32(d, o, cb, 28 + 4 * i, eo as u32);

        // the entry bytes stand at that offset inside the string area
        let pos = 28 + 4 * n + eo;
        let eb = str_entry_bytes(s);
        assert(cb.subrange(28 + 4 * n, 28 + 4 * n + entry_off(strs, n)) =~= strs_bytes_upto(
            strs,
            n,
        ));
        lemma_strs_bytes_index(strs, n, i);
        assert(cb.subrange(pos, pos + 4 + 2 * s.len()) =~= eb) by {
            assert(cb.subrange(28 + 4 * n, 28 + 4 * n + entry_off(strs, n)).subrange(
                eo,
                eo + 4 + 2 * s.len(),
            ) =~= cb.subrange(pos, pos + 4 + 2 * s.len()));
        }

        // the length prefix reads back
        assert(eb.subrange(0, 2) =~= le16_bytes(s.len() as u16));
        assert(cb.subrange(pos, pos + 2) =~= le16_bytes(s.len() as u16)) by {
            assert(cb.subrange(pos, pos + 4 + 2 * s.len()).subrange(0, 2) =~= cb.subrange(
                pos,
                pos + 2,
            ));
        }
        lemma_read_le16(d, o, cb, pos, s.len() as u16);

        // every unit reads back
        let so = o + (28 + 4 * n) + eo;
        assert forall|j: int| 0 <= j < s.len() implies u16_at(d, so + 2 + 2 * j) == s[j] by {
            lemma_units_index(s, j);
            assert(eb.subrange(2 + 2 * j, 2 + 2 * j + 2) =~= le16_bytes(s[j])) by {
                assert(eb[2 + 2 * j] == units_le_bytes(s)[2 * j]);
                assert(eb[2 + 2 * j + 1] == units_le_bytes(s)[2 * j + 1]);
            }
            assert(cb.subrange(pos + 2 + 2 * j, pos + 2 + 2 * j + 2) =~= le16_bytes(s[j])) by {
                assert(cb.subrange(pos, pos + 4 + 2 * s.len()).subrange(
                    2 + 2 * j,
                    2 + 2 * j + 2,
                ) =~= cb.subrange(pos + 2 + 2 * j, pos + 2 + 2 * j + 2));
            }
            lemma_read_le16(d, o, cb, pos + 2 + 2 * j, s[j]);
        }
        assert(spec_pool_read_string(d, o, 28 + 4 * n, o + 28, i) == Ok::<Seq<u16>, ()>(s)) by {
            assert(u32_at(d, o + 28 + 4 * i) == eo as u32);
            assert(u16_at(d, so) == s.len() as u16);
            assert(Seq::new(s.len(), |j: int| u16_at(d, so + 2 + 2 * j)) =~= s);
        }
        assert(strs.subrange(0, k) =~= strs.subrange(0, k - 1).push(s));
    }
}

/// The pool chunk the builder emits reads back: parsing at its position
/// recovers the header fields and exactly the interned strings, so a
/// regenerated document resolves its indices against the same strings the
/// builder assigned them to.
#[verifier::rlimit(100)]
#[verifier::spinoff_prover]
pub proof fn lemma_pool_parse_back(d: Seq<u8>, o: int, strs: Seq<Seq<u16>>)
    requires
        pool_emit_fits(strs),
        0 <= o,
        o + spec_pool_chunk_bytes(strs).len() <= d.len(),
        o + spec_pool_chunk_bytes(strs).len() <= usize::MAX,
        d.subrange(o, o + spec_pool_chunk_bytes(strs).len()) == spec_pool_chunk_bytes(strs),
    ensures
        spec_parse_pool(d, o) == Ok::<PoolV, int>(
            PoolV {
                chunk_offset: o,
                chunk_size: (pool_unpadded_len(strs) + pool_pad(strs)) as u32,
                string_count: strs.len() as u32,
                style_count: 0,
                string_pool_offset: (28 + 4 * strs.len()) as u32,
                style_pool_offset: 0,
                strings: strs,
            },
        ),
{
    let cb = spec_pool_chunk_bytes(strs);
    let n = strs.len() as int;
    lemma_idx_table_len(strs, n);
    lemma_strs_bytes_len(strs, n);
    let total = pool_unpadded_len(strs) + pool_pad(strs);
    assert(cb.len() == total);
    assert(total <= u32::MAX);
    assert(cb.subrange(0, 4) =~= le32_bytes(STRING_CHUNK));
    lemma_read_le32(d, o, cb, 0, STRING_CHUNK);
    assert(cb.subrange(4, 8) =~= le32_bytes(total as u32));
    lemma_read_le32(d, o, cb, 4, total as u32);
    assert(cb.subrange(8, 12) =~= le32_bytes(n as u32));
    lemma_read_le32(d, o, cb, 8, n as u32);
    assert(cb.subrange(12, 16) =~= le32_bytes(0));
    lemma_read_le32(d, o, cb, 12, 0);
    assert(cb.subrange(16, 20) =~= le32_bytes(0));
    lemma_read_le32(d, o, cb, 16, 0);
    assert(cb.subrange(20, 24) =~= le32_bytes((28 + 4 * n) as u32));
    lemma_read_le32(d, o, cb, 20, (28 + 4 * n) as u32);
    assert(cb.subrange(24, 28) =~= le32_bytes(0));
    lemma_read_le32(d, o, cb, 24, 0);
    lemma_pool_strings_parse_back(d, o, strs, n);
    assert(strs.subrange(0, n) =~= strs);
}

/// One attribute record round-trips: the five words the regenerator
/// writes for an attribute parse back to the same attribute, provided the
/// final pool resolves the attribute's name index to its name.
#[verifier::rlimit(100)]
#[verifier::spinoff_prover]
pub proof fn lemma_attr_record_parse_back(
    d: Seq<u8>,
    pool: Seq<Seq<u16>>,
    b: Seq<Seq<u16>>,
    o: int,
    a: AttrV,
)
    requires
        0 <= o,
        o + 20 <= d.len(),
        d.subrange(o, o + 20) == spec_attr_bytes(a, b).0,
        pool_extends(spec_attr_bytes(a, b).1, pool),
        pool.len() <= 0xFFFFFF,
        a.name_index < pool.len(),
        pool[a.name_index as int] == a.name,
    ensures
        spec_parse_attrs(d, pool, o, 1) == Ok::<Seq<AttrV>, int>(seq![a]),
{
    let ab = spec_attr_bytes(a, b).0;
    let b2 = spec_attr_bytes(a, b).1;
    let bmid: Seq<Seq<u16>> = match a.namespace_uri {
        Some(u) => spec_put_state(b, u),
        None => b,
    };
    let nsw: u32 = match a.namespace_uri {
        Some(u) => spec_put_index(b, u) as u32,
        None => 0xFFFFFFFFu32,
    };
    let vsw: u32 = match a.string_data {
        Some(v) => spec_put_index(bmid, v) as u32,
        None => 0xFFFFFFFFu32,
    };
    match a.string_data {
        Some(v) => {
            assert(b2 == spec_put_state(bmid, v));
        },
        None => {
            assert(b2 == bmid);
        },
    }
    assert(b2.subrange(0, b2.len() as int) =~= b2);
    match a.namespace_uri {
        Some(u) => {
            lemma_put_index_range(b, u);
            lemma_put_extends(b, u);
            match a.string_data {
                Some(v) => lemma_put_extends(bmid, v),
                None => {
                    assert(bmid.subrange(0, bmid.len() as int) =~= bmid);
                },
            }
            lemma_extends_trans(bmid, b2, pool);
            lemma_extends_resolves(bmid, pool, spec_put_index(b, u));
            assert(spec_put_index(b, u) < pool.len());
            assert(pool[spec_put_index(b, u)] == u);
        },
        None => {},
    }
    match a.string_data {
        Some(v) => {
            lemma_put_index_range(bmid, v);
            lemma_put_extends(bmid, v);
            lemma_extends_trans(spec_put_state(bmid, v), b2, pool);
            lemma_extends_resolves(spec_put_state(bmid, v), pool, spec_put_index(bmid, v));
            assert(spec_put_index(bmid, v) < pool.len());
            assert(pool[spec_put_index(bmid, v)] == v);
        },
        None => {},
    }
    assert(ab.subrange(0, 4) =~= le32_bytes(nsw));
    lemma_read_le32(d, o, ab, 0, nsw);
    assert(ab.subrange(4, 8) =~= le32_bytes(a.name_index));
    lemma_read_le32(d, o, ab, 4, a.name_index);
    assert(ab.subrange(8, 12) =~= le32_bytes(vsw));
    lemma_read_le32(d, o, ab, 8, vsw);
    assert(ab.subrange(12, 16) =~= le32_bytes(a.value_type));
    lemma_read_le32(d, o, ab, 12, a.value_type);
    assert(ab.subrange(16, 20) =~= le32_bytes(a.data));
    lemma_read_le32(d, o, ab, 16, a.data);
    let parsed = AttrV {
        namespace_uri: if nsw == 0xFFFFFFFFu32 {
            None
        } else {
            Some(pool[nsw as int])
        },
        name_index: a.name_index,
        name: pool[a.name_index as int],
        value_type: a.value_type,
        string_data: if vsw == 0xFFFFFFFFu32 {
            None
        } else {
            Some(pool[vsw as int])
        },
        data: a.data,
    };
    assert(parsed == a);
    assert(spec_parse_attrs(d, pool, o + 20, 0) == Ok::<Seq<AttrV>, int>(Seq::empty()));
    assert(seq![a] + Seq::<AttrV>::empty() =~= seq![a]);
}

/// The namespace open the regenerator writes parses back to the same
/// prefix and uri, leaving the offset just past its 24 bytes.
#[verifier::rlimit(100)]
#[verifier::spinoff_prover]
pub proof fn lemma_ns_open_parse_back(
    d: Seq<u8>,
    pool: Seq<Seq<u16>>,
    b: Seq<Seq<u16>>,
    o: int,
    prefix: Seq<u16>,
    uri: Seq<u16>,
)
    requires
        0 <= o,
        o + 24 <= d.len(),
        o + 24 <= usize::MAX,
        d.subrange(o, o + 24) == spec_ns_chunk_bytes(START_NAMESPACE, b, prefix, uri).0,
        pool_extends(spec_ns_chunk_bytes(START_NAMESPACE, b, prefix, uri).1, pool),
        pool.len() <= 0xFFFFFF,
    ensures
        spec_parse_ns(d, pool, o) == Ok::<(Seq<u16>, Seq<u16>, u32, int), int>(
            (prefix, uri, 1, o + 24),
        ),
{
    lemma_ns_chunk_reads(d, pool, b, o, START_NAMESPACE, prefix, uri);
}

/// The namespace close the regenerator writes is accepted against the
/// prefix and uri it was written with.
#[verifier::rlimit(100)]
#[verifier::spinoff_prover]
pub proof fn lemma_ns_close_parse_back(
    d: Seq<u8>,
    pool: Seq<Seq<u16>>,
    b: Seq<Seq<u16>>,
    o: int,
    prefix: Seq<u16>,
    uri: Seq<u16>,
)
    requires
        0 <= o,
        o + 24 <= d.len(),
        d.subrange(o, o + 24) == spec_ns_chunk_bytes(END_NAMESPACE, b, prefix, uri).0,
        pool_extends(spec_ns_chunk_bytes(END_NAMESPACE, b, prefix, uri).1, pool),
        pool.len() <= 0xFFFFFF,
    ensures
        spec_valid_ns_end(d, pool, o, prefix, uri) is None,
{
    lemma_ns_chunk_reads(d, pool, b, o, END_NAMESPACE, prefix, uri);
}

/// The six words of a namespace chunk read back: the magic, the fixed
/// size and line, and string indices that the pool resolves to the
/// written prefix and uri.
#[verifier::rlimit(100)]
#[verifier::spinoff_prover]
proof fn lemma_ns_chunk_reads(
    d: Seq<u8>,
    pool: Seq<Seq<u16>>,
    b: Seq<Seq<u16>>,
    o: int,
    magic: u32,
    prefix: Seq<u16>,
    uri: Seq<u16>,
)
    requires
        0 <= o,
        o + 24 <= d.len(),
        d.subrange(o, o + 24) == spec_ns_chunk_bytes(magic, b, prefix, uri).0,
        pool_extends(spec_ns_chunk_bytes(magic, b, prefix, uri).1, pool),
        pool.len() <= 0xFFFFFF,
    ensures
        u32_at(d, o) == magic,
        u32_at(d, o + 4) == 24,
        u32_at(d, o + 8) == 1,
        u32_at(d, o + 16) < pool.len(),
        u32_at(d, o + 20) < pool.len(),
        pool[u32_at(d, o + 16) as int] == prefix,
        pool[u32_at(d, o + 20) as int] == uri,
{
    let nb = spec_ns_chunk_bytes(magic, b, prefix, uri).0;
    let b2 = spec_ns_chunk_bytes(magic, b, prefix, uri).1;
    let ba = spec_put_state(b, prefix);
    let pi = spec_put_index(b, prefix);
    let ui = spec_put_index(ba, uri);
    lemma_put_index_range(b, prefix);
    lemma_put_extends(b, prefix);
    lemma_put_index_range(ba, uri);
    lemma_put_extends(ba, uri);
    assert(b2 == spec_put_state(ba, uri));
    assert(b2.subrange(0, b2.len() as int) =~= b2);
    lemma_extends_trans(ba, b2, pool);
    lemma_extends_resolves(ba, pool, pi);
    lemma_extends_resolves(b2, pool, ui);
    assert(nb.subrange(0, 4) =~= le32_bytes(magic));
    lemma_read_le32(d, o, nb, 0, magic);
    assert(nb.subrange(4, 8) =~= le32_bytes(24));
    lemma_read_le32(d, o, nb, 4, 24);
    assert(nb.subrange(8, 12) =~= le32_bytes(1));
    lemma_read_le32(d, o, nb, 8, 1);
    assert(nb.subrange(16, 20) =~= le32_bytes(pi as u32));
    lemma_read_le32(d, o, nb, 16, pi as u32);
    assert(nb.subrange(20, 24) =~= le32_bytes(ui as u32));
    lemma_read_le32(d, o, nb, 20, ui as u32);
}

/// No two strings of the sequence are equal.
pub open spec fn seq_distinct(strs: Seq<Seq<u16>>) -> bool {
    forall|i: int, j: int| 0 <= i < j < strs.len() ==> strs[i] != strs[j]
}

/// Interning a string no earlier entry holds appends it.
pub proof fn lemma_put_index_absent(b: Seq<Seq<u16>>, s: Seq<u16>)
    requires
        forall|i: int| 0 <= i < b.len() ==> b[i] != s,
    ensures
        spec_put_index(b, s) == b.len(),
        spec_put_state(b, s) == b.push(s),
    decreases b.len(),
{
    if b.len() > 0 {
        assert(b[0] != s);
        assert(forall|i: int| 0 <= i < b.drop_first().len() ==> b.drop_first()[i] != s);
        lemma_put_index_absent(b.drop_first(), s);
    }
}

/// Seeding a builder with strings that are new to it, and distinct among
/// themselves, appends them in order: in particular a builder seeded from
/// a duplicate-free pool reproduces that pool, every index preserved.
pub proof fn lemma_seed_preserves(b: Seq<Seq<u16>>, strs: Seq<Seq<u16>>)
    requires
        seq_distinct(strs),
        forall|i: int, j: int|
            0 <= i < b.len() && 0 <= j < strs.len() ==> b[i] != strs[j],
    ensures
        StringChunkBuilder::spec_seed(b, strs) == b + strs,
    decreases strs.len(),
{
    if strs.len() == 0 {
        assert(b + strs =~= b);
    } else {
        assert(forall|i: int| 0 <= i < b.len() ==> b[i] != strs[0]);
        lemma_put_index_absent(b, strs[0]);
        let b1 = b.push(strs[0]);
        let rest = strs.drop_first();
        assert(forall|i: int, j: int|
            0 <= i < j < rest.len() ==> rest[i] != rest[j]) by {
            assert(forall|i: int, j: int|
                0 <= i < j < rest.len() ==> rest[i] == strs[i + 1] && rest[j] == strs[j + 1]);
        }
        assert(forall|i: int, j: int|
            0 <= i < b1.len() && 0 <= j < rest.len() ==> b1[i] != rest[j]) by {
            assert(forall|j: int| 0 <= j < rest.len() ==> rest[j] == strs[j + 1]);
            assert(forall|i: int| 0 <= i < b.len() ==> b1[i] == b[i]);
            assert(b1[b.len() as int] == strs[0]);
        }
        lemma_seed_preserves(b1, rest);
        assert(b1 + rest =~= b + strs);
    }
}

/// A duplicate-free pool seeds a builder that reproduces it exactly.
pub proof fn lemma_seed_identity(strs: Seq<Seq<u16>>)
    requires
        seq_distinct(strs),
    ensures
        StringChunkBuilder::spec_seed(Seq::empty(), strs) == strs,
{
    lemma_seed_preserves(Seq::empty(), strs);
    assert(Seq::<Seq<u16>>::empty() + strs =~= strs);
}

/// The earlier pool is a prefix of the later one: regeneration only
/// appends strings, never moves or drops one.
pub open spec fn pool_extends(a: Seq<Seq<u16>>, b: Seq<Seq<u16>>) -> bool {
    a.len() <= b.len() && b.subrange(0, a.len() as int) == a
}

/// Pool extension carries indices along: an index valid in the earlier
/// pool resolves to the same string in the later one.
pub proof fn lemma_extends_resolves(a: Seq<Seq<u16>>, b: Seq<Seq<u16>>, i: int)
    requires
        pool_extends(a, b),
        0 <= i < a.len(),
    ensures
        b[i] == a[i],
{
    assert(b.subrange(0, a.len() as int)[i] == b[i]);
}

/// Pool extension composes.
pub proof fn lemma_extends_trans(a: Seq<Seq<u16>>, b: Seq<Seq<u16>>, c: Seq<Seq<u16>>)
    requires
        pool_extends(a, b),
        pool_extends(b, c),
    ensures
        pool_extends(a, c),
{
    assert(c.subrange(0, a.len() as int) =~= a) by {
        assert(forall|i: int|
            0 <= i < a.len() ==> #[trigger] c.subrange(0, a.len() as int)[i] == c[i]);
        assert(forall|i: int|
            0 <= i < a.len() ==> #[trigger] c[i] == b.subrange(0, b.len() as int)[i]);
        assert(forall|i: int| 0 <= i < a.len() ==> #[trigger] b[i] == a[i]) by {
            assert(forall|i: int|
                0 <= i < a.len() ==> #[trigger] b.subrange(0, a.len() as int)[i] == b[i]);
        }
        assert(forall|i: int|
            0 <= i < b.len() ==> #[trigger] c.subrange(0, b.len() as int)[i] == c[i]);
    }
}

/// Interning only appends.
pub proof fn lemma_put_extends(b: Seq<Seq<u16>>, s: Seq<u16>)
    ensures
        pool_extends(b, spec_put_state(b, s)),
{
    lemma_put_index_range(b, s);
    if spec_put_index(b, s) < b.len() {
        assert(spec_put_state(b, s).subrange(0, b.len() as int) =~= b);
    } else {
        assert(b.push(s).subrange(0, b.len() as int) =~= b);
    }
}

/// Emitting attribute records only appends to the pool.
pub proof fn lemma_attrs_bytes_extends(attrs: Seq<AttrV>, b: Seq<Seq<u16>>)
    ensures
        pool_extends(b, spec_attrs_bytes(attrs, b).1),
    decreases attrs.len(),
{
    if attrs.len() == 0 {
        assert(b.subrange(0, b.len() as int) =~= b);
    } else {
        let bmid: Seq<Seq<u16>> = match attrs[0].namespace_uri {
            Some(u) => spec_put_state(b, u),
            None => b,
        };
        match attrs[0].namespace_uri {
            Some(u) => lemma_put_extends(b, u),
            None => {
                assert(b.subrange(0, b.len() as int) =~= b);
            },
        }
        let b1 = spec_attr_bytes(attrs[0], b).1;
        match attrs[0].string_data {
            Some(v) => lemma_put_extends(bmid, v),
            None => {
                assert(bmid.subrange(0, bmid.len() as int) =~= bmid);
            },
        }
        lemma_extends_trans(b, bmid, b1);
        lemma_attrs_bytes_extends(attrs.drop_first(), b1);
        lemma_extends_trans(b, b1, spec_attrs_bytes(attrs, b).1);
    }
}

/// Regenerating a subtree only appends to the pool: every index the
/// emitter wrote earlier still resolves to the same string afterwards.
pub proof fn lemma_node_bytes_extends(n: NodeV, b: Seq<Seq<u16>>)
    ensures
        pool_extends(b, spec_node_bytes(n, b).1),
    decreases n, 1int,
{
    lemma_put_extends(b, n.tag_name);
    let b1 = spec_put_state(b, n.tag_name);
    lemma_attrs_bytes_extends(n.attrs, b1);
    let b2 = spec_attrs_bytes(n.attrs, b1).1;
    lemma_children_bytes_extends(n.children, b2);
    let b3 = spec_children_bytes(n.children, b2).1;
    lemma_put_extends(b3, n.tag_name);
    lemma_extends_trans(b, b1, b2);
    lemma_extends_trans(b, b2, b3);
    lemma_extends_trans(b, b3, spec_node_bytes(n, b).1);
}

/// Regenerating children only appends to the pool.
pub proof fn lemma_children_bytes_extends(cs: Seq<NodeV>, b: Seq<Seq<u16>>)
    ensures
        pool_extends(b, spec_children_bytes(cs, b).1),
    decreases cs, 0int,
{
    if cs.len() == 0 {
        assert(b.subrange(0, b.len() as int) =~= b);
    } else {
        lemma_node_bytes_extends(cs[0], b);
        let b1 = spec_node_bytes(cs[0], b).1;
        lemma_children_bytes_extends(cs.drop_first(), b1);
        lemma_extends_trans(b, b1, spec_children_bytes(cs, b).1);
    }
}

/// Regenerating the whole content section only appends to the pool, so
/// the pool finally emitted resolves every index the section wrote.
pub proof fn lemma_content_bytes_extends(c: ContentV, b: Seq<Seq<u16>>)
    ensures
        pool_extends(b, spec_content_bytes(c, b).1),
{
    lemma_put_extends(b, c.prefix);
    let ba = spec_put_state(b, c.prefix);
    lemma_put_extends(ba, c.uri);
    let b1 = spec_put_state(ba, c.uri);
    lemma_extends_trans(b, ba, b1);
    lemma_node_bytes_extends(c.root, b1);
    let b2 = spec_node_bytes(c.root, b1).1;
    lemma_extends_trans(b, b1, b2);
    lemma_put_extends(b2, c.prefix);
    let bb = spec_put_state(b2, c.prefix);
    lemma_put_extends(bb, c.uri);
    lemma_extends_trans(b2, bb, spec_content_bytes(c, b).1);
    lemma_extends_trans(b, b2, spec_content_bytes(c, b).1);
}

/// Decides `node_fits` for a concrete tree.
pub fn node_fits_exec(n: &XmlNode) -> (r: bool)
    ensures
        r == node_fits(n@),
    decreases *n,
{
    if n.attrs.len() > 0xFFFFFF {
        return false;
    }
    let ghost cs = n@.children;
    let k = n.children.len();
    let mut i: usize = 0;
    proof {
        assert(forall|x: int|
            0 <= x < cs.len() ==> #[trigger] cs[x] == node_view(*n.children@[x]));
        assert(cs.skip(0) =~= cs);
    }
    while i < k
        invariant
            i <= k,
            k == cs.len(),
            k == n.children@.len(),
            n@.attrs.len() <= 0xFFFFFF,
            forall|x: int| 0 <= x < cs.len() ==> #[trigger] cs[x] == node_view(*n.children@[x]),
            children_fit(n@.children) == children_fit(cs.skip(i as int)),
        decreases k - i,
    {
        proof {
            assert(cs.skip(i as int)[0] == cs[i as int]);
            assert(cs.skip(i as int).drop_first() =~= cs.skip(i + 1));
        }
        if !node_fits_exec(&n.children[i]) {
            return false;
        }
        i = i + 1;
    }
    proof {
        assert(cs.skip(k as int) =~= Seq::<NodeV>::empty());
    }
    true
}

/// Computes an element's interning count exactly, up to a cap just past
/// the index space: `None` means the count exceeds the cap, so no builder
/// has room for it.
pub fn node_puts_capped(n: &XmlNode) -> (r: Option<u64>)
    ensures
        match r {
            Some(v) => v == node_puts(n@) && node_puts(n@) <= 0x1_0000_0000,
            None => node_puts(n@) > 0x1_0000_0000,
        },
    decreases *n,
{
    proof {
        lemma_children_puts_nonneg(n@.children);
    }
    if n.attrs.len() > 0x8000_0000 {
        return None;
    }
    let mut total: u64 = 2 + 2 * (n.attrs.len() as u64);
    if total > 0x1_0000_0000 {
        return None;
    }
    let ghost cs = n@.children;
    let k = n.children.len();
    let mut i: usize = 0;
    proof {
        assert(forall|x: int|
            0 <= x < cs.len() ==> #[trigger] cs[x] == node_view(*n.children@[x]));
        assert(cs.skip(0) =~= cs);
    }
    while i < k
        invariant
            i <= k,
            k == cs.len(),
            k == n.children@.len(),
            total <= 0x1_0000_0000,
            forall|x: int| 0 <= x < cs.len() ==> #[trigger] cs[x] == node_view(*n.children@[x]),
            node_puts(n@) == total + children_puts(cs.skip(i as int)),
        decreases k - i,
    {
        proof {
            assert(cs.skip(i as int)[0] == cs[i as int]);
            assert(cs.skip(i as int).drop_first() =~= cs.skip(i + 1));
            lemma_children_puts_nonneg(cs.skip(i + 1));
            lemma_node_puts_nonneg(cs[i as int]);
        }
        let child_puts = match node_puts_capped(&n.children[i]) {
            Some(v) => v,
            None => {
                return None;
            },
        };
        total = total + child_puts;
        if total > 0x1_0000_0000 {
            return None;
        }
        i = i + 1;
    }
    proof {
        assert(cs.skip(k as int) =~= Seq::<NodeV>::empty());
    }
    Some(total)
}

impl StringChunkBuilder {
    /// An independent copy with the same interned strings.
    pub fn duplicate(&self) -> (r: StringChunkBuilder)
        ensures
            r@ == self@,
    {
        let n = self.string_arr.len();
        let mut string_arr: Vec<Vec<u16>> = Vec::new();
        let mut i: usize = 0;
        while i < n
            invariant
                i <= n,
                n == self@.len(),
                string_arr@.map_values(|v: Vec<u16>| v@) == self@.subrange(0, i as int),
            decreases n - i,
        {
            let ghost pre = string_arr@.map_values(|v: Vec<u16>| v@);
            proof {
                assert(self@[i as int] == self.string_arr@[i as int]@);
            }
            string_arr.push(copy_units(&self.string_arr[i]));
            proof {
                assert(string_arr@.map_values(|v: Vec<u16>| v@) =~= pre.push(
                    string_arr@.last()@,
                ));
                assert(pre.push(self@[i as int]) =~= self@.subrange(0, i + 1));
            }
            i = i + 1;
        }
        let r = StringChunkBuilder { string_arr };
        proof {
            assert(r@ =~= self@);
        }
        r
    }

    /// Decides `pool_emit_fits` for this builder's strings.
    pub fn pool_fits_exec(&self) -> (r: bool)
        ensures
            r == pool_emit_fits(self@),
    {
        let n = self.string_arr.len();
        if n > 0xFFFFFF {
            return false;
        }
        let mut payload: u64 = 0;
        let mut i: usize = 0;
        while i < n
            invariant
                i <= n,
                n == self@.len(),
                n <= 0xFFFFFF,
                payload == entry_off(self@, i as int),
                payload <= i * 0x20002,
                forall|x: int| 0 <= x < i ==> #[trigger] self@[x].len() <= 0xFFFF,
            decreases n - i,
        {
            proof {
                assert(self@[i as int] == self.string_arr@[i as int]@);
            }
            if self.string_arr[i].len() > 0xFFFF {
                return false;
            }
            payload = payload + 4 + 2 * (self.string_arr[i].len() as u64);
            i = i + 1;
        }
        let unpadded: u64 = 28 + 4 * (n as u64) + payload;
        unpadded + 3 <= u32::MAX as u64
    }
}

impl StringChunkBuilder {
    /// How many bytes `build` will emit for this pool.
    pub fn pool_chunk_len_exec(&self) -> (r: u64)
        requires
            pool_emit_fits(self@),
        ensures
            r == spec_pool_chunk_bytes(self@).len(),
    {
        let n = self.string_arr.len();
        let mut payload: u64 = 0;
        let mut i: usize = 0;
        while i < n
            invariant
                i <= n,
                n == self@.len(),
                pool_emit_fits(self@),
                n <= 0xFFFFFF,
                payload == entry_off(self@, i as int),
                payload <= i * 0x20002,
            decreases n - i,
        {
            proof {
                assert(self@[i as int] == self.string_arr@[i as int]@);
                assert(self@[i as int].len() <= 0xFFFF);
            }
            payload = payload + 4 + 2 * (self.string_arr[i].len() as u64);
            i = i + 1;
        }
        let unpadded: u64 = 28 + 4 * (n as u64) + payload;
        let pad: u64 = (4 - (unpadded % 4)) % 4;
        proof {
            lemma_idx_table_len(self@, n as int);
            lemma_strs_bytes_len(self@, n as int);
            assert(unpadded == pool_unpadded_len(self@));
            assert(pad == pool_pad(self@));
            assert(spec_pool_chunk_bytes(self@).len() == pool_unpadded_len(self@) + pool_pad(
                self@,
            ));
        }
        unpadded + pad
    }
}

/// Prepends already-emitted bytes to an emission result.
pub open spec fn emit_step(done: Seq<u8>, rest: (Seq<u8>, Seq<Seq<u16>>)) -> (
    Seq<u8>,
    Seq<Seq<u16>>,
) {
    (done + rest.0, rest.1)
}

/// Writes one attribute record.  Exactly `spec_attr_bytes`.
#[verifier::rlimit(100)]
#[verifier::spinoff_prover]
fn emit_attr(
    attr: &XmlAttributeValue,
    data: &mut Vec<u8>,
    string_chunk_builder: &mut StringChunkBuilder,
) -> (r: ())
    requires
        old(string_chunk_builder)@.len() + 2 <= u32::MAX,
    ensures
        final(data)@ == old(data)@ + spec_attr_bytes(attr@, old(string_chunk_builder)@).0,
        final(string_chunk_builder)@ == spec_attr_bytes(attr@, old(string_chunk_builder)@).1,
{
    let ghost b0 = string_chunk_builder@;
    match &attr.namespace_uri {
        Some(namespace_str) => {
            let idx = string_chunk_builder.put(namespace_str);
            proof {
                lemma_put_index_range(b0, namespace_str@);
            }
            push_leu32(data, idx);
        },
        None => {
            push_leu32(data, 0xFFFFFFFF);
        },
    }
    push_leu32(data, attr.name_index);
    match &attr.string_data {
        Some(value_str) => {
            let ghost bmid = string_chunk_builder@;
            let idx = string_chunk_builder.put(value_str);
            proof {
                lemma_put_index_range(bmid, value_str@);
            }
            push_leu32(data, idx);
        },
        None => {
            push_leu32(data, 0xFFFFFFFF);
        },
    }
    push_leu32(data, attr.value_type);
    push_leu32(data, attr.data);
    proof {
        assert(final(data)@ =~= old(data)@ + spec_attr_bytes(attr@, b0).0);
    }
}

impl XmlNode {
    /// Regenerates this subtree onto `data`, interning every string it
    /// references.  Exactly `spec_node_bytes`.
    #[verifier::rlimit(100)]
    #[verifier::spinoff_prover]
    pub fn regenerate(&self, data: &mut Vec<u8>, string_chunk_builder: &mut StringChunkBuilder)
        requires
            node_fits(self@),
            old(string_chunk_builder)@.len() + node_puts(self@) <= u32::MAX,
        ensures
            final(data)@ == old(data)@ + spec_node_bytes(self@, old(string_chunk_builder)@).0,
            final(string_chunk_builder)@ == spec_node_bytes(
                self@,
                old(string_chunk_builder)@,
            ).1,
        decreases *self,
    {
        let ghost b0 = string_chunk_builder@;
        proof {
            lemma_children_puts_nonneg(self@.children);
        }
        let ti = string_chunk_builder.put(&self.tag_name);
        let ghost b1 = string_chunk_builder@;
        let attr_count = self.attrs.len();
        push_leu32(data, START_TAG);
        push_leu32(data, 36 + 20 * (attr_count as u32));
        push_leu32(data, 1);
        push_leu32(data, 0xFFFFFFFF);
        push_leu32(data, 0xFFFFFFFF);
        push_leu32(data, ti);
        push_leu32(data, 0x00140014);
        push_leu32(data, attr_count as u32);
        push_leu32(data, 0);
        let ghost header_done = data@;
        let ghost attrs_v = self@.attrs;
        let ghost cpn = children_puts(self@.children);

        let mut i: usize = 0;
        proof {
            assert(self@.attrs.skip(0) =~= self@.attrs);
            match spec_attrs_bytes(self@.attrs, b1) {
                (t, b) => {
                    assert(Seq::<u8>::empty() + t =~= t);
                },
            }
            assert(emit_step(Seq::<u8>::empty(), spec_attrs_bytes(self@.attrs, b1))
                == spec_attrs_bytes(self@.attrs, b1));
        }
        while i < attr_count
            invariant
                i <= attr_count,
                attr_count == attrs_v.len(),
                attr_count == self.attrs@.len(),
                attrs_v == self.attrs@.map_values(|a: XmlAttributeValue| a@),
                string_chunk_builder@.len() + 2 * (attr_count - i) + cpn + 1 <= u32::MAX,
                cpn >= 0,
                data@.len() >= header_done.len(),
                data@.subrange(0, header_done.len() as int) == header_done,
                spec_attrs_bytes(attrs_v, b1) == emit_step(
                    data@.skip(header_done.len() as int),
                    spec_attrs_bytes(attrs_v.skip(i as int), string_chunk_builder@),
                ),
            decreases attr_count - i,
        {
            let ghost bcur = string_chunk_builder@;
            let ghost done = data@.skip(header_done.len() as int);
            proof {
                assert(attrs_v.skip(i as int)[0] == attrs_v[i as int]);
                assert(self.attrs@[i as int]@ == attrs_v[i as int]);
                assert(attrs_v.skip(i as int).drop_first() =~= attrs_v.skip(i + 1));
            }
            emit_attr(&self.attrs[i], data, string_chunk_builder);
            proof {
                let (h, bn) = spec_attr_bytes(attrs_v[i as int], bcur);
                assert(spec_attrs_bytes(attrs_v.skip(i as int), bcur) == (
                    h + spec_attrs_bytes(attrs_v.skip(i + 1), bn).0,
                    spec_attrs_bytes(attrs_v.skip(i + 1), bn).1,
                ));
                assert(done + (h + spec_attrs_bytes(attrs_v.skip(i + 1), bn).0) =~= (done
                    + h) + spec_attrs_bytes(attrs_v.skip(i + 1), bn).0);
                assert(data@.skip(header_done.len() as int) =~= done + h);
                assert(data@.subrange(0, header_done.len() as int) =~= header_done);
            }
            i = i + 1;
        }
        proof {
            assert(attrs_v.skip(attr_count as int) =~= Seq::<AttrV>::empty());
            let (t0, bx) = spec_attrs_bytes(attrs_v.skip(attr_count as int),
                string_chunk_builder@);
            assert(t0 =~= Seq::<u8>::empty());
            assert((data@.skip(header_done.len() as int)) + Seq::<u8>::empty() =~= data@.skip(
                header_done.len() as int,
            ));
        }
        let ghost ab = spec_attrs_bytes(self@.attrs, b1).0;
        let ghost b2 = string_chunk_builder@;
        let ghost after_attrs = data@;
        proof {
            assert(ab == data@.skip(header_done.len() as int));
            assert(after_attrs =~= header_done + ab);
        }

        let child_count = self.children.len();
        let ghost children_v = self@.children;
        let mut j: usize = 0;
        proof {
            assert(children_v.skip(0) =~= children_v);
            assert((data@.skip(after_attrs.len() as int)) =~= Seq::<u8>::empty());
            match spec_children_bytes(children_v, b2) {
                (t, b) => {
                    assert(Seq::<u8>::empty() + t =~= t);
                },
            }
            assert(forall|x: int|
                #![trigger children_v[x]]
                0 <= x < children_v.len() ==> children_v[x] == node_view(
                    *self.children@[x],
                ));
            assert(children_fit(children_v));
            assert forall|x: int|
                0 <= x < children_v.len() implies #[trigger] node_fits(children_v[x]) by {
                lemma_children_fit_index(children_v, x);
            }
        }
        while j < child_count
            invariant
                j <= child_count,
                child_count == children_v.len(),
                child_count == self.children@.len(),
                forall|x: int|
                    #![trigger children_v[x]]
                    0 <= x < children_v.len() ==> children_v[x] == node_view(
                        *self.children@[x],
                    ),
                forall|x: int|
                    0 <= x < children_v.len() ==> #[trigger] node_fits(children_v[x]),
                string_chunk_builder@.len() + children_puts(children_v.skip(j as int)) + 1
                    <= u32::MAX,
                spec_children_bytes(children_v, b2) == emit_step(
                    data@.skip(after_attrs.len() as int),
                    spec_children_bytes(children_v.skip(j as int), string_chunk_builder@),
                ),
                data@.len() >= after_attrs.len(),
                data@.subrange(0, after_attrs.len() as int) == after_attrs,
            decreases child_count - j,
        {
            let ghost bcur = string_chunk_builder@;
            let ghost done = data@.skip(after_attrs.len() as int);
            proof {
                assert(children_v.skip(j as int)[0] == children_v[j as int]);
                assert(children_v[j as int] == node_view(*self.children@[j as int]));
                assert(node_fits(children_v[j as int]));
                assert(children_v.skip(j as int).drop_first() =~= children_v.skip(j + 1));
                lemma_children_puts_nonneg(children_v.skip(j + 1));
                lemma_node_puts_nonneg(children_v[j as int]);
            }
            let child = &self.children[j];
            child.regenerate(data, string_chunk_builder);
            proof {
                let (h, bn) = spec_node_bytes(children_v[j as int], bcur);
                lemma_node_growth(children_v[j as int], bcur);
                assert(spec_children_bytes(children_v.skip(j as int), bcur) == (
                    h + spec_children_bytes(children_v.skip(j + 1), bn).0,
                    spec_children_bytes(children_v.skip(j + 1), bn).1,
                ));
                assert(done + (h + spec_children_bytes(children_v.skip(j + 1), bn).0)
                    =~= (done + h) + spec_children_bytes(children_v.skip(j + 1), bn).0);
                assert(data@.skip(after_attrs.len() as int) =~= done + h);
                assert(data@.subrange(0, after_attrs.len() as int) =~= after_attrs);
            }
            j = j + 1;
        }
        proof {
            assert(children_v.skip(child_count as int) =~= Seq::<NodeV>::empty());
            let (t0, bx) = spec_children_bytes(children_v.skip(child_count as int),
                string_chunk_builder@);
            assert(t0 =~= Seq::<u8>::empty());
            assert((data@.skip(after_attrs.len() as int)) + Seq::<u8>::empty() =~= data@.skip(
                after_attrs.len() as int,
            ));
        }
        let ghost cb = spec_children_bytes(self@.children, b2).0;
        let ghost b3 = string_chunk_builder@;
        let ghost after_children = data@;
        proof {
            assert(cb == data@.skip(after_attrs.len() as int));
            assert(after_children =~= after_attrs + cb);
        }

        let ti2 = string_chunk_builder.put(&self.tag_name);
        push_leu32(data, END_TAG);
        push_leu32(data, 24);
        push_leu32(data, 1);
        push_leu32(data, 0xFFFFFFFF);
        push_leu32(data, 0xFFFFFFFF);
        push_leu32(data, ti2);
        proof {
            let hd = le32_bytes(START_TAG) + le32_bytes((36 + 20 * self@.attrs.len()) as u32)
                + le32_bytes(1) + le32_bytes(0xFFFFFFFF) + le32_bytes(0xFFFFFFFF) + le32_bytes(
                ti,
            ) + le32_bytes(0x00140014) + le32_bytes(self@.attrs.len() as u32) + le32_bytes(0);
            let eb = le32_bytes(END_TAG) + le32_bytes(24) + le32_bytes(1) + le32_bytes(
                0xFFFFFFFF,
            ) + le32_bytes(0xFFFFFFFF) + le32_bytes(ti2);
            assert(header_done =~= old(data)@ + hd);
            assert(final(data)@ =~= after_children + eb);
            assert(spec_node_bytes(self@, b0).0 =~= hd + ab + cb + eb);
            assert(final(data)@ =~= old(data)@ + spec_node_bytes(self@, b0).0);
        }
    }
}

impl XmlAttributeValue {
    /// A framework attribute carrying a string value: the `android`
    /// namespace, the given resource-map index, and the interned value as
    /// its data word.
    pub fn new_attr(
        idx: u32,
        name: &str,
        value: &str,
        string_chunk_builder: &mut StringChunkBuilder,
    ) -> (r: XmlAttributeValue)
        requires
            old(string_chunk_builder)@.len() < u32::MAX,
        ensures
            r@ == (AttrV {
                namespace_uri: Some(utf16("http://schemas.android.com/apk/res/android"@)),
                name_index: idx,
                name: utf16(name@),
                value_type: 0x3000008,
                string_data: Some(utf16(value@)),
                data: spec_put_index(old(string_chunk_builder)@, utf16(value@)) as u32,
            }),
            final(string_chunk_builder)@ == spec_put_state(
                old(string_chunk_builder)@,
                utf16(value@),
            ),
    {
        let value_units = encode_utf16_units(value);
        let data = string_chunk_builder.put(&value_units);
        XmlAttributeValue {
            namespace_uri: Some(
                encode_utf16_units("http://schemas.android.com/apk/res/android"),
            ),
            name: encode_utf16_units(name),
            name_index: idx,
            value_type: 0x3000008,
            string_data: Some(value_units),
            data,
        }
    }

    /// The `android:name` attribute of a manifest component.
    pub fn new_name_attr(value: &str, string_chunk_builder: &mut StringChunkBuilder) -> (r:
        XmlAttributeValue)
        requires
            old(string_chunk_builder)@.len() < u32::MAX,
        ensures
            r@ == (AttrV {
                namespace_uri: Some(utf16("http://schemas.android.com/apk/res/android"@)),
                name_index: 3,
                name: utf16("name"@),
                value_type: 0x3000008,
                string_data: Some(utf16(value@)),
                data: spec_put_index(old(string_chunk_builder)@, utf16(value@)) as u32,
            }),
            final(string_chunk_builder)@ == spec_put_state(
                old(string_chunk_builder)@,
                utf16(value@),
            ),
    {
        XmlAttributeValue::new_attr(3, "name", value, string_chunk_builder)
    }

    /// The `android:authorities` attribute of a content provider.
    pub fn new_authorities_attr(value: &str, string_chunk_builder: &mut StringChunkBuilder) -> (
        r: XmlAttributeValue)
        requires
            old(string_chunk_builder)@.len() < u32::MAX,
        ensures
            r@ == (AttrV {
                namespace_uri: Some(utf16("http://schemas.android.com/apk/res/android"@)),
                name_index: 5,
                name: utf16("authorities"@),
                value_type: 0x3000008,
                string_data: Some(utf16(value@)),
                data: spec_put_index(old(string_chunk_builder)@, utf16(value@)) as u32,
            }),
            final(string_chunk_builder)@ == spec_put_state(
                old(string_chunk_builder)@,
                utf16(value@),
            ),
    {
        XmlAttributeValue::new_attr(5, "authorities", value, string_chunk_builder)
    }
}

/// One namespace chunk, open or close: six words, the last two the
/// interned prefix and uri.
pub open spec fn spec_ns_chunk_bytes(
    magic: u32,
    b: Seq<Seq<u16>>,
    prefix: Seq<u16>,
    uri: Seq<u16>,
) -> (Seq<u8>, Seq<Seq<u16>>) {
    let pi = spec_put_index(b, prefix) as u32;
    let b1 = spec_put_state(b, prefix);
    let ui = spec_put_index(b1, uri) as u32;
    let b2 = spec_put_state(b1, uri);
    (
        le32_bytes(magic) + le32_bytes(24) + le32_bytes(1) + le32_bytes(0xFFFFFFFF)
            + le32_bytes(pi) + le32_bytes(ui),
        b2,
    )
}

/// The regenerated content section: namespace open, the root subtree,
/// namespace close.
pub open spec fn spec_content_bytes(c: ContentV, b: Seq<Seq<u16>>) -> (Seq<u8>, Seq<Seq<u16>>) {
    let (nsb, b1) = spec_ns_chunk_bytes(START_NAMESPACE, b, c.prefix, c.uri);
    let (nb, b2) = spec_node_bytes(c.root, b1);
    let (eb, b3) = spec_ns_chunk_bytes(END_NAMESPACE, b2, c.prefix, c.uri);
    (nsb + nb + eb, b3)
}

/// Writes one namespace chunk.  Exactly `spec_ns_chunk_bytes`.
fn emit_ns_chunk(
    magic: u32,
    prefix: &Vec<u16>,
    uri: &Vec<u16>,
    data: &mut Vec<u8>,
    string_chunk_builder: &mut StringChunkBuilder,
)
    requires
        old(string_chunk_builder)@.len() + 2 <= u32::MAX,
    ensures
        final(data)@ == old(data)@ + spec_ns_chunk_bytes(
            magic,
            old(string_chunk_builder)@,
            prefix@,
            uri@,
        ).0,
        final(string_chunk_builder)@ == spec_ns_chunk_bytes(
            magic,
            old(string_chunk_builder)@,
            prefix@,
            uri@,
        ).1,
{
    let ghost b0 = string_chunk_builder@;
    let pi = string_chunk_builder.put(prefix);
    proof {
        lemma_put_index_range(b0, prefix@);
    }
    let ui = string_chunk_builder.put(uri);
    push_leu32(data, magic);
    push_leu32(data, 24);
    push_leu32(data, 1);
    push_leu32(data, 0xFFFFFFFF);
    push_leu32(data, pi);
    push_leu32(data, ui);
    proof {
        assert(final(data)@ =~= old(data)@ + spec_ns_chunk_bytes(magic, b0, prefix@, uri@).0);
    }
}

impl XmlContent {
    /// Regenerates the content section onto a fresh buffer.  Exactly
    /// `spec_content_bytes`.
    pub fn to_data(&self, string_chunk_builder: &mut StringChunkBuilder) -> (r: Vec<u8>)
        requires
            node_fits(self@.root),
            old(string_chunk_builder)@.len() + node_puts(self@.root) + 4 <= u32::MAX,
        ensures
            r@ == spec_content_bytes(self@, old(string_chunk_builder)@).0,
            final(string_chunk_builder)@ == spec_content_bytes(
                self@,
                old(string_chunk_builder)@,
            ).1,
    {
        let ghost b0 = string_chunk_builder@;
        proof {
            lemma_node_puts_nonneg(self@.root);
        }
        let mut res: Vec<u8> = Vec::new();
        proof {
            assert(res@ =~= Seq::<u8>::empty());
        }
        emit_ns_chunk(
            START_NAMESPACE,
            &self.namespace_prefix,
            &self.namespace_uri,
            &mut res,
            string_chunk_builder,
        );
        let ghost nsb = res@;
        let ghost b1 = string_chunk_builder@;
        proof {
            lemma_put_growth(b0, self@.prefix);
            lemma_put_growth(spec_put_state(b0, self@.prefix), self@.uri);
        }
        self.root_node.regenerate(&mut res, string_chunk_builder);
        let ghost b2 = string_chunk_builder@;
        proof {
            lemma_node_growth(self@.root, b1);
        }
        emit_ns_chunk(
            END_NAMESPACE,
            &self.namespace_prefix,
            &self.namespace_uri,
            &mut res,
            string_chunk_builder,
        );
        proof {
            assert(Seq::<u8>::empty() + spec_ns_chunk_bytes(
                START_NAMESPACE,
                b0,
                self@.prefix,
                self@.uri,
            ).0 =~= spec_ns_chunk_bytes(START_NAMESPACE, b0, self@.prefix, self@.uri).0);
            assert(res@ =~= spec_content_bytes(self@, b0).0);
        }
        res
    }
}

/// A parsed pool holds exactly as many strings as its header declares.
pub proof fn lemma_pool_strings_len(
    d: Seq<u8>,
    chunk_off: int,
    spool: int,
    idx_off: int,
    k: int,
)
    requires
        k >= 0,
        spec_pool_strings(d, chunk_off, spool, idx_off, k) is Ok,
    ensures
        spec_pool_strings(d, chunk_off, spool, idx_off, k)->Ok_0.len() == k,
    decreases k,
{
    if k > 0 {
        lemma_pool_strings_len(d, chunk_off, spool, idx_off, k - 1);
    }
}

/// The whole regenerated document: magic and total length, the pool built
/// from the final builder state, the resource map verbatim, then the
/// content.
pub open spec fn spec_regen_bytes(x: AxmlV, b: Seq<Seq<u16>>) -> Seq<u8> {
    let (cb, b2) = spec_content_bytes(x.content, b);
    let pb = spec_pool_chunk_bytes(b2);
    le32_bytes(XML_MAGIC) + le32_bytes((8 + pb.len() + x.res.raw.len() + cb.len()) as u32) + pb
        + x.res.raw + cb
}

impl AndroidXml {
    /// Regenerates the document, interning through the given builder.
    /// Exactly `spec_regen_bytes`.
    pub fn regenerate(&self, string_chunk_builder: &mut StringChunkBuilder) -> (r: Vec<u8>)
        requires
            node_fits(self@.content.root),
            old(string_chunk_builder)@.len() + node_puts(self@.content.root) + 4 <= u32::MAX,
            pool_emit_fits(spec_content_bytes(self@.content, old(string_chunk_builder)@).1),
            8 + spec_pool_chunk_bytes(
                spec_content_bytes(self@.content, old(string_chunk_builder)@).1,
            ).len() + self@.res.raw.len() + spec_content_bytes(
                self@.content,
                old(string_chunk_builder)@,
            ).0.len() <= u32::MAX,
        ensures
            r@ == spec_regen_bytes(self@, old(string_chunk_builder)@),
            final(string_chunk_builder)@ == spec_content_bytes(
                self@.content,
                old(string_chunk_builder)@,
            ).1,
    {
        let ghost b0 = string_chunk_builder@;
        let content_data = self.content.to_data(string_chunk_builder);
        let string_chunk_data = string_chunk_builder.build();
        let file_size64: u64 = 8 + string_chunk_data.len() as u64
            + self.resource_chunk.raw.len() as u64 + content_data.len() as u64;
        let mut res: Vec<u8> = Vec::new();
        push_leu32(&mut res, XML_MAGIC);
        push_leu32(&mut res, file_size64 as u32);
        push_bytes(&mut res, string_chunk_data.as_slice());
        push_bytes(&mut res, self.resource_chunk.raw.as_slice());
        push_bytes(&mut res, content_data.as_slice());
        proof {
            assert(res@ =~= spec_regen_bytes(self@, b0));
        }
        res
    }
}

/// Appends `node` as the last child of the `idx`-th child of `root`: the
/// grandparent keeps its tag and attributes, every sibling stays, and the
/// chosen child gains one child at the end.
pub fn append_grandchild(root: &mut XmlNode, idx: usize, node: Box<XmlNode>)
    requires
        idx < old(root).children@.len(),
    ensures
        final(root).tag_name == old(root).tag_name,
        final(root).attrs == old(root).attrs,
        node_view(*final(root)).tag_name == node_view(*old(root)).tag_name,
        node_view(*final(root)).attrs == node_view(*old(root)).attrs,
        node_view(*final(root)).children == node_view(*old(root)).children.update(
            idx as int,
            NodeV {
                tag_name: node_view(*old(root)).children[idx as int].tag_name,
                attrs: node_view(*old(root)).children[idx as int].attrs,
                children: node_view(*old(root)).children[idx as int].children.push(node@),
            },
        ),
{
    let ghost old_root = *root;
    let ghost node_v = node@;
    let child = vstd::std_specs::vec::vec_index_mut(&mut root.children, idx);
    let ghost old_child = **child;
    child.push_child(node);
    proof {
        let oc = node_view(old_child);
        assert(node_view(**final(child)).tag_name == oc.tag_name);
        assert(node_view(**final(child)).attrs =~= oc.attrs);
        assert(node_view(**final(child)).children =~= oc.children.push(node_v)) by {
            assert(final(child).children@ == old_child.children@.push(node));
            assert forall|x: int|
                0 <= x < final(child).children@.len() implies node_view(
                *final(child).children@[x],
            ) == oc.children.push(node_v)[x] by {
                if x < old_child.children@.len() {
                    assert(final(child).children@[x] == old_child.children@[x]);
                } else {
                    assert(final(child).children@[x] == node);
                }
            }
        }
        assert(node_view(*old(root)).children[idx as int] == node_view(
            *old(root).children@[idx as int],
        ));
        assert(node_view(*final(root)).children =~= node_view(*old(root)).children.update(
            idx as int,
            node_view(**final(child)),
        )) by {
            assert(final(root).children@ == old(root).children@.update(
                idx as int,
                *final(child),
            ));
            assert forall|x: int|
                0 <= x < final(root).children@.len() implies node_view(
                *final(root).children@[x],
            ) == node_view(*old(root)).children.update(idx as int, node_view(**final(child)))[x]
                by {
                if x == idx as int {
                } else {
                    assert(final(root).children@[x] == old(root).children@[x]);
                    assert(node_view(*old(root)).children[x] == node_view(
                        *old(root).children@[x],
                    ));
                }
            }
        }
        assert(node_view(*final(root)).attrs =~= node_view(*old(root)).attrs);
    }
}

} // verus!
