//! Minimal NBT writer. Only the tags the Sponge schematic format needs.
//!
//! NBT is big-endian, tag-prefixed, with names as modified-UTF8 length-prefixed
//! strings. The crate only ever *writes*, so a builder-style tree plus a
//! serializer is enough; there is no parser here.
use crate::text::characters;
use vstd::prelude::*;
use vstd::string::*;

verus! {

#[derive(Debug)]
pub enum Tag {
    Byte(i8),
    Short(i16),
    Int(i32),
    Long(i64),
    ByteArray(Vec<u8>),
    String(String),
    List(u8, Vec<Tag>),
    Compound(Vec<(String, Tag)>),
    IntArray(Vec<i32>),
}

/// A tag as a mathematical value.
pub enum TagTree {
    Byte(i8),
    Short(i16),
    Int(i32),
    Long(i64),
    ByteArray(Seq<u8>),
    Text(Seq<char>),
    List(u8, Seq<TagTree>),
    Compound(Seq<(Seq<char>, TagTree)>),
    IntArray(Seq<i32>),
}

/// The last `n` bytes of `v` in two's complement, most significant first.
pub open spec fn big_endian(v: int, n: nat) -> Seq<u8>
    decreases n,
{
    if n == 0 {
        Seq::empty()
    } else {
        big_endian(v / 256, (n - 1) as nat).push((v % 256) as u8)
    }
}

/// The number of a tag's kind.
pub open spec fn kind_of(t: TagTree) -> u8 {
    match t {
        TagTree::Byte(_) => 1,
        TagTree::Short(_) => 2,
        TagTree::Int(_) => 3,
        TagTree::Long(_) => 4,
        TagTree::ByteArray(_) => 7,
        TagTree::Text(_) => 8,
        TagTree::List(_, _) => 9,
        TagTree::Compound(_) => 10,
        TagTree::IntArray(_) => 11,
    }
}

/// ASCII in modified UTF-8: one byte per character, but two for NUL.
pub open spec fn modified_utf8(s: Seq<char>) -> Seq<u8>
    decreases s.len(),
{
    if s.len() == 0 {
        Seq::empty()
    } else if s.last() == '\0' {
        modified_utf8(s.drop_last()) + seq![0xc0u8, 0x80u8]
    } else {
        modified_utf8(s.drop_last()).push(s.last() as u8)
    }
}

/// A text with its length in two bytes before it.
pub open spec fn text_bytes(s: Seq<char>) -> Seq<u8> {
    big_endian(modified_utf8(s).len() as int, 2) + modified_utf8(s)
}

/// Integers in four bytes each.
pub open spec fn int_bytes(v: Seq<i32>) -> Seq<u8>
    decreases v.len(),
{
    if v.len() == 0 {
        Seq::empty()
    } else {
        int_bytes(v.drop_last()) + big_endian(v.last() as int, 4)
    }
}

/// What is written of a tag after its kind and name.
pub open spec fn payload(t: TagTree) -> Seq<u8>
    decreases t,
{
    match t {
        TagTree::Byte(v) => big_endian(v as int, 1),
        TagTree::Short(v) => big_endian(v as int, 2),
        TagTree::Int(v) => big_endian(v as int, 4),
        TagTree::Long(v) => big_endian(v as int, 8),
        TagTree::ByteArray(v) => big_endian(v.len() as int, 4) + v,
        TagTree::Text(s) => text_bytes(s),
        TagTree::List(id, items) => seq![if items.len() == 0 { 0u8 } else { id }] + big_endian(
            items.len() as int,
            4,
        ) + item_bytes(items, items.len()),
        TagTree::Compound(fields) => field_bytes(fields, fields.len()).push(0u8),
        TagTree::IntArray(v) => big_endian(v.len() as int, 4) + int_bytes(v),
    }
}

/// The payloads of the first `n` items.
pub open spec fn item_bytes(items: Seq<TagTree>, n: nat) -> Seq<u8>
    decreases items, n,
{
    if 0 < n <= items.len() {
        item_bytes(items, (n - 1) as nat) + payload(items[n - 1])
    } else {
        Seq::empty()
    }
}

/// The first `n` fields: kind, name and payload of each.
pub open spec fn field_bytes(fields: Seq<(Seq<char>, TagTree)>, n: nat) -> Seq<u8>
    decreases fields, n,
{
    if 0 < n <= fields.len() {
        field_bytes(fields, (n - 1) as nat) + seq![kind_of(fields[n - 1].1)] + text_bytes(
            fields[n - 1].0,
        ) + payload(fields[n - 1].1)
    } else {
        Seq::empty()
    }
}

/// A named tag.
pub open spec fn root_bytes(name: Seq<char>, t: TagTree) -> Seq<u8> {
    seq![kind_of(t)] + text_bytes(name) + payload(t)
}

/// Every name and text in the tag is plain ASCII.
pub open spec fn plain(t: TagTree) -> bool
    decreases t,
{
    match t {
        TagTree::Text(s) => is_ascii_text(s),
        TagTree::List(_, items) => forall|i: int| 0 <= i < items.len() ==> plain(#[trigger] items[i]),
        TagTree::Compound(fields) => forall|i: int|
            0 <= i < fields.len() ==> is_ascii_text((#[trigger] fields[i]).0) && plain(fields[i].1),
        _ => true,
    }
}

/// Every character is ASCII.
pub open spec fn is_ascii_text(s: Seq<char>) -> bool {
    forall|i: int| 0 <= i < s.len() ==> (#[trigger] s[i] as u32) < 128
}

fn push_be(out: &mut Vec<u8>, v: i128, n: u32)
    ensures
        final(out)@ == old(out)@ + big_endian(v as int, n as nat),
    decreases n,
{
    if n > 0 {
        let q: i128 = if v >= 0 {
            v / 256
        } else {
            -((-(v + 1)) / 256) - 1
        };
        let r: i128 = v - q * 256;
        assert(q == v as int / 256 && r == v as int % 256);
        push_be(out, q, n - 1);
        out.push(r as u8);
    }
    assert(out@ =~= old(out)@ + big_endian(v as int, n as nat));
}

/// Append bytes.
fn push_all(out: &mut Vec<u8>, v: &[u8])
    ensures
        final(out)@ == old(out)@ + v@,
{
    for i in 0..v.len()
        invariant
            out@ == old(out)@ + v@.take(i as int),
    {
        out.push(v[i]);
        assert(out@ =~= old(out)@ + v@.take(i + 1));
    }
    assert(v@.take(v@.len() as int) =~= v@);
}

impl Tag {
    pub open spec fn tree(&self) -> TagTree
        decreases self,
    {
        match self {
            Tag::Byte(v) => TagTree::Byte(*v),
            Tag::Short(v) => TagTree::Short(*v),
            Tag::Int(v) => TagTree::Int(*v),
            Tag::Long(v) => TagTree::Long(*v),
            Tag::ByteArray(v) => TagTree::ByteArray(v@),
            Tag::String(s) => TagTree::Text(s@),
            Tag::List(id, items) => TagTree::List(
                *id,
                Seq::new(
                    items@.len(),
                    |i: int|
                        if 0 <= i < items@.len() {
                            items@[i].tree()
                        } else {
                            arbitrary()
                        },
                ),
            ),
            Tag::Compound(fields) => TagTree::Compound(
                Seq::new(
                    fields@.len(),
                    |i: int|
                        if 0 <= i < fields@.len() {
                            (fields@[i].0@, fields@[i].1.tree())
                        } else {
                            arbitrary()
                        },
                ),
            ),
            Tag::IntArray(v) => TagTree::IntArray(v@),
        }
    }

    fn id(&self) -> (r: u8)
        ensures
            r == kind_of(self.tree()),
    {
        match self {
            Tag::Byte(_) => 1,
            Tag::Short(_) => 2,
            Tag::Int(_) => 3,
            Tag::Long(_) => 4,
            Tag::ByteArray(_) => 7,
            Tag::String(_) => 8,
            Tag::List(_, _) => 9,
            Tag::Compound(_) => 10,
            Tag::IntArray(_) => 11,
        }
    }

    /// Append what follows the tag's kind and name.
    pub fn write_payload(&self, out: &mut Vec<u8>)
        requires
            plain(self.tree()),
        ensures
            final(out)@ == old(out)@ + payload(self.tree()),
        decreases self,
    {
        match self {
            Tag::Byte(v) => push_be(out, *v as i128, 1),
            Tag::Short(v) => push_be(out, *v as i128, 2),
            Tag::Int(v) => push_be(out, *v as i128, 4),
            Tag::Long(v) => push_be(out, *v as i128, 8),
            Tag::ByteArray(v) => {
                push_be(out, v.len() as i128, 4);
                push_all(out, v.as_slice());
            },
            Tag::String(s) => write_string(out, s.as_str()),
            Tag::List(elem_id, items) => {
                // An empty list is conventionally written with element type TAG_End.
                out.push(if items.len() == 0 { 0 } else { *elem_id });
                push_be(out, items.len() as i128, 4);
                let ghost head = out@;
                let ghost trees = self.tree()->List_1;
                for i in 0..items.len()
                    invariant
                        trees.len() == items@.len(),
                        forall|j: int| 0 <= j < trees.len() ==> plain(#[trigger] trees[j]) && trees[j] == items@[j].tree(),
                        forall|j: int| 0 <= j < items@.len() ==> decreases_to!(self => #[trigger] items@[j]),
                        out@ == head + item_bytes(trees, i as nat),
                {
                    assert(plain(trees[i as int]));
                    items[i].write_payload(out);
                    assert(out@ =~= head + item_bytes(trees, (i + 1) as nat));
                }
            },
            Tag::Compound(fields) => {
                let ghost head = out@;
                let ghost trees = self.tree()->Compound_0;
                for i in 0..fields.len()
                    invariant
                        trees.len() == fields@.len(),
                        forall|j: int| 0 <= j < trees.len() ==> is_ascii_text((#[trigger] trees[j]).0) && plain(trees[j].1)
                            && trees[j] == (fields@[j].0@, fields@[j].1.tree()),
                        forall|j: int| 0 <= j < fields@.len() ==> decreases_to!(self => (#[trigger] fields@[j]).1),
                        out@ == head + field_bytes(trees, i as nat),
                {
                    assert(plain(trees[i as int].1));
                    out.push(fields[i].1.id());
                    write_string(out, fields[i].0.as_str());
                    fields[i].1.write_payload(out);
                    assert(out@ =~= head + field_bytes(trees, (i + 1) as nat));
                }
                out.push(0);  // TAG_End
            },
            Tag::IntArray(v) => {
                push_be(out, v.len() as i128, 4);
                let ghost head = out@;
                for i in 0..v.len()
                    invariant
                        out@ == head + int_bytes(v@.take(i as int)),
                {
                    push_be(out, v[i] as i128, 4);
                    proof {
                        let next = v@.take(i + 1);
                        assert(next.drop_last() =~= v@.take(i as int));
                        assert(out@ =~= head + int_bytes(next));
                    }
                }
                assert(v@.take(v@.len() as int) =~= v@);
            },
        }
        assert(out@ =~= old(out)@ + payload(self.tree()));
    }
}

fn copy_tag(t: &Tag) -> (r: Tag)
    ensures
        r.tree() == t.tree(),
    decreases t,
{
    proof {
        reveal_with_fuel(Tag::tree, 2);
    }
    match t {
        Tag::Byte(v) => Tag::Byte(*v),
        Tag::Short(v) => Tag::Short(*v),
        Tag::Int(v) => Tag::Int(*v),
        Tag::Long(v) => Tag::Long(*v),
        Tag::ByteArray(v) => {
            let w = v.clone();
            assert(w@ =~= v@);
            Tag::ByteArray(w)
        },
        Tag::String(s) => Tag::String(s.clone()),
        Tag::List(id, items) => {
            let mut copies: Vec<Tag> = Vec::new();
            for i in 0..items.len()
                invariant
                    forall|k: int| 0 <= k < items@.len() ==> decreases_to!(t => #[trigger] items@[k]),
                    copies@.len() == i,
                    forall|k: int| 0 <= k < i ==> (#[trigger] copies@[k]).tree() == items@[k].tree(),
            {
                copies.push(copy_tag(&items[i]));
            }
            let r = Tag::List(*id, copies);
            assert(r.tree()->List_1 =~= t.tree()->List_1);
            r
        },
        Tag::Compound(fields) => {
            let mut copies: Vec<(String, Tag)> = Vec::new();
            for i in 0..fields.len()
                invariant
                    forall|k: int| 0 <= k < fields@.len() ==> decreases_to!(t => (#[trigger] fields@[k]).1),
                    copies@.len() == i,
                    forall|k: int|
                        0 <= k < i ==> (#[trigger] copies@[k]).0@ == fields@[k].0@ && copies@[k].1.tree()
                            == fields@[k].1.tree(),
            {
                copies.push((fields[i].0.clone(), copy_tag(&fields[i].1)));
            }
            let r = Tag::Compound(copies);
            assert(r.tree()->Compound_0 =~= t.tree()->Compound_0);
            r
        },
        Tag::IntArray(v) => {
            let w = v.clone();
            assert(w@ =~= v@);
            Tag::IntArray(w)
        },
    }
}

impl Clone for Tag {
    fn clone(&self) -> (r: Tag)
        ensures
            r.tree() == self.tree(),
    {
        copy_tag(self)
    }
}

/// Append a text. Modified UTF-8 differs from UTF-8 only for NUL and
/// supplementary-plane characters, and names and block identifiers are ASCII.
fn write_string(out: &mut Vec<u8>, s: &str)
    requires
        is_ascii_text(s@),
    ensures
        final(out)@ == old(out)@ + text_bytes(s@),
{
    let cs = characters(s);
    let mut b: Vec<u8> = Vec::new();
    for i in 0..cs.len()
        invariant
            cs@ == s@,
            is_ascii_text(s@),
            b@ == modified_utf8(cs@.take(i as int)),
    {
        let c: char = cs[i];
        assert((s@[i as int] as u32) < 128);
        assert(cs@.take(i + 1).drop_last() =~= cs@.take(i as int));
        assert(cs@.take(i + 1).last() == c);
        if c == '\0' {
            b.push(0xc0);
            b.push(0x80);
            assert(b@ =~= modified_utf8(cs@.take(i as int)) + seq![0xc0u8, 0x80u8]);
        } else {
            b.push(c as u8);
        }
    }
    assert(cs@.take(cs@.len() as int) =~= cs@);
    push_be(out, b.len() as i128, 2);
    push_all(out, b.as_slice());
    assert(out@ =~= old(out)@ + text_bytes(s@));
}

/// Serialize a named root tag to uncompressed NBT bytes.
pub fn write_root(name: &str, tag: &Tag) -> (out: Vec<u8>)
    requires
        is_ascii_text(name@),
        plain(tag.tree()),
    ensures
        out@ == root_bytes(name@, tag.tree()),
{
    let mut out: Vec<u8> = Vec::new();
    out.push(tag.id());
    write_string(&mut out, name);
    tag.write_payload(&mut out);
    assert(out@ =~= root_bytes(name@, tag.tree()));
    out
}

/// Base-128 digits, least significant first; every byte but the last has its top
/// bit set.
pub open spec fn leb128(v: nat) -> Seq<u8>
    decreases v,
{
    if v < 128 {
        seq![v as u8]
    } else {
        seq![(v % 128 + 128) as u8] + leb128(v / 128)
    }
}

/// LEB128-style varint, as used by the schematic block data array.
pub fn write_varint(out: &mut Vec<u8>, value: u32)
    ensures
        final(out)@ == old(out)@ + leb128(value as nat),
{
    let mut v: u32 = value;
    while v >= 128
        invariant
            out@ + leb128(v as nat) == old(out)@ + leb128(value as nat),
        decreases v,
    {
        let ghost before = out@;
        out.push((v % 128 + 128) as u8);
        assert(out@ + leb128((v / 128) as nat) =~= before + leb128(v as nat));
        v = v / 128;
    }
    out.push(v as u8);
    assert(out@ =~= old(out)@ + leb128(value as nat));
}

/// The number that a varint at the front of `b` stands for, and its length.
pub open spec fn read_leb128(b: Seq<u8>) -> Option<(nat, nat)>
    decreases b.len(),
{
    if b.len() == 0 {
        None
    } else if b[0] < 128 {
        Some((b[0] as nat, 1))
    } else {
        match read_leb128(b.skip(1)) {
            Some((v, n)) => Some(((b[0] - 128) as nat + 128 * v, n + 1)),
            None => None,
        }
    }
}

/// A varint is read back as it was written, whatever follows it.
pub proof fn lemma_varint_round_trip(v: nat, rest: Seq<u8>)
    ensures
        read_leb128(leb128(v) + rest) == Some((v, leb128(v).len())),
    decreases v,
{
    if v >= 128 {
        lemma_varint_round_trip(v / 128, rest);
        assert((leb128(v) + rest).skip(1) =~= leb128(v / 128) + rest);
    }
}

/// Two different numbers have different varints.
pub proof fn lemma_varint_injective(v: nat, w: nat)
    requires
        leb128(v) == leb128(w),
    ensures
        v == w,
{
    lemma_varint_round_trip(v, Seq::empty());
    lemma_varint_round_trip(w, Seq::empty());
}

} // verus!
