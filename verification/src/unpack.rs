//! Reading NBT: what is written is read back.
use crate::nbt::{
    big_endian, field_bytes, int_bytes, is_ascii_text, item_bytes, kind_of, modified_utf8, payload,
    root_bytes, text_bytes, TagTree,
};
use vstd::prelude::*;

verus! {

// --- numbers and text --------------------------------------------------------------------------

/// Bytes as a number, most significant first.
pub open spec fn unsigned_of(b: Seq<u8>) -> nat
    decreases b.len(),
{
    if b.len() == 0 {
        0
    } else {
        unsigned_of(b.drop_last()) * 256 + b.last() as nat
    }
}

/// One, two, four or eight bytes as a number in two's complement.
pub open spec fn signed_of(b: Seq<u8>) -> int {
    let v = unsigned_of(b) as int;
    if b.len() == 0 || b[0] < 128 {
        v
    } else if b.len() == 1 {
        v - 0x100
    } else if b.len() == 2 {
        v - 0x1_0000
    } else if b.len() == 4 {
        v - 0x1_0000_0000
    } else {
        v - 0x1_0000_0000_0000_0000
    }
}

proof fn lemma_byte(v: int)
    requires
        -0x80 <= v < 0x80,
    ensures
        big_endian(v, 1).len() == 1,
        signed_of(big_endian(v, 1)) == v,
{
    reveal_with_fuel(big_endian, 2);
    reveal_with_fuel(unsigned_of, 2);
    assert(big_endian(v, 1).drop_last() =~= Seq::empty());
}

/// Two bytes.
proof fn lemma_two(v: int)
    ensures
        big_endian(v, 2).len() == 2,
        0 <= v < 0x1_0000 ==> unsigned_of(big_endian(v, 2)) == v,
        -0x8000 <= v < 0x8000 ==> signed_of(big_endian(v, 2)) == v,
{
    reveal_with_fuel(big_endian, 3);
    reveal_with_fuel(unsigned_of, 3);
    let b = big_endian(v, 2);
    assert(b.drop_last() =~= big_endian(v / 256, 1));
    assert(big_endian(v / 256, 1).drop_last() =~= Seq::empty());
    assert(b[0] == ((v / 256) % 256) as u8 && b[1] == (v % 256) as u8);
}

proof fn lemma_more(v: int, n: nat)
    requires
        n > 0,
    ensures
        big_endian(v, n).len() == n,
        unsigned_of(big_endian(v, n)) == unsigned_of(big_endian(v / 256, (n - 1) as nat)) * 256 + v % 256,
        n > 1 ==> big_endian(v, n)[0] == big_endian(v / 256, (n - 1) as nat)[0],
    decreases n,
{
    if n > 1 {
        lemma_more(v / 256, (n - 1) as nat);
    }
    assert(big_endian(v, n).drop_last() =~= big_endian(v / 256, (n - 1) as nat));
}

/// Four bytes.
proof fn lemma_four(v: int)
    ensures
        big_endian(v, 4).len() == 4,
        0 <= v < 0x1_0000_0000 ==> unsigned_of(big_endian(v, 4)) == v,
        -0x8000_0000 <= v < 0x8000_0000 ==> signed_of(big_endian(v, 4)) == v,
{
    lemma_more(v, 4);
    lemma_more(v / 256, 3);
    lemma_two(v / 256 / 256);
    let w = v / 256 / 256;
    lemma_more(w, 2);
    lemma_more(w / 256, 1);
    let top = big_endian(w, 2);
    assert(big_endian(v, 4)[0] == top[0]);
    if -0x8000_0000 <= v < 0x8000_0000 {
        assert(-0x8000 <= w < 0x8000);
        assert(signed_of(top) == w);
    }
}

/// Eight bytes.
proof fn lemma_eight(v: int)
    ensures
        big_endian(v, 8).len() == 8,
        -0x8000_0000_0000_0000 <= v < 0x8000_0000_0000_0000 ==> signed_of(big_endian(v, 8)) == v,
{
    lemma_more(v, 8);
    lemma_more(v / 256, 7);
    lemma_more(v / 256 / 256, 6);
    lemma_more(v / 256 / 256 / 256, 5);
    let w = v / 256 / 256 / 256 / 256;
    lemma_four(w);
    if -0x8000_0000_0000_0000 <= v < 0x8000_0000_0000_0000 {
        assert(-0x8000_0000 <= w < 0x8000_0000);
        assert(signed_of(big_endian(w, 4)) == w);
    }
}

/// ASCII in modified UTF-8, as characters.
pub open spec fn decoded(b: Seq<u8>) -> Option<Seq<char>>
    decreases b.len(),
{
    if b.len() == 0 {
        Some(Seq::empty())
    } else if 0 < b.last() < 128 {
        match decoded(b.drop_last()) {
            Some(s) => Some(s.push(b.last() as char)),
            None => None,
        }
    } else if b.len() >= 2 && b.last() == 0x80 && b[b.len() - 2] == 0xc0 {
        match decoded(b.take(b.len() - 2)) {
            Some(s) => Some(s.push('\0')),
            None => None,
        }
    } else {
        None
    }
}

proof fn lemma_ascii_char(c: char)
    requires
        (c as u32) < 128,
    ensures
        (c as u8) as char == c,
        c != '\0' ==> 0 < (c as u8) < 128,
{
}

proof fn lemma_decoded(s: Seq<char>)
    requires
        is_ascii_text(s),
    ensures
        decoded(modified_utf8(s)) == Some(s),
    decreases s.len(),
{
    if s.len() > 0 {
        let rest = s.drop_last();
        assert forall|i: int| 0 <= i < rest.len() implies (#[trigger] rest[i] as u32) < 128 by {
            assert((s[i] as u32) < 128);
        }
        lemma_decoded(rest);
        let b = modified_utf8(s);
        let c = s.last();
        assert((s[s.len() - 1] as u32) < 128);
        assert(rest.push(c) =~= s);
        if c == '\0' {
            assert(b.take(b.len() - 2) =~= modified_utf8(rest));
        } else {
            assert(b.drop_last() =~= modified_utf8(rest));
            assert(b.last() == c as u8);
            lemma_ascii_char(c);
        }
    } else {
        assert(s =~= Seq::empty());
    }
}

/// A text behind its length, and how many bytes both take.
pub open spec fn read_text(b: Seq<u8>) -> Option<(Seq<char>, nat)> {
    if b.len() < 2 {
        None
    } else {
        let n = unsigned_of(b.take(2));
        if 2 + n > b.len() {
            None
        } else {
            match decoded(b.subrange(2, 2 + n as int)) {
                Some(s) => Some((s, 2 + n)),
                None => None,
            }
        }
    }
}

/// A text that can be written.
pub open spec fn text_fits(s: Seq<char>) -> bool {
    is_ascii_text(s) && modified_utf8(s).len() < 0x1_0000
}

proof fn lemma_text(s: Seq<char>, rest: Seq<u8>)
    requires
        text_fits(s),
    ensures
        read_text(text_bytes(s) + rest) == Some((s, text_bytes(s).len())),
        (text_bytes(s) + rest).skip(text_bytes(s).len() as int) == rest,
{
    let u = modified_utf8(s);
    let b = text_bytes(s) + rest;
    lemma_two(u.len() as int);
    lemma_decoded(s);
    assert(b.take(2) =~= big_endian(u.len() as int, 2));
    assert(b.subrange(2, 2 + u.len() as int) =~= u);
    assert(b.skip(text_bytes(s).len() as int) =~= rest);
}

/// `n` integers of four bytes.
pub open spec fn read_ints(b: Seq<u8>, n: nat) -> Option<Seq<i32>>
    decreases n,
{
    if n == 0 {
        Some(Seq::empty())
    } else if b.len() < 4 * n {
        None
    } else {
        match read_ints(b, (n - 1) as nat) {
            Some(v) => Some(v.push(signed_of(b.subrange(4 * (n - 1), 4 * n as int)) as i32)),
            None => None,
        }
    }
}

proof fn lemma_ints(v: Seq<i32>, rest: Seq<u8>)
    ensures
        int_bytes(v).len() == 4 * v.len(),
        read_ints(int_bytes(v) + rest, v.len()) == Some(v),
    decreases v.len(),
{
    if v.len() > 0 {
        let last = big_endian(v.last() as int, 4);
        let before = int_bytes(v.drop_last());
        lemma_four(v.last() as int);
        lemma_ints(v.drop_last(), last + rest);
        let b = int_bytes(v) + rest;
        assert(b =~= before + (last + rest));
        assert(b.subrange(4 * (v.len() - 1), 4 * v.len() as int) =~= last);
        assert(v.drop_last().push(v.last()) =~= v);
    } else {
        assert(v =~= Seq::empty());
    }
}

// --- tags --------------------------------------------------------------------------------------

/// The tag of a kind that begins the bytes, and how many bytes it takes. Tags are nested no
/// deeper, and no longer, than `fuel`.
pub open spec fn read_tag(kind: u8, b: Seq<u8>, fuel: nat) -> Option<(TagTree, nat)>
    decreases fuel,
{
    if fuel == 0 {
        None
    } else if kind == 1 && b.len() >= 1 {
        Some((TagTree::Byte(signed_of(b.take(1)) as i8), 1))
    } else if kind == 2 && b.len() >= 2 {
        Some((TagTree::Short(signed_of(b.take(2)) as i16), 2))
    } else if kind == 3 && b.len() >= 4 {
        Some((TagTree::Int(signed_of(b.take(4)) as i32), 4))
    } else if kind == 4 && b.len() >= 8 {
        Some((TagTree::Long(signed_of(b.take(8)) as i64), 8))
    } else if kind == 7 && b.len() >= 4 && 4 + unsigned_of(b.take(4)) <= b.len() {
        let n = unsigned_of(b.take(4));
        Some((TagTree::ByteArray(b.subrange(4, 4 + n as int)), 4 + n))
    } else if kind == 8 {
        match read_text(b) {
            Some((s, n)) => Some((TagTree::Text(s), n)),
            None => None,
        }
    } else if kind == 9 && b.len() >= 5 {
        match read_items(b[0], b.skip(5), unsigned_of(b.subrange(1, 5)), (fuel - 1) as nat) {
            Some((items, n)) => Some((TagTree::List(b[0], items), 5 + n)),
            None => None,
        }
    } else if kind == 10 {
        match read_fields(b, (fuel - 1) as nat) {
            Some((fields, n)) => Some((TagTree::Compound(fields), n)),
            None => None,
        }
    } else if kind == 11 && b.len() >= 4 {
        let n = unsigned_of(b.take(4));
        match read_ints(b.skip(4), n) {
            Some(v) => Some((TagTree::IntArray(v), 4 + 4 * n)),
            None => None,
        }
    } else {
        None
    }
}

/// `n` tags of one kind.
pub open spec fn read_items(kind: u8, b: Seq<u8>, n: nat, fuel: nat) -> Option<(Seq<TagTree>, nat)>
    decreases fuel,
{
    if n == 0 {
        Some((Seq::empty(), 0))
    } else if fuel == 0 {
        None
    } else {
        match read_tag(kind, b, (fuel - 1) as nat) {
            None => None,
            Some((t, k)) => match read_items(kind, b.skip(k as int), (n - 1) as nat, (fuel - 1) as nat) {
                None => None,
                Some((rest, m)) => Some((seq![t] + rest, k + m)),
            },
        }
    }
}

/// Named tags, up to the end of the compound.
pub open spec fn read_fields(b: Seq<u8>, fuel: nat) -> Option<(Seq<(Seq<char>, TagTree)>, nat)>
    decreases fuel,
{
    if fuel == 0 || b.len() == 0 {
        None
    } else if b[0] == 0 {
        Some((Seq::empty(), 1))
    } else {
        match read_text(b.skip(1)) {
            None => None,
            Some((name, k)) => match read_tag(b[0], b.skip(1 + k as int), (fuel - 1) as nat) {
                None => None,
                Some((t, m)) => match read_fields(b.skip(1 + k as int + m as int), (fuel - 1) as nat) {
                    None => None,
                    Some((rest, j)) => Some((seq![(name, t)] + rest, 1 + k + m + j)),
                },
            },
        }
    }
}

/// A tag that can be written: lengths fit, and a list holds tags of its kind.
pub open spec fn tag_fits(t: TagTree) -> bool
    decreases t,
{
    match t {
        TagTree::Text(s) => text_fits(s),
        TagTree::ByteArray(v) => v.len() < 0x8000_0000,
        TagTree::IntArray(v) => v.len() < 0x8000_0000,
        TagTree::List(id, items) => items.len() < 0x8000_0000 && forall|i: int|
            0 <= i < items.len() ==> tag_fits(#[trigger] items[i]) && kind_of(items[i]) == id,
        TagTree::Compound(fields) => forall|i: int|
            0 <= i < fields.len() ==> text_fits((#[trigger] fields[i]).0) && tag_fits(fields[i].1),
        _ => true,
    }
}

/// The tag as it is read: a list of nothing is of no kind.
pub open spec fn as_read(t: TagTree) -> TagTree
    decreases t,
{
    match t {
        TagTree::List(id, items) => TagTree::List(
            if items.len() == 0 {
                0
            } else {
                id
            },
            Seq::new(
                items.len(),
                |i: int|
                    if 0 <= i < items.len() {
                        as_read(items[i])
                    } else {
                        arbitrary()
                    },
            ),
        ),
        TagTree::Compound(fields) => TagTree::Compound(
            Seq::new(
                fields.len(),
                |i: int|
                    if 0 <= i < fields.len() {
                        (fields[i].0, as_read(fields[i].1))
                    } else {
                        arbitrary()
                    },
            ),
        ),
        _ => t,
    }
}

/// How deep and long a tag is.
pub open spec fn extent_of(t: TagTree) -> nat
    decreases t,
{
    match t {
        TagTree::List(_, items) => 2 + items_extent(items, 0),
        TagTree::Compound(fields) => 2 + fields_extent(fields, 0),
        _ => 1,
    }
}

pub open spec fn items_extent(items: Seq<TagTree>, i: int) -> nat
    decreases items, items.len() - i,
{
    if 0 <= i < items.len() {
        1 + extent_of(items[i]) + items_extent(items, i + 1)
    } else {
        1
    }
}

pub open spec fn fields_extent(fields: Seq<(Seq<char>, TagTree)>, i: int) -> nat
    decreases fields, fields.len() - i,
{
    if 0 <= i < fields.len() {
        1 + extent_of(fields[i].1) + fields_extent(fields, i + 1)
    } else {
        1
    }
}

/// The payloads of the items from the `i`th on.
spec fn items_from(items: Seq<TagTree>, i: int) -> Seq<u8>
    decreases items.len() - i,
{
    if 0 <= i < items.len() {
        payload(items[i]) + items_from(items, i + 1)
    } else {
        Seq::empty()
    }
}

proof fn lemma_items_from(items: Seq<TagTree>, n: nat)
    requires
        n <= items.len(),
    ensures
        item_bytes(items, n) + items_from(items, n as int) == items_from(items, 0),
    decreases n,
{
    if n == 0 {
        assert(item_bytes(items, n) + items_from(items, 0) =~= items_from(items, 0));
    } else {
        lemma_items_from(items, (n - 1) as nat);
        assert(item_bytes(items, n) + items_from(items, n as int) =~= item_bytes(items, (n - 1) as nat)
            + items_from(items, n - 1));
    }
}

/// The fields from the `i`th on.
spec fn fields_from(fields: Seq<(Seq<char>, TagTree)>, i: int) -> Seq<u8>
    decreases fields.len() - i,
{
    if 0 <= i < fields.len() {
        seq![kind_of(fields[i].1)] + (text_bytes(fields[i].0) + (payload(fields[i].1) + fields_from(fields, i + 1)))
    } else {
        seq![0u8]
    }
}

proof fn lemma_fields_from(fields: Seq<(Seq<char>, TagTree)>, n: nat)
    requires
        n <= fields.len(),
    ensures
        field_bytes(fields, n) + fields_from(fields, n as int) == fields_from(fields, 0),
    decreases n,
{
    if n == 0 {
        assert(field_bytes(fields, n) + fields_from(fields, 0) =~= fields_from(fields, 0));
    } else {
        lemma_fields_from(fields, (n - 1) as nat);
        assert(field_bytes(fields, n) + fields_from(fields, n as int) =~= field_bytes(fields, (n - 1) as nat)
            + fields_from(fields, n - 1));
    }
}

#[verifier::opaque]
spec fn tag_read(t: TagTree, b: Seq<u8>, fuel: nat) -> bool {
    read_tag(kind_of(t), b, fuel) == Some((as_read(t), payload(t).len()))
}

#[verifier::opaque]
spec fn items_read(id: u8, b: Seq<u8>, n: nat, fuel: nat, all: Seq<TagTree>, len: nat) -> bool {
    read_items(id, b, n, fuel) == Some((all, len))
}

#[verifier::opaque]
spec fn fields_read(b: Seq<u8>, fuel: nat, all: Seq<(Seq<char>, TagTree)>, len: nat) -> bool {
    read_fields(b, fuel) == Some((all, len))
}

/// A tag is read back as it was written, whatever follows it.
pub proof fn lemma_tag_reads_back(t: TagTree, rest: Seq<u8>, fuel: nat)
    requires
        tag_fits(t),
        fuel >= extent_of(t),
    ensures
        read_tag(kind_of(t), payload(t) + rest, fuel) == Some((as_read(t), payload(t).len())),
{
    lemma_tag(t, rest, fuel);
    reveal(tag_read);
}

proof fn lemma_tag(t: TagTree, rest: Seq<u8>, fuel: nat)
    requires
        tag_fits(t),
        fuel >= extent_of(t),
    ensures
        tag_read(t, payload(t) + rest, fuel),
    decreases t, 0int,
{
    reveal(tag_read);
    let b = payload(t) + rest;
    match t {
        TagTree::Byte(v) => {
            lemma_byte(v as int);
            assert(b.take(1) =~= payload(t));
        },
        TagTree::Short(v) => {
            lemma_two(v as int);
            assert(b.take(2) =~= payload(t));
        },
        TagTree::Int(v) => {
            lemma_four(v as int);
            assert(b.take(4) =~= payload(t));
        },
        TagTree::Long(v) => {
            lemma_eight(v as int);
            assert(b.take(8) =~= payload(t));
        },
        TagTree::ByteArray(v) => {
            lemma_four(v.len() as int);
            assert(b.take(4) =~= big_endian(v.len() as int, 4));
            assert(b.subrange(4, 4 + v.len() as int) =~= v);
        },
        TagTree::Text(s) => {
            lemma_text(s, rest);
        },
        TagTree::IntArray(v) => {
            lemma_four(v.len() as int);
            lemma_ints(v, rest);
            assert(b.take(4) =~= big_endian(v.len() as int, 4));
            assert(b.skip(4) =~= int_bytes(v) + rest);
        },
        TagTree::List(id, items) => {
            let n = items.len();
            lemma_four(n as int);
            lemma_items_from(items, n);
            let all = items_from(items, 0);
            assert(item_bytes(items, n) =~= all);
            assert(b.subrange(1, 5) =~= big_endian(n as int, 4));
            assert(b.skip(5) =~= all + rest);
            lemma_items_read(items, if n == 0 { 0u8 } else { id }, 0, rest, (fuel - 1) as nat);
            reveal(items_read);
            assert(as_read(t)->List_1 =~= Seq::new(n, |i: int| as_read(items[i])).skip(0));
        },
        TagTree::Compound(fields) => {
            let n = fields.len();
            lemma_fields_from(fields, n);
            let all = fields_from(fields, 0);
            assert(payload(t) =~= all);
            lemma_fields_read(fields, 0, rest, (fuel - 1) as nat);
            reveal(fields_read);
            assert(as_read(t)->Compound_0 =~= Seq::new(n, |i: int| (fields[i].0, as_read(fields[i].1))).skip(0));
        },
    }
}

proof fn lemma_items_read(items: Seq<TagTree>, id: u8, i: int, rest: Seq<u8>, fuel: nat)
    requires
        0 <= i <= items.len(),
        forall|k: int| 0 <= k < items.len() ==> tag_fits(#[trigger] items[k]) && kind_of(items[k]) == id,
        fuel >= items_extent(items, i),
    ensures
        items_read(
            id,
            items_from(items, i) + rest,
            (items.len() - i) as nat,
            fuel,
            Seq::new(items.len(), |k: int| as_read(items[k])).skip(i),
            items_from(items, i).len(),
        ),
    decreases items, items.len() - i,
{
    let all = Seq::new(items.len(), |k: int| as_read(items[k]));
    if i == items.len() {
        assert(all.skip(i) =~= Seq::empty());
        reveal(items_read);
    } else {
        let t = items[i];
        let more = items_from(items, i + 1);
        assert(tag_fits(items[i]));
        lemma_tag(t, more + rest, (fuel - 1) as nat);
        lemma_items_read(items, id, i + 1, rest, (fuel - 1) as nat);
        assert(items_from(items, i) + rest =~= payload(t) + (more + rest));
        lemma_item_read(t, more + rest, all.skip(i + 1), (items.len() - i) as nat, more.len(), fuel);
        assert(seq![as_read(t)] + all.skip(i + 1) =~= all.skip(i));
    }
}

proof fn lemma_fields_read(fields: Seq<(Seq<char>, TagTree)>, i: int, rest: Seq<u8>, fuel: nat)
    requires
        0 <= i <= fields.len(),
        forall|k: int| 0 <= k < fields.len() ==> text_fits((#[trigger] fields[k]).0) && tag_fits(fields[k].1),
        fuel >= fields_extent(fields, i),
    ensures
        fields_read(
            fields_from(fields, i) + rest,
            fuel,
            Seq::new(fields.len(), |k: int| (fields[k].0, as_read(fields[k].1))).skip(i),
            fields_from(fields, i).len(),
        ),
    decreases fields, fields.len() - i,
{
    let all = Seq::new(fields.len(), |k: int| (fields[k].0, as_read(fields[k].1)));
    let b = fields_from(fields, i) + rest;
    if i == fields.len() {
        assert(all.skip(i) =~= Seq::empty());
        assert(b[0] == 0);
        reveal(fields_read);
    } else {
        let (name, t) = fields[i];
        let more = fields_from(fields, i + 1);
        assert(text_fits(fields[i].0));
        lemma_tag(t, more + rest, (fuel - 1) as nat);
        lemma_fields_read(fields, i + 1, rest, (fuel - 1) as nat);
        assert(b =~= seq![kind_of(t)] + (text_bytes(name) + (payload(t) + (more + rest))));
        lemma_field_read(name, t, more + rest, all.skip(i + 1), more.len(), fuel);
        assert(seq![(name, as_read(t))] + all.skip(i + 1) =~= all.skip(i));
    }
}

/// One item, and those behind it.
proof fn lemma_item_read(t: TagTree, more: Seq<u8>, others: Seq<TagTree>, n: nat, len: nat, fuel: nat)
    requires
        fuel > 0,
        n > 0,
        tag_read(t, payload(t) + more, (fuel - 1) as nat),
        items_read(kind_of(t), more, (n - 1) as nat, (fuel - 1) as nat, others, len),
    ensures
        items_read(
            kind_of(t),
            payload(t) + more,
            n,
            fuel,
            seq![as_read(t)] + others,
            payload(t).len() + len,
        ),
{
    reveal(tag_read);
    reveal(items_read);
    assert((payload(t) + more).skip(payload(t).len() as int) =~= more);
}

/// One field, and those behind it.
proof fn lemma_field_read(
    name: Seq<char>,
    t: TagTree,
    more: Seq<u8>,
    others: Seq<(Seq<char>, TagTree)>,
    n: nat,
    fuel: nat,
)
    requires
        text_fits(name),
        fuel > 0,
        tag_read(t, payload(t) + more, (fuel - 1) as nat),
        fields_read(more, (fuel - 1) as nat, others, n),
    ensures
        fields_read(
            seq![kind_of(t)] + (text_bytes(name) + (payload(t) + more)),
            fuel,
            seq![(name, as_read(t))] + others,
            1 + text_bytes(name).len() + payload(t).len() + n,
        ),
{
    reveal(tag_read);
    reveal(fields_read);
    lemma_text(name, payload(t) + more);
    lemma_field_parts(kind_of(t), text_bytes(name), payload(t), more);
}

/// Where the parts of a field begin.
proof fn lemma_field_parts(kind: u8, name: Seq<u8>, value: Seq<u8>, more: Seq<u8>)
    ensures
        ({
            let b = seq![kind] + (name + (value + more));
            &&& b.len() > 0
            &&& b[0] == kind
            &&& b.skip(1) == name + (value + more)
            &&& b.skip(1 + name.len() as int) == value + more
            &&& b.skip(1 + name.len() as int + value.len() as int) == more
        }),
{
    let b = seq![kind] + (name + (value + more));
    assert(b.skip(1) =~= name + (value + more));
    assert(b.skip(1 + name.len() as int) =~= value + more);
    assert(b.skip(1 + name.len() as int + value.len() as int) =~= more);
}

/// A file is read back as it was written: its kind, its name and its tag.
pub proof fn lemma_root_reads_back(name: Seq<char>, t: TagTree)
    requires
        text_fits(name),
        tag_fits(t),
    ensures
        ({
            let b = root_bytes(name, t);
            &&& b.len() > 0
            &&& b[0] == kind_of(t)
            &&& read_text(b.skip(1)) matches Some(x) && x.0 == name && read_tag(
                b[0],
                b.skip(1 + x.1 as int),
                extent_of(t),
            ) == Some((as_read(t), (b.len() - 1 - x.1) as nat))
        }),
{
    let b = root_bytes(name, t);
    lemma_text(name, payload(t));
    lemma_tag_reads_back(t, Seq::empty(), extent_of(t));
    let k = text_bytes(name).len() as int;
    assert(b.skip(1) =~= text_bytes(name) + payload(t));
    assert(b.skip(1 + k) =~= payload(t) + Seq::<u8>::empty());
}

} // verus!
