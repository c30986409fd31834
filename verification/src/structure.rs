//! Vanilla structure-block NBT export.
//!
//! The Sponge `.schem` format needs WorldEdit. This emits the format vanilla
//! Minecraft itself uses for structure blocks, so a generated circuit can be
//! loaded in an unmodded creative world:
//!
//! 1. put the file in `saves/<world>/generated/minecraft/structures/<name>.nbt`
//! 2. place a structure block, set it to Load mode, type `<name>`, hit Load.
//!
//! The layout is a palette of block states plus an explicit list of
//! `(state, pos)` pairs. Unlike the schematic format there is no dense array, so
//! air is simply omitted - which suits these circuits, since they are mostly
//! air. Structure blocks cap out at 48 blocks per axis.
use crate::gzip::{gzip, gzip_header, gzipped};
use crate::nbt::{is_ascii_text, plain, root_bytes, write_root, Tag, TagTree};
use crate::palette::{cell_state, entered, lemma_ascii_palette, palette_index, states_once, texts};
use crate::posmap::by_layer;
use crate::reading::{lemma_script_rebuilds, read_script, rebuilds};
use crate::schem::{extent, named, DATA_VERSION};
use crate::text::{characters, push_signed, signed, text_of};
use crate::world::{bounding, interior, is_dust, Block, Grid, Pos};
use vstd::prelude::*;
use vstd::string::*;

verus! {

/// Largest structure a structure block will load, per axis.
pub const MAX_AXIS: i32 = 48;

/// How many characters stand before the first `c`.
pub open spec fn before(s: Seq<char>, c: char) -> nat
    decreases s.len(),
{
    if s.len() == 0 || s[0] == c {
        0
    } else {
        1 + before(s.skip(1), c)
    }
}

/// A text without the `c`s at its end.
pub open spec fn without_tail(s: Seq<char>, c: char) -> Seq<char>
    decreases s.len(),
{
    if s.len() > 0 && s.last() == c {
        without_tail(s.drop_last(), c)
    } else {
        s
    }
}

/// The `key=value` in a piece of text, if it is one.
pub open spec fn property(piece: Seq<char>) -> Seq<(Seq<char>, Seq<char>)> {
    let k = before(piece, '=');
    if k < piece.len() {
        seq![(piece.take(k as int), piece.skip(k as int + 1))]
    } else {
        Seq::empty()
    }
}

/// The properties in a text, which commas part.
pub open spec fn properties(s: Seq<char>) -> Seq<(Seq<char>, Seq<char>)>
    decreases s.len(),
{
    let k = before(s, ',');
    if k < s.len() {
        property(s.take(k as int)) + properties(s.skip(k as int + 1))
    } else {
        property(s)
    }
}

/// A block state's name and properties.
pub open spec fn state_parts(id: Seq<char>) -> (Seq<char>, Seq<(Seq<char>, Seq<char>)>) {
    let k = before(id, '[');
    if k < id.len() {
        (id.take(k as int), properties(without_tail(id.skip(k as int + 1), ']')))
    } else {
        (id, Seq::empty())
    }
}

/// Pairs of texts as pairs of sequences.
pub open spec fn pairs(v: Seq<(String, String)>) -> Seq<(Seq<char>, Seq<char>)> {
    v.map_values(|p: (String, String)| (p.0@, p.1@))
}

/// `before` counts the characters up to the first `c`.
pub proof fn lemma_before(s: Seq<char>, c: char, n: int)
    requires
        0 <= n <= s.len(),
        forall|j: int| 0 <= j < n ==> s[j] != c,
        n < s.len() ==> s[n] == c,
    ensures
        before(s, c) == n,
    decreases n,
{
    if n > 0 {
        lemma_before(s.skip(1), c, n - 1);
    }
}

/// The first index from `from` on, and before `to`, where `c` stands; else `to`.
fn find(v: &Vec<char>, from: usize, to: usize, c: char) -> (k: usize)
    requires
        from <= to <= v@.len(),
    ensures
        from <= k <= to,
        k - from == before(v@.subrange(from as int, to as int), c),
{
    let mut k: usize = from;
    while k < to && v[k] != c
        invariant
            from <= k <= to <= v@.len(),
            forall|j: int| from <= j < k ==> v@[j] != c,
        decreases to - k,
    {
        k = k + 1;
    }
    proof {
        lemma_before(v@.subrange(from as int, to as int), c, k - from);
    }
    k
}

/// Split `minecraft:repeater[delay=1,facing=north]` into its name and
/// properties. Reusing the blockstate string keeps one source of truth for how
/// a block is spelled, rather than duplicating that knowledge here.
pub fn split_state(id: &str) -> (r: (String, Vec<(String, String)>))
    ensures
        (r.0@, pairs(r.1@)) == state_parts(id@),
{
    let v = characters(id);
    let n: usize = v.len();
    let k: usize = find(&v, 0, n, '[');
    let mut props: Vec<(String, String)> = Vec::new();
    assert(v@.subrange(0, n as int) =~= v@);
    let name = text_of(v.as_slice(), 0, k);
    if k == n {
        assert(pairs(props@) =~= Seq::empty());
        return (name, props);
    }
    let mut end: usize = n;
    let ghost rest = id@.skip(k + 1);
    assert(v@.subrange(k + 1, n as int) =~= rest);
    while end > k + 1 && v[end - 1] == ']'
        invariant
            k + 1 <= end <= n == v@.len(),
            without_tail(v@.subrange(k + 1, end as int), ']') == without_tail(rest, ']'),
        decreases end,
    {
        assert(v@.subrange(k + 1, end as int).drop_last() =~= v@.subrange(k + 1, end - 1));
        end = end - 1;
    }
    let ghost inner = v@.subrange(k + 1, end as int);
    assert(without_tail(rest, ']') == inner);
    let mut at: usize = k + 1;
    proof {
        assert(pairs(props@) + properties(inner) =~= properties(inner));
    }
    loop
        invariant_except_break
            k + 1 <= at <= end <= n == v@.len(),
            pairs(props@) + properties(v@.subrange(at as int, end as int)) == properties(inner),
        ensures
            pairs(props@) == properties(inner),
        decreases end - at,
    {
        let ghost here = v@.subrange(at as int, end as int);
        let ghost had = pairs(props@);
        let comma: usize = find(&v, at, end, ',');
        let eq: usize = find(&v, at, comma, '=');
        let ghost piece = v@.subrange(at as int, comma as int);
        assert(here.take(comma - at) =~= piece);
        if eq < comma {
            let key = text_of(v.as_slice(), at, eq);
            let value = text_of(v.as_slice(), eq + 1, comma);
            assert(key@ =~= piece.take(eq - at));
            assert(value@ =~= piece.skip(eq - at + 1));
            let ghost all = props@;
            props.push((key, value));
            assert(pairs(props@) =~= pairs(all).push((key@, value@)));
        }
        assert(pairs(props@) =~= had + property(piece));
        if comma == end {
            assert(piece =~= here);
            assert(pairs(props@) =~= properties(inner));
            break;
        }
        assert(here.skip(comma - at + 1) =~= v@.subrange(comma + 1, end as int));
        assert(pairs(props@) + properties(v@.subrange(comma + 1, end as int)) =~= properties(inner));
        at = comma + 1;
    }
    (name, props)
}

pub struct Structure {
    pub size: (i32, i32, i32),
    pub palette: Vec<String>,
    /// `(palette index, x, y, z)`, positions relative to the structure corner.
    pub blocks: Vec<(u32, i32, i32, i32)>,
}

/// Dust has room around it, and the box around the cells has a size.
pub open spec fn can_be_listed(cells: Map<Pos, Block>) -> bool {
    &&& forall|p: Pos| #[trigger] cells.contains_key(p) && is_dust(cells[p]) ==> interior(p)
    &&& forall|lo: Pos, hi: Pos| #[trigger]
        bounding(cells, lo, hi) ==> {
            &&& extent(lo, hi).0 <= i32::MAX
            &&& extent(lo, hi).1 <= i32::MAX
            &&& extent(lo, hi).2 <= i32::MAX
        }
}

/// `order` lists the cells by layer, then by row, then along the row.
pub open spec fn lists(order: Seq<Pos>, cells: Map<Pos, Block>) -> bool {
    &&& by_layer(order)
    &&& forall|p: Pos| #[trigger] cells.contains_key(p) <==> order.contains(p)
}

/// The states of the first `n` cells that are not air, in order of first use.
pub open spec fn states_in_order(order: Seq<Pos>, cells: Map<Pos, Block>, n: nat) -> Seq<Seq<char>>
    decreases n,
{
    if n == 0 {
        Seq::empty()
    } else {
        let rest = states_in_order(order, cells, (n - 1) as nat);
        let p = order[n - 1];
        if cells[p] == Block::Air {
            rest
        } else {
            entered(rest, cell_state(cells, p))
        }
    }
}

/// `b` lists a cell: its state by palette index, and its place relative to `lo`.
pub open spec fn lists_cell(
    b: (u32, i32, i32, i32),
    palette: Seq<Seq<char>>,
    cells: Map<Pos, Block>,
    lo: Pos,
    p: Pos,
) -> bool {
    &&& b.0 < palette.len()
    &&& palette[b.0 as int] == cell_state(cells, p)
    &&& b.1 == p.0 - lo.0
    &&& b.2 == p.1 - lo.1
    &&& b.3 == p.2 - lo.2
}

/// The cells among the first `n` that are not air.
pub open spec fn solid_cells(order: Seq<Pos>, cells: Map<Pos, Block>, n: nat) -> Seq<Pos>
    decreases n,
{
    if n == 0 {
        Seq::empty()
    } else {
        let rest = solid_cells(order, cells, (n - 1) as nat);
        if cells[order[n - 1]] == Block::Air {
            rest
        } else {
            rest.push(order[n - 1])
        }
    }
}

/// The structure lists every cell that is not air, in order, and its palette holds
/// their states, each once, in order of first use.
pub open spec fn lists_all(s: Structure, order: Seq<Pos>, cells: Map<Pos, Block>, lo: Pos, hi: Pos) -> bool {
    let solid = solid_cells(order, cells, order.len());
    &&& (s.size.0 as int, s.size.1 as int, s.size.2 as int) == extent(lo, hi)
    &&& texts(s.palette@) == states_in_order(order, cells, order.len())
    &&& texts(s.palette@).no_duplicates()
    &&& s.blocks@.len() == solid.len()
    &&& forall|i: int|
        0 <= i < solid.len() ==> lists_cell(
            #[trigger] s.blocks@[i],
            texts(s.palette@),
            cells,
            lo,
            solid[i],
        )
}

impl Structure {
    pub fn from_grid(grid: &Grid) -> (s: Structure)
        requires
            can_be_listed(grid@),
        ensures
            ascii_states(s),
            grid@ == Map::<Pos, Block>::empty() ==> s.size == (1i32, 1i32, 1i32) && s.palette@.len()
                == 0 && s.blocks@.len() == 0,
            grid@ != Map::<Pos, Block>::empty() ==> exists|lo: Pos, hi: Pos, order: Seq<Pos>|
                #![trigger bounding(grid@, lo, hi), lists(order, grid@)]
                bounding(grid@, lo, hi) && lists(order, grid@) && lists_all(s, order, grid@, lo, hi),
    {
        let mut palette: Vec<String> = Vec::new();
        let mut blocks: Vec<(u32, i32, i32, i32)> = Vec::new();
        assert(texts(palette@) =~= Seq::empty());
        let (lo, hi) = match grid.bounds() {
            None => {
                return Structure { size: (1, 1, 1), palette, blocks };
            },
            Some(b) => b,
        };
        proof {
            let some = choose|p: Pos| #[trigger] grid@.contains_key(p) && p.0 == lo.0;
        }
        let size: (i32, i32, i32) = (hi.0 - lo.0 + 1, hi.1 - lo.1 + 1, hi.2 - lo.2 + 1);
        // Deterministic output: go by position so two runs of the compiler
        // produce byte-identical files.
        let cells = grid.iter();
        let ghost order = cells@.map_values(|c: (Pos, Block)| c.0);
        proof {
            lemma_lists(cells@, grid@);
        }
        for i in 0..cells.len()
            invariant
                can_be_listed(grid@),
                bounding(grid@, lo, hi),
                order == cells@.map_values(|c: (Pos, Block)| c.0),
                forall|j: int|
                    0 <= j < cells@.len() ==> grid@.contains_key((#[trigger] cells@[j]).0)
                        && cells@[j].1 == grid@[cells@[j].0],
                texts(palette@) == states_in_order(order, grid@, i as nat),
                states_once(texts(palette@)),
                blocks@.len() == solid_cells(order, grid@, i as nat).len(),
                forall|j: int|
                    0 <= j < blocks@.len() ==> lists_cell(
                        #[trigger] blocks@[j],
                        texts(palette@),
                        grid@,
                        lo,
                        solid_cells(order, grid@, i as nat)[j],
                    ),
        {
            let (p, b) = cells[i];
            assert(grid@.contains_key(cells@[i as int].0));
            assert(order[i as int] == p);
            if b != Block::Air {
                let id = b.state_id(grid.dust_shape(p));
                assert(id@ == cell_state(grid@, p));
                let ghost had = texts(palette@);
                let idx: u32 = palette_index(&mut palette, id);
                assert(forall|j: int| 0 <= j < had.len() ==> texts(palette@)[j] == had[j]);
                let ghost listed = blocks@;
                blocks.push((idx, p.0 - lo.0, p.1 - lo.1, p.2 - lo.2));
                assert forall|j: int| 0 <= j < blocks@.len() implies lists_cell(
                    #[trigger] blocks@[j],
                    texts(palette@),
                    grid@,
                    lo,
                    solid_cells(order, grid@, (i + 1) as nat)[j],
                ) by {
                    if j < listed.len() {
                        assert(blocks@[j] == listed[j]);
                    }
                }
            }
        }
        proof {
            lemma_ascii_palette(palette@);
        }
        let s = Structure { size, palette, blocks };
        assert(lists_all(s, order, grid@, lo, hi));
        s
    }

    /// Whether a structure block can actually load this.
    pub fn fits(&self) -> (r: bool)
        ensures
            r == (self.size.0 <= MAX_AXIS && self.size.1 <= MAX_AXIS && self.size.2 <= MAX_AXIS),
    {
        self.size.0 <= MAX_AXIS && self.size.1 <= MAX_AXIS && self.size.2 <= MAX_AXIS
    }

    pub fn to_nbt(&self) -> (t: Tag)
        ensures
            t.tree() == structure_tree(*self),
            ascii_states(*self) ==> plain(t.tree()),
    {
        proof {
            reveal_with_fuel(Tag::tree, 2);
        }
        let mut palette: Vec<Tag> = Vec::new();
        for i in 0..self.palette.len()
            invariant
                palette@.len() == i,
                forall|j: int|
                    0 <= j < i ==> (#[trigger] palette@[j]).tree() == state_tree(self.palette@[j]@),
        {
            let t = state_tag(self.palette[i].as_str());
            palette.push(t);
        }
        let palette = Tag::List(10, palette);
        assert(palette.tree()->List_1 =~= states_tree(*self)->List_1);

        let mut blocks: Vec<Tag> = Vec::new();
        for i in 0..self.blocks.len()
            invariant
                blocks@.len() == i,
                forall|j: int|
                    0 <= j < i ==> (#[trigger] blocks@[j]).tree() == block_tree(self.blocks@[j]),
        {
            let (state, x, y, z) = self.blocks[i];
            let mut fields: Vec<(String, Tag)> = Vec::new();
            fields.push(named("state", Tag::Int(state as i32)));
            fields.push(named("pos", triple(x, y, z)));
            let t = Tag::Compound(fields);
            proof {
                reveal_with_fuel(Tag::tree, 2);
                assert(t.tree()->Compound_0 =~= block_tree(self.blocks@[i as int])->Compound_0);
            }
            blocks.push(t);
        }
        let blocks = Tag::List(10, blocks);
        assert(blocks.tree()->List_1 =~= listed_tree(*self)->List_1);

        let mut fields: Vec<(String, Tag)> = Vec::new();
        fields.push(named("DataVersion", Tag::Int(DATA_VERSION)));
        fields.push(named("size", triple(self.size.0, self.size.1, self.size.2)));
        fields.push(named("palette", palette));
        fields.push(named("blocks", blocks));
        fields.push(named("entities", Tag::List(10, Vec::new())));
        let root = Tag::Compound(fields);
        proof {
            assert(root.tree()->Compound_0[4].1->List_1 =~= Seq::<TagTree>::empty());
            assert(root.tree()->Compound_0 =~= structure_tree(*self)->Compound_0);
            if ascii_states(*self) {
                lemma_plain_structure(*self);
            }
        }
        root
    }

    /// Structure files are gzipped NBT with an unnamed root compound.
    pub fn to_bytes(&self) -> (r: Result<Vec<u8>, std::io::Error>)
        requires
            ascii_states(*self),
        ensures
            match r {
                Ok(v) => gzipped(root_bytes(""@, structure_tree(*self))) == Some(v@) && v@.len() >= 18
                    && v@.take(10) == gzip_header(),
                Err(_) => gzipped(root_bytes(""@, structure_tree(*self))) is None,
            },
    {
        proof {
            reveal_strlit("");
        }
        let raw = write_root("", &self.to_nbt());
        gzip(&raw)
    }
}

/// Every state in the palette is plain ASCII.
pub open spec fn ascii_states(s: Structure) -> bool {
    forall|i: int| 0 <= i < s.palette@.len() ==> is_ascii_text((#[trigger] s.palette@[i])@)
}

proof fn lemma_lists(listed: Seq<(Pos, Block)>, cells: Map<Pos, Block>)
    requires
        by_layer(listed.map_values(|c: (Pos, Block)| c.0)),
        forall|p: Pos| #[trigger]
            cells.contains_key(p) <==> listed.contains((p, crate::world::block_at(cells, p))),
        forall|i: int|
            0 <= i < listed.len() ==> cells.contains_key((#[trigger] listed[i]).0),
    ensures
        lists(listed.map_values(|c: (Pos, Block)| c.0), cells),
{
    let order = listed.map_values(|c: (Pos, Block)| c.0);
    assert forall|p: Pos| #[trigger] cells.contains_key(p) implies order.contains(p) by {
        let i = choose|i: int| 0 <= i < listed.len() && listed[i] == (p, crate::world::block_at(cells, p));
        assert(order[i] == p);
    }
    assert forall|p: Pos| #[trigger] order.contains(p) implies cells.contains_key(p) by {
        let i = choose|i: int| 0 <= i < order.len() && order[i] == p;
        assert(cells.contains_key(listed[i].0));
    }
}

/// Three numbers as a list of integers.
pub open spec fn triple_tree(x: i32, y: i32, z: i32) -> TagTree {
    TagTree::List(3, seq![TagTree::Int(x), TagTree::Int(y), TagTree::Int(z)])
}

fn triple(x: i32, y: i32, z: i32) -> (t: Tag)
    ensures
        t.tree() == triple_tree(x, y, z),
{
    let mut items: Vec<Tag> = Vec::new();
    items.push(Tag::Int(x));
    items.push(Tag::Int(y));
    items.push(Tag::Int(z));
    let t = Tag::List(3, items);
    proof {
        reveal_with_fuel(Tag::tree, 2);
        assert(t.tree()->List_1 =~= triple_tree(x, y, z)->List_1);
    }
    t
}

/// Properties as fields.
pub open spec fn properties_tree(props: Seq<(Seq<char>, Seq<char>)>) -> TagTree {
    TagTree::Compound(Seq::new(props.len(), |i: int| (props[i].0, TagTree::Text(props[i].1))))
}

/// A block state: its name, and its properties if it has any.
pub open spec fn state_tree(id: Seq<char>) -> TagTree {
    let (name, props) = state_parts(id);
    if props.len() == 0 {
        TagTree::Compound(seq![("Name"@, TagTree::Text(name))])
    } else {
        TagTree::Compound(
            seq![("Name"@, TagTree::Text(name)), ("Properties"@, properties_tree(props))],
        )
    }
}

fn state_tag(id: &str) -> (t: Tag)
    ensures
        t.tree() == state_tree(id@),
{
    let (name, props) = split_state(id);
    let ghost parts = state_parts(id@);
    let mut fields: Vec<(String, Tag)> = Vec::new();
    fields.push(named("Name", Tag::String(name)));
    if props.len() > 0 {
        let mut values: Vec<(String, Tag)> = Vec::new();
        for i in 0..props.len()
            invariant
                values@.len() == i,
                forall|j: int|
                    0 <= j < i ==> (#[trigger] values@[j]).0@ == props@[j].0@ && values@[j].1.tree()
                        == TagTree::Text(props@[j].1@),
        {
            values.push((props[i].0.clone(), Tag::String(props[i].1.clone())));
        }
        let values = Tag::Compound(values);
        proof {
            reveal_with_fuel(Tag::tree, 2);
            assert(values.tree()->Compound_0 =~= properties_tree(pairs(props@))->Compound_0);
        }
        fields.push(named("Properties", values));
    }
    let t = Tag::Compound(fields);
    proof {
        reveal_with_fuel(Tag::tree, 2);
        assert(t.tree()->Compound_0 =~= state_tree(id@)->Compound_0);
    }
    t
}

pub open spec fn states_tree(s: Structure) -> TagTree {
    TagTree::List(10, Seq::new(s.palette@.len(), |i: int| state_tree(s.palette@[i]@)))
}

/// A listed block: its state and its place.
pub open spec fn block_tree(b: (u32, i32, i32, i32)) -> TagTree {
    TagTree::Compound(
        seq![("state"@, TagTree::Int(b.0 as i32)), ("pos"@, triple_tree(b.1, b.2, b.3))],
    )
}

pub open spec fn listed_tree(s: Structure) -> TagTree {
    TagTree::List(10, Seq::new(s.blocks@.len(), |i: int| block_tree(s.blocks@[i])))
}

/// The NBT of a structure.
pub open spec fn structure_tree(s: Structure) -> TagTree {
    TagTree::Compound(
        seq![
            ("DataVersion"@, TagTree::Int(DATA_VERSION)),
            ("size"@, triple_tree(s.size.0, s.size.1, s.size.2)),
            ("palette"@, states_tree(s)),
            ("blocks"@, listed_tree(s)),
            ("entities"@, TagTree::List(10, Seq::empty())),
        ],
    )
}

proof fn lemma_before_bound(s: Seq<char>, c: char)
    ensures
        before(s, c) <= s.len(),
    decreases s.len(),
{
    if s.len() > 0 {
        lemma_before_bound(s.skip(1), c);
    }
}

proof fn lemma_plain_properties(s: Seq<char>)
    requires
        is_ascii_text(s),
    ensures
        forall|i: int|
            0 <= i < properties(s).len() ==> is_ascii_text((#[trigger] properties(s)[i]).0)
                && is_ascii_text(properties(s)[i].1),
    decreases s.len(),
{
    lemma_before_bound(s, ',');
    let k = before(s, ',');
    let piece = if k < s.len() {
        s.take(k as int)
    } else {
        s
    };
    lemma_before_bound(piece, '=');
    assert(is_ascii_text(piece));
    let first = property(piece);
    assert forall|i: int| 0 <= i < first.len() implies is_ascii_text((#[trigger] first[i]).0)
        && is_ascii_text(first[i].1) by {}
    if k < s.len() {
        let rest = properties(s.skip(k as int + 1));
        lemma_plain_properties(s.skip(k as int + 1));
        assert forall|i: int| 0 <= i < properties(s).len() implies is_ascii_text(
            (#[trigger] properties(s)[i]).0,
        ) && is_ascii_text(properties(s)[i].1) by {
            if i < first.len() {
                assert(properties(s)[i] == first[i]);
            } else {
                assert(properties(s)[i] == rest[i - first.len()]);
            }
        }
    }
}

proof fn lemma_plain_tail(s: Seq<char>, c: char)
    requires
        is_ascii_text(s),
    ensures
        is_ascii_text(without_tail(s, c)),
    decreases s.len(),
{
    if s.len() > 0 && s.last() == c {
        lemma_plain_tail(s.drop_last(), c);
    }
}

proof fn lemma_plain_state(id: Seq<char>)
    requires
        is_ascii_text(id),
    ensures
        plain(state_tree(id)),
{
    reveal_strlit("Name");
    reveal_strlit("Properties");
    reveal_with_fuel(plain, 2);
    lemma_before_bound(id, '[');
    let k = before(id, '[');
    if k < id.len() {
        let rest = id.skip(k as int + 1);
        lemma_plain_tail(rest, ']');
        lemma_plain_properties(without_tail(rest, ']'));
    }
    assert(plain(properties_tree(state_parts(id).1)));
}

proof fn lemma_plain_structure(s: Structure)
    requires
        ascii_states(s),
    ensures
        plain(structure_tree(s)),
{
    reveal_with_fuel(plain, 2);
    reveal_strlit("DataVersion");
    reveal_strlit("size");
    reveal_strlit("palette");
    reveal_strlit("blocks");
    reveal_strlit("entities");
    reveal_strlit("state");
    reveal_strlit("pos");
    assert forall|x: i32, y: i32, z: i32| plain(#[trigger] triple_tree(x, y, z)) by {}
    assert(plain(states_tree(s))) by {
        assert forall|i: int| 0 <= i < s.palette@.len() implies plain(
            #[trigger] states_tree(s)->List_1[i],
        ) by {
            lemma_plain_state(s.palette@[i]@);
        }
    }
    assert(plain(listed_tree(s))) by {
        assert forall|i: int| 0 <= i < s.blocks@.len() implies plain(
            #[trigger] listed_tree(s)->List_1[i],
        ) by {
            assert(plain(block_tree(s.blocks@[i])));
        }
    }
}

// --- setblock commands -------------------------------------------------------

/// When a block is placed: supports first, then what is attached to them, then dust.
pub open spec fn phase_of(b: Block) -> int {
    match b {
        Block::Dust { .. } => 2,
        Block::WallTorch { .. } => 1,
        Block::Torch { .. } => 1,
        Block::Repeater { .. } => 1,
        Block::Lever { .. } => 1,
        _ => 0,
    }
}

fn phase(b: Block) -> (r: u8)
    ensures
        r == phase_of(b),
{
    match b {
        Block::Dust { .. } => 2,
        Block::WallTorch { .. } => 1,
        Block::Torch { .. } => 1,
        Block::Repeater { .. } => 1,
        Block::Lever { .. } => 1,
        _ => 0,
    }
}

/// The command that places the cell at `p`.
pub open spec fn command(cells: Map<Pos, Block>, p: Pos, lo: Pos, origin: Pos) -> Seq<char> {
    "setblock ~"@ + signed(p.0 - lo.0 + origin.0) + " ~"@ + signed(p.1 - lo.1 + origin.1) + " ~"@
        + signed(p.2 - lo.2 + origin.2) + " "@ + cell_state(cells, p) + "\n"@
}

/// The commands for the blocks of one phase among the first `n` cells.
pub open spec fn commands(
    cells: Map<Pos, Block>,
    order: Seq<Pos>,
    lo: Pos,
    origin: Pos,
    phase: int,
    n: nat,
) -> Seq<char>
    decreases n,
{
    if n == 0 {
        Seq::empty()
    } else {
        let rest = commands(cells, order, lo, origin, phase, (n - 1) as nat);
        let p = order[n - 1];
        if cells[p] == Block::Air || phase_of(cells[p]) != phase {
            rest
        } else {
            rest + command(cells, p, lo, origin)
        }
    }
}

/// The first line of a function file.
pub open spec fn function_header() -> Seq<char> {
    "# generated by ohmc - run with /function <namespace>:<name>\n"@
}

/// Emit the circuit as a `.mcfunction`: one `setblock` per block, placed
/// relative to whoever runs it.
///
/// This is the no-mods, no-UI way to get a circuit in-game - `/function ohm:foo`
/// and it appears. It also sidesteps the structure block's 48-block axis limit.
///
/// **Order matters.** Redstone dust, torches and levers pop off the instant they
/// have no support, and `setblock` fires neighbour updates immediately. So all
/// solid blocks go down first, then the attached components, then dust last.
pub fn to_mcfunction(grid: &Grid, origin: (i32, i32, i32)) -> (s: String)
    requires
        can_be_listed(grid@),
        forall|lo: Pos, hi: Pos| #[trigger]
            bounding(grid@, lo, hi) ==> {
                &&& hi.0 - lo.0 + origin.0 <= i32::MAX
                &&& hi.1 - lo.1 + origin.1 <= i32::MAX
                &&& hi.2 - lo.2 + origin.2 <= i32::MAX
            },
    ensures
        grid@ == Map::<Pos, Block>::empty() ==> s@.len() == 0,
        grid@ != Map::<Pos, Block>::empty() ==> exists|lo: Pos, hi: Pos, order: Seq<Pos>|
            #![trigger bounding(grid@, lo, hi), lists(order, grid@)]
            bounding(grid@, lo, hi) && lists(order, grid@) && s@ == function_header() + commands(
                grid@,
                order,
                lo,
                origin,
                0,
                order.len(),
            ) + commands(grid@, order, lo, origin, 1, order.len()) + commands(
                grid@,
                order,
                lo,
                origin,
                2,
                order.len(),
            ) && (read_script(s@) matches Some(script) && rebuilds(script, grid@, lo, origin)),
{
    let (lo, hi) = match grid.bounds() {
        None => {
            return String::new();
        },
        Some(b) => b,
    };
    let cells = grid.iter();
    let ghost order = cells@.map_values(|c: (Pos, Block)| c.0);
    proof {
        lemma_lists(cells@, grid@);
    }
    let mut out = String::from_str("# generated by ohmc - run with /function <namespace>:<name>\n");
    push_commands(&mut out, grid, &cells, lo, origin, 0);
    push_commands(&mut out, grid, &cells, lo, origin, 1);
    push_commands(&mut out, grid, &cells, lo, origin, 2);
    proof {
        lemma_script_rebuilds(grid@, order, lo, origin);
    }
    out
}

fn push_command(out: &mut String, grid: &Grid, p: Pos, b: Block, lo: Pos, origin: Pos)
    requires
        grid@.contains_key(p),
        b == grid@[p],
        is_dust(b) ==> interior(p),
        0 <= p.0 - lo.0 <= i32::MAX,
        0 <= p.1 - lo.1 <= i32::MAX,
        0 <= p.2 - lo.2 <= i32::MAX,
        p.0 - lo.0 + origin.0 <= i32::MAX,
        p.1 - lo.1 + origin.1 <= i32::MAX,
        p.2 - lo.2 + origin.2 <= i32::MAX,
    ensures
        final(out)@ == old(out)@ + command(grid@, p, lo, origin),
{
    // Relative coordinates so the circuit lands wherever the player is.
    out.append("setblock ~");
    push_signed(out, (p.0 - lo.0 + origin.0) as i64);
    out.append(" ~");
    push_signed(out, (p.1 - lo.1 + origin.1) as i64);
    out.append(" ~");
    push_signed(out, (p.2 - lo.2 + origin.2) as i64);
    out.append(" ");
    let id = b.state_id(grid.dust_shape(p));
    out.append(id.as_str());
    out.append("\n");
    assert(out@ =~= old(out)@ + command(grid@, p, lo, origin));
}

fn push_commands(
    out: &mut String,
    grid: &Grid,
    cells: &Vec<(Pos, Block)>,
    lo: Pos,
    origin: Pos,
    want: u8,
)
    requires
        forall|p: Pos| #[trigger] grid@.contains_key(p) && is_dust(grid@[p]) ==> interior(p),
        forall|p: Pos| #[trigger]
            grid@.contains_key(p) ==> {
                &&& 0 <= p.0 - lo.0 <= i32::MAX && p.0 - lo.0 + origin.0 <= i32::MAX
                &&& 0 <= p.1 - lo.1 <= i32::MAX && p.1 - lo.1 + origin.1 <= i32::MAX
                &&& 0 <= p.2 - lo.2 <= i32::MAX && p.2 - lo.2 + origin.2 <= i32::MAX
            },
        forall|j: int|
            0 <= j < cells@.len() ==> grid@.contains_key((#[trigger] cells@[j]).0) && cells@[j].1
                == grid@[cells@[j].0],
    ensures
        final(out)@ == old(out)@ + commands(
            grid@,
            cells@.map_values(|c: (Pos, Block)| c.0),
            lo,
            origin,
            want as int,
            cells@.len(),
        ),
{
    let ghost order = cells@.map_values(|c: (Pos, Block)| c.0);
    assert(out@ =~= old(out)@ + commands(grid@, order, lo, origin, want as int, 0));
    for i in 0..cells.len()
        invariant
            order == cells@.map_values(|c: (Pos, Block)| c.0),
            forall|p: Pos| #[trigger] grid@.contains_key(p) && is_dust(grid@[p]) ==> interior(p),
            forall|p: Pos| #[trigger]
                grid@.contains_key(p) ==> {
                    &&& 0 <= p.0 - lo.0 <= i32::MAX && p.0 - lo.0 + origin.0 <= i32::MAX
                    &&& 0 <= p.1 - lo.1 <= i32::MAX && p.1 - lo.1 + origin.1 <= i32::MAX
                    &&& 0 <= p.2 - lo.2 <= i32::MAX && p.2 - lo.2 + origin.2 <= i32::MAX
                },
            forall|j: int|
                0 <= j < cells@.len() ==> grid@.contains_key((#[trigger] cells@[j]).0) && cells@[j].1
                    == grid@[cells@[j].0],
            out@ == old(out)@ + commands(grid@, order, lo, origin, want as int, i as nat),
    {
        let (p, b) = cells[i];
        assert(grid@.contains_key(cells@[i as int].0));
        assert(order[i as int] == p);
        let ghost had = out@;
        if b != Block::Air && phase(b) == want {
            push_command(out, grid, p, b, lo, origin);
        }
        assert(out@ =~= old(out)@ + commands(grid@, order, lo, origin, want as int, (i + 1) as nat));
    }
}

} // verus!
