//! Sponge Schematic v3 emitter.
//!
//! Layout of the format (see the SpongePowered/Schematic-Specification repo):
//! a gzip-compressed NBT file whose root compound holds a single `Schematic`
//! compound. Block indices live in `Blocks.Data` as a flat varint stream ordered
//! `x + z * Width + y * Width * Length`, indexing into `Blocks.Palette`.
use crate::gzip::{gzip, gzip_header, gzipped};
use crate::nbt::{is_ascii_text, leb128, plain, root_bytes, write_root, write_varint, Tag, TagTree};
use crate::palette::{cell_state, is_state, lemma_ascii_palette, palette_index, states_once, texts};
use crate::world::{block_at, bounding, interior, is_dust, state_text, Block, Grid, Pos};
use vstd::prelude::*;
use vstd::string::*;

verus! {

/// Minecraft 1.20.4. Any reasonably recent value works; WorldEdit uses it to
/// decide whether the blocks need upgrading before pasting.
pub const DATA_VERSION: i32 = 3700;

pub struct Schematic {
    pub width: u16,
    pub height: u16,
    pub length: u16,
    pub palette: Vec<String>,
    pub data: Vec<u32>,
}

/// The extent of the box from `lo` to `hi` along each axis.
pub open spec fn extent(lo: Pos, hi: Pos) -> (int, int, int) {
    (hi.0 - lo.0 + 1, hi.1 - lo.1 + 1, hi.2 - lo.2 + 1)
}

/// The number of cells in the box from `lo` to `hi`.
pub open spec fn box_volume(lo: Pos, hi: Pos) -> int {
    extent(lo, hi).0 * extent(lo, hi).1 * extent(lo, hi).2
}

/// Dust has room around it, and the box around the cells can be held as an array.
pub open spec fn can_be_dense(cells: Map<Pos, Block>) -> bool {
    &&& forall|p: Pos| #[trigger] cells.contains_key(p) && is_dust(cells[p]) ==> interior(p)
    &&& forall|lo: Pos, hi: Pos| #[trigger]
        bounding(cells, lo, hi) ==> {
            &&& extent(lo, hi).0 <= i32::MAX
            &&& extent(lo, hi).1 <= i32::MAX
            &&& extent(lo, hi).2 <= i32::MAX
            &&& box_volume(lo, hi) <= usize::MAX
        }
}

/// Where the cell at `p` stands in the data of the box from `lo` to `hi`.
pub open spec fn data_index(lo: Pos, hi: Pos, p: Pos) -> int {
    (p.0 - lo.0) + (p.2 - lo.2) * extent(lo, hi).0 + (p.1 - lo.1) * extent(lo, hi).0 * extent(
        lo,
        hi,
    ).2
}

/// `p` lies in the box from `lo` to `hi`.
pub open spec fn in_box(lo: Pos, hi: Pos, p: Pos) -> bool {
    lo.0 <= p.0 <= hi.0 && lo.1 <= p.1 <= hi.1 && lo.2 <= p.2 <= hi.2
}

/// The schematic shows the cells of the box from `lo` to `hi`: each cell's index
/// stands in its place and leads to its state. The palette holds air first, and
/// every other state that occurs, once.
pub open spec fn shows(s: Schematic, cells: Map<Pos, Block>, lo: Pos, hi: Pos) -> bool {
    let palette = texts(s.palette@);
    &&& s.width == extent(lo, hi).0 % 0x1_0000
    &&& s.height == extent(lo, hi).1 % 0x1_0000
    &&& s.length == extent(lo, hi).2 % 0x1_0000
    &&& s.data@.len() == box_volume(lo, hi)
    &&& palette.len() > 0
    &&& palette[0] == "minecraft:air"@
    &&& palette.no_duplicates()
    &&& forall|p: Pos| #[trigger]
        in_box(lo, hi, p) ==> {
            &&& 0 <= data_index(lo, hi, p) < s.data@.len()
            &&& s.data@[data_index(lo, hi, p)] < palette.len()
            &&& palette[s.data@[data_index(lo, hi, p)] as int] == cell_state(cells, p)
        }
    &&& forall|i: int| 0 < i < palette.len() ==> state_occurs(cells, #[trigger] palette[i])
}

/// Some cell is in state `s`.
pub open spec fn state_occurs(cells: Map<Pos, Block>, s: Seq<char>) -> bool {
    exists|p: Pos| #[trigger] cells.contains_key(p) && cells[p] != Block::Air && cell_state(cells, p) == s
}

/// Cells of a box have places in the data.
pub proof fn lemma_place(w: int, h: int, l: int, x: int, y: int, z: int)
    requires
        0 <= x < w,
        0 <= y < h,
        0 <= z < l,
    ensures
        0 <= z * w <= (l - 1) * w,
        0 <= y * w * l <= (h - 1) * (w * l),
        0 <= x + z * w + y * w * l < w * h * l,
        0 <= y * w,
        w * h * l >= 1,
        w * l >= 1,
        w * h >= 1,
{
    assert(0 <= z * w <= (l - 1) * w) by (nonlinear_arith)
        requires
            0 <= z <= l - 1,
            w > 0,
    ;
    assert(w * l >= 1) by (nonlinear_arith)
        requires
            w >= 1,
            l >= 1,
    ;
    assert(w * h >= 1) by (nonlinear_arith)
        requires
            w >= 1,
            h >= 1,
    ;
    let a = w * l;
    assert(0 <= y * a <= (h - 1) * a) by (nonlinear_arith)
        requires
            0 <= y <= h - 1,
            a >= 1,
    ;
    assert(y * w * l == y * a) by (nonlinear_arith)
        requires
            a == w * l,
    ;
    assert(0 <= y * w) by (nonlinear_arith)
        requires
            y >= 0,
            w > 0,
    ;
    assert((l - 1) * w + w == a) by (nonlinear_arith)
        requires
            a == w * l,
    ;
    assert((h - 1) * a + a == w * h * l) by (nonlinear_arith)
        requires
            a == w * l,
    ;
    assert(w * h * l >= 1);
}

/// Two cells of a box have different places in the data.
pub proof fn lemma_places_differ(w: int, l: int, x: int, y: int, z: int, u: int, v: int, t: int)
    requires
        0 <= x < w,
        0 <= u < w,
        0 <= z < l,
        0 <= t < l,
        0 <= y,
        0 <= v,
        x + z * w + y * w * l == u + t * w + v * w * l,
    ensures
        x == u && y == v && z == t,
{
    assert(x + z * w + y * w * l == (z + y * l) * w + x) by (nonlinear_arith);
    assert(u + t * w + v * w * l == (t + v * l) * w + u) by (nonlinear_arith);
    vstd::arithmetic::div_mod::lemma_fundamental_div_mod_converse(
        (z + y * l) * w + x,
        w,
        z + y * l,
        x,
    );
    vstd::arithmetic::div_mod::lemma_fundamental_div_mod_converse(
        (t + v * l) * w + u,
        w,
        t + v * l,
        u,
    );
    vstd::arithmetic::div_mod::lemma_fundamental_div_mod_converse(z + y * l, l, y, z);
    vstd::arithmetic::div_mod::lemma_fundamental_div_mod_converse(t + v * l, l, v, t);
}

/// The data so far: the cells in `done` have their states, the others are air.
spec fn filled(
    palette: Seq<Seq<char>>,
    data: Seq<u32>,
    cells: Map<Pos, Block>,
    lo: Pos,
    hi: Pos,
    done: Set<Pos>,
) -> bool {
    &&& states_once(palette)
    &&& palette.len() > 0
    &&& palette[0] == "minecraft:air"@
    &&& data.len() == box_volume(lo, hi)
    &&& forall|p: Pos| #[trigger]
        in_box(lo, hi, p) ==> {
            &&& 0 <= data_index(lo, hi, p) < data.len()
            &&& data[data_index(lo, hi, p)] < palette.len()
            &&& palette[data[data_index(lo, hi, p)] as int] == if done.contains(p) {
                cell_state(cells, p)
            } else {
                "minecraft:air"@
            }
        }
    &&& forall|i: int| 0 < i < palette.len() ==> state_occurs(cells, #[trigger] palette[i])
}

proof fn lemma_data_index(lo: Pos, hi: Pos, p: Pos)
    requires
        in_box(lo, hi, p),
    ensures
        0 <= data_index(lo, hi, p) < box_volume(lo, hi),
        forall|q: Pos| #[trigger]
            in_box(lo, hi, q) && data_index(lo, hi, q) == data_index(lo, hi, p) ==> q == p,
{
    let e = extent(lo, hi);
    lemma_place(e.0, e.1, e.2, p.0 - lo.0, p.1 - lo.1, p.2 - lo.2);
    assert forall|q: Pos| #[trigger]
        in_box(lo, hi, q) && data_index(lo, hi, q) == data_index(lo, hi, p) implies q == p by {
        lemma_places_differ(
            e.0,
            e.2,
            p.0 - lo.0,
            p.1 - lo.1,
            p.2 - lo.2,
            q.0 - lo.0,
            q.1 - lo.1,
            q.2 - lo.2,
        );
    }
}

proof fn lemma_filled_step(
    palette: Seq<Seq<char>>,
    next: Seq<Seq<char>>,
    data: Seq<u32>,
    idx: u32,
    cells: Map<Pos, Block>,
    lo: Pos,
    hi: Pos,
    done: Set<Pos>,
    p: Pos,
)
    requires
        filled(palette, data, cells, lo, hi, done),
        cells.contains_key(p),
        cells[p] != Block::Air,
        in_box(lo, hi, p),
        next == crate::palette::entered(palette, cell_state(cells, p)),
        states_once(next),
        idx < next.len(),
        next[idx as int] == cell_state(cells, p),
    ensures
        filled(next, data.update(data_index(lo, hi, p), idx), cells, lo, hi, done.insert(p)),
{
    lemma_data_index(lo, hi, p);
    let after = data.update(data_index(lo, hi, p), idx);
    assert(forall|i: int| 0 <= i < palette.len() ==> next[i] == palette[i]);
    assert forall|q: Pos| #[trigger] in_box(lo, hi, q) implies {
        &&& 0 <= data_index(lo, hi, q) < after.len()
        &&& after[data_index(lo, hi, q)] < next.len()
        &&& next[after[data_index(lo, hi, q)] as int] == if done.insert(p).contains(q) {
            cell_state(cells, q)
        } else {
            "minecraft:air"@
        }
    } by {
        if q != p {
            assert(data_index(lo, hi, q) != data_index(lo, hi, p));
        }
    }
    assert forall|i: int| 0 < i < next.len() implies state_occurs(cells, #[trigger] next[i]) by {
        if i < palette.len() {
            assert(state_occurs(cells, palette[i]));
        }
    }
}

impl Schematic {
    /// The schematic of the box around the grid's cells; of an empty grid, one
    /// block of air.
    pub fn from_grid(grid: &Grid) -> (s: Schematic)
        requires
            can_be_dense(grid@),
        ensures
            ascii_palette(s),
            grid@ == Map::<Pos, Block>::empty() ==> {
                &&& (s.width, s.height, s.length) == (1u16, 1u16, 1u16)
                &&& texts(s.palette@) == seq!["minecraft:air"@]
                &&& s.data@ == seq![0u32]
            },
            grid@ != Map::<Pos, Block>::empty() ==> exists|lo: Pos, hi: Pos|
                #![trigger bounding(grid@, lo, hi)]
                bounding(grid@, lo, hi) && shows(s, grid@, lo, hi),
    {
        let mut palette: Vec<String> = Vec::new();
        // Air is index 0 so the (overwhelmingly common) empty cell is a 1-byte varint.
        palette.push(String::from_str("minecraft:air"));
        proof {
            assert(texts(palette@) =~= seq!["minecraft:air"@]);
            assert(is_state(state_text(Block::Air, crate::world::dot())));
            assert(states_once(texts(palette@)));
        }
        let (lo, hi) = match grid.bounds() {
            None => {
                let mut data: Vec<u32> = Vec::new();
                data.push(0);
                proof {
                    assert(data@ =~= seq![0u32]);
                    lemma_ascii_palette(palette@);
                }
                return Schematic { width: 1, height: 1, length: 1, palette, data };
            },
            Some(b) => b,
        };
        let ghost e = extent(lo, hi);
        proof {
            let some = choose|p: Pos| #[trigger] grid@.contains_key(p) && p.0 == lo.0;
            assert(in_box(lo, hi, some));
            lemma_place(e.0, e.1, e.2, some.0 - lo.0, some.1 - lo.1, some.2 - lo.2);
            assert(e.0 * e.1 <= e.0 * e.1 * e.2) by (nonlinear_arith)
                requires
                    e.0 * e.1 >= 1,
                    e.2 >= 1,
            ;
        }
        let width: usize = (hi.0 - lo.0 + 1) as usize;
        let height: usize = (hi.1 - lo.1 + 1) as usize;
        let length: usize = (hi.2 - lo.2 + 1) as usize;
        let volume: usize = width * height * length;
        let mut data: Vec<u32> = vec![0u32; volume];
        let cells = grid.iter();
        let ghost mut done: Set<Pos> = Set::empty();
        proof {
            assert forall|p: Pos| #[trigger] in_box(lo, hi, p) implies 0 <= data_index(lo, hi, p)
                < data@.len() by {
                lemma_data_index(lo, hi, p);
            }
        }
        for i in 0..cells.len()
            invariant
                can_be_dense(grid@),
                bounding(grid@, lo, hi),
                width == extent(lo, hi).0,
                height == extent(lo, hi).1,
                length == extent(lo, hi).2,
                volume == box_volume(lo, hi),
                data@.len() == volume,
                forall|j: int|
                    0 <= j < cells@.len() ==> grid@.contains_key((#[trigger] cells@[j]).0)
                        && cells@[j].1 == grid@[cells@[j].0],
                filled(texts(palette@), data@, grid@, lo, hi, done),
                forall|j: int|
                    0 <= j < i && (#[trigger] cells@[j]).1 != Block::Air ==> done.contains(
                        cells@[j].0,
                    ),
                forall|p: Pos| #[trigger]
                    done.contains(p) ==> grid@.contains_key(p) && grid@[p] != Block::Air,
        {
            let (p, b) = cells[i];
            assert(grid@.contains_key(cells@[i as int].0));
            if b != Block::Air {
                // Dust connection shape has to be baked in: it is a real blockstate
                // property that determines connectivity, and a pasted schematic may
                // not receive the neighbour updates that would otherwise fix it.
                let id = b.state_id(grid.dust_shape(p));
                assert(id@ == cell_state(grid@, p));
                let ghost before = texts(palette@);
                let idx: u32 = palette_index(&mut palette, id);
                let x: usize = (p.0 as i64 - lo.0 as i64) as usize;
                let y: usize = (p.1 as i64 - lo.1 as i64) as usize;
                let z: usize = (p.2 as i64 - lo.2 as i64) as usize;
                proof {
                    assert(in_box(lo, hi, p));
                    lemma_place(width as int, height as int, length as int, x as int, y as int, z as int);
                    lemma_filled_step(
                        before,
                        texts(palette@),
                        data@,
                        idx,
                        grid@,
                        lo,
                        hi,
                        done,
                        p,
                    );
                    done = done.insert(p);
                    assert(y * width <= y * width * length) by (nonlinear_arith)
                        requires
                            y * width >= 0,
                            length >= 1,
                    ;
                }
                data.set(x + z * width + y * width * length, idx);
            }
        }
        proof {
            assert forall|p: Pos| #[trigger] in_box(lo, hi, p) && !done.contains(p) implies cell_state(
                grid@,
                p,
            ) == "minecraft:air"@ by {
                if grid@.contains_key(p) && grid@[p] != Block::Air {
                    let j = choose|j: int| 0 <= j < cells@.len() && cells@[j] == (p, block_at(grid@, p));
                    assert(done.contains(cells@[j].0));
                }
            }
            lemma_ascii_palette(palette@);
        }
        let s = Schematic {
            width: (width % 0x1_0000) as u16,
            height: (height % 0x1_0000) as u16,
            length: (length % 0x1_0000) as u16,
            palette,
            data,
        };
        assert(shows(s, grid@, lo, hi));
        s
    }

    pub fn to_nbt(&self) -> (t: Tag)
        ensures
            t.tree() == schematic_tree(*self),
            ascii_palette(*self) ==> plain(t.tree()),
    {
        proof {
            reveal_with_fuel(Tag::tree, 2);
        }
        let mut block_data: Vec<u8> = Vec::new();
        for i in 0..self.data.len()
            invariant
                block_data@ == varints(self.data@.take(i as int)),
        {
            write_varint(&mut block_data, self.data[i]);
            proof {
                let next = self.data@.take(i + 1);
                assert(next.drop_last() =~= self.data@.take(i as int));
            }
        }
        assert(self.data@.take(self.data@.len() as int) =~= self.data@);

        let mut palette: Vec<(String, Tag)> = Vec::new();
        for i in 0..self.palette.len()
            invariant
                palette@.len() == i,
                forall|j: int|
                    0 <= j < i ==> (#[trigger] palette@[j]).0@ == self.palette@[j]@ && palette@[j].1
                        == Tag::Int(j as i32),
        {
            palette.push((self.palette[i].clone(), Tag::Int(i as i32)));
        }
        let palette = Tag::Compound(palette);
        assert(palette.tree()->Compound_0 =~= palette_tree(texts(self.palette@))->Compound_0);

        let mut blocks: Vec<(String, Tag)> = Vec::new();
        blocks.push(named("Palette", palette));
        blocks.push(named("Data", Tag::ByteArray(block_data)));
        blocks.push(named("BlockEntities", Tag::List(10, Vec::new())));
        let blocks = Tag::Compound(blocks);
        proof {
            assert(blocks.tree()->Compound_0[2].1->List_1 =~= Seq::<TagTree>::empty());
            assert(blocks.tree()->Compound_0 =~= blocks_tree(*self)->Compound_0);
        }

        let mut metadata: Vec<(String, Tag)> = Vec::new();
        metadata.push(named("Name", Tag::String(String::from_str("ohmc output"))));
        metadata.push(named("Author", Tag::String(String::from_str("ohmc"))));
        let metadata = Tag::Compound(metadata);
        assert(metadata.tree()->Compound_0 =~= metadata_tree()->Compound_0);

        let mut offset: Vec<i32> = Vec::new();
        offset.push(0);
        offset.push(0);
        offset.push(0);
        assert(offset@ =~= seq![0i32, 0i32, 0i32]);

        let mut fields: Vec<(String, Tag)> = Vec::new();
        fields.push(named("Version", Tag::Int(3)));
        fields.push(named("DataVersion", Tag::Int(DATA_VERSION)));
        fields.push(named("Width", Tag::Short(self.width as i16)));
        fields.push(named("Height", Tag::Short(self.height as i16)));
        fields.push(named("Length", Tag::Short(self.length as i16)));
        fields.push(named("Offset", Tag::IntArray(offset)));
        fields.push(named("Metadata", metadata));
        fields.push(named("Blocks", blocks));
        let fields = Tag::Compound(fields);
        assert(fields.tree()->Compound_0 =~= fields_tree(*self)->Compound_0);

        let mut root: Vec<(String, Tag)> = Vec::new();
        root.push(named("Schematic", fields));
        let root = Tag::Compound(root);
        proof {
            assert(root.tree()->Compound_0 =~= schematic_tree(*self)->Compound_0);
            if ascii_palette(*self) {
                lemma_plain_tree(*self);
            }
        }
        root
    }

    /// Gzip-compressed NBT, ready to drop in a WorldEdit schematics folder.
    pub fn to_bytes(&self) -> (r: Result<Vec<u8>, std::io::Error>)
        requires
            ascii_palette(*self),
        ensures
            match r {
                Ok(v) => gzipped(root_bytes(""@, schematic_tree(*self))) == Some(v@) && v@.len() >= 18
                    && v@.take(10) == gzip_header(),
                Err(_) => gzipped(root_bytes(""@, schematic_tree(*self))) is None,
            },
    {
        proof {
            reveal_strlit("");
        }
        let raw = write_root("", &self.to_nbt());
        gzip(&raw)
    }

    pub fn volume(&self) -> (n: usize)
        requires
            self.width * self.height * self.length <= usize::MAX,
        ensures
            n == self.width * self.height * self.length,
    {
        if self.width == 0 || self.height == 0 || self.length == 0 {
            proof {
                assert(self.width * self.height * self.length == 0) by (nonlinear_arith)
                    requires
                        self.width == 0 || self.height == 0 || self.length == 0,
                ;
            }
            return 0;
        }
        proof {
            assert(self.width * self.height <= self.width * self.height * self.length) by (nonlinear_arith)
                requires
                    self.width >= 1,
                    self.height >= 1,
                    self.length >= 1,
            ;
        }
        self.width as usize * self.height as usize * self.length as usize
    }
}

/// A tag with its name.
pub fn named(name: &str, t: Tag) -> (r: (String, Tag))
    ensures
        r.0@ == name@,
        r.1 == t,
{
    (String::from_str(name), t)
}

/// Numbers as varints, one after the other.
pub open spec fn varints(data: Seq<u32>) -> Seq<u8>
    decreases data.len(),
{
    if data.len() == 0 {
        Seq::empty()
    } else {
        varints(data.drop_last()) + leb128(data.last() as nat)
    }
}

/// Each state with its index.
pub open spec fn palette_tree(palette: Seq<Seq<char>>) -> TagTree {
    TagTree::Compound(
        Seq::new(palette.len(), |i: int| (palette[i], TagTree::Int(i as i32))),
    )
}

pub open spec fn blocks_tree(s: Schematic) -> TagTree {
    TagTree::Compound(
        seq![
            ("Palette"@, palette_tree(texts(s.palette@))),
            ("Data"@, TagTree::ByteArray(varints(s.data@))),
            ("BlockEntities"@, TagTree::List(10, Seq::empty())),
        ],
    )
}

pub open spec fn metadata_tree() -> TagTree {
    TagTree::Compound(
        seq![("Name"@, TagTree::Text("ohmc output"@)), ("Author"@, TagTree::Text("ohmc"@))],
    )
}

pub open spec fn fields_tree(s: Schematic) -> TagTree {
    TagTree::Compound(
        seq![
            ("Version"@, TagTree::Int(3)),
            ("DataVersion"@, TagTree::Int(DATA_VERSION)),
            ("Width"@, TagTree::Short(s.width as i16)),
            ("Height"@, TagTree::Short(s.height as i16)),
            ("Length"@, TagTree::Short(s.length as i16)),
            ("Offset"@, TagTree::IntArray(seq![0i32, 0i32, 0i32])),
            ("Metadata"@, metadata_tree()),
            ("Blocks"@, blocks_tree(s)),
        ],
    )
}

/// The NBT of a schematic.
pub open spec fn schematic_tree(s: Schematic) -> TagTree {
    TagTree::Compound(seq![("Schematic"@, fields_tree(s))])
}

proof fn lemma_plain_tree(s: Schematic)
    requires
        ascii_palette(s),
    ensures
        plain(schematic_tree(s)),
{
    reveal_with_fuel(plain, 2);
    reveal_strlit("Palette");
    reveal_strlit("Data");
    reveal_strlit("BlockEntities");
    reveal_strlit("Name");
    reveal_strlit("ohmc output");
    reveal_strlit("Author");
    reveal_strlit("ohmc");
    reveal_strlit("Version");
    reveal_strlit("DataVersion");
    reveal_strlit("Width");
    reveal_strlit("Height");
    reveal_strlit("Length");
    reveal_strlit("Offset");
    reveal_strlit("Metadata");
    reveal_strlit("Blocks");
    reveal_strlit("Schematic");
    let palette = palette_tree(texts(s.palette@));
    assert(plain(palette)) by {
        assert forall|i: int| 0 <= i < palette->Compound_0.len() implies is_ascii_text(
            (#[trigger] palette->Compound_0[i]).0,
        ) && plain(palette->Compound_0[i].1) by {
            assert(is_ascii_text(s.palette@[i]@));
        }
    }
    assert(plain(blocks_tree(s)));
    assert(plain(metadata_tree()));
    assert(plain(fields_tree(s)));
}

/// Every state in the palette is plain ASCII.
pub open spec fn ascii_palette(s: Schematic) -> bool {
    forall|i: int| 0 <= i < s.palette@.len() ==> is_ascii_text((#[trigger] s.palette@[i])@)
}

} // verus!
