//! Palettes of block states: each state that occurs, once.
use crate::nbt::is_ascii_text;
use crate::text::{decimal, truth};
use crate::world::{
    conn_name, dir_name, face_name, material_id, shape_at, shown_delay, shown_power, state_text,
    block_at, Block, Conn, Dir, DustShape, Face, Material, Pos,
};
use vstd::prelude::*;
use vstd::string::*;

verus! {

/// The state of the cell at `p`, with the connections of dust baked in.
pub open spec fn cell_state(cells: Map<Pos, Block>, p: Pos) -> Seq<char> {
    state_text(block_at(cells, p), shape_at(cells, p))
}

/// The texts as sequences of characters.
pub open spec fn texts(v: Seq<String>) -> Seq<Seq<char>> {
    v.map_values(|s: String| s@)
}

/// The palette once `id` is in it.
pub open spec fn entered(palette: Seq<Seq<char>>, id: Seq<char>) -> Seq<Seq<char>> {
    if palette.contains(id) {
        palette
    } else {
        palette.push(id)
    }
}

/// The palette holds states of blocks, each once.
pub open spec fn states_once(palette: Seq<Seq<char>>) -> bool {
    &&& palette.no_duplicates()
    &&& forall|i: int| 0 <= i < palette.len() ==> is_state(#[trigger] palette[i])
}

/// A text that some block is spelled as.
pub open spec fn is_state(s: Seq<char>) -> bool {
    exists|b: Block, shape: DustShape| s == #[trigger] state_text(b, shape)
}

// --- how many states there are ---------------------------------------------

spec fn conn_code(c: Conn) -> int {
    match c {
        Conn::Empty => 0,
        Conn::Side => 1,
        Conn::Up => 2,
    }
}

spec fn dir_code(d: Dir) -> int {
    match d {
        Dir::North => 0,
        Dir::South => 1,
        Dir::West => 2,
        Dir::East => 3,
    }
}

spec fn face_code(f: Face) -> int {
    match f {
        Face::Floor => 0,
        Face::Wall => 1,
        Face::Ceiling => 2,
    }
}

spec fn flag_code(b: bool) -> int {
    if b {
        1
    } else {
        0
    }
}

/// A number below 2500 that fixes how a block is spelled.
spec fn state_code(b: Block, s: DustShape) -> int {
    match b {
        Block::Air => 0,
        Block::Solid(m) => match m {
            Material::Gate => 1,
            Material::Wire => 2,
            Material::Shield => 3,
            Material::PortIn => 4,
            Material::PortOut => 5,
            Material::Clock => 6,
        },
        Block::Dust { power } => 100 + shown_power(power) * 81 + conn_code(s.north) * 27
            + conn_code(s.south) * 9 + conn_code(s.west) * 3 + conn_code(s.east),
        Block::WallTorch { facing, lit } => 2000 + dir_code(facing) * 2 + flag_code(lit),
        Block::Torch { lit } => 2100 + flag_code(lit),
        Block::Repeater { facing, delay, powered } => 2200 + shown_delay(delay) * 8 + dir_code(facing)
            * 2 + flag_code(powered),
        Block::Lever { face, facing, powered } => 2300 + face_code(face) * 8 + dir_code(facing) * 2
            + flag_code(powered),
        Block::Lamp { lit } => 2400 + flag_code(lit),
    }
}

proof fn lemma_codes()
    ensures
        forall|c: Conn| 0 <= #[trigger] conn_code(c) < 3,
        forall|d: Dir| 0 <= #[trigger] dir_code(d) < 4,
        forall|f: Face| 0 <= #[trigger] face_code(f) < 3,
        forall|c: Conn, d: Conn| #[trigger] conn_code(c) == #[trigger] conn_code(d) ==> c == d,
        forall|c: Dir, d: Dir| #[trigger] dir_code(c) == #[trigger] dir_code(d) ==> c == d,
        forall|c: Face, d: Face| #[trigger] face_code(c) == #[trigger] face_code(d) ==> c == d,
{
}

proof fn lemma_last_digit(a: int, e: int, b: int, f: int)
    requires
        a * 3 + e == b * 3 + f,
        0 <= e < 3,
        0 <= f < 3,
    ensures
        a == b && e == f,
{
}

proof fn lemma_dust_code(p: int, n: int, s: int, w: int, e: int, q: int, m: int, t: int, x: int, f: int)
    requires
        p * 81 + n * 27 + s * 9 + w * 3 + e == q * 81 + m * 27 + t * 9 + x * 3 + f,
        0 <= n < 3,
        0 <= s < 3,
        0 <= w < 3,
        0 <= e < 3,
        0 <= m < 3,
        0 <= t < 3,
        0 <= x < 3,
        0 <= f < 3,
    ensures
        p == q && n == m && s == t && w == x && e == f,
{
    lemma_last_digit(((p * 3 + n) * 3 + s) * 3 + w, e, ((q * 3 + m) * 3 + t) * 3 + x, f);
    lemma_last_digit((p * 3 + n) * 3 + s, w, (q * 3 + m) * 3 + t, x);
    lemma_last_digit(p * 3 + n, s, q * 3 + m, t);
    lemma_last_digit(p, n, q, m);
}

/// The hundred that a block's code is in tells its kind.
spec fn code_range(b: Block) -> (int, int) {
    match b {
        Block::Air => (0, 1),
        Block::Solid(_) => (1, 7),
        Block::Dust { .. } => (100, 2000),
        Block::WallTorch { .. } => (2000, 2100),
        Block::Torch { .. } => (2100, 2200),
        Block::Repeater { .. } => (2200, 2300),
        Block::Lever { .. } => (2300, 2400),
        Block::Lamp { .. } => (2400, 2500),
    }
}

proof fn lemma_code_range(b: Block, s: DustShape)
    ensures
        code_range(b).0 <= state_code(b, s) < code_range(b).1,
{
    lemma_codes();
}

proof fn lemma_code(b: Block, s: DustShape, c: Block, t: DustShape)
    requires
        state_code(b, s) == state_code(c, t),
    ensures
        state_text(b, s) == state_text(c, t),
{
    lemma_code_range(b, s);
    lemma_code_range(c, t);
    assert(code_range(b) == code_range(c));
    match b {
        Block::Dust { power } => {
            lemma_codes();
            lemma_dust_code(
                shown_power(power) as int,
                conn_code(s.north),
                conn_code(s.south),
                conn_code(s.west),
                conn_code(s.east),
                shown_power(c->power) as int,
                conn_code(t.north),
                conn_code(t.south),
                conn_code(t.west),
                conn_code(t.east),
            );
        },
        Block::WallTorch { facing, lit } => {
            lemma_codes();
            assert(c is WallTorch);
        },
        Block::Repeater { facing, delay, powered } => {
            lemma_codes();
            assert(c is Repeater);
        },
        Block::Lever { face, facing, powered } => {
            lemma_codes();
            assert(c is Lever);
        },
        _ => {},
    }
}

/// A block and a shape that are spelled `s`.
spec fn spelled(s: Seq<char>) -> (Block, DustShape) {
    choose|b: Block, shape: DustShape| s == #[trigger] state_text(b, shape)
}

/// There are fewer than 2500 block states.
pub proof fn lemma_few_states(palette: Seq<Seq<char>>)
    requires
        states_once(palette),
    ensures
        palette.len() <= 2500,
{
    let codes = Seq::new(
        palette.len(),
        |i: int| state_code(spelled(palette[i]).0, spelled(palette[i]).1),
    );
    assert forall|i: int| 0 <= i < palette.len() implies #[trigger] palette[i] == state_text(
        spelled(palette[i]).0,
        spelled(palette[i]).1,
    ) by {
        assert(is_state(palette[i]));
    }
    assert(codes.no_duplicates()) by {
        assert forall|i: int, j: int| 0 <= i < codes.len() && 0 <= j < codes.len() && i != j implies codes[i]
            != codes[j] by {
            if codes[i] == codes[j] {
                let (a, b) = (spelled(palette[i]), spelled(palette[j]));
                lemma_code(a.0, a.1, b.0, b.1);
            }
        }
    }
    let all = vstd::set_lib::set_int_range(0, 2500);
    vstd::set_lib::lemma_int_range(0, 2500);
    codes.unique_seq_to_set();
    assert(codes.to_set().subset_of(all)) by {
        assert forall|c: int| codes.to_set().contains(c) implies all.contains(c) by {
            let i = choose|i: int| 0 <= i < codes.len() && codes[i] == c;
            lemma_code_range(spelled(palette[i]).0, spelled(palette[i]).1);
        }
    }
    vstd::set_lib::lemma_len_subset(codes.to_set(), all);
}

// --- states are plain ASCII ------------------------------------------------

/// Every character is ASCII, and none is blank.
pub open spec fn is_graphic(s: Seq<char>) -> bool {
    forall|i: int| 0 <= i < s.len() ==> 32 < (#[trigger] s[i] as u32) < 127
}

proof fn lemma_ascii_join(a: Seq<char>, b: Seq<char>)
    requires
        is_graphic(a),
        is_graphic(b),
    ensures
        is_graphic(a + b),
{
}

proof fn lemma_ascii_decimal(n: nat)
    ensures
        is_graphic(decimal(n)),
    decreases n,
{
    if n >= 10 {
        lemma_ascii_decimal(n / 10);
    }
}

proof fn lemma_ascii_names(c: Conn, d: Dir, f: Face, m: Material, b: bool)
    ensures
        is_graphic(conn_name(c)),
        is_graphic(dir_name(d)),
        is_graphic(face_name(f)),
        is_graphic(material_id(m)),
        is_graphic(truth(b)),
{
    reveal_strlit("none");
    reveal_strlit("side");
    reveal_strlit("up");
    reveal_strlit("north");
    reveal_strlit("south");
    reveal_strlit("west");
    reveal_strlit("east");
    reveal_strlit("floor");
    reveal_strlit("wall");
    reveal_strlit("ceiling");
    reveal_strlit("minecraft:stone");
    reveal_strlit("minecraft:polished_andesite");
    reveal_strlit("minecraft:smooth_stone");
    reveal_strlit("minecraft:lime_concrete");
    reveal_strlit("minecraft:red_concrete");
    reveal_strlit("minecraft:blue_concrete");
    reveal_strlit("true");
    reveal_strlit("false");
}

proof fn lemma_ascii_dust(power: u8, s: DustShape)
    ensures
        is_graphic(state_text(Block::Dust { power }, s)),
{
    let (a, b, c, d, e, f) = (
        "minecraft:redstone_wire[east="@,
        ",north="@,
        ",power="@,
        ",south="@,
        ",west="@,
        "]"@,
    );
    assert(is_graphic(a) && is_graphic(b) && is_graphic(c) && is_graphic(d)
        && is_graphic(e) && is_graphic(f)) by {
        reveal_strlit("minecraft:redstone_wire[east=");
        reveal_strlit(",north=");
        reveal_strlit(",power=");
        reveal_strlit(",south=");
        reveal_strlit(",west=");
        reveal_strlit("]");
    }
    let (east, north, south, west) = (
        conn_name(s.east),
        conn_name(s.north),
        conn_name(s.south),
        conn_name(s.west),
    );
    let level = decimal(shown_power(power));
    lemma_ascii_decimal(shown_power(power));
    lemma_ascii_names(s.north, Dir::North, Face::Floor, Material::Gate, true);
    lemma_ascii_names(s.south, Dir::North, Face::Floor, Material::Gate, true);
    lemma_ascii_names(s.west, Dir::North, Face::Floor, Material::Gate, true);
    lemma_ascii_names(s.east, Dir::North, Face::Floor, Material::Gate, true);
    lemma_ascii_join(a, east);
    lemma_ascii_join(a + east, b);
    lemma_ascii_join(a + east + b, north);
    lemma_ascii_join(a + east + b + north, c);
    lemma_ascii_join(a + east + b + north + c, level);
    lemma_ascii_join(a + east + b + north + c + level, d);
    lemma_ascii_join(a + east + b + north + c + level + d, south);
    lemma_ascii_join(a + east + b + north + c + level + d + south, e);
    lemma_ascii_join(a + east + b + north + c + level + d + south + e, west);
    lemma_ascii_join(a + east + b + north + c + level + d + south + e + west, f);
}

/// Every block state is spelled in plain ASCII, without blanks.
pub proof fn lemma_ascii_state(b: Block, s: DustShape)
    ensures
        is_graphic(state_text(b, s)),
        is_ascii_text(state_text(b, s)),
{
    match b {
        Block::Air => {
            reveal_strlit("minecraft:air");
        },
        Block::Solid(m) => {
            lemma_ascii_names(s.north, Dir::North, Face::Floor, m, true);
        },
        Block::Dust { power } => {
            lemma_ascii_dust(power, s);
        },
        Block::WallTorch { facing, lit } => {
            reveal_strlit("minecraft:redstone_wall_torch[facing=");
            reveal_strlit(",lit=");
            reveal_strlit("]");
            lemma_ascii_names(s.north, facing, Face::Floor, Material::Gate, lit);
        },
        Block::Torch { lit } => {
            reveal_strlit("minecraft:redstone_torch[lit=");
            reveal_strlit("]");
            lemma_ascii_names(s.north, Dir::North, Face::Floor, Material::Gate, lit);
        },
        Block::Repeater { facing, delay, powered } => {
            reveal_strlit("minecraft:repeater[delay=");
            reveal_strlit(",facing=");
            reveal_strlit(",locked=false,powered=");
            reveal_strlit("]");
            lemma_ascii_decimal(shown_delay(delay));
            lemma_ascii_names(s.north, facing, Face::Floor, Material::Gate, powered);
        },
        Block::Lever { face, facing, powered } => {
            reveal_strlit("minecraft:lever[face=");
            reveal_strlit(",facing=");
            reveal_strlit(",powered=");
            reveal_strlit("]");
            lemma_ascii_names(s.north, facing, face, Material::Gate, powered);
        },
        Block::Lamp { lit } => {
            reveal_strlit("minecraft:redstone_lamp[lit=");
            reveal_strlit("]");
            lemma_ascii_names(s.north, Dir::North, Face::Floor, Material::Gate, lit);
        },
    }
}

/// Palettes of block states are plain ASCII.
pub proof fn lemma_ascii_palette(v: Seq<String>)
    requires
        states_once(texts(v)),
    ensures
        forall|i: int| 0 <= i < v.len() ==> is_ascii_text((#[trigger] v[i])@),
{
    assert forall|i: int| 0 <= i < v.len() implies is_ascii_text((#[trigger] v[i])@) by {
        assert(is_state(texts(v)[i]));
        let (b, s) = choose|b: Block, s: DustShape| texts(v)[i] == #[trigger] state_text(b, s);
        lemma_ascii_state(b, s);
    }
}

/// The index of `id` in the palette, which takes it up if it is new.
pub fn palette_index(palette: &mut Vec<String>, id: String) -> (i: u32)
    requires
        states_once(texts(old(palette)@)),
        is_state(id@),
    ensures
        texts(final(palette)@) == entered(texts(old(palette)@), id@),
        states_once(texts(final(palette)@)),
        i < final(palette)@.len(),
        texts(final(palette)@)[i as int] == id@,
{
    proof {
        lemma_few_states(texts(palette@));
    }
    for i in 0..palette.len()
        invariant
            palette@ == old(palette)@,
            palette@.len() <= 2500,
            states_once(texts(palette@)),
            forall|j: int| 0 <= j < i ==> (#[trigger] palette@[j])@ != id@,
    {
        if palette[i] == id {
            assert(texts(palette@)[i as int] == id@);
            return i as u32;
        }
    }
    let n: u32 = palette.len() as u32;
    proof {
        assert(!texts(palette@).contains(id@)) by {
            if texts(palette@).contains(id@) {
                let j = choose|j: int| 0 <= j < palette@.len() && texts(palette@)[j] == id@;
                assert(palette@[j]@ == id@);
            }
        }
        assert(texts(palette@.push(id)) =~= texts(palette@).push(id@));
    }
    palette.push(id);
    n
}

} // verus!
