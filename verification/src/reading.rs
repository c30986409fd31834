//! What a reader makes of the files: reading them back gives the circuit.
use crate::nbt::{leb128, lemma_varint_round_trip, read_leb128, TagTree};
use crate::palette::{
    cell_state, is_state, lemma_ascii_state, lemma_few_states, states_once, texts,
};
use crate::posmap::layer_rank;
use crate::schem::{
    blocks_tree, data_index, fields_tree, in_box, palette_tree, schematic_tree, shows, state_occurs,
    varints, Schematic,
};
use crate::structure::{
    before, block_tree, command, commands, function_header, lemma_before, listed_tree, lists,
    lists_all, lists_cell, phase_of, properties, properties_tree, property, solid_cells, state_parts,
    state_tree, states_in_order, states_tree, structure_tree, triple_tree, without_tail, Structure,
};
use crate::text::{
    decimal, lemma_decimal_reads, lemma_signed_reads, read_signed, signed, truth,
};
use crate::world::{
    block_at, conn_name, dir_name, dot, face_name, material_id, shape_at, shown_delay, shown_power,
    state_text, Block, Conn, Dir, DustShape, Face, Pos,
};
use vstd::prelude::*;
use vstd::string::*;

verus! {

// --- splitting text --------------------------------------------------------------------------

/// The pieces of a text between the `c`s in it.
pub open spec fn pieces(s: Seq<char>, c: char) -> Seq<Seq<char>>
    decreases s.len(),
{
    let k = before(s, c) as int;
    if k < s.len() {
        seq![s.take(k)] + pieces(s.skip(k + 1), c)
    } else {
        seq![s]
    }
}

#[verifier::opaque]
spec fn lacks(s: Seq<char>, c: char) -> bool {
    forall|i: int| 0 <= i < s.len() ==> #[trigger] s[i] != c
}

/// The first piece of a text.
proof fn lemma_first_piece(a: Seq<char>, c: char, rest: Seq<char>)
    requires
        lacks(a, c),
    ensures
        before(a + seq![c] + rest, c) == a.len(),
        (a + seq![c] + rest).take(a.len() as int) == a,
        (a + seq![c] + rest).skip(a.len() as int + 1) == rest,
        pieces(a + seq![c] + rest, c) == seq![a] + pieces(rest, c),
{
    reveal(lacks);
    let s = a + seq![c] + rest;
    assert forall|j: int| 0 <= j < a.len() implies s[j] != c by {
        assert(s[j] == a[j]);
    }
    lemma_before(s, c, a.len() as int);
    assert(s.take(a.len() as int) =~= a);
    assert(s.skip(a.len() as int + 1) =~= rest);
}

proof fn lemma_split(a: Seq<char>, c: char, rest: Seq<char>, all: Seq<Seq<char>>)
    requires
        lacks(a, c),
        pieces(rest, c) == all,
    ensures
        pieces(a + seq![c] + rest, c) == seq![a] + all,
{
    lemma_first_piece(a, c, rest);
}

proof fn lemma_one_piece(a: Seq<char>, c: char)
    requires
        lacks(a, c),
    ensures
        before(a, c) == a.len(),
        pieces(a, c) == seq![a],
{
    reveal(lacks);
    lemma_before(a, c, a.len() as int);
}

// --- setblock commands -------------------------------------------------------------------------

/// A block state, and the offset from the player that it is placed at: x, y and z.
pub struct Placement {
    pub at: (int, int, int),
    pub state: Seq<char>,
}

/// The offset that a relative coordinate stands for.
pub open spec fn read_relative(word: Seq<char>) -> Option<int> {
    if word.len() > 0 && word[0] == '~' {
        read_signed(word.skip(1))
    } else {
        None
    }
}

/// What a line of a function file places: `setblock`, the x, y and z offsets from the
/// player, and a block state.
pub open spec fn read_line(line: Seq<char>) -> Option<Placement> {
    let words = pieces(line, ' ');
    if words.len() == 5 && words[0] == "setblock"@ {
        match (read_relative(words[1]), read_relative(words[2]), read_relative(words[3])) {
            (Some(x), Some(y), Some(z)) => Some(Placement { at: (x, y, z), state: words[4] }),
            _ => None,
        }
    } else {
        None
    }
}

/// What a function file places, line by line. Lines that begin with a number sign are
/// comments; the file ends with the end of a line.
pub open spec fn read_script(s: Seq<char>) -> Option<Seq<Placement>>
    decreases s.len(),
{
    if s.len() == 0 {
        Some(Seq::empty())
    } else {
        let k = before(s, '\n') as int;
        if k >= s.len() {
            None
        } else {
            match read_script(s.skip(k + 1)) {
                None => None,
                Some(rest) => if k > 0 && s[0] == '#' {
                    Some(rest)
                } else {
                    match read_line(s.take(k)) {
                        Some(p) => Some(seq![p] + rest),
                        None => None,
                    }
                },
            }
        }
    }
}

/// The state of the cell at `p`, placed as far from the player as the cell is from `lo`,
/// and `origin` further.
pub open spec fn placed(cells: Map<Pos, Block>, lo: Pos, origin: Pos, p: Pos) -> Placement {
    Placement {
        at: (origin.0 + (p.0 - lo.0), origin.1 + (p.1 - lo.1), origin.2 + (p.2 - lo.2)),
        state: cell_state(cells, p),
    }
}

/// A full block stands by itself.
pub open spec fn stands(b: Block) -> bool {
    b is Solid || b is Lamp
}

/// The placements rebuild the cells: each cell that is not air is placed, once, and nothing
/// else is. Blocks that stand by themselves come before all that needs support, and dust
/// comes last.
pub open spec fn rebuilds(
    script: Seq<Placement>,
    cells: Map<Pos, Block>,
    lo: Pos,
    origin: Pos,
) -> bool {
    exists|list: Seq<Pos>| #[trigger] rebuilds_in(script, cells, lo, origin, list)
}

/// The placements rebuild the cells in the order of `list`.
pub open spec fn rebuilds_in(
    script: Seq<Placement>,
    cells: Map<Pos, Block>,
    lo: Pos,
    origin: Pos,
    list: Seq<Pos>,
) -> bool {
    &&& list.no_duplicates()
    &&& forall|p: Pos| #[trigger] list.contains(p) <==> block_at(cells, p) != Block::Air
    &&& script.len() == list.len()
    &&& forall|i: int| 0 <= i < list.len() ==> #[trigger] script[i] == placed(cells, lo, origin, list[i])
    &&& forall|i: int, j: int|
        #![trigger list[i], list[j]]
        0 <= i < j < list.len() && stands(block_at(cells, list[j])) ==> stands(block_at(cells, list[i]))
    &&& forall|i: int, j: int|
        #![trigger list[i], list[j]]
        0 <= i < j < list.len() && block_at(cells, list[i]) is Dust ==> block_at(cells, list[j]) is Dust
}

/// The commands for some cells, one after the other.
spec fn told(cells: Map<Pos, Block>, list: Seq<Pos>, lo: Pos, origin: Pos) -> Seq<char>
    decreases list.len(),
{
    if list.len() == 0 {
        Seq::empty()
    } else {
        command(cells, list[0], lo, origin) + told(cells, list.skip(1), lo, origin)
    }
}

proof fn lemma_told_join(cells: Map<Pos, Block>, a: Seq<Pos>, b: Seq<Pos>, lo: Pos, origin: Pos)
    ensures
        told(cells, a + b, lo, origin) == told(cells, a, lo, origin) + told(cells, b, lo, origin),
    decreases a.len(),
{
    if a.len() == 0 {
        assert(a + b =~= b);
        assert(told(cells, a, lo, origin) + told(cells, b, lo, origin) =~= told(cells, b, lo, origin));
    } else {
        lemma_told_join(cells, a.skip(1), b, lo, origin);
        assert((a + b).skip(1) =~= a.skip(1) + b);
        assert((a + b)[0] == a[0]);
        assert(told(cells, a + b, lo, origin) =~= told(cells, a, lo, origin) + told(cells, b, lo, origin));
    }
}

/// The cells of one phase among the first `n`.
spec fn in_phase(cells: Map<Pos, Block>, order: Seq<Pos>, phase: int, n: nat) -> Seq<Pos>
    decreases n,
{
    if n == 0 {
        Seq::empty()
    } else {
        let rest = in_phase(cells, order, phase, (n - 1) as nat);
        let p = order[n - 1];
        if cells[p] == Block::Air || phase_of(cells[p]) != phase {
            rest
        } else {
            rest.push(p)
        }
    }
}

proof fn lemma_phase_told(cells: Map<Pos, Block>, order: Seq<Pos>, lo: Pos, origin: Pos, phase: int, n: nat)
    requires
        n <= order.len(),
    ensures
        commands(cells, order, lo, origin, phase, n) == told(
            cells,
            in_phase(cells, order, phase, n),
            lo,
            origin,
        ),
    decreases n,
{
    if n > 0 {
        lemma_phase_told(cells, order, lo, origin, phase, (n - 1) as nat);
        let rest = in_phase(cells, order, phase, (n - 1) as nat);
        let p = order[n - 1];
        lemma_told_join(cells, rest, seq![p], lo, origin);
        assert(rest.push(p) =~= rest + seq![p]);
        assert(seq![p].skip(1) =~= Seq::empty());
        assert(told(cells, seq![p].skip(1), lo, origin) =~= Seq::empty());
        assert(told(cells, seq![p], lo, origin) =~= command(cells, p, lo, origin));
    }
}

/// Each phase lists its cells, each once, in their order.
proof fn lemma_in_phase(cells: Map<Pos, Block>, order: Seq<Pos>, phase: int, n: nat)
    requires
        n <= order.len(),
        order.no_duplicates(),
    ensures
        in_phase(cells, order, phase, n).no_duplicates(),
        forall|p: Pos| #[trigger]
            in_phase(cells, order, phase, n).contains(p) <==> order.take(n as int).contains(p) && cells[p]
                != Block::Air && phase_of(cells[p]) == phase,
    decreases n,
{
    let list = in_phase(cells, order, phase, n);
    if n > 0 {
        lemma_in_phase(cells, order, phase, (n - 1) as nat);
        let rest = in_phase(cells, order, phase, (n - 1) as nat);
        let q = order[n - 1];
        let prev = order.take(n - 1);
        let all = order.take(n as int);
        assert(all =~= prev.push(q));
        assert(!prev.contains(q)) by {
            if prev.contains(q) {
                let i = choose|i: int| 0 <= i < prev.len() && prev[i] == q;
                assert(order[i] == order[n - 1]);
            }
        }
        assert(!rest.contains(q));
        assert forall|p: Pos| #[trigger] list.contains(p) <==> all.contains(p) && cells[p] != Block::Air
            && phase_of(cells[p]) == phase by {
            assert(all.contains(p) <==> prev.contains(p) || p == q) by {
                if prev.contains(p) {
                    let i = choose|i: int| 0 <= i < prev.len() && prev[i] == p;
                    assert(all[i] == p);
                }
                assert(all[n - 1] == q);
                if all.contains(p) && p != q {
                    let i = choose|i: int| 0 <= i < all.len() && all[i] == p;
                    assert(prev[i] == p);
                }
            }
            assert(rest.contains(p) <==> prev.contains(p) && cells[p] != Block::Air && phase_of(cells[p]) == phase);
            if list.contains(p) {
                let i = choose|i: int| 0 <= i < list.len() && list[i] == p;
                if i < rest.len() {
                    assert(rest[i] == p);
                }
            }
            if rest.contains(p) {
                let i = choose|i: int| 0 <= i < rest.len() && rest[i] == p;
                assert(list[i] == p);
            }
            if list.len() > rest.len() {
                assert(list[rest.len() as int] == q);
            }
        }
        assert forall|i: int, j: int| 0 <= i < list.len() && 0 <= j < list.len() && i != j implies list[i]
            != list[j] by {
            if i < rest.len() && j < rest.len() {
                assert(rest[i] != rest[j]);
            } else if i < rest.len() {
                assert(rest.contains(rest[i]));
            } else if j < rest.len() {
                assert(rest.contains(rest[j]));
            }
        }
    }
}

proof fn lemma_lacks_join(a: Seq<char>, b: Seq<char>, c: char)
    requires
        lacks(a, c),
        lacks(b, c),
    ensures
        lacks(a + b, c),
{
    reveal(lacks);
    assert forall|i: int| 0 <= i < (a + b).len() implies #[trigger] (a + b)[i] != c by {
        if i < a.len() {
            assert((a + b)[i] == a[i]);
        } else {
            assert((a + b)[i] == b[i - a.len()]);
        }
    }
}

spec fn is_word(s: Seq<char>) -> bool {
    lacks(s, ' ') && lacks(s, '\n')
}

/// Five words in a line.
spec fn five(a: Seq<char>, b: Seq<char>, c: Seq<char>, d: Seq<char>, e: Seq<char>) -> Seq<char> {
    a + seq![' '] + (b + seq![' '] + (c + seq![' '] + (d + seq![' '] + e)))
}

proof fn lemma_five(a: Seq<char>, b: Seq<char>, c: Seq<char>, d: Seq<char>, e: Seq<char>)
    requires
        is_word(a),
        is_word(b),
        is_word(c),
        is_word(d),
        is_word(e),
    ensures
        pieces(five(a, b, c, d, e), ' ') == seq![a, b, c, d, e],
{
    let gap = seq![' '];
    let r4 = d + gap + e;
    let r3 = c + gap + r4;
    let r2 = b + gap + r3;
    lemma_one_piece(e, ' ');
    lemma_split(d, ' ', e, seq![e]);
    assert(seq![d] + seq![e] =~= seq![d, e]);
    lemma_split(c, ' ', r4, seq![d, e]);
    assert(seq![c] + seq![d, e] =~= seq![c, d, e]);
    lemma_split(b, ' ', r3, seq![c, d, e]);
    assert(seq![b] + seq![c, d, e] =~= seq![b, c, d, e]);
    lemma_split(a, ' ', r2, seq![b, c, d, e]);
    assert(seq![a] + seq![b, c, d, e] =~= seq![a, b, c, d, e]);

}

proof fn lemma_five_lack(a: Seq<char>, b: Seq<char>, c: Seq<char>, d: Seq<char>, e: Seq<char>)
    requires
        is_word(a),
        is_word(b),
        is_word(c),
        is_word(d),
        is_word(e),
    ensures
        lacks(five(a, b, c, d, e), '\n'),
{
    let gap = seq![' '];
    let r4 = d + gap + e;
    let r3 = c + gap + r4;
    let r2 = b + gap + r3;
    assert(lacks(gap, '\n')) by {
        reveal(lacks);
    }
    lemma_lacks_join(d, gap, '\n');
    lemma_lacks_join(d + gap, e, '\n');
    lemma_lacks_join(c, gap, '\n');
    lemma_lacks_join(c + gap, r4, '\n');
    lemma_lacks_join(b, gap, '\n');
    lemma_lacks_join(b + gap, r3, '\n');
    lemma_lacks_join(a, gap, '\n');
    lemma_lacks_join(a + gap, r2, '\n');
}

/// The words of a command.
proof fn lemma_command_words(cells: Map<Pos, Block>, p: Pos, lo: Pos, origin: Pos)
    ensures
        command(cells, p, lo, origin) == five(
            "setblock"@,
            seq!['~'] + signed(p.0 - lo.0 + origin.0),
            seq!['~'] + signed(p.1 - lo.1 + origin.1),
            seq!['~'] + signed(p.2 - lo.2 + origin.2),
            cell_state(cells, p),
        ) + seq!['\n'],
        is_word("setblock"@),
        "setblock"@.len() == 8,
        "setblock"@[0] == 's',
{
    reveal(lacks);
    reveal_strlit("setblock ~");
    reveal_strlit("setblock");
    reveal_strlit(" ~");
    reveal_strlit(" ");
    reveal_strlit("\n");
    assert("setblock ~"@ =~= "setblock"@ + seq![' ', '~']);
    assert(" ~"@ =~= seq![' ', '~']);
    assert(" "@ =~= seq![' ']);
    assert("\n"@ =~= seq!['\n']);
    assert(command(cells, p, lo, origin) =~= five(
        "setblock"@,
        seq!['~'] + signed(p.0 - lo.0 + origin.0),
        seq!['~'] + signed(p.1 - lo.1 + origin.1),
        seq!['~'] + signed(p.2 - lo.2 + origin.2),
        cell_state(cells, p),
    ) + seq!['\n']);
}

/// A command is read as what it places.
proof fn lemma_command_reads(cells: Map<Pos, Block>, p: Pos, lo: Pos, origin: Pos) -> (line: Seq<char>)
    ensures
        command(cells, p, lo, origin) == line + seq!['\n'],
        lacks(line, '\n'),
        line.len() > 0,
        line[0] == 's',
        read_line(line) == Some(placed(cells, lo, origin, p)),
{
    let (x, y, z) = (p.0 - lo.0 + origin.0, p.1 - lo.1 + origin.1, p.2 - lo.2 + origin.2);
    let (sx, sy, sz) = (signed(x), signed(y), signed(z));
    let (wx, wy, wz) = (seq!['~'] + sx, seq!['~'] + sy, seq!['~'] + sz);
    let state = cell_state(cells, p);
    lemma_signed_reads(x);
    lemma_signed_reads(y);
    lemma_signed_reads(z);
    lemma_word(sx);
    lemma_word(sy);
    lemma_word(sz);
    lemma_ascii_state(block_at(cells, p), shape_at(cells, p));
    assert(is_word(state)) by {
        reveal(lacks);
        assert forall|i: int| 0 <= i < state.len() implies #[trigger] state[i] != ' ' && state[i] != '\n' by {
            assert(32 < (state[i] as u32));
        }
    }
    lemma_command_words(cells, p, lo, origin);
    lemma_five("setblock"@, wx, wy, wz, state);
    lemma_five_lack("setblock"@, wx, wy, wz, state);
    let line = five("setblock"@, wx, wy, wz, state);
    assert(line[0] == "setblock"@[0]);
    assert(wx.skip(1) =~= sx && wy.skip(1) =~= sy && wz.skip(1) =~= sz);
    line
}

/// A relative coordinate is a word.
proof fn lemma_word(s: Seq<char>)
    requires
        forall|k: int| 0 <= k < s.len() ==> '0' <= #[trigger] s[k] <= '9' || s[k] == '-',
    ensures
        lacks(seq!['~'] + s, ' '),
        lacks(seq!['~'] + s, '\n'),
{
    reveal(lacks);
    let w = seq!['~'] + s;
    assert forall|i: int| 0 <= i < w.len() implies #[trigger] w[i] != ' ' && w[i] != '\n' by {
        if i > 0 {
            assert(w[i] == s[i - 1]);
        }
    }
}

/// The commands for some cells are read as their placements.
proof fn lemma_told_reads(cells: Map<Pos, Block>, list: Seq<Pos>, lo: Pos, origin: Pos)
    ensures
        read_script(told(cells, list, lo, origin)) == Some(
            list.map_values(|p: Pos| placed(cells, lo, origin, p)),
        ),
    decreases list.len(),
{
    let all = list.map_values(|p: Pos| placed(cells, lo, origin, p));
    if list.len() == 0 {
        assert(all =~= Seq::empty());
    } else {
        let rest = told(cells, list.skip(1), lo, origin);
        lemma_told_reads(cells, list.skip(1), lo, origin);
        let line = lemma_command_reads(cells, list[0], lo, origin);
        lemma_first_piece(line, '\n', rest);
        let s = told(cells, list, lo, origin);
        assert(s =~= line + seq!['\n'] + rest);
        assert(s[0] == line[0]);
        assert(all =~= seq![placed(cells, lo, origin, list[0])] + list.skip(1).map_values(
            |p: Pos| placed(cells, lo, origin, p),
        ));
    }
}

/// The cells by phase.
spec fn phased(cells: Map<Pos, Block>, order: Seq<Pos>) -> Seq<Pos> {
    in_phase(cells, order, 0, order.len()) + in_phase(cells, order, 1, order.len()) + in_phase(
        cells,
        order,
        2,
        order.len(),
    )
}

/// A function file.
spec fn whole_script(cells: Map<Pos, Block>, order: Seq<Pos>, lo: Pos, origin: Pos) -> Seq<char> {
    function_header() + commands(cells, order, lo, origin, 0, order.len()) + commands(
        cells,
        order,
        lo,
        origin,
        1,
        order.len(),
    ) + commands(cells, order, lo, origin, 2, order.len())
}

/// A function file is read as the placements of its cells, phase by phase.
proof fn lemma_script_reads(cells: Map<Pos, Block>, order: Seq<Pos>, lo: Pos, origin: Pos)
    ensures
        read_script(whole_script(cells, order, lo, origin)) == Some(
            phased(cells, order).map_values(|p: Pos| placed(cells, lo, origin, p)),
        ),
{
    let n = order.len();
    let (a, b, c) = (
        in_phase(cells, order, 0, n),
        in_phase(cells, order, 1, n),
        in_phase(cells, order, 2, n),
    );
    lemma_phase_told(cells, order, lo, origin, 0, n);
    lemma_phase_told(cells, order, lo, origin, 1, n);
    lemma_phase_told(cells, order, lo, origin, 2, n);
    let list = a + b + c;
    lemma_told_join(cells, a, b, lo, origin);
    lemma_told_join(cells, a + b, c, lo, origin);
    lemma_told_reads(cells, list, lo, origin);
    lemma_comment(
        told(cells, a, lo, origin),
        told(cells, b, lo, origin),
        told(cells, c, lo, origin),
    );
}

/// The first line of a function file is a comment.
proof fn lemma_comment(a: Seq<char>, b: Seq<char>, c: Seq<char>)
    ensures
        read_script(function_header() + a + b + c) == read_script(a + b + c),
{
    reveal(lacks);
    let title = function_header().drop_last();
    assert(lacks(title, '\n') && function_header() =~= title + seq!['\n'] && title.len() > 0 && title[0] == '#') by {
        reveal_strlit("# generated by ohmc - run with /function <namespace>:<name>\n");
    }
    let body = a + b + c;
    let s = title + seq!['\n'] + body;
    assert(function_header() + a + b + c =~= s);
    lemma_first_piece(title, '\n', body);
    assert(s[0] == title[0]);
}

/// Where a cell of the phases stands.
proof fn lemma_phased(cells: Map<Pos, Block>, order: Seq<Pos>)
    requires
        lists(order, cells),
    ensures
        phased(cells, order).no_duplicates(),
        forall|p: Pos| #[trigger] phased(cells, order).contains(p) <==> block_at(cells, p) != Block::Air,
        forall|i: int, j: int|
            #![trigger phased(cells, order)[i], phased(cells, order)[j]]
            0 <= i < j < phased(cells, order).len() ==> phase_of(block_at(cells, phased(cells, order)[i]))
                <= phase_of(block_at(cells, phased(cells, order)[j])),
{
    let n = order.len();
    let (a, b, c) = (
        in_phase(cells, order, 0, n),
        in_phase(cells, order, 1, n),
        in_phase(cells, order, 2, n),
    );
    let list = a + b + c;
    lemma_order_once(order, cells);
    lemma_in_phase(cells, order, 0, n);
    lemma_in_phase(cells, order, 1, n);
    lemma_in_phase(cells, order, 2, n);
    assert(order.take(n as int) =~= order);
    assert forall|i: int| 0 <= i < list.len() implies cells.contains_key(#[trigger] list[i]) && cells[list[i]]
        != Block::Air && phase_of(cells[list[i]]) == if i < a.len() {
        0int
    } else if i < a.len() + b.len() {
        1
    } else {
        2
    } by {
        lemma_in_which(a, b, c, i);
        assert(order.contains(list[i]));
    }
    assert forall|p: Pos| #[trigger] list.contains(p) <==> block_at(cells, p) != Block::Air by {
        if list.contains(p) {
            let i = choose|i: int| 0 <= i < list.len() && list[i] == p;
            assert(cells.contains_key(list[i]));
        }
        if block_at(cells, p) != Block::Air {
            assert(cells.contains_key(p));
            assert(order.contains(p));
            if a.contains(p) {
                let i = choose|i: int| 0 <= i < a.len() && a[i] == p;
                assert(list[i] == p);
            } else if b.contains(p) {
                let i = choose|i: int| 0 <= i < b.len() && b[i] == p;
                assert(list[a.len() + i] == p);
            } else {
                assert(c.contains(p));
                let i = choose|i: int| 0 <= i < c.len() && c[i] == p;
                assert(list[a.len() + b.len() + i] == p);
            }
        }
    }
    assert forall|i: int, j: int| 0 <= i < list.len() && 0 <= j < list.len() && i != j implies list[i]
        != list[j] by {
        lemma_in_which(a, b, c, i);
        lemma_in_which(a, b, c, j);
    }
}

/// Running a function file rebuilds the circuit: read line by line, it places every cell
/// that is not air at its offset from the player and in its state, and nothing else, and
/// supports come before what they carry.
pub proof fn lemma_script_rebuilds(cells: Map<Pos, Block>, order: Seq<Pos>, lo: Pos, origin: Pos)
    requires
        lists(order, cells),
    ensures
        ({
            let n = order.len();
            let s = function_header() + commands(cells, order, lo, origin, 0, n) + commands(
                cells,
                order,
                lo,
                origin,
                1,
                n,
            ) + commands(cells, order, lo, origin, 2, n);
            read_script(s) matches Some(script) && rebuilds(script, cells, lo, origin)
        }),
{
    let list = phased(cells, order);
    let script = list.map_values(|p: Pos| placed(cells, lo, origin, p));
    lemma_script_reads(cells, order, lo, origin);
    lemma_phased(cells, order);
    assert forall|i: int, j: int|
        #![trigger list[i], list[j]]
        0 <= i < j < list.len() && stands(block_at(cells, list[j])) implies stands(block_at(cells, list[i])) by {
        assert(phase_of(block_at(cells, list[i])) <= phase_of(block_at(cells, list[j])));
        assert(list.contains(list[i]));
    }
    assert forall|i: int, j: int|
        #![trigger list[i], list[j]]
        0 <= i < j < list.len() && block_at(cells, list[i]) is Dust implies block_at(cells, list[j]) is Dust by {
        assert(phase_of(block_at(cells, list[i])) <= phase_of(block_at(cells, list[j])));
    }
    assert(rebuilds_in(script, cells, lo, origin, list));
}

proof fn lemma_in_which(a: Seq<Pos>, b: Seq<Pos>, c: Seq<Pos>, i: int)
    requires
        0 <= i < (a + b + c).len(),
    ensures
        i < a.len() ==> (a + b + c)[i] == a[i] && a.contains((a + b + c)[i]),
        a.len() <= i < a.len() + b.len() ==> (a + b + c)[i] == b[i - a.len()] && b.contains((a + b + c)[i]),
        a.len() + b.len() <= i ==> (a + b + c)[i] == c[i - a.len() - b.len()] && c.contains((a + b + c)[i]),
{
    if i < a.len() {
        assert((a + b + c)[i] == a[i]);
    } else if i < a.len() + b.len() {
        assert((a + b + c)[i] == b[i - a.len()]);
    } else {
        assert((a + b + c)[i] == c[i - a.len() - b.len()]);
    }
}

// --- tags --------------------------------------------------------------------------------------

/// The value of the field with a name, among the first `n`.
pub open spec fn lookup(fields: Seq<(Seq<char>, TagTree)>, name: Seq<char>, n: nat) -> Option<TagTree>
    decreases n,
{
    if n == 0 {
        None
    } else if fields[n - 1].0 == name {
        Some(fields[n - 1].1)
    } else {
        lookup(fields, name, (n - 1) as nat)
    }
}

/// The value of a compound's field with a name.
pub open spec fn field(t: TagTree, name: Seq<char>) -> Option<TagTree> {
    match t {
        TagTree::Compound(fields) => lookup(fields, name, fields.len()),
        _ => None,
    }
}

/// The value of a field of a field.
pub open spec fn inner_field(t: TagTree, outer: Seq<char>, name: Seq<char>) -> Option<TagTree> {
    match field(t, outer) {
        Some(c) => field(c, name),
        None => None,
    }
}

/// A field that no later one hides.
proof fn lemma_lookup(fields: Seq<(Seq<char>, TagTree)>, i: int, n: nat)
    requires
        0 <= i < n <= fields.len(),
        forall|j: int| i < j < n ==> (#[trigger] fields[j]).0 != fields[i].0,
    ensures
        lookup(fields, fields[i].0, n) == Some(fields[i].1),
    decreases n,
{
    if i < n - 1 {
        assert(fields[n - 1].0 != fields[i].0);
        lemma_lookup(fields, i, (n - 1) as nat);
    }
}

// --- schematics --------------------------------------------------------------------------------

/// The `i`th of the varints in `b`.
pub open spec fn nth_varint(b: Seq<u8>, i: nat) -> Option<nat>
    decreases i,
{
    match read_leb128(b) {
        None => None,
        Some((v, n)) => if i == 0 {
            Some(v)
        } else {
            nth_varint(b.skip(n as int), (i - 1) as nat)
        },
    }
}

/// A dimension: a short, read without a sign.
pub open spec fn dimension(t: Option<TagTree>) -> Option<int> {
    match t {
        Some(TagTree::Short(v)) => Some(v as u16 as int),
        _ => None,
    }
}

/// The width, height and length of a schematic file.
pub open spec fn file_size(file: TagTree) -> Option<(int, int, int)> {
    let f = "Schematic"@;
    match (
        dimension(inner_field(file, f, "Width"@)),
        dimension(inner_field(file, f, "Height"@)),
        dimension(inner_field(file, f, "Length"@)),
    ) {
        (Some(w), Some(h), Some(l)) => Some((w, h, l)),
        _ => None,
    }
}

/// A schematic file shows `state` at `(x, y, z)`: the number in that place of the data is
/// that of the state in the palette.
pub open spec fn file_shows(file: TagTree, x: int, y: int, z: int, state: Seq<char>) -> bool {
    match (file_size(file), inner_field(file, "Schematic"@, "Blocks"@)) {
        (Some((w, h, l)), Some(blocks)) => match (field(blocks, "Data"@), inner_field(blocks, "Palette"@, state)) {
            (Some(TagTree::ByteArray(data)), Some(TagTree::Int(k))) => 0 <= x + z * w + y * w * l && nth_varint(
                data,
                (x + z * w + y * w * l) as nat,
            ) == Some(k as nat) && k >= 0,
            _ => false,
        },
        _ => false,
    }
}

/// The first varint, and the others.
proof fn lemma_varints_front(data: Seq<u32>)
    requires
        data.len() > 0,
    ensures
        varints(data) == leb128(data[0] as nat) + varints(data.skip(1)),
    decreases data.len(),
{
    if data.len() == 1 {
        assert(data.drop_last() =~= Seq::empty());
        assert(data.skip(1) =~= Seq::empty());
        assert(varints(data) =~= leb128(data[0] as nat) + varints(data.skip(1)));
    } else {
        lemma_varints_front(data.drop_last());
        assert(data.drop_last().skip(1) =~= data.skip(1).drop_last());
        assert(data.skip(1).last() == data.last());
        assert(varints(data) =~= leb128(data[0] as nat) + varints(data.skip(1)));
    }
}

/// Varints are read back as they were written, and then no more.
proof fn lemma_varints_read(data: Seq<u32>, i: nat)
    requires
        i <= data.len(),
    ensures
        nth_varint(varints(data), i) == if i < data.len() {
            Some(data[i as int] as nat)
        } else {
            None
        },
    decreases i,
{
    if data.len() > 0 {
        lemma_varints_front(data);
        let first = leb128(data[0] as nat);
        let rest = varints(data.skip(1));
        lemma_varint_round_trip(data[0] as nat, rest);
        assert((first + rest).skip(first.len() as int) =~= rest);
        if i > 0 {
            lemma_varints_read(data.skip(1), (i - 1) as nat);
        }
    }
}

/// The fields of a schematic file.
proof fn lemma_schematic_fields(s: Schematic)
    ensures
        inner_field(schematic_tree(s), "Schematic"@, "Version"@) == Some(TagTree::Int(3)),
        inner_field(schematic_tree(s), "Schematic"@, "Width"@) == Some(TagTree::Short(s.width as i16)),
        inner_field(schematic_tree(s), "Schematic"@, "Height"@) == Some(TagTree::Short(s.height as i16)),
        inner_field(schematic_tree(s), "Schematic"@, "Length"@) == Some(TagTree::Short(s.length as i16)),
        inner_field(schematic_tree(s), "Schematic"@, "Blocks"@) == Some(blocks_tree(s)),
        field(blocks_tree(s), "Palette"@) == Some(palette_tree(texts(s.palette@))),
        field(blocks_tree(s), "Data"@) == Some(TagTree::ByteArray(varints(s.data@))),
{
    reveal_strlit("Schematic");
    reveal_strlit("Version");
    reveal_strlit("DataVersion");
    reveal_strlit("Width");
    reveal_strlit("Height");
    reveal_strlit("Length");
    reveal_strlit("Offset");
    reveal_strlit("Metadata");
    reveal_strlit("Blocks");
    reveal_strlit("Palette");
    reveal_strlit("Data");
    reveal_strlit("BlockEntities");
    let root = schematic_tree(s)->Compound_0;
    lemma_lookup(root, 0, 1);
    let f = fields_tree(s)->Compound_0;
    assert("Width"@[0] == 'W' && "Height"@[0] == 'H' && "Length"@[0] == 'L' && "Version"@[0] == 'V'
        && "DataVersion"@[0] == 'D' && "Offset"@[0] == 'O' && "Metadata"@[0] == 'M' && "Blocks"@[0] == 'B');
    lemma_lookup(f, 0, 8);
    lemma_lookup(f, 2, 8);
    lemma_lookup(f, 3, 8);
    lemma_lookup(f, 4, 8);
    lemma_lookup(f, 7, 8);
    let b = blocks_tree(s)->Compound_0;
    assert("Palette"@[0] == 'P' && "Data"@[0] == 'D' && "BlockEntities"@[0] == 'B');
    lemma_lookup(b, 0, 3);
    lemma_lookup(b, 1, 3);
}

/// A palette leads from a state to its number.
proof fn lemma_palette_reads(palette: Seq<Seq<char>>, i: int)
    requires
        palette.no_duplicates(),
        0 <= i < palette.len() <= i32::MAX,
    ensures
        field(palette_tree(palette), palette[i]) == Some(TagTree::Int(i as i32)),
{
    let f = palette_tree(palette)->Compound_0;
    assert forall|j: int| i < j < f.len() implies (#[trigger] f[j]).0 != f[i].0 by {}
    lemma_lookup(f, i, f.len());
}

proof fn lemma_unsigned(v: u16)
    ensures
        (v as i16) as u16 == v,
{
    assert((v as i16) as u16 == v) by (bit_vector);
}

/// Reading a schematic file back gives the circuit: its dimensions are those of the box
/// around the cells, its data has a number for each cell of the box and no more, and the
/// number in the place of a cell, `x + z * Width + y * Width * Length`, is the one that the
/// palette gives to the cell's state.
pub proof fn lemma_schematic_reads_back(s: Schematic, cells: Map<Pos, Block>, lo: Pos, hi: Pos)
    requires
        shows(s, cells, lo, hi),
        lo.0 <= hi.0 <= lo.0 + 0xfffe,
        lo.1 <= hi.1 <= lo.1 + 0xfffe,
        lo.2 <= hi.2 <= lo.2 + 0xfffe,
    ensures
        ({
            let file = schematic_tree(s);
            let (w, h, l) = (hi.0 - lo.0 + 1, hi.1 - lo.1 + 1, hi.2 - lo.2 + 1);
            &&& file_size(file) == Some((w, h, l))
            &&& forall|p: Pos| #[trigger]
                in_box(lo, hi, p) ==> file_shows(file, p.0 - lo.0, p.1 - lo.1, p.2 - lo.2, cell_state(cells, p))
            &&& inner_field(file, "Schematic"@, "Blocks"@) matches Some(blocks) && field(blocks, "Data"@)
                matches Some(TagTree::ByteArray(data)) && nth_varint(data, (w * h * l) as nat) is None
        }),
{
    let file = schematic_tree(s);
    let (w, h, l) = (hi.0 - lo.0 + 1, hi.1 - lo.1 + 1, hi.2 - lo.2 + 1);
    let palette = texts(s.palette@);
    lemma_schematic_fields(s);
    lemma_unsigned(s.width);
    lemma_unsigned(s.height);
    lemma_unsigned(s.length);
    assert(states_once(palette)) by {
        assert forall|i: int| 0 <= i < palette.len() implies is_state(#[trigger] palette[i]) by {
            if i == 0 {
                assert(palette[0] == state_text(Block::Air, dot()));
            } else {
                assert(state_occurs(cells, palette[i]));
                let p = choose|p: Pos| #[trigger] cells.contains_key(p) && cells[p] != Block::Air && cell_state(cells, p)
                    == palette[i];
                assert(palette[i] == state_text(block_at(cells, p), shape_at(cells, p)));
            }
        }
    }
    lemma_few_states(palette);
    assert(s.data@.len() == w * h * l);
    lemma_varints_read(s.data@, s.data@.len());
    assert forall|p: Pos| #[trigger] in_box(lo, hi, p) implies file_shows(
        file,
        p.0 - lo.0,
        p.1 - lo.1,
        p.2 - lo.2,
        cell_state(cells, p),
    ) by {
        let i = (p.0 - lo.0) + (p.2 - lo.2) * w + (p.1 - lo.1) * w * l;
        assert(i == data_index(lo, hi, p));
        let k = s.data@[i] as int;
        lemma_varints_read(s.data@, i as nat);
        lemma_palette_reads(palette, k);
    }
}

// --- block states --------------------------------------------------------------------------------

/// The name of a block.
pub open spec fn block_name(b: Block) -> Seq<char> {
    match b {
        Block::Air => "minecraft:air"@,
        Block::Solid(m) => material_id(m),
        Block::Dust { .. } => "minecraft:redstone_wire"@,
        Block::WallTorch { .. } => "minecraft:redstone_wall_torch"@,
        Block::Torch { .. } => "minecraft:redstone_torch"@,
        Block::Repeater { .. } => "minecraft:repeater"@,
        Block::Lever { .. } => "minecraft:lever"@,
        Block::Lamp { .. } => "minecraft:redstone_lamp"@,
    }
}

/// The properties of a block's state, by name.
pub open spec fn block_properties(b: Block, shape: DustShape) -> Seq<(Seq<char>, Seq<char>)> {
    match b {
        Block::Dust { power } => seq![
            ("east"@, conn_name(shape.east)),
            ("north"@, conn_name(shape.north)),
            ("power"@, decimal(shown_power(power))),
            ("south"@, conn_name(shape.south)),
            ("west"@, conn_name(shape.west)),
        ],
        Block::WallTorch { facing, lit } => seq![("facing"@, dir_name(facing)), ("lit"@, truth(lit))],
        Block::Torch { lit } => seq![("lit"@, truth(lit))],
        Block::Repeater { facing, delay, powered } => seq![
            ("delay"@, decimal(shown_delay(delay))),
            ("facing"@, dir_name(facing)),
            ("locked"@, "false"@),
            ("powered"@, truth(powered)),
        ],
        Block::Lever { face, facing, powered } => seq![
            ("face"@, face_name(face)),
            ("facing"@, dir_name(facing)),
            ("powered"@, truth(powered)),
        ],
        Block::Lamp { lit } => seq![("lit"@, truth(lit))],
        _ => Seq::empty(),
    }
}

/// Properties as they stand in a state: with an equals sign, and commas between them.
pub open spec fn listing(props: Seq<(Seq<char>, Seq<char>)>) -> Seq<char>
    decreases props.len(),
{
    if props.len() == 0 {
        Seq::empty()
    } else if props.len() == 1 {
        props[0].0 + seq!['='] + props[0].1
    } else {
        props[0].0 + seq!['='] + props[0].1 + seq![','] + listing(props.skip(1))
    }
}

/// A state: a name, and its properties in brackets if there are any.
pub open spec fn spelling(name: Seq<char>, props: Seq<(Seq<char>, Seq<char>)>) -> Seq<char> {
    if props.len() == 0 {
        name
    } else {
        name + seq!['['] + listing(props) + seq![']']
    }
}

/// Keys and values that can be told apart again.
spec fn sortable(props: Seq<(Seq<char>, Seq<char>)>) -> bool {
    forall|i: int|
        0 <= i < props.len() ==> {
            &&& lacks((#[trigger] props[i]).0, '=')
            &&& lacks(props[i].0, ',')
            &&& lacks(props[i].1, ',')
            &&& lacks(props[i].0, ']')
            &&& lacks(props[i].1, ']')
        }
}

/// Listed properties are read back.
proof fn lemma_listing_reads(props: Seq<(Seq<char>, Seq<char>)>)
    requires
        sortable(props),
        props.len() > 0,
    ensures
        properties(listing(props)) == props,
        lacks(listing(props), ']'),
        listing(props).len() > 0,
    decreases props.len(),
{
    let (key, value) = props[0];
    let eq = seq!['='];
    let piece = key + eq + value;
    assert(lacks(eq, ',') && lacks(eq, ']') && lacks(seq![','], ']')) by {
        reveal(lacks);
    }
    lemma_lacks_join(key, eq, ',');
    lemma_lacks_join(key + eq, value, ',');
    lemma_lacks_join(key, eq, ']');
    lemma_lacks_join(key + eq, value, ']');
    lemma_first_piece(key, '=', value);
    assert(property(piece) =~= seq![(key, value)]);
    if props.len() == 1 {
        lemma_one_piece(piece, ',');
        assert(props =~= seq![(key, value)]);
    } else {
        assert(sortable(props.skip(1))) by {
            assert forall|i: int| 0 <= i < props.skip(1).len() implies {
                &&& lacks((#[trigger] props.skip(1)[i]).0, '=')
                &&& lacks(props.skip(1)[i].0, ',')
                &&& lacks(props.skip(1)[i].1, ',')
                &&& lacks(props.skip(1)[i].0, ']')
                &&& lacks(props.skip(1)[i].1, ']')
            } by {
                assert(props.skip(1)[i] == props[i + 1]);
            }
        }
        lemma_listing_reads(props.skip(1));
        let rest = listing(props.skip(1));
        lemma_first_piece(piece, ',', rest);
        assert(listing(props) == piece + seq![','] + rest);
        lemma_lacks_join(piece, seq![','], ']');
        lemma_lacks_join(piece + seq![','], rest, ']');
        assert(props =~= seq![(key, value)] + props.skip(1));
    }
}

/// A state is read back as its name and its properties.
proof fn lemma_spelling_reads(name: Seq<char>, props: Seq<(Seq<char>, Seq<char>)>)
    requires
        lacks(name, '['),
        sortable(props),
    ensures
        state_parts(spelling(name, props)) == (name, props),
{
    if props.len() == 0 {
        lemma_one_piece(name, '[');
        assert(props =~= Seq::empty());
    } else {
        lemma_listing_reads(props);
        let body = listing(props);
        let tail = body + seq![']'];
        assert(spelling(name, props) =~= name + seq!['['] + tail);
        lemma_first_piece(name, '[', tail);
        assert(tail.drop_last() =~= body);
        assert(body.last() != ']') by {
            reveal(lacks);
        }
        assert(without_tail(tail, ']') == without_tail(body, ']'));
    }
}

proof fn lemma_values(c: Conn, d: Dir, f: Face, b: bool, n: nat)
    ensures
        lacks(conn_name(c), ',') && lacks(conn_name(c), ']'),
        lacks(dir_name(d), ',') && lacks(dir_name(d), ']'),
        lacks(face_name(f), ',') && lacks(face_name(f), ']'),
        lacks(truth(b), ',') && lacks(truth(b), ']'),
        lacks(decimal(n), ',') && lacks(decimal(n), ']'),
        lacks("false"@, ',') && lacks("false"@, ']'),
{
    reveal(lacks);
    reveal_strlit("none");
    reveal_strlit("side");
    reveal_strlit("up");
    reveal_strlit("north");
    reveal_strlit("south");
    reveal_strlit("west");
    reveal_strlit("east");
    reveal_strlit("floor");
    reveal_strlit("wall");
    reveal_strlit("ceiling");
    reveal_strlit("true");
    reveal_strlit("false");
    lemma_decimal_reads(n);
}

spec fn is_key(s: Seq<char>) -> bool {
    lacks(s, '=') && lacks(s, ',') && lacks(s, ']')
}

proof fn lemma_keys()
    ensures
        is_key("east"@) && is_key("north"@) && is_key("power"@) && is_key("south"@) && is_key("west"@),
        is_key("facing"@) && is_key("lit"@) && is_key("delay"@) && is_key("locked"@) && is_key("powered"@)
            && is_key("face"@),
{
    reveal(lacks);
    reveal_strlit("east");
    reveal_strlit("north");
    reveal_strlit("power");
    reveal_strlit("south");
    reveal_strlit("west");
    reveal_strlit("facing");
    reveal_strlit("lit");
    reveal_strlit("delay");
    reveal_strlit("locked");
    reveal_strlit("powered");
    reveal_strlit("face");
}

proof fn lemma_names(b: Block)
    ensures
        lacks(block_name(b), '['),
{
    reveal(lacks);
    reveal_strlit("minecraft:air");
    reveal_strlit("minecraft:redstone_wire");
    reveal_strlit("minecraft:redstone_wall_torch");
    reveal_strlit("minecraft:redstone_torch");
    reveal_strlit("minecraft:repeater");
    reveal_strlit("minecraft:lever");
    reveal_strlit("minecraft:redstone_lamp");
    reveal_strlit("minecraft:stone");
    reveal_strlit("minecraft:polished_andesite");
    reveal_strlit("minecraft:smooth_stone");
    reveal_strlit("minecraft:lime_concrete");
    reveal_strlit("minecraft:red_concrete");
    reveal_strlit("minecraft:blue_concrete");
}

proof fn lemma_block_sortable(b: Block, shape: DustShape)
    ensures
        sortable(block_properties(b, shape)),
{
    lemma_keys();
    match b {
        Block::Dust { power } => {
            lemma_values(shape.east, Dir::North, Face::Floor, true, shown_power(power));
            lemma_values(shape.north, Dir::North, Face::Floor, true, 0);
            lemma_values(shape.south, Dir::North, Face::Floor, true, 0);
            lemma_values(shape.west, Dir::North, Face::Floor, true, 0);
        },
        Block::WallTorch { facing, lit } => {
            lemma_values(Conn::Up, facing, Face::Floor, lit, 0);
        },
        Block::Torch { lit } => {
            lemma_values(Conn::Up, Dir::North, Face::Floor, lit, 0);
        },
        Block::Repeater { facing, delay, powered } => {
            lemma_values(Conn::Up, facing, Face::Floor, powered, shown_delay(delay));
        },
        Block::Lever { face, facing, powered } => {
            lemma_values(Conn::Up, facing, face, powered, 0);
        },
        Block::Lamp { lit } => {
            lemma_values(Conn::Up, Dir::North, Face::Floor, lit, 0);
        },
        _ => {},
    }
}

proof fn lemma_dust_spelled(power: u8, s: DustShape)
    ensures
        state_text(Block::Dust { power }, s) == spelling(
            "minecraft:redstone_wire"@,
            block_properties(Block::Dust { power }, s),
        ),
{
    reveal_strlit("minecraft:redstone_wire[east=");
    reveal_strlit("minecraft:redstone_wire");
    reveal_strlit(",north=");
    reveal_strlit(",power=");
    reveal_strlit(",south=");
    reveal_strlit(",west=");
    reveal_strlit("]");
    reveal_strlit("east");
    reveal_strlit("north");
    reveal_strlit("power");
    reveal_strlit("south");
    reveal_strlit("west");
    assert("minecraft:redstone_wire[east="@ =~= "minecraft:redstone_wire"@ + seq!['['] + "east"@ + seq!['=']);
    assert(",north="@ =~= seq![','] + "north"@ + seq!['=']);
    assert(",power="@ =~= seq![','] + "power"@ + seq!['=']);
    assert(",south="@ =~= seq![','] + "south"@ + seq!['=']);
    assert(",west="@ =~= seq![','] + "west"@ + seq!['=']);
    assert("]"@ =~= seq![']']);
    let (e, n, p, o, w) = (
        conn_name(s.east),
        conn_name(s.north),
        decimal(shown_power(power)),
        conn_name(s.south),
        conn_name(s.west),
    );
    let props = block_properties(Block::Dust { power }, s);
    assert(props.skip(1) =~= seq![("north"@, n), ("power"@, p), ("south"@, o), ("west"@, w)]);
    assert(props.skip(1).skip(1) =~= seq![("power"@, p), ("south"@, o), ("west"@, w)]);
    assert(props.skip(1).skip(1).skip(1) =~= seq![("south"@, o), ("west"@, w)]);
    assert(props.skip(1).skip(1).skip(1).skip(1) =~= seq![("west"@, w)]);
    reveal_with_fuel(listing, 6);
    lemma_five_pairs("east"@, e, "north"@, n, "power"@, p, "south"@, o, "west"@, w, "minecraft:redstone_wire"@);
}

/// Five pairs in brackets, whichever way they are put together.
proof fn lemma_five_pairs(
    a: Seq<char>,
    b: Seq<char>,
    c: Seq<char>,
    d: Seq<char>,
    e: Seq<char>,
    f: Seq<char>,
    g: Seq<char>,
    h: Seq<char>,
    i: Seq<char>,
    j: Seq<char>,
    n: Seq<char>,
)
    ensures
        (n + seq!['['] + a + seq!['=']) + b + (seq![','] + c + seq!['=']) + d + (seq![','] + e + seq!['=']) + f + (
        seq![','] + g + seq!['=']) + h + (seq![','] + i + seq!['=']) + j + seq![']'] == n + seq!['['] + (a
            + seq!['='] + b + seq![','] + (c + seq!['='] + d + seq![','] + (e + seq!['='] + f + seq![','] + (g
            + seq!['='] + h + seq![','] + (i + seq!['='] + j))))) + seq![']'],
{
    assert((n + seq!['['] + a + seq!['=']) + b + (seq![','] + c + seq!['=']) + d + (seq![','] + e + seq!['=']) + f + (
    seq![','] + g + seq!['=']) + h + (seq![','] + i + seq!['=']) + j + seq![']'] =~= n + seq!['['] + (a
        + seq!['='] + b + seq![','] + (c + seq!['='] + d + seq![','] + (e + seq!['='] + f + seq![','] + (g
        + seq!['='] + h + seq![','] + (i + seq!['='] + j))))) + seq![']']);
}

proof fn lemma_torch_spelled(facing: Dir, lit: bool, s: DustShape)
    ensures
        state_text(Block::WallTorch { facing, lit }, s) == spelling(
            "minecraft:redstone_wall_torch"@,
            block_properties(Block::WallTorch { facing, lit }, s),
        ),
        state_text(Block::Torch { lit }, s) == spelling(
            "minecraft:redstone_torch"@,
            block_properties(Block::Torch { lit }, s),
        ),
        state_text(Block::Lamp { lit }, s) == spelling(
            "minecraft:redstone_lamp"@,
            block_properties(Block::Lamp { lit }, s),
        ),
{
    reveal_strlit("minecraft:redstone_wall_torch[facing=");
    reveal_strlit("minecraft:redstone_wall_torch");
    reveal_strlit("minecraft:redstone_torch[lit=");
    reveal_strlit("minecraft:redstone_torch");
    reveal_strlit("minecraft:redstone_lamp[lit=");
    reveal_strlit("minecraft:redstone_lamp");
    reveal_strlit(",lit=");
    reveal_strlit("]");
    reveal_strlit("facing");
    reveal_strlit("lit");
    assert("minecraft:redstone_wall_torch[facing="@ =~= "minecraft:redstone_wall_torch"@ + seq!['['] + "facing"@
        + seq!['=']);
    assert("minecraft:redstone_torch[lit="@ =~= "minecraft:redstone_torch"@ + seq!['['] + "lit"@ + seq!['=']);
    assert("minecraft:redstone_lamp[lit="@ =~= "minecraft:redstone_lamp"@ + seq!['['] + "lit"@ + seq!['=']);
    assert(",lit="@ =~= seq![','] + "lit"@ + seq!['=']);
    assert("]"@ =~= seq![']']);
    let two = block_properties(Block::WallTorch { facing, lit }, s);
    assert(two.skip(1) =~= seq![("lit"@, truth(lit))]);
    reveal_with_fuel(listing, 3);
    assert(state_text(Block::WallTorch { facing, lit }, s) =~= spelling("minecraft:redstone_wall_torch"@, two));
    assert(state_text(Block::Torch { lit }, s) =~= spelling(
        "minecraft:redstone_torch"@,
        block_properties(Block::Torch { lit }, s),
    ));
    assert(state_text(Block::Lamp { lit }, s) =~= spelling(
        "minecraft:redstone_lamp"@,
        block_properties(Block::Lamp { lit }, s),
    ));
}

proof fn lemma_repeater_spelled(facing: Dir, delay: u8, powered: bool, s: DustShape)
    ensures
        state_text(Block::Repeater { facing, delay, powered }, s) == spelling(
            "minecraft:repeater"@,
            block_properties(Block::Repeater { facing, delay, powered }, s),
        ),
{
    reveal_strlit("minecraft:repeater[delay=");
    reveal_strlit("minecraft:repeater");
    reveal_strlit(",facing=");
    reveal_strlit(",locked=false,powered=");
    reveal_strlit("]");
    reveal_strlit("delay");
    reveal_strlit("facing");
    reveal_strlit("locked");
    reveal_strlit("false");
    reveal_strlit("powered");
    assert("minecraft:repeater[delay="@ =~= "minecraft:repeater"@ + seq!['['] + "delay"@ + seq!['=']);
    assert(",facing="@ =~= seq![','] + "facing"@ + seq!['=']);
    assert(",locked=false,powered="@ =~= seq![','] + "locked"@ + seq!['='] + "false"@ + seq![','] + "powered"@ + seq!['=']);
    assert("]"@ =~= seq![']']);
    let props = block_properties(Block::Repeater { facing, delay, powered }, s);
    let d = decimal(shown_delay(delay));
    assert(props.skip(1) =~= seq![
        ("facing"@, dir_name(facing)),
        ("locked"@, "false"@),
        ("powered"@, truth(powered)),
    ]);
    assert(props.skip(1).skip(1) =~= seq![("locked"@, "false"@), ("powered"@, truth(powered))]);
    assert(props.skip(1).skip(1).skip(1) =~= seq![("powered"@, truth(powered))]);
    reveal_with_fuel(listing, 5);
    lemma_four_pairs(
        "delay"@,
        d,
        "facing"@,
        dir_name(facing),
        "locked"@,
        "false"@,
        "powered"@,
        truth(powered),
        "minecraft:repeater"@,
    );
}

proof fn lemma_four_pairs(
    a: Seq<char>,
    b: Seq<char>,
    c: Seq<char>,
    d: Seq<char>,
    e: Seq<char>,
    f: Seq<char>,
    g: Seq<char>,
    h: Seq<char>,
    n: Seq<char>,
)
    ensures
        (n + seq!['['] + a + seq!['=']) + b + (seq![','] + c + seq!['=']) + d + (seq![','] + e + seq!['='] + f
            + seq![','] + g + seq!['=']) + h + seq![']'] == n + seq!['['] + (a + seq!['='] + b + seq![','] + (c
            + seq!['='] + d + seq![','] + (e + seq!['='] + f + seq![','] + (g + seq!['='] + h)))) + seq![']'],
{
    assert((n + seq!['['] + a + seq!['=']) + b + (seq![','] + c + seq!['=']) + d + (seq![','] + e + seq!['='] + f
        + seq![','] + g + seq!['=']) + h + seq![']'] =~= n + seq!['['] + (a + seq!['='] + b + seq![','] + (c
        + seq!['='] + d + seq![','] + (e + seq!['='] + f + seq![','] + (g + seq!['='] + h)))) + seq![']']);
}

proof fn lemma_lever_spelled(face: Face, facing: Dir, powered: bool, s: DustShape)
    ensures
        state_text(Block::Lever { face, facing, powered }, s) == spelling(
            "minecraft:lever"@,
            block_properties(Block::Lever { face, facing, powered }, s),
        ),
{
    reveal_strlit("minecraft:lever[face=");
    reveal_strlit("minecraft:lever");
    reveal_strlit(",facing=");
    reveal_strlit(",powered=");
    reveal_strlit("]");
    reveal_strlit("face");
    reveal_strlit("facing");
    reveal_strlit("powered");
    assert("minecraft:lever[face="@ =~= "minecraft:lever"@ + seq!['['] + "face"@ + seq!['=']);
    assert(",facing="@ =~= seq![','] + "facing"@ + seq!['=']);
    assert(",powered="@ =~= seq![','] + "powered"@ + seq!['=']);
    assert("]"@ =~= seq![']']);
    let props = block_properties(Block::Lever { face, facing, powered }, s);
    assert(props.skip(1) =~= seq![("facing"@, dir_name(facing)), ("powered"@, truth(powered))]);
    assert(props.skip(1).skip(1) =~= seq![("powered"@, truth(powered))]);
    reveal_with_fuel(listing, 4);
    lemma_three_pairs(
        "face"@,
        face_name(face),
        "facing"@,
        dir_name(facing),
        "powered"@,
        truth(powered),
        "minecraft:lever"@,
    );
}

proof fn lemma_three_pairs(
    a: Seq<char>,
    b: Seq<char>,
    c: Seq<char>,
    d: Seq<char>,
    e: Seq<char>,
    f: Seq<char>,
    n: Seq<char>,
)
    ensures
        (n + seq!['['] + a + seq!['=']) + b + (seq![','] + c + seq!['=']) + d + (seq![','] + e + seq!['=']) + f
            + seq![']'] == n + seq!['['] + (a + seq!['='] + b + seq![','] + (c + seq!['='] + d + seq![','] + (e
            + seq!['='] + f))) + seq![']'],
{
    assert((n + seq!['['] + a + seq!['=']) + b + (seq![','] + c + seq!['=']) + d + (seq![','] + e + seq!['=']) + f
        + seq![']'] =~= n + seq!['['] + (a + seq!['='] + b + seq![','] + (c + seq!['='] + d + seq![','] + (e
        + seq!['='] + f))) + seq![']']);
}

/// A block's state is spelled as its name and its properties, and is split into them again:
/// each property of the block stands under its name.
pub proof fn lemma_state_reads(b: Block, shape: DustShape)
    ensures
        state_text(b, shape) == spelling(block_name(b), block_properties(b, shape)),
        state_parts(state_text(b, shape)) == (block_name(b), block_properties(b, shape)),
{
    match b {
        Block::Dust { power } => lemma_dust_spelled(power, shape),
        Block::WallTorch { facing, lit } => lemma_torch_spelled(facing, lit, shape),
        Block::Torch { lit } => lemma_torch_spelled(Dir::North, lit, shape),
        Block::Repeater { facing, delay, powered } => lemma_repeater_spelled(facing, delay, powered, shape),
        Block::Lever { face, facing, powered } => lemma_lever_spelled(face, facing, powered, shape),
        Block::Lamp { lit } => lemma_torch_spelled(Dir::North, lit, shape),
        _ => {},
    }
    lemma_names(b);
    lemma_block_sortable(b, shape);
    lemma_spelling_reads(block_name(b), block_properties(b, shape));
}

// --- structures ------------------------------------------------------------------------------------

/// The three numbers of a list.
pub open spec fn read_triple(t: Option<TagTree>) -> Option<(int, int, int)> {
    match t {
        Some(TagTree::List(_, v)) => if v.len() == 3 && v[0] is Int && v[1] is Int && v[2] is Int {
            Some((v[0]->Int_0 as int, v[1]->Int_0 as int, v[2]->Int_0 as int))
        } else {
            None
        },
        _ => None,
    }
}

/// The texts of some fields.
pub open spec fn read_texts(t: TagTree) -> Seq<(Seq<char>, Seq<char>)> {
    match t {
        TagTree::Compound(fields) => Seq::new(fields.len(), |i: int| (fields[i].0, fields[i].1->Text_0)),
        _ => Seq::empty(),
    }
}

/// The block state that a palette entry stands for.
pub open spec fn read_state(t: TagTree) -> Option<Seq<char>> {
    match (field(t, "Name"@), field(t, "Properties"@)) {
        (Some(TagTree::Text(name)), None) => Some(name),
        (Some(TagTree::Text(name)), Some(props)) => Some(spelling(name, read_texts(props))),
        _ => None,
    }
}

/// What entry `i` of a structure file's list of blocks places: the state that its number
/// leads to in the palette, at the x, y and z of its position.
pub open spec fn read_entry(file: TagTree, i: int) -> Option<Placement> {
    match (field(file, "blocks"@), field(file, "palette"@)) {
        (Some(TagTree::List(_, blocks)), Some(TagTree::List(_, palette))) => match (
            field(blocks[i], "state"@),
            read_triple(field(blocks[i], "pos"@)),
        ) {
            (Some(TagTree::Int(k)), Some(at)) => if 0 <= k < palette.len() {
                match read_state(palette[k as int]) {
                    Some(state) => Some(Placement { at, state }),
                    None => None,
                }
            } else {
                None
            },
            _ => None,
        },
        _ => None,
    }
}

/// How many entries a structure file's list of blocks has.
pub open spec fn entry_count(file: TagTree) -> int {
    match field(file, "blocks"@) {
        Some(TagTree::List(_, blocks)) => blocks.len() as int,
        _ => -1,
    }
}

proof fn lemma_structure_fields(s: Structure)
    ensures
        field(structure_tree(s), "size"@) == Some(triple_tree(s.size.0, s.size.1, s.size.2)),
        field(structure_tree(s), "palette"@) == Some(states_tree(s)),
        field(structure_tree(s), "blocks"@) == Some(listed_tree(s)),
{
    reveal_strlit("DataVersion");
    reveal_strlit("size");
    reveal_strlit("palette");
    reveal_strlit("blocks");
    reveal_strlit("entities");
    let f = structure_tree(s)->Compound_0;
    assert("size"@[0] == 's' && "palette"@[0] == 'p' && "blocks"@[0] == 'b' && "entities"@[0] == 'e');
    lemma_lookup(f, 1, 5);
    lemma_lookup(f, 2, 5);
    lemma_lookup(f, 3, 5);
}

proof fn lemma_entry_fields(b: (u32, i32, i32, i32))
    ensures
        field(block_tree(b), "state"@) == Some(TagTree::Int(b.0 as i32)),
        read_triple(field(block_tree(b), "pos"@)) == Some((b.1 as int, b.2 as int, b.3 as int)),
{
    reveal_strlit("state");
    reveal_strlit("pos");
    let f = block_tree(b)->Compound_0;
    assert("state"@[0] == 's' && "pos"@[0] == 'p');
    lemma_lookup(f, 0, 2);
    lemma_lookup(f, 1, 2);
}

proof fn lemma_state_tree_reads(b: Block, shape: DustShape)
    ensures
        read_state(state_tree(state_text(b, shape))) == Some(state_text(b, shape)),
{
    lemma_state_reads(b, shape);
    let props = block_properties(b, shape);
    let t = state_tree(state_text(b, shape));
    reveal_strlit("Name");
    reveal_strlit("Properties");
    assert("Name"@[0] == 'N' && "Properties"@[0] == 'P');
    let f = t->Compound_0;
    if props.len() == 0 {
        lemma_lookup(f, 0, 1);
        assert(lookup(f, "Properties"@, 0) is None);
        assert(field(t, "Properties"@) is None);
    } else {
        lemma_lookup(f, 0, 2);
        lemma_lookup(f, 1, 2);
        assert(read_texts(properties_tree(props)) =~= props);
    }
}

proof fn lemma_solid_cells(order: Seq<Pos>, cells: Map<Pos, Block>, n: nat)
    requires
        n <= order.len(),
        order.no_duplicates(),
    ensures
        solid_cells(order, cells, n).no_duplicates(),
        forall|p: Pos| #[trigger]
            solid_cells(order, cells, n).contains(p) <==> order.take(n as int).contains(p) && cells[p] != Block::Air,
    decreases n,
{
    let list = solid_cells(order, cells, n);
    if n > 0 {
        lemma_solid_cells(order, cells, (n - 1) as nat);
        let rest = solid_cells(order, cells, (n - 1) as nat);
        let q = order[n - 1];
        let prev = order.take(n - 1);
        let all = order.take(n as int);
        assert(all =~= prev.push(q));
        assert(!prev.contains(q)) by {
            if prev.contains(q) {
                let i = choose|i: int| 0 <= i < prev.len() && prev[i] == q;
                assert(order[i] == order[n - 1]);
            }
        }
        assert(!rest.contains(q));
        assert forall|p: Pos| #[trigger] list.contains(p) <==> all.contains(p) && cells[p] != Block::Air by {
            assert(all.contains(p) <==> prev.contains(p) || p == q) by {
                if prev.contains(p) {
                    let i = choose|i: int| 0 <= i < prev.len() && prev[i] == p;
                    assert(all[i] == p);
                }
                assert(all[n - 1] == q);
                if all.contains(p) && p != q {
                    let i = choose|i: int| 0 <= i < all.len() && all[i] == p;
                    assert(prev[i] == p);
                }
            }
            assert(rest.contains(p) <==> prev.contains(p) && cells[p] != Block::Air);
            if list.contains(p) {
                let i = choose|i: int| 0 <= i < list.len() && list[i] == p;
                if i < rest.len() {
                    assert(rest[i] == p);
                }
            }
            if rest.contains(p) {
                let i = choose|i: int| 0 <= i < rest.len() && rest[i] == p;
                assert(list[i] == p);
            }
            if list.len() > rest.len() {
                assert(list[rest.len() as int] == q);
            }
        }
        assert forall|i: int, j: int| 0 <= i < list.len() && 0 <= j < list.len() && i != j implies list[i]
            != list[j] by {
            if i < rest.len() && j < rest.len() {
                assert(rest[i] != rest[j]);
            } else if i < rest.len() {
                assert(rest.contains(rest[i]));
            } else if j < rest.len() {
                assert(rest.contains(rest[j]));
            }
        }
    }
}

proof fn lemma_order_once(order: Seq<Pos>, cells: Map<Pos, Block>)
    requires
        lists(order, cells),
    ensures
        order.no_duplicates(),
        order.take(order.len() as int) == order,
{
    assert(order.take(order.len() as int) =~= order);
    assert forall|i: int, j: int| 0 <= i < order.len() && 0 <= j < order.len() && i != j implies order[i]
        != order[j] by {
        if i < j {
            assert(layer_rank(order[i]) < layer_rank(order[j]));
        } else {
            assert(layer_rank(order[j]) < layer_rank(order[i]));
        }
    }
}

proof fn lemma_states_few(order: Seq<Pos>, cells: Map<Pos, Block>, n: nat)
    requires
        n <= order.len(),
    ensures
        states_once(states_in_order(order, cells, n)),
    decreases n,
{
    if n > 0 {
        lemma_states_few(order, cells, (n - 1) as nat);
        let p = order[n - 1];
        assert(is_state(cell_state(cells, p))) by {
            assert(cell_state(cells, p) == state_text(block_at(cells, p), shape_at(cells, p)));
        }
    }
}

/// The placements of a structure file rebuild the cells in the order of `list`: each cell
/// that is not air is placed once, relative to `lo`, and nothing else is.
pub open spec fn loads_in(file: TagTree, cells: Map<Pos, Block>, lo: Pos, list: Seq<Pos>) -> bool {
    &&& list.no_duplicates()
    &&& forall|p: Pos| #[trigger] list.contains(p) <==> block_at(cells, p) != Block::Air
    &&& entry_count(file) == list.len()
    &&& forall|i: int|
        0 <= i < list.len() ==> read_entry(file, i) == Some(placed(cells, lo, (0, 0, 0), #[trigger] list[i]))
}

/// Loading a structure file rebuilds the circuit: its size is that of the box around the
/// cells, and its entries, read by their names, place every cell that is not air where it
/// stands in the box and in its state, and nothing else.
pub proof fn lemma_structure_loads(s: Structure, order: Seq<Pos>, cells: Map<Pos, Block>, lo: Pos, hi: Pos)
    requires
        lists(order, cells),
        lists_all(s, order, cells, lo, hi),
    ensures
        read_triple(field(structure_tree(s), "size"@)) == Some(
            (hi.0 - lo.0 + 1, hi.1 - lo.1 + 1, hi.2 - lo.2 + 1),
        ),
        exists|list: Seq<Pos>| #[trigger] loads_in(structure_tree(s), cells, lo, list),
{
    let file = structure_tree(s);
    let list = solid_cells(order, cells, order.len());
    lemma_structure_fields(s);
    lemma_order_once(order, cells);
    lemma_solid_cells(order, cells, order.len());
    lemma_states_few(order, cells, order.len());
    lemma_few_states(texts(s.palette@));
    assert forall|p: Pos| #[trigger] list.contains(p) <==> block_at(cells, p) != Block::Air by {
        assert(cells.contains_key(p) <==> order.contains(p));
    }
    assert forall|i: int| 0 <= i < list.len() implies read_entry(file, i) == Some(
        placed(cells, lo, (0, 0, 0), #[trigger] list[i]),
    ) by {
        let b = s.blocks@[i];
        let p = list[i];
        assert(lists_cell(s.blocks@[i], texts(s.palette@), cells, lo, list[i]));
        lemma_entry_fields(b);
        lemma_state_tree_reads(block_at(cells, p), shape_at(cells, p));
        assert(texts(s.palette@)[b.0 as int] == s.palette@[b.0 as int]@);
    }
    assert(loads_in(file, cells, lo, list));
}

} // verus!
