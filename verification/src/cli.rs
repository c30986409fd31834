//! What the command line means: its arguments, the inputs of a run, the rows of a
//! truth table, and the frame that coordinates are reported in.
use crate::bitblast::{
    blast, blast_combinational, combinational, implements, signal_bound, straight_line,
    synthesizable,
};
use crate::bits::word;
use crate::ir::{Design, PortDecl};
use crate::netlist::{first_port, levels, Env, GateSim, Netlist};
use crate::text::{characters, decimal, push_decimal, same_text, text_of};
use crate::world::Pos;
use vstd::arithmetic::power2::{
    lemma2_to64, lemma_pow2_strictly_increases, lemma_pow2_unfold, pow2,
};
use vstd::prelude::*;
use vstd::string::*;

verus! {

// --- arguments ---------------------------------------------------------------------------

/// What the user asked for.
pub struct Options {
    /// The source file.
    pub path: String,
    /// Inputs to execute the program on.
    pub run: Option<String>,
    /// Where to write a schematic.
    pub out: Option<String>,
    /// Where to write a structure-block file.
    pub nbt: Option<String>,
    /// Where to write setblock commands.
    pub mcfn: Option<String>,
    pub stats: bool,
    pub truth: bool,
}

/// What has been asked for so far.
#[verifier::ext_equal]
pub struct Asked {
    pub path: Option<Seq<char>>,
    pub run: Option<Seq<char>>,
    pub out: Option<Seq<char>>,
    pub nbt: Option<Seq<char>>,
    pub mcfn: Option<Seq<char>>,
    pub stats: bool,
    pub truth: bool,
}

pub open spec fn text_in(s: Option<String>) -> Option<Seq<char>> {
    match s {
        Some(t) => Some(t@),
        None => None,
    }
}

impl Options {
    pub open spec fn asked(&self) -> Asked {
        Asked {
            path: Some(self.path@),
            run: text_in(self.run),
            out: text_in(self.out),
            nbt: text_in(self.nbt),
            mcfn: text_in(self.mcfn),
            stats: self.stats,
            truth: self.truth,
        }
    }
}

pub open spec fn nothing_asked() -> Asked {
    Asked { path: None, run: None, out: None, nbt: None, mcfn: None, stats: false, truth: false }
}

/// What the arguments from the `i`th on add to what was asked for before. The last of
/// several values counts.
pub open spec fn read_args(args: Seq<Seq<char>>, i: int, a: Asked) -> Result<Asked, Seq<char>>
    decreases args.len() - i,
{
    if i >= args.len() {
        if a.path is None {
            Err("no input file given"@)
        } else {
            Ok(a)
        }
    } else if args[i] == "--run"@ {
        if i + 1 < args.len() {
            read_args(args, i + 2, Asked { run: Some(args[i + 1]), ..a })
        } else {
            Err("--run needs a value"@)
        }
    } else if args[i] == "-o"@ {
        if i + 1 < args.len() {
            read_args(args, i + 2, Asked { out: Some(args[i + 1]), ..a })
        } else {
            Err("-o needs a path"@)
        }
    } else if args[i] == "--nbt"@ {
        if i + 1 < args.len() {
            read_args(args, i + 2, Asked { nbt: Some(args[i + 1]), ..a })
        } else {
            Err("--nbt needs a path"@)
        }
    } else if args[i] == "--mcfn"@ {
        if i + 1 < args.len() {
            read_args(args, i + 2, Asked { mcfn: Some(args[i + 1]), ..a })
        } else {
            Err("--mcfn needs a path"@)
        }
    } else if args[i] == "--truth"@ {
        read_args(args, i + 1, Asked { truth: true, ..a })
    } else if args[i] == "--stats"@ {
        read_args(args, i + 1, Asked { stats: true, ..a })
    } else if args[i].len() > 0 && args[i][0] == '-' {
        Err("unknown flag `"@ + args[i] + "`"@)
    } else {
        read_args(args, i + 1, Asked { path: Some(args[i]), ..a })
    }
}

/// The texts of the arguments.
pub open spec fn arg_texts(args: Seq<String>) -> Seq<Seq<char>> {
    args.map_values(|s: String| s@)
}

/// Is the user to be told how to use the program? So if there are no arguments, or one
/// asks for it.
pub fn wants_help(args: &Vec<String>) -> (r: bool)
    ensures
        r == (args@.len() == 0 || arg_texts(args@).contains("-h"@) || arg_texts(args@).contains("--help"@)),
{
    if args.len() == 0 {
        return true;
    }
    let ghost texts = arg_texts(args@);
    for i in 0..args.len()
        invariant
            texts == arg_texts(args@),
            forall|k: int| 0 <= k < i ==> #[trigger] texts[k] != "-h"@ && texts[k] != "--help"@,
    {
        assert(texts[i as int] == args@[i as int]@);
        if same_text(args[i].as_str(), "-h") || same_text(args[i].as_str(), "--help") {
            assert(texts.contains(texts[i as int]));
            return true;
        }
    }
    false
}

fn unknown_flag(a: &str) -> (s: String)
    ensures
        s@ == "unknown flag `"@ + a@ + "`"@,
{
    let mut s = String::from_str("unknown flag `");
    s.append(a);
    s.append("`");
    s
}

fn is_flag(a: &String) -> (r: bool)
    ensures
        r == (a@.len() > 0 && a@[0] == '-'),
{
    let v = characters(a.as_str());
    v.len() > 0 && v[0] == '-'
}

/// Read the arguments.
pub fn parse_args(args: &Vec<String>) -> (r: Result<Options, String>)
    requires
        args@.len() < usize::MAX - 1,
    ensures
        match (r, read_args(arg_texts(args@), 0, nothing_asked())) {
            (Ok(o), Ok(a)) => o.asked() == a,
            (Err(e), Err(m)) => e@ == m,
            _ => false,
        },
{
    let ghost texts = arg_texts(args@);
    let ghost goal = read_args(texts, 0, nothing_asked());
    let mut path: Option<String> = None;
    let mut run: Option<String> = None;
    let mut out: Option<String> = None;
    let mut nbt: Option<String> = None;
    let mut mcfn: Option<String> = None;
    let mut stats = false;
    let mut truth = false;
    let mut i: usize = 0;
    while i < args.len()
        invariant
            args@.len() < usize::MAX - 1,
            texts == arg_texts(args@),
            i <= args@.len() + 1,
            goal == read_args(texts, 0, nothing_asked()),
            goal == read_args(
                texts,
                i as int,
                Asked {
                    path: text_in(path),
                    run: text_in(run),
                    out: text_in(out),
                    nbt: text_in(nbt),
                    mcfn: text_in(mcfn),
                    stats,
                    truth,
                },
            ),
        decreases args@.len() + 1 - i,
    {
        let a = args[i].as_str();
        assert(texts[i as int] == a@);
        proof {
            if i + 1 < args@.len() {
                assert(texts[i + 1] == args@[i + 1]@);
            }
        }
        if same_text(a, "--run") {
            if i + 1 >= args.len() {
                return Err(String::from_str("--run needs a value"));
            }
            i = i + 1;
            run = Some(args[i].clone());
        } else if same_text(a, "-o") {
            if i + 1 >= args.len() {
                return Err(String::from_str("-o needs a path"));
            }
            i = i + 1;
            out = Some(args[i].clone());
        } else if same_text(a, "--nbt") {
            if i + 1 >= args.len() {
                return Err(String::from_str("--nbt needs a path"));
            }
            i = i + 1;
            nbt = Some(args[i].clone());
        } else if same_text(a, "--mcfn") {
            if i + 1 >= args.len() {
                return Err(String::from_str("--mcfn needs a path"));
            }
            i = i + 1;
            mcfn = Some(args[i].clone());
        } else if same_text(a, "--truth") {
            truth = true;
        } else if same_text(a, "--stats") {
            stats = true;
        } else if is_flag(&args[i]) {
            return Err(unknown_flag(a));
        } else {
            path = Some(args[i].clone());
        }
        i = i + 1;
    }
    match path {
        Some(path) => Ok(Options { path, run, out, nbt, mcfn, stats, truth }),
        None => Err(String::from_str("no input file given")),
    }
}

// --- the inputs of a run -------------------------------------------------------------------

/// White space, as Unicode has it.
pub open spec fn is_white(c: char) -> bool {
    let n = c as u32;
    ||| 0x09 <= n <= 0x0d
    ||| n == 0x20
    ||| n == 0x85
    ||| n == 0xa0
    ||| n == 0x1680
    ||| 0x2000 <= n <= 0x200a
    ||| n == 0x2028
    ||| n == 0x2029
    ||| n == 0x202f
    ||| n == 0x205f
    ||| n == 0x3000
}

/// A text without the white space at its ends.
pub open spec fn trimmed(s: Seq<char>) -> Seq<char>
    decreases s.len(),
{
    if s.len() > 0 && is_white(s[0]) {
        trimmed(s.skip(1))
    } else if s.len() > 0 && is_white(s.last()) {
        trimmed(s.drop_last())
    } else {
        s
    }
}

/// The value of digits.
pub open spec fn digits_value(s: Seq<char>) -> nat
    decreases s.len(),
{
    if s.len() == 0 {
        0
    } else {
        digits_value(s.drop_last()) * 10 + if '0' <= s.last() <= '9' {
            (s.last() as u32 - '0' as u32) as nat
        } else {
            0
        }
    }
}

pub open spec fn all_digits(s: Seq<char>) -> bool {
    forall|i: int| 0 <= i < s.len() ==> '0' <= #[trigger] s[i] <= '9'
}

/// The number that a text stands for: digits, with a plus sign before them or not.
pub open spec fn number_of(s: Seq<char>) -> Option<u64> {
    let t = if s.len() > 0 && s[0] == '+' {
        s.skip(1)
    } else {
        s
    };
    if t.len() > 0 && all_digits(t) && digits_value(t) <= u64::MAX {
        Some(digits_value(t) as u64)
    } else {
        None
    }
}

/// Where `c` first stands in a text, from `i` on; its length if nowhere.
pub open spec fn find_from(s: Seq<char>, c: char, i: int) -> int
    decreases s.len() - i,
{
    if i >= s.len() {
        s.len() as int
    } else if s[i] == c {
        i
    } else {
        find_from(s, c, i + 1)
    }
}

/// One input: a name and a number, with an equals sign between them.
pub open spec fn entry_of(s: Seq<char>) -> Result<(Seq<char>, u64), Seq<char>> {
    let k = find_from(s, '=', 0);
    if k >= s.len() {
        Err("bad --run entry `"@ + s + "`, expected name=value"@)
    } else {
        match number_of(trimmed(s.skip(k + 1))) {
            Some(v) => Ok((trimmed(s.take(k)), v)),
            None => Err("bad number in `"@ + s + "`"@),
        }
    }
}

/// The inputs from position `i` on, after those in `v`: separated by commas, empty
/// ones left out.
pub open spec fn read_inputs(s: Seq<char>, i: int, v: Seq<(Seq<char>, u64)>) -> Result<
    Seq<(Seq<char>, u64)>,
    Seq<char>,
>
    decreases s.len() - i,
{
    let e = find_from(s, ',', i);
    if i >= s.len() {
        Ok(v)
    } else if e <= i {
        read_inputs(s, i + 1, v)
    } else {
        match entry_of(s.subrange(i, e)) {
            Ok(x) => read_inputs(
                s,
                if e < s.len() {
                    e + 1
                } else {
                    s.len() as int
                },
                v.push(x),
            ),
            Err(m) => Err(m),
        }
    }
}

// --- reading inputs ------------------------------------------------------------------------

fn white(c: char) -> (r: bool)
    ensures
        r == is_white(c),
{
    let n: u32 = c as u32;
    (0x09 <= n && n <= 0x0d) || n == 0x20 || n == 0x85 || n == 0xa0 || n == 0x1680 || (0x2000 <= n && n
        <= 0x200a) || n == 0x2028 || n == 0x2029 || n == 0x202f || n == 0x205f || n == 0x3000
}

/// Trim a part of a text.
fn trim(v: &Vec<char>, from: usize, to: usize) -> (r: (usize, usize))
    requires
        from <= to <= v@.len(),
    ensures
        from <= r.0 <= r.1 <= to,
        trimmed(v@.subrange(from as int, to as int)) == v@.subrange(r.0 as int, r.1 as int),
{
    let ghost goal = trimmed(v@.subrange(from as int, to as int));
    let mut a: usize = from;
    while a < to && white(v[a])
        invariant
            from <= a <= to <= v@.len(),
            goal == trimmed(v@.subrange(a as int, to as int)),
        ensures
            from <= a <= to,
            goal == trimmed(v@.subrange(a as int, to as int)),
            a < to ==> !is_white(v@[a as int]),
        decreases to - a,
    {
        assert(v@.subrange(a as int, to as int).skip(1) =~= v@.subrange(a + 1, to as int));
        a = a + 1;
    }
    let mut b: usize = to;
    while a < b && white(v[b - 1])
        invariant
            from <= a <= b <= to <= v@.len(),
            a < to ==> !is_white(v@[a as int]),
            goal == trimmed(v@.subrange(a as int, b as int)),
        ensures
            from <= a <= b <= to,
            goal == v@.subrange(a as int, b as int),
        decreases b,
    {
        assert(v@.subrange(a as int, b as int).drop_last() =~= v@.subrange(a as int, b - 1));
        assert(v@.subrange(a as int, b as int).last() == v@[b - 1]);
        b = b - 1;
    }
    (a, b)
}

/// More digits are worth no less.
proof fn lemma_digits(s: Seq<char>, n: int)
    requires
        0 <= n <= s.len(),
    ensures
        digits_value(s.take(n)) <= digits_value(s),
    decreases s.len(),
{
    if n < s.len() {
        lemma_digits(s.drop_last(), n);
        assert(s.drop_last().take(n) =~= s.take(n));
    } else {
        assert(s.take(n) =~= s);
    }
}

fn read_number(v: &Vec<char>, from: usize, to: usize) -> (r: Option<u64>)
    requires
        from <= to <= v@.len(),
    ensures
        r == number_of(v@.subrange(from as int, to as int)),
{
    let ghost s = v@.subrange(from as int, to as int);
    let start: usize = if from < to && v[from] == '+' {
        from + 1
    } else {
        from
    };
    let ghost t = v@.subrange(start as int, to as int);
    assert(t =~= if s.len() > 0 && s[0] == '+' {
        s.skip(1)
    } else {
        s
    });
    if start == to {
        return None;
    }
    let mut n: u64 = 0;
    assert(t.take(0) =~= Seq::empty());
    for i in start..to
        invariant
            start <= to <= v@.len(),
            t == v@.subrange(start as int, to as int),
            t.len() > 0,
            number_of(s) == (if t.len() > 0 && all_digits(t) && digits_value(t) <= u64::MAX {
                Some(digits_value(t) as u64)
            } else {
                None
            }),
            s == v@.subrange(from as int, to as int),
            n == digits_value(t.take(i - start)),
            forall|k: int| 0 <= k < i - start ==> '0' <= #[trigger] t[k] <= '9',
    {
        let c: char = v[i];
        let ghost k = i - start;
        assert(t[k] == c);
        if !('0' <= c && c <= '9') {
            return None;
        }
        let d: u64 = (c as u32 - '0' as u32) as u64;
        proof {
            assert(t.take(k + 1).drop_last() =~= t.take(k));
            assert(t.take(k + 1).last() == c);
            lemma_digits(t, k + 1);
        }
        if n > (u64::MAX - d) / 10 {
            assert(n * 10 + d > u64::MAX) by (nonlinear_arith)
                requires
                    n > (u64::MAX - d) / 10,
                    0 <= d <= 9,
            ;
            return None;
        }
        assert(n * 10 + d <= u64::MAX) by (nonlinear_arith)
            requires
                n <= (u64::MAX - d) / 10,
                0 <= d <= 9,
        ;
        n = n * 10 + d;
    }
    assert(t.take(to - start) =~= t);
    Some(n)
}

/// Where a character stands in a part of a text.
fn find_char(v: &Vec<char>, c: char, from: usize, to: usize) -> (k: usize)
    requires
        from <= to <= v@.len(),
    ensures
        from <= k <= to,
        k - from == find_from(v@.subrange(from as int, to as int), c, 0),
{
    let ghost s = v@.subrange(from as int, to as int);
    let mut k: usize = from;
    while k < to
        invariant
            from <= k <= to <= v@.len(),
            s == v@.subrange(from as int, to as int),
            find_from(s, c, 0) == find_from(s, c, k - from),
        decreases to - k,
    {
        if v[k] == c {
            return k;
        }
        k = k + 1;
    }
    k
}

fn bad_entry(v: &Vec<char>, from: usize, to: usize, number: bool) -> (m: String)
    requires
        from <= to <= v@.len(),
    ensures
        m@ == if number {
            "bad number in `"@ + v@.subrange(from as int, to as int) + "`"@
        } else {
            "bad --run entry `"@ + v@.subrange(from as int, to as int) + "`, expected name=value"@
        },
{
    let part = text_of(v.as_slice(), from, to);
    if number {
        let mut m = String::from_str("bad number in `");
        m.append(part.as_str());
        m.append("`");
        m
    } else {
        let mut m = String::from_str("bad --run entry `");
        m.append(part.as_str());
        m.append("`, expected name=value");
        m
    }
}

fn read_entry(v: &Vec<char>, from: usize, to: usize) -> (r: Result<(String, u64), String>)
    requires
        from <= to <= v@.len(),
    ensures
        match (r, entry_of(v@.subrange(from as int, to as int))) {
            (Ok(x), Ok(y)) => x.0@ == y.0 && x.1 == y.1,
            (Err(e), Err(m)) => e@ == m,
            _ => false,
        },
{
    let ghost s = v@.subrange(from as int, to as int);
    let k: usize = find_char(v, '=', from, to);
    if k == to {
        return Err(bad_entry(v, from, to, false));
    }
    assert(s.take(k - from) =~= v@.subrange(from as int, k as int));
    assert(s.skip(k - from + 1) =~= v@.subrange(k + 1, to as int));
    let (a, b) = trim(v, from, k);
    let (x, y) = trim(v, k + 1, to);
    match read_number(v, x, y) {
        Some(n) => Ok((text_of(v.as_slice(), a, b), n)),
        None => Err(bad_entry(v, from, to, true)),
    }
}

/// Named values, as texts and numbers.
pub open spec fn named_values(v: Seq<(String, u64)>) -> Seq<(Seq<char>, u64)> {
    v.map_values(|x: (String, u64)| (x.0@, x.1))
}

proof fn lemma_find_part(s: Seq<char>, c: char, i: int, j: int)
    requires
        0 <= i <= s.len(),
        0 <= j <= s.len() - i,
    ensures
        find_from(s.skip(i), c, j) + i == find_from(s, c, i + j),
    decreases s.len() - i - j,
{
    if i + j < s.len() && s[i + j] != c {
        lemma_find_part(s, c, i, j + 1);
    }
}

/// Read the inputs of a run: `a=1,b=2`.
pub fn parse_inputs(spec: &str) -> (r: Result<Vec<(String, u64)>, String>)
    ensures
        match (r, read_inputs(spec@, 0, Seq::empty())) {
            (Ok(v), Ok(w)) => named_values(v@) == w,
            (Err(e), Err(m)) => e@ == m,
            _ => false,
        },
{
    let text = characters(spec);
    let ghost s = text@;
    let mut inputs: Vec<(String, u64)> = Vec::new();
    let mut i: usize = 0;
    let ghost goal = read_inputs(s, 0, Seq::empty());
    assert(named_values(inputs@) =~= Seq::empty());
    while i < text.len()
        invariant
            s == text@,
            s == spec@,
            i <= text@.len(),
            goal == read_inputs(s, 0, Seq::empty()),
            goal == read_inputs(s, i as int, named_values(inputs@)),
        decreases text@.len() - i,
    {
        let e: usize = find_char(&text, ',', i, text.len());
        proof {
            assert(s.subrange(i as int, s.len() as int) =~= s.skip(i as int));
            lemma_find_part(s, ',', i as int, 0);
        }
        if e == i {
            i = i + 1;
        } else {
            match read_entry(&text, i, e) {
                Ok(x) => {
                    let ghost had = inputs@;
                    let ghost y = (x.0@, x.1);
                    inputs.push(x);
                    assert(named_values(inputs@) =~= named_values(had).push(y));
                },
                Err(m) => {
                    return Err(m);
                },
            }
            if e < text.len() {
                i = e + 1;
            } else {
                i = e;
            }
        }
    }
    Ok(inputs)
}

// --- truth tables --------------------------------------------------------------------------

/// How many input bits there are in the first `n` ports.
pub open spec fn input_bits(ports: Seq<PortDecl>, n: nat) -> nat
    decreases n,
{
    if n == 0 {
        0
    } else {
        input_bits(ports, (n - 1) as nat) + ports[n - 1].width as nat
    }
}

/// What is left of a counter once the first `n` ports have taken their bits from its
/// low end.
pub open spec fn counter_rest(v: nat, ports: Seq<PortDecl>, n: nat) -> nat
    decreases n,
{
    if n == 0 {
        v
    } else {
        counter_rest(v, ports, (n - 1) as nat) / pow2(ports[n - 1].width as nat)
    }
}

/// The values that a counter gives the ports.
pub open spec fn counter_values(v: nat, ports: Seq<PortDecl>) -> Seq<u64> {
    Seq::new(
        ports.len(),
        |k: int| (counter_rest(v, ports, k as nat) % pow2(ports[k].width as nat)) as u64,
    )
}

pub open spec fn too_many_text(bits: nat) -> Seq<char> {
    decimal(bits) + " input bits is too many to enumerate"@
}

/// The first output with a name, from the `i`th on.
pub open spec fn output_named(net: &Netlist, name: Seq<char>, i: int) -> int
    decreases net.outputs@.len() - i,
{
    if i >= net.outputs@.len() || net.outputs@[i].0@ == name {
        i
    } else {
        output_named(net, name, i + 1)
    }
}

/// What the outputs of a netlist without flip-flops show, one after the other.
pub open spec fn outputs_text(net: &Netlist, vals: Seq<u64>, n: nat) -> Seq<char>
    decreases n,
{
    if n == 0 {
        Seq::empty()
    } else {
        let before = outputs_text(net, vals, (n - 1) as nat);
        let name = net.outputs@[n - 1].0@;
        let e = Env { q: Seq::new(net.dffs@.len(), |i: int| false), ins: vals, reset: false };
        let v = word(levels(net.gates(), e, net.outputs@[output_named(net, name, 0)].1@));
        before + (if n > 1 {
            " "@
        } else {
            Seq::empty()
        }) + name + "="@ + decimal(v)
    }
}

/// A row of the truth table.
pub open spec fn truth_row(net: &Netlist, ports: Seq<PortDecl>, v: nat) -> Seq<char> {
    "TRUTH "@ + decimal(v) + " "@ + outputs_text(net, counter_values(v, ports), net.outputs@.len())
}

/// The texts of rows.
pub open spec fn row_texts(rows: Seq<String>) -> Seq<Seq<char>> {
    rows.map_values(|s: String| s@)
}

proof fn lemma_output_named(net: &Netlist, name: Seq<char>, i: int, k: int)
    requires
        0 <= i <= k < net.outputs@.len(),
        net.outputs@[k].0@ == name,
        forall|j: int| 0 <= j < i ==> (#[trigger] net.outputs@[j]).0@ != name,
    ensures
        first_port(net, name, output_named(net, name, i)),
    decreases net.outputs@.len() - i,
{
    if net.outputs@[i].0@ != name {
        lemma_output_named(net, name, i + 1, k);
    }
}

fn count_bits(ports: &Vec<PortDecl>) -> (n: u64)
    requires
        ports@.len() <= u32::MAX,
    ensures
        n == input_bits(ports@, ports@.len()),
{
    let mut n: u64 = 0;
    for i in 0..ports.len()
        invariant
            ports@.len() <= u32::MAX,
            n == input_bits(ports@, i as nat),
            n <= i * 0xffff_ffff,
    {
        assert(n + ports@[i as int].width <= (i + 1) * 0xffff_ffff) by (nonlinear_arith)
            requires
                n <= i * 0xffff_ffff,
                ports@[i as int].width <= 0xffff_ffff,
        ;
        assert((i + 1) * 0xffff_ffff <= 0xffff_ffff * 0xffff_ffff) by (nonlinear_arith)
            requires
                i + 1 <= 0xffff_ffff,
        ;
        n = n + ports[i].width as u64;
    }
    n
}

proof fn lemma_width_small(ports: Seq<PortDecl>, k: int, n: nat)
    requires
        0 <= k < n <= ports.len(),
    ensures
        ports[k].width <= input_bits(ports, n),
    decreases n,
{
    if k < n - 1 {
        lemma_width_small(ports, k, (n - 1) as nat);
    }
}

fn power(w: u32) -> (p: u64)
    requires
        w <= 16,
    ensures
        p == pow2(w as nat),
        1 <= p <= 0x1_0000,
{
    let mut p: u64 = 1;
    proof {
        lemma2_to64();
    }
    for i in 0..w
        invariant
            w <= 16,
            p == pow2(i as nat),
            1 <= p,
            p <= 0x1_0000,
    {
        proof {
            lemma2_to64();
            lemma_pow2_unfold((i + 1) as nat);
            if i < 15 {
                lemma_pow2_strictly_increases((i + 1) as nat, 16);
            }
        }
        p = p * 2;
    }
    p
}

/// Split a counter across the ports, least significant bits first.
pub fn split_counter(v: u64, ports: &Vec<PortDecl>) -> (vals: Vec<u64>)
    requires
        input_bits(ports@, ports@.len()) <= 16,
    ensures
        vals@ == counter_values(v as nat, ports@),
{
    let mut vals: Vec<u64> = Vec::new();
    let mut rest: u64 = v;
    for i in 0..ports.len()
        invariant
            input_bits(ports@, ports@.len()) <= 16,
            rest == counter_rest(v as nat, ports@, i as nat),
            vals@ == counter_values(v as nat, ports@).take(i as int),
    {
        proof {
            lemma_width_small(ports@, i as int, ports@.len());
        }
        let p: u64 = power(ports[i].width);
        vals.push(rest % p);
        rest = rest / p;
        assert(vals@ =~= counter_values(v as nat, ports@).take(i + 1));
    }
    assert(counter_values(v as nat, ports@).take(ports@.len() as int) =~= counter_values(v as nat, ports@));
    vals
}

fn make_row(net: &Netlist, ports: &Vec<PortDecl>, v: u64) -> (s: String)
    requires
        net.wf(),
        forall|k: int| 0 <= k < net.outputs@.len() ==> (#[trigger] net.outputs@[k]).1@.len() <= 64,
        input_bits(ports@, ports@.len()) <= 16,
    ensures
        s@ == truth_row(net, ports@, v as nat),
{
    let sim = GateSim::new(net);
    let vals = split_counter(v, ports);
    let mut s = String::from_str("TRUTH ");
    push_decimal(&mut s, v);
    s.append(" ");
    let ghost head = s@;
    assert(s@ =~= head + outputs_text(net, vals@, 0));
    for i in 0..net.outputs.len()
        invariant
            net.wf(),
            sim.wf(),
            sim.net == net,
            sim.q@ == Seq::new(net.dffs@.len(), |i: int| false),
            forall|k: int| 0 <= k < net.outputs@.len() ==> (#[trigger] net.outputs@[k]).1@.len() <= 64,
            s@ == head + outputs_text(net, vals@, i as nat),
    {
        let ghost had = s@;
        let name = net.outputs[i].0.as_str();
        proof {
            lemma_output_named(net, name@, 0, i as int);
        }
        let r: u64 = sim.read_output(name, vals.as_slice(), false);
        if i > 0 {
            s.append(" ");
        }
        s.append(name);
        s.append("=");
        push_decimal(&mut s, r);
        assert(s@ =~= head + outputs_text(net, vals@, (i + 1) as nat));
    }
    s
}

/// Every input combination and the output it should produce, so that an external
/// harness can drive the real game and compare.
pub fn truth_table(d: &Design, net: &Netlist) -> (r: Result<Vec<String>, String>)
    requires
        net.wf(),
        forall|k: int| 0 <= k < net.outputs@.len() ==> (#[trigger] net.outputs@[k]).1@.len() <= 64,
        d.inputs@.len() <= u32::MAX,
    ensures
        ({
            let bits = input_bits(d.inputs@, d.inputs@.len());
            match r {
                Ok(rows) => bits <= 16 && row_texts(rows@) == Seq::new(
                    pow2(bits),
                    |v: int| truth_row(net, d.inputs@, v as nat),
                ),
                Err(e) => bits > 16 && e@ == too_many_text(bits),
            }
        }),
{
    let bits: u64 = count_bits(&d.inputs);
    if bits > 16 {
        let mut m = String::new();
        push_decimal(&mut m, bits);
        m.append(" input bits is too many to enumerate");
        assert(m@ =~= too_many_text(bits as nat));
        return Err(m);
    }
    let n: u64 = power(bits as u32);
    let mut rows: Vec<String> = Vec::new();
    for v in 0..n
        invariant
            net.wf(),
            forall|k: int| 0 <= k < net.outputs@.len() ==> (#[trigger] net.outputs@[k]).1@.len() <= 64,
            input_bits(d.inputs@, d.inputs@.len()) <= 16,
            row_texts(rows@) == Seq::new(v as nat, |v: int| truth_row(net, d.inputs@, v as nat)),
    {
        let ghost had = rows@;
        let row = make_row(net, &d.inputs, v);
        let ghost text = row@;
        rows.push(row);
        assert(row_texts(rows@) =~= row_texts(had).push(text));
        assert(row_texts(rows@) =~= Seq::new((v + 1) as nat, |v: int| truth_row(net, d.inputs@, v as nat)));
    }
    Ok(rows)
}

// --- what is placed ------------------------------------------------------------------------

/// The netlist that is placed: a straight-line program needs no state machine and no
/// registers; anything with a loop or a branch does.
pub fn placed_netlist(d: &Design) -> (net: Netlist)
    requires
        synthesizable(d),
        signal_bound(d) <= u32::MAX,
    ensures
        straight_line(d) ==> combinational(d, &net),
        !straight_line(d) ==> implements(d, &net),
        net.wf(),
{
    match blast_combinational(d) {
        Ok(net) => net,
        Err(_) => blast(d),
    }
}

// --- reporting -----------------------------------------------------------------------------

/// A coordinate in the frame of the setblock commands: the build starts at the caller,
/// one block up, clear of the ground.
pub open spec fn framed(p: Pos, lo: Pos) -> (int, int, int) {
    (p.0 - lo.0, p.1 - lo.1 + 1, p.2 - lo.2)
}

/// Where a position is for the player: relative to the commands' origin where there
/// are commands, and as it stands in the layout otherwise.
pub fn reported(p: Pos, lo: Pos, commands: bool) -> (r: (i64, i64, i64))
    ensures
        commands ==> (r.0 as int, r.1 as int, r.2 as int) == framed(p, lo),
        !commands ==> r.0 == p.0 && r.1 == p.1 && r.2 == p.2,
{
    if commands {
        (
            p.0 as i64 - lo.0 as i64,
            p.1 as i64 - lo.1 as i64 + 1,
            p.2 as i64 - lo.2 as i64,
        )
    } else {
        (p.0 as i64, p.1 as i64, p.2 as i64)
    }
}

/// How many commands the game runs in one function, unless it is told otherwise.
pub const DEFAULT_CHAIN: usize = 65536;

/// The least power of two that is no less than `n`, from `p` on.
pub open spec fn power_from(n: nat, p: nat) -> nat
    decreases 2 * n - p,
{
    if p >= n || p == 0 {
        p
    } else {
        power_from(n, 2 * p)
    }
}

/// The limit that `lines` commands need, where the usual one is too low: a power of
/// two that is at least 2^20.
pub fn chain_limit(lines: usize) -> (r: Option<u64>)
    requires
        lines <= 0x1_0000_0000,
    ensures
        match r {
            Some(n) => lines > DEFAULT_CHAIN && n == power_from(lines as nat, 0x10_0000),
            None => lines <= DEFAULT_CHAIN,
        },
{
    if lines <= DEFAULT_CHAIN {
        return None;
    }
    let mut p: u64 = 0x10_0000;
    while p < lines as u64
        invariant
            lines <= 0x1_0000_0000,
            0 < p <= 0x2_0000_0000,
            power_from(lines as nat, 0x10_0000) == power_from(lines as nat, p as nat),
        decreases 2 * lines - p,
    {
        p = 2 * p;
    }
    Some(p)
}

} // verus!
