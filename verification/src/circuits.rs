//! Arithmetic on rows of signals: ripple-carry adders, an array multiplier and
//! logarithmic barrel shifters, all out of NOR gates.
use crate::bits::{lemma_word_bound, lemma_word_push, word};
use crate::netlist::{
    any_high, grown, lemma_grown_trans, lemma_levels_kept, levels, row_wf, sig_value, Env, Gate,
    Netlist, Sig,
};
use vstd::arithmetic::power2::{
    lemma2_to64, lemma_pow2_adds, lemma_pow2_pos, lemma_pow2_strictly_increases, lemma_pow2_unfold,
    pow2,
};
use vstd::prelude::*;

verus! {

/// A pointwise operation on two rows.
#[derive(Debug, Clone, Copy, PartialEq, Eq, Structural)]
pub enum Logic {
    And,
    Or,
    Xor,
}

pub open spec fn logic(op: Logic, a: bool, b: bool) -> bool {
    match op {
        Logic::And => a && b,
        Logic::Or => a || b,
        Logic::Xor => a != b,
    }
}

/// The weight `p` where the bit is set.
pub open spec fn weight(b: bool, p: nat) -> nat {
    if b {
        p
    } else {
        0
    }
}

pub proof fn lemma_levels_push(gates: Seq<Gate>, e: Env, v: Seq<Sig>, x: Sig)
    ensures
        levels(gates, e, v.push(x)) == levels(gates, e, v).push(sig_value(gates, e, x)),
{
    assert(levels(gates, e, v.push(x)) =~= levels(gates, e, v).push(sig_value(gates, e, x)));
}

proof fn lemma_word_take(s: Seq<bool>, i: int)
    requires
        0 <= i < s.len(),
    ensures
        word(s.take(i + 1)) == word(s.take(i)) + weight(s[i], pow2(i as nat)),
{
    assert(s.take(i + 1) =~= s.take(i).push(s[i]));
    lemma_word_push(s.take(i), s[i]);
}

/// A copy of `src` in every place.
pub fn fill(x: Sig, w: usize) -> (v: Vec<Sig>)
    ensures
        v@.len() == w,
        forall|k: int| 0 <= k < w ==> #[trigger] v@[k] == x,
{
    let mut v: Vec<Sig> = Vec::new();
    for i in 0..w
        invariant
            v@.len() == i,
            forall|k: int| 0 <= k < i ==> #[trigger] v@[k] == x,
    {
        v.push(x);
    }
    v
}

/// Complement every signal of a row.
pub fn not_row(net: &mut Netlist, a: &Vec<Sig>) -> (r: Vec<Sig>)
    requires
        old(net).wf(),
        row_wf(a@, old(net).gates().len()),
        old(net).room(a@.len()),
    ensures
        old(net).only_grew(final(net)),
        r@.len() == a@.len(),
        row_wf(r@, final(net).gates().len()),
        forall|e: Env, k: int|
            0 <= k < a@.len() ==> #[trigger] levels(final(net).gates(), e, r@)[k] == !levels(
                old(net).gates(),
                e,
                a@,
            )[k],
        final(net).gates().len() <= old(net).gates().len() + a@.len(),
{
    let ghost g0 = net.gates();
    let mut r: Vec<Sig> = Vec::new();
    proof {
        lemma_grown_refl(g0);
    }
    for i in 0..a.len()
        invariant
            old(net).only_grew(net),
            old(net).room(a@.len()),
            g0 == old(net).gates(),
            row_wf(a@, g0.len()),
            r@.len() == i,
            row_wf(r@, net.gates().len()),
            net.gates().len() <= g0.len() + i,
            forall|e: Env, k: int|
                0 <= k < i ==> #[trigger] levels(net.gates(), e, r@)[k] == !sig_value(g0, e, a@[k]),
    {
        let ghost g1 = net.gates();
        let ghost r1 = r@;
        assert(a@[i as int] < g0.len());
        let x: u32 = net.not(a[i]);
        r.push(x);
        proof {
            lemma_grown_trans(g0, g1, net.gates());
            assert forall|e: Env, k: int| 0 <= k < i + 1 implies #[trigger] levels(
                net.gates(),
                e,
                r@,
            )[k] == !sig_value(g0, e, a@[k]) by {
                if k < i {
                    assert(levels(g1, e, r1)[k] == !sig_value(g0, e, a@[k]));
                    assert(r1[k] < g1.len());
                } else {
                    assert(sig_value(g1, e, a@[k]) == sig_value(g0, e, a@[k]));
                }
            }
        }
    }
    r
}

pub proof fn lemma_grown_refl(g: Seq<Gate>)
    ensures
        grown(g, g),
{
}

/// A pointwise operation on two rows of one length.
pub fn zip_row(net: &mut Netlist, op: Logic, a: &Vec<Sig>, b: &Vec<Sig>) -> (r: Vec<Sig>)
    requires
        old(net).wf(),
        row_wf(a@, old(net).gates().len()),
        row_wf(b@, old(net).gates().len()),
        a@.len() == b@.len(),
        old(net).room(5 * a@.len()),
    ensures
        old(net).only_grew(final(net)),
        r@.len() == a@.len(),
        row_wf(r@, final(net).gates().len()),
        forall|e: Env, k: int|
            0 <= k < a@.len() ==> #[trigger] levels(final(net).gates(), e, r@)[k] == logic(
                op,
                levels(old(net).gates(), e, a@)[k],
                levels(old(net).gates(), e, b@)[k],
            ),
        final(net).gates().len() <= old(net).gates().len() + 5 * a@.len(),
{
    let ghost g0 = net.gates();
    let mut r: Vec<Sig> = Vec::new();
    proof {
        lemma_grown_refl(g0);
    }
    for i in 0..a.len()
        invariant
            old(net).only_grew(net),
            old(net).room(5 * a@.len()),
            g0 == old(net).gates(),
            row_wf(a@, g0.len()),
            row_wf(b@, g0.len()),
            a@.len() == b@.len(),
            r@.len() == i,
            row_wf(r@, net.gates().len()),
            net.gates().len() <= g0.len() + 5 * i,
            forall|e: Env, k: int|
                0 <= k < i ==> #[trigger] levels(net.gates(), e, r@)[k] == logic(
                    op,
                    sig_value(g0, e, a@[k]),
                    sig_value(g0, e, b@[k]),
                ),
    {
        let ghost g1 = net.gates();
        let ghost r1 = r@;
        assert(a@[i as int] < g0.len() && b@[i as int] < g0.len());
        let x: u32 = match op {
            Logic::And => net.and(a[i], b[i]),
            Logic::Or => net.or(a[i], b[i]),
            Logic::Xor => net.xor(a[i], b[i]),
        };
        r.push(x);
        proof {
            lemma_grown_trans(g0, g1, net.gates());
            assert forall|e: Env, k: int| 0 <= k < i + 1 implies #[trigger] levels(
                net.gates(),
                e,
                r@,
            )[k] == logic(op, sig_value(g0, e, a@[k]), sig_value(g0, e, b@[k])) by {
                if k < i {
                    assert(levels(g1, e, r1)[k] == logic(
                        op,
                        sig_value(g0, e, a@[k]),
                        sig_value(g0, e, b@[k]),
                    ));
                    assert(r1[k] < g1.len());
                } else {
                    assert(sig_value(g1, e, a@[k]) == sig_value(g0, e, a@[k]));
                    assert(sig_value(g1, e, b@[k]) == sig_value(g0, e, b@[k]));
                }
            }
        }
    }
    r
}

/// Select between two rows of one length, bit by bit.
pub fn mux_row(net: &mut Netlist, c: Sig, t: &Vec<Sig>, f: &Vec<Sig>) -> (r: Vec<Sig>)
    requires
        old(net).wf(),
        c < old(net).gates().len(),
        row_wf(t@, old(net).gates().len()),
        row_wf(f@, old(net).gates().len()),
        t@.len() == f@.len(),
        old(net).room(9 * t@.len()),
    ensures
        old(net).only_grew(final(net)),
        r@.len() == t@.len(),
        row_wf(r@, final(net).gates().len()),
        forall|e: Env|
            #![trigger levels(final(net).gates(), e, r@)]
            levels(final(net).gates(), e, r@) == if sig_value(old(net).gates(), e, c) {
                levels(old(net).gates(), e, t@)
            } else {
                levels(old(net).gates(), e, f@)
            },
        final(net).gates().len() <= old(net).gates().len() + 9 * t@.len(),
{
    let ghost g0 = net.gates();
    let mut r: Vec<Sig> = Vec::new();
    proof {
        lemma_grown_refl(g0);
    }
    for i in 0..t.len()
        invariant
            old(net).only_grew(net),
            old(net).room(9 * t@.len()),
            g0 == old(net).gates(),
            c < g0.len(),
            row_wf(t@, g0.len()),
            row_wf(f@, g0.len()),
            t@.len() == f@.len(),
            r@.len() == i,
            row_wf(r@, net.gates().len()),
            net.gates().len() <= g0.len() + 9 * i,
            forall|e: Env, k: int|
                0 <= k < i ==> #[trigger] levels(net.gates(), e, r@)[k] == if sig_value(g0, e, c) {
                    sig_value(g0, e, t@[k])
                } else {
                    sig_value(g0, e, f@[k])
                },
    {
        let ghost g1 = net.gates();
        let ghost r1 = r@;
        assert(t@[i as int] < g0.len() && f@[i as int] < g0.len());
        let x: u32 = net.mux(c, t[i], f[i]);
        r.push(x);
        proof {
            lemma_grown_trans(g0, g1, net.gates());
            assert forall|e: Env, k: int| 0 <= k < i + 1 implies #[trigger] levels(
                net.gates(),
                e,
                r@,
            )[k] == if sig_value(g0, e, c) {
                sig_value(g0, e, t@[k])
            } else {
                sig_value(g0, e, f@[k])
            } by {
                if k < i {
                    assert(levels(g1, e, r1)[k] == if sig_value(g0, e, c) {
                        sig_value(g0, e, t@[k])
                    } else {
                        sig_value(g0, e, f@[k])
                    });
                    assert(r1[k] < g1.len());
                } else {
                    assert(sig_value(g1, e, c) == sig_value(g0, e, c));
                    assert(sig_value(g1, e, t@[k]) == sig_value(g0, e, t@[k]));
                    assert(sig_value(g1, e, f@[k]) == sig_value(g0, e, f@[k]));
                }
            }
        }
    }
    proof {
        assert forall|e: Env|
            #![trigger levels(net.gates(), e, r@)]
            levels(net.gates(), e, r@) == if sig_value(g0, e, c) {
                levels(g0, e, t@)
            } else {
                levels(g0, e, f@)
            } by {
            if sig_value(g0, e, c) {
                assert(levels(net.gates(), e, r@) =~= levels(g0, e, t@));
            } else {
                assert(levels(net.gates(), e, r@) =~= levels(g0, e, f@));
            }
        }
    }
    r
}

/// A row at the length `w`: cut, or filled up with zeros.
pub open spec fn resized(row: Seq<Sig>, w: nat) -> Seq<Sig> {
    Seq::new(
        w,
        |i: int|
            if i < row.len() {
                row[i]
            } else {
                1u32
            },
    )
}

/// The longer of two lengths.
pub open spec fn longer(a: nat, b: nat) -> nat {
    if a < b {
        b
    } else {
        a
    }
}

fn resize_row(row: &Vec<Sig>, w: usize) -> (r: Vec<Sig>)
    ensures
        r@ == resized(row@, w as nat),
        forall|n: nat| row_wf(row@, n) && n >= 2 ==> row_wf(r@, n),
{
    let mut r: Vec<Sig> = Vec::new();
    for i in 0..w
        invariant
            r@ == resized(row@, i as nat),
    {
        if i < row.len() {
            r.push(row[i]);
        } else {
            r.push(1);
        }
        assert(r@ =~= resized(row@, (i + 1) as nat));
    }
    proof {
        assert forall|n: nat| row_wf(row@, n) && n >= 2 implies row_wf(r@, n) by {
            assert forall|k: int| 0 <= k < r@.len() implies (#[trigger] r@[k]) < n by {
                if k < row@.len() {
                    assert(row@[k] < n);
                }
            }
        }
    }
    r
}

/// At another length a row stands for the same number, as far as that fits.
proof fn lemma_resized(gates: Seq<Gate>, e: Env, row: Seq<Sig>, w: nat)
    requires
        gates.len() >= 2,
        gates[1] == Gate::Zero,
    ensures
        word(levels(gates, e, resized(row, w))) == word(levels(gates, e, row)) % pow2(w),
        row.len() <= w ==> word(levels(gates, e, resized(row, w))) == word(levels(gates, e, row)),
    decreases w,
{
    let l = levels(gates, e, row);
    let r = levels(gates, e, resized(row, w));
    let m = pow2(w);
    lemma_pow2_pos(w);
    if w <= row.len() {
        assert(r =~= l.take(w as int));
        lemma_word_split(l, w as int);
        lemma_word_bound(r);
        vstd::arithmetic::div_mod::lemma_mod_multiples_vanish(
            word(l.skip(w as int)) as int,
            word(r) as int,
            m as int,
        );
        assert(m * word(l.skip(w as int)) + word(r) == word(l));
        vstd::arithmetic::div_mod::lemma_small_mod(word(r), m);
        if row.len() == w {
            assert(r =~= l);
        }
    } else {
        lemma_resized(gates, e, row, (w - 1) as nat);
        let before = levels(gates, e, resized(row, (w - 1) as nat));
        assert(!sig_value(gates, e, 1u32));
        assert(r =~= before.push(false));
        lemma_word_push(before, false);
        lemma_word_bound(r);
        vstd::arithmetic::div_mod::lemma_small_mod(word(r), m);
    }
}

/// Ripple-carry adder. Returns the sum bits and the carry-out. The shorter row is
/// filled up with zeros.
pub fn ripple_add(net: &mut Netlist, a: &Vec<Sig>, b: &Vec<Sig>, cin: Sig) -> (r: (Vec<Sig>, Sig))
    requires
        old(net).wf(),
        row_wf(a@, old(net).gates().len()),
        row_wf(b@, old(net).gates().len()),
        cin < old(net).gates().len(),
        old(net).room(21 * longer(a@.len(), b@.len())),
    ensures
        old(net).only_grew(final(net)),
        r.0@.len() == longer(a@.len(), b@.len()),
        row_wf(r.0@, final(net).gates().len()),
        r.1 < final(net).gates().len(),
        forall|e: Env|
            #![trigger levels(final(net).gates(), e, r.0@)]
            #![trigger sig_value(final(net).gates(), e, r.1)]
            word(levels(final(net).gates(), e, r.0@)) + weight(
                sig_value(final(net).gates(), e, r.1),
                pow2(longer(a@.len(), b@.len())),
            ) == word(levels(old(net).gates(), e, a@)) + word(levels(old(net).gates(), e, b@))
                + weight(sig_value(old(net).gates(), e, cin), 1),
        final(net).gates().len() <= old(net).gates().len() + 21 * longer(a@.len(), b@.len()),
{
    let ghost g0 = net.gates();
    let w: usize = if a.len() < b.len() {
        b.len()
    } else {
        a.len()
    };
    let x = resize_row(a, w);
    let y = resize_row(b, w);
    let r = add_rows(net, &x, &y, cin);
    proof {
        assert forall|e: Env|
            #![trigger levels(net.gates(), e, r.0@)]
            #![trigger sig_value(net.gates(), e, r.1)]
            word(levels(net.gates(), e, r.0@)) + weight(
                sig_value(net.gates(), e, r.1),
                pow2(w as nat),
            ) == word(levels(g0, e, a@)) + word(levels(g0, e, b@)) + weight(sig_value(g0, e, cin), 1) by {
            lemma_resized(g0, e, a@, w as nat);
            lemma_resized(g0, e, b@, w as nat);
            assert(word(levels(net.gates(), e, r.0@)) + weight(sig_value(net.gates(), e, r.1), pow2(w as nat))
                == word(levels(g0, e, x@)) + word(levels(g0, e, y@)) + weight(sig_value(g0, e, cin), 1));
        }
    }
    r
}

/// Add two rows of one length.
fn add_rows(net: &mut Netlist, a: &Vec<Sig>, b: &Vec<Sig>, cin: Sig) -> (r: (Vec<Sig>, Sig))
    requires
        old(net).wf(),
        row_wf(a@, old(net).gates().len()),
        row_wf(b@, old(net).gates().len()),
        a@.len() == b@.len(),
        cin < old(net).gates().len(),
        old(net).room(21 * a@.len()),
    ensures
        old(net).only_grew(final(net)),
        r.0@.len() == a@.len(),
        row_wf(r.0@, final(net).gates().len()),
        r.1 < final(net).gates().len(),
        forall|e: Env|
            #![trigger levels(final(net).gates(), e, r.0@)]
            #![trigger sig_value(final(net).gates(), e, r.1)]
            word(levels(final(net).gates(), e, r.0@)) + weight(
                sig_value(final(net).gates(), e, r.1),
                pow2(a@.len()),
            ) == word(levels(old(net).gates(), e, a@)) + word(levels(old(net).gates(), e, b@))
                + weight(sig_value(old(net).gates(), e, cin), 1),
        final(net).gates().len() <= old(net).gates().len() + 21 * a@.len(),
{
    let ghost g0 = net.gates();
    let mut carry: Sig = cin;
    let mut sum: Vec<Sig> = Vec::new();
    proof {
        lemma_grown_refl(g0);
        lemma2_to64();
    }
    for i in 0..a.len()
        invariant
            old(net).only_grew(net),
            old(net).room(21 * a@.len()),
            g0 == old(net).gates(),
            row_wf(a@, g0.len()),
            row_wf(b@, g0.len()),
            a@.len() == b@.len(),
            sum@.len() == i,
            row_wf(sum@, net.gates().len()),
            carry < net.gates().len(),
            net.gates().len() <= g0.len() + 21 * i,
            forall|e: Env|
                #![trigger levels(net.gates(), e, sum@)]
                #![trigger sig_value(net.gates(), e, carry)]
                word(levels(net.gates(), e, sum@)) + weight(
                    sig_value(net.gates(), e, carry),
                    pow2(i as nat),
                ) == word(levels(g0, e, a@).take(i as int)) + word(
                    levels(g0, e, b@).take(i as int),
                ) + weight(sig_value(g0, e, cin), 1),
    {
        let ghost g1 = net.gates();
        let ghost sum1 = sum@;
        let ghost carry1 = carry;
        let x: u32 = a[i];
        let y: u32 = b[i];
        assert(a@[i as int] < g0.len() && b@[i as int] < g0.len());
        let s: u32 = net.xor3(x, y, carry);
        let ghost g2 = net.gates();
        carry = net.maj3(x, y, carry);
        sum.push(s);
        let ghost g3 = net.gates();
        proof {
            lemma_grown_trans(g1, g2, g3);
            lemma_grown_trans(g0, g1, g3);
            assert forall|e: Env|
                #![trigger levels(g3, e, sum@)]
                #![trigger sig_value(g3, e, carry)]
                word(levels(g3, e, sum@)) + weight(
                    sig_value(g3, e, carry),
                    pow2((i + 1) as nat),
                ) == word(levels(g0, e, a@).take(i + 1)) + word(levels(g0, e, b@).take(i + 1))
                    + weight(sig_value(g0, e, cin), 1) by {
                lemma_levels_push(g3, e, sum1, s);
                lemma_levels_kept(g1, g3, e, sum1);
                lemma_word_push(levels(g3, e, sum1), sig_value(g3, e, s));
                lemma_word_take(levels(g0, e, a@), i as int);
                lemma_word_take(levels(g0, e, b@), i as int);
                lemma_pow2_unfold((i + 1) as nat);
                assert(word(levels(g1, e, sum1)) + weight(
                    sig_value(g1, e, carry1),
                    pow2(i as nat),
                ) == word(levels(g0, e, a@).take(i as int)) + word(levels(g0, e, b@).take(i as int))
                    + weight(sig_value(g0, e, cin), 1));
                assert(sig_value(g3, e, s) == sig_value(g2, e, s));
                assert(sig_value(g2, e, x) == sig_value(g0, e, x));
                assert(sig_value(g2, e, y) == sig_value(g0, e, y));
                assert(sig_value(g1, e, x) == sig_value(g0, e, x));
                assert(sig_value(g1, e, y) == sig_value(g0, e, y));
                assert(sig_value(g2, e, carry1) == sig_value(g1, e, carry1));
            }
        }
    }
    proof {
        assert forall|e: Env|
            #![trigger levels(net.gates(), e, sum@)]
            #![trigger sig_value(net.gates(), e, carry)]
            word(levels(net.gates(), e, sum@)) + weight(
                sig_value(net.gates(), e, carry),
                pow2(a@.len()),
            ) == word(levels(g0, e, a@)) + word(levels(g0, e, b@)) + weight(
                sig_value(g0, e, cin),
                1,
            ) by {
            assert(levels(g0, e, a@).take(a@.len() as int) =~= levels(g0, e, a@));
            assert(levels(g0, e, b@).take(a@.len() as int) =~= levels(g0, e, b@));
        }
    }
    (sum, carry)
}

/// The complement of a row stands for what is missing to all ones.
pub proof fn lemma_word_not(a: Seq<bool>, b: Seq<bool>)
    requires
        a.len() == b.len(),
        forall|i: int| 0 <= i < a.len() ==> b[i] == !a[i],
    ensures
        word(a) + word(b) + 1 == pow2(a.len()),
    decreases a.len(),
{
    lemma2_to64();
    if a.len() > 0 {
        lemma_word_not(a.drop_last(), b.drop_last());
        lemma_pow2_unfold(a.len());
    }
}

/// Unsigned `a < b`: the subtraction borrows, that is, nothing is carried out of
/// `a + !b + 1`.
pub fn less_than(net: &mut Netlist, a: &Vec<Sig>, b: &Vec<Sig>) -> (r: Sig)
    requires
        old(net).wf(),
        row_wf(a@, old(net).gates().len()),
        row_wf(b@, old(net).gates().len()),
        a@.len() == b@.len(),
        old(net).room(22 * a@.len() + 1),
    ensures
        old(net).only_grew(final(net)),
        r < final(net).gates().len(),
        forall|e: Env| #[trigger]
            sig_value(final(net).gates(), e, r) == (word(levels(old(net).gates(), e, a@)) < word(
                levels(old(net).gates(), e, b@),
            )),
        final(net).gates().len() <= old(net).gates().len() + 22 * a@.len() + 1,
{
    let ghost g0 = net.gates();
    let nb = not_row(net, b);
    let ghost g1 = net.gates();
    let one: u32 = net.one();
    let (sum, cout) = ripple_add(net, a, &nb, one);
    let ghost g2 = net.gates();
    let r: u32 = net.not(cout);
    proof {
        lemma_grown_trans(g0, g1, g2);
        lemma_grown_trans(g0, g2, net.gates());
        assert forall|e: Env| #[trigger] sig_value(net.gates(), e, r) == (word(levels(g0, e, a@))
            < word(levels(g0, e, b@))) by {
            lemma_levels_kept(g0, g1, e, a@);
            lemma_word_not(levels(g0, e, b@), levels(g1, e, nb@));
            lemma_word_bound(levels(g2, e, sum@));
            assert(sig_value(g1, e, one));
            assert(word(levels(g2, e, sum@)) + weight(sig_value(g2, e, cout), pow2(a@.len()))
                == word(levels(g1, e, a@)) + word(levels(g1, e, nb@)) + 1);
        }
    }
    r
}

/// Are two rows equal? All bits are equal where no XOR is set.
pub fn equal_rows(net: &mut Netlist, a: &Vec<Sig>, b: &Vec<Sig>) -> (r: Sig)
    requires
        old(net).wf(),
        row_wf(a@, old(net).gates().len()),
        row_wf(b@, old(net).gates().len()),
        a@.len() == b@.len(),
        old(net).room(5 * a@.len() + 1),
    ensures
        old(net).only_grew(final(net)),
        r < final(net).gates().len(),
        forall|e: Env| #[trigger]
            sig_value(final(net).gates(), e, r) == (levels(old(net).gates(), e, a@) == levels(
                old(net).gates(),
                e,
                b@,
            )),
        final(net).gates().len() <= old(net).gates().len() + 5 * a@.len() + 1,
{
    let ghost g0 = net.gates();
    let diffs = zip_row(net, Logic::Xor, a, b);
    let ghost g1 = net.gates();
    let r: u32 = net.nor(diffs.as_slice());
    proof {
        lemma_grown_trans(g0, g1, net.gates());
        assert forall|e: Env| #[trigger] sig_value(net.gates(), e, r) == (levels(g0, e, a@)
            == levels(g0, e, b@)) by {
            let la = levels(g0, e, a@);
            let lb = levels(g0, e, b@);
            let ld = levels(g1, e, diffs@);
            if any_high(g1, e, diffs@) {
                let k = choose|k: int| 0 <= k < diffs@.len() && sig_value(g1, e, #[trigger] diffs@[k]);
                assert(ld[k]);
                assert(la[k] != lb[k]);
            } else {
                assert forall|k: int| 0 <= k < la.len() implies la[k] == lb[k] by {
                    assert(!sig_value(g1, e, diffs@[k]));
                    assert(!ld[k]);
                }
                assert(la =~= lb);
            }
        }
    }
    r
}

/// Partial product: `a << i`, gated by `bi`, cut to the length of `a`.
fn partial_product(net: &mut Netlist, a: &Vec<Sig>, i: usize, bi: Sig) -> (r: Vec<Sig>)
    requires
        old(net).wf(),
        row_wf(a@, old(net).gates().len()),
        bi < old(net).gates().len(),
        i <= a@.len(),
        old(net).room(3 * a@.len()),
    ensures
        old(net).only_grew(final(net)),
        r@.len() == a@.len(),
        row_wf(r@, final(net).gates().len()),
        forall|e: Env, j: int|
            0 <= j < a@.len() ==> #[trigger] levels(final(net).gates(), e, r@)[j] == (j >= i
                && sig_value(old(net).gates(), e, bi) && sig_value(
                old(net).gates(),
                e,
                a@[j - i],
            )),
        final(net).gates().len() <= old(net).gates().len() + 3 * a@.len(),
{
    let ghost g0 = net.gates();
    let mut r: Vec<Sig> = Vec::new();
    proof {
        lemma_grown_refl(g0);
    }
    for j in 0..a.len()
        invariant
            old(net).only_grew(net),
            old(net).room(3 * a@.len()),
            g0 == old(net).gates(),
            row_wf(a@, g0.len()),
            bi < g0.len(),
            i <= a@.len(),
            r@.len() == j,
            row_wf(r@, net.gates().len()),
            net.gates().len() <= g0.len() + 3 * j,
            forall|e: Env, k: int|
                0 <= k < j ==> #[trigger] levels(net.gates(), e, r@)[k] == (k >= i && sig_value(
                    g0,
                    e,
                    bi,
                ) && sig_value(g0, e, a@[k - i])),
    {
        let ghost g1 = net.gates();
        let ghost r1 = r@;
        let x: u32 = if j < i {
            net.zero()
        } else {
            assert(a@[j - i] < g0.len());
            net.and(a[j - i], bi)
        };
        r.push(x);
        proof {
            if j < i {
                lemma_grown_refl(g1);
            }
            lemma_grown_trans(g0, g1, net.gates());
            assert forall|e: Env, k: int| 0 <= k < j + 1 implies #[trigger] levels(
                net.gates(),
                e,
                r@,
            )[k] == (k >= i && sig_value(g0, e, bi) && sig_value(g0, e, a@[k - i])) by {
                if k < j {
                    assert(levels(g1, e, r1)[k] == (k >= i && sig_value(g0, e, bi) && sig_value(
                        g0,
                        e,
                        a@[k - i],
                    )));
                    assert(r1[k] < g1.len());
                } else if j >= i {
                    assert(sig_value(g1, e, a@[k - i]) == sig_value(g0, e, a@[k - i]));
                    assert(sig_value(g1, e, bi) == sig_value(g0, e, bi));
                } else {
                    assert(!sig_value(net.gates(), e, 1u32));
                }
            }
        }
    }
    r
}

/// A row shifted up by `i` places and cut stands for the product with two to the
/// `i`, modulo two to its length.
proof fn lemma_word_shifted(a: Seq<bool>, r: Seq<bool>, i: nat)
    requires
        a.len() == r.len(),
        i <= a.len(),
        forall|j: int| 0 <= j < r.len() ==> r[j] == (j >= i && a[j - i]),
    ensures
        word(r) == (word(a) * pow2(i)) % pow2(a.len()),
{
    let low = a.take(a.len() - i);
    lemma_shifted_exact(a, r, i, r.len());
    lemma_word_split(a, a.len() - i);
    let hi = word(a.skip(a.len() - i));
    let p = pow2(i) as int;
    let q = pow2((a.len() - i) as nat) as int;
    let m = pow2(a.len()) as int;
    lemma_pow2_adds((a.len() - i) as nat, i);
    lemma_pow2_pos(i);
    lemma_pow2_pos(a.len());
    assert(r.take(r.len() as int) =~= r);
    assert(word(a) * p == hi * m + word(low) * p) by (nonlinear_arith)
        requires
            word(a) == word(low) + q * hi,
            m == q * p,
    ;
    lemma_word_bound(low);
    assert(word(low) * p < m) by (nonlinear_arith)
        requires
            word(low) < q,
            m == q * p,
            p > 0,
    ;
    assert(word(low) * p >= 0) by (nonlinear_arith)
        requires
            p > 0,
            word(low) >= 0,
    ;
    assert(hi * m == m * hi) by (nonlinear_arith);
    vstd::arithmetic::div_mod::lemma_fundamental_div_mod_converse(
        word(a) * p,
        m,
        hi as int,
        word(low) * p,
    );
}

proof fn lemma_shifted_exact(a: Seq<bool>, r: Seq<bool>, i: nat, n: nat)
    requires
        a.len() == r.len(),
        n <= r.len(),
        i <= r.len(),
        forall|j: int| 0 <= j < r.len() ==> r[j] == (j >= i && a[j - i]),
    ensures
        n <= i ==> word(r.take(n as int)) == 0,
        n >= i ==> word(r.take(n as int)) == word(a.take(n - i)) * pow2(i),
    decreases n,
{
    if n == 0 {
        assert(r.take(0).len() == 0);
        assert(i == 0 ==> word(a.take(0)) == 0);
        assert(0 * pow2(i) == 0);
    } else {
        let m = (n - 1) as nat;
        lemma_shifted_exact(a, r, i, m);
        lemma_word_take(r, m as int);
        if n > i {
            lemma_word_take(a, m - i);
            lemma_pow2_adds((m - i) as nat, i);
            let x = word(a.take(m - i)) as int;
            let y = pow2((m - i) as nat) as int;
            let p = pow2(i) as int;
            assert((x + y) * p == x * p + y * p) by (nonlinear_arith);
        } else if n == i {
            assert(a.take(0).len() == 0);
            assert(0 * pow2(i) == 0);
        }
    }
}

/// A row is its low part plus its high part at its weight.
proof fn lemma_word_split(a: Seq<bool>, k: int)
    requires
        0 <= k <= a.len(),
    ensures
        word(a) == word(a.take(k)) + pow2(k as nat) * word(a.skip(k)),
    decreases a.len(),
{
    if k == a.len() {
        assert(a.take(k) =~= a);
        assert(a.skip(k).len() == 0);
        assert(pow2(k as nat) * 0 == 0);
    } else {
        let b = a.drop_last();
        lemma_word_split(b, k);
        assert(b.take(k) =~= a.take(k));
        assert(a.skip(k).drop_last() =~= b.skip(k));
        assert(a.skip(k).last() == a.last());
        let p = pow2(k as nat) as int;
        let h = word(b.skip(k)) as int;
        let t = pow2((a.len() - 1 - k) as nat) as int;
        lemma_pow2_adds(k as nat, (a.len() - 1 - k) as nat);
        assert(p * (h + t) == p * h + p * t) by (nonlinear_arith);
    }
}

/// Shift-and-add array multiplier, truncated to `w` bits.
pub fn array_multiply(net: &mut Netlist, a: &Vec<Sig>, b: &Vec<Sig>, w: usize) -> (r: Vec<Sig>)
    requires
        old(net).wf(),
        row_wf(a@, old(net).gates().len()),
        row_wf(b@, old(net).gates().len()),
        old(net).room(24 * (w as nat * w as nat)),
    ensures
        old(net).only_grew(final(net)),
        r@.len() == w,
        row_wf(r@, final(net).gates().len()),
        forall|e: Env|
            #![trigger levels(final(net).gates(), e, r@)]
            word(levels(final(net).gates(), e, r@)) == (word(levels(old(net).gates(), e, a@)) * word(
                levels(old(net).gates(), e, b@),
            )) % pow2(w as nat),
        final(net).gates().len() <= old(net).gates().len() + 24 * (w as nat * w as nat),
{
    let ghost g0 = net.gates();
    let x = resize_row(a, w);
    let n: usize = if b.len() < w {
        b.len()
    } else {
        w
    };
    let y = resize_row(b, n);
    let r = multiply_rows(net, &x, &y);
    proof {
        let m = pow2(w as nat);
        lemma_pow2_pos(w as nat);
        assert forall|e: Env|
            #![trigger levels(net.gates(), e, r@)]
            word(levels(net.gates(), e, r@)) == (word(levels(g0, e, a@)) * word(levels(g0, e, b@))) % m by {
            lemma_resized(g0, e, a@, w as nat);
            lemma_resized(g0, e, b@, n as nat);
            let (p, q) = (word(levels(g0, e, a@)), word(levels(g0, e, b@)));
            let q2 = word(levels(g0, e, y@));
            assert(word(levels(net.gates(), e, r@)) == ((p % m) * q2) % m);
            vstd::arithmetic::div_mod::lemma_mul_mod_noop(p as int, q2 as int, m as int);
            vstd::arithmetic::div_mod::lemma_mul_mod_noop(p as int, q as int, m as int);
            vstd::arithmetic::div_mod::lemma_mul_mod_noop((p % m) as int, q2 as int, m as int);
            vstd::arithmetic::div_mod::lemma_mod_twice(p as int, m as int);
            vstd::arithmetic::div_mod::lemma_mod_twice(q as int, m as int);
        }
    }
    r
}

/// Multiply a row by one that is no longer, at the length of the first.
fn multiply_rows(net: &mut Netlist, a: &Vec<Sig>, b: &Vec<Sig>) -> (r: Vec<Sig>)
    requires
        old(net).wf(),
        row_wf(a@, old(net).gates().len()),
        row_wf(b@, old(net).gates().len()),
        b@.len() <= a@.len(),
        old(net).room(24 * (a@.len() * a@.len())),
    ensures
        old(net).only_grew(final(net)),
        r@.len() == a@.len(),
        row_wf(r@, final(net).gates().len()),
        forall|e: Env|
            #![trigger levels(final(net).gates(), e, r@)]
            word(levels(final(net).gates(), e, r@)) == (word(levels(old(net).gates(), e, a@)) * word(
                levels(old(net).gates(), e, b@),
            )) % pow2(a@.len()),
        final(net).gates().len() <= old(net).gates().len() + 24 * (a@.len() * a@.len()),
{
    let ghost g0 = net.gates();
    let w: usize = a.len();
    let ghost m = pow2(w as nat);
    let mut acc: Vec<Sig> = fill(net.zero(), w);
    proof {
        lemma_grown_refl(g0);
        lemma_pow2_pos(w as nat);
        assert forall|e: Env|
            #![trigger levels(g0, e, acc@)]
            word(levels(g0, e, acc@)) == (word(levels(g0, e, a@)) * word(
                levels(g0, e, b@).take(0),
            )) % m by {
            lemma_word_zero(levels(g0, e, acc@));
            assert(levels(g0, e, b@).take(0).len() == 0);
            assert(word(levels(g0, e, a@)) * 0 == 0);
            vstd::arithmetic::div_mod::lemma_small_mod(0, m);
        }
    }
    for i in 0..b.len()
        invariant
            old(net).only_grew(net),
            w == a@.len(),
            m == pow2(w as nat),
            old(net).room(24 * (a@.len() * a@.len())),
            g0 == old(net).gates(),
            row_wf(a@, g0.len()),
            row_wf(b@, g0.len()),
            b@.len() <= a@.len(),
            acc@.len() == w,
            row_wf(acc@, net.gates().len()),
            net.gates().len() <= g0.len() + 24 * (i * w),
            forall|e: Env|
                #![trigger levels(net.gates(), e, acc@)]
                word(levels(net.gates(), e, acc@)) == (word(levels(g0, e, a@)) * word(
                    levels(g0, e, b@).take(i as int),
                )) % m,
    {
        let ghost g1 = net.gates();
        let ghost acc1 = acc@;
        assert(b@[i as int] < g0.len());
        proof {
            assert(i * w + w == (i + 1) * w && (i + 1) * w <= w * w) by (nonlinear_arith)
                requires
                    i + 1 <= w,
            ;
            assert(row_wf(a@, g1.len()));
        }
        let pp = partial_product(net, a, i, b[i]);
        let ghost g2 = net.gates();
        let cin: u32 = net.zero();
        let (sum, cout) = ripple_add(net, &acc, &pp, cin);
        let ghost g3 = net.gates();
        proof {
            lemma_grown_trans(g1, g2, g3);
            lemma_grown_trans(g0, g1, g3);
            assert forall|e: Env|
                #![trigger levels(g3, e, sum@)]
                word(levels(g3, e, sum@)) == (word(levels(g0, e, a@)) * word(
                    levels(g0, e, b@).take(i + 1),
                )) % m by {
                let la = levels(g0, e, a@);
                let lb = levels(g0, e, b@);
                lemma_levels_kept(g1, g2, e, acc1);
                lemma_levels_kept(g0, g1, e, a@);
                assert(!sig_value(g2, e, cin));
                let c = sig_value(g3, e, cout);
                let s = word(levels(g3, e, sum@));
                let x = word(levels(g1, e, acc1));
                let y = word(levels(g2, e, pp@));
                assert(x == (word(la) * word(lb.take(i as int))) % m);
                assert(s + weight(c, m) == x + y);
                lemma_word_take(lb, i as int);
                let lp = levels(g2, e, pp@);
                assert forall|j: int| 0 <= j < lp.len() implies lp[j] == (j >= i && lb[i as int]
                    && la[j - i]) by {
                    assert(sig_value(g1, e, b@[i as int]) == sig_value(g0, e, b@[i as int]));
                    if j >= i {
                        assert(sig_value(g1, e, a@[j - i]) == sig_value(g0, e, a@[j - i]));
                    }
                }
                if lb[i as int] {
                    lemma_word_shifted(la, lp, i as nat);
                } else {
                    lemma_word_zero(lp);
                }
                lemma_word_bound(levels(g3, e, sum@));
                lemma_multiply_step(
                    word(la),
                    word(lb.take(i as int)),
                    pow2(i as nat),
                    lb[i as int],
                    m,
                    x,
                    y,
                    s,
                    c,
                );
            }
        }
        acc = sum;
    }
    proof {
        assert forall|e: Env|
            #![trigger levels(net.gates(), e, acc@)]
            word(levels(net.gates(), e, acc@)) == (word(levels(g0, e, a@)) * word(
                levels(g0, e, b@),
            )) % m by {
            assert(levels(g0, e, b@).take(b@.len() as int) =~= levels(g0, e, b@));
        }
        assert(b@.len() * w <= w * w) by (nonlinear_arith)
            requires
                b@.len() <= w,
        ;
    }
    acc
}

pub proof fn lemma_word_zero(s: Seq<bool>)
    requires
        forall|i: int| 0 <= i < s.len() ==> !s[i],
    ensures
        word(s) == 0,
    decreases s.len(),
{
    if s.len() > 0 {
        lemma_word_zero(s.drop_last());
    }
}

proof fn lemma_multiply_step(
    a: nat,
    b: nat,
    p: nat,
    set: bool,
    m: nat,
    x: nat,
    y: nat,
    s: nat,
    c: bool,
)
    requires
        m > 0,
        x == (a * b) % m,
        y == if set {
            (a * p) % m
        } else {
            0
        },
        s + weight(c, m) == x + y,
        s < m,
    ensures
        s == (a * (b + weight(set, p))) % m,
{
    let mi = m as int;
    if c {
        vstd::arithmetic::div_mod::lemma_mod_add_multiples_vanish(s as int, mi);
        assert((mi + s) % mi == s as int % mi);
    }
    assert((x + y) as int % mi == s as int % mi);
    vstd::arithmetic::div_mod::lemma_small_mod(s, m);
    if set {
        vstd::arithmetic::div_mod::lemma_add_mod_noop((a * b) as int, (a * p) as int, mi);
        assert(a * (b + p) == a * b + a * p) by (nonlinear_arith);
    } else {
        assert(a * (b + 0) == a * b);
    }
}

/// Is a shift by `amt` places of row `a` what `r` shows?
pub open spec fn shifted(a: Seq<bool>, amt: nat, left: bool, r: Seq<bool>) -> bool {
    &&& r.len() == a.len()
    &&& forall|i: int|
        0 <= i < r.len() ==> #[trigger] r[i] == if left {
            i >= amt && a[i - amt]
        } else {
            i + amt < a.len() && a[i + amt]
        }
}

proof fn lemma_shift_twice(a: Seq<bool>, x: nat, y: nat, left: bool, b: Seq<bool>, c: Seq<bool>)
    requires
        shifted(a, x, left, b),
        shifted(b, y, left, c),
    ensures
        shifted(a, x + y, left, c),
{
    assert forall|i: int| 0 <= i < c.len() implies #[trigger] c[i] == if left {
        i >= x + y && a[i - (x + y)]
    } else {
        i + (x + y) < a.len() && a[i + (x + y)]
    } by {
        if left {
            if i >= y {
                assert(c[i] == b[i - y]);
            }
        } else {
            if i + y < a.len() {
                assert(c[i] == b[i + y]);
            }
        }
    }
}

/// One stage of a shifter: move the row by a fixed amount, filling with zeros.
fn moved(cur: &Vec<Sig>, zero: Sig, amount: usize, left: bool) -> (r: Vec<Sig>)
    requires
        zero == 1,
    ensures
        r@.len() == cur@.len(),
        forall|n: nat| row_wf(cur@, n) && n >= 2 ==> row_wf(r@, n),
        forall|i: int|
            0 <= i < r@.len() ==> #[trigger] r@[i] == if left {
                if i >= amount {
                    cur@[i - amount]
                } else {
                    zero
                }
            } else {
                if i + amount < cur@.len() {
                    cur@[i + amount]
                } else {
                    zero
                }
            },
{
    let w: usize = cur.len();
    let mut r: Vec<Sig> = Vec::new();
    for i in 0..w
        invariant
            w == cur@.len(),
            r@.len() == i,
            forall|k: int|
                0 <= k < i ==> #[trigger] r@[k] == if left {
                    if k >= amount {
                        cur@[k - amount]
                    } else {
                        zero
                    }
                } else {
                    if k + amount < cur@.len() {
                        cur@[k + amount]
                    } else {
                        zero
                    }
                },
    {
        let x: u32 = if left {
            if i >= amount {
                cur[i - amount]
            } else {
                zero
            }
        } else {
            if amount < w && i < w - amount {
                cur[i + amount]
            } else {
                zero
            }
        };
        r.push(x);
    }
    proof {
        assert forall|n: nat| row_wf(cur@, n) && n >= 2 implies row_wf(r@, n) by {
            assert forall|k: int| 0 <= k < r@.len() implies (#[trigger] r@[k]) < n by {
                if left && k >= amount {
                    assert(cur@[k - amount] < n);
                }
                if !left && k + amount < cur@.len() {
                    assert(cur@[k + amount] < n);
                }
            }
        }
    }
    r
}

/// The stages of a shifter for rows of length `w`: the least number, and at least one,
/// whose power of two is no less than `w`.
pub open spec fn stages_for(w: nat) -> nat
    decreases w,
{
    if w <= 2 {
        1
    } else {
        stages_for((w + 1) / 2) + 1
    }
}

proof fn lemma_stages(w: nat)
    ensures
        stages_for(w) >= 1,
        pow2(stages_for(w)) >= w,
        stages_for(w) > 1 ==> pow2((stages_for(w) - 1) as nat) < w,
    decreases w,
{
    lemma2_to64();
    if w > 2 {
        let h = (w + 1) / 2;
        lemma_stages(h);
        lemma_pow2_unfold(stages_for(w));
        if stages_for(w) > 2 {
            lemma_pow2_unfold((stages_for(w) - 1) as nat);
        }
    }
}

/// No other number is the least.
proof fn lemma_stages_least(w: nat, k: nat)
    requires
        k >= 1,
        pow2(k) >= w,
        k > 1 ==> pow2((k - 1) as nat) < w,
    ensures
        k == stages_for(w),
{
    lemma_stages(w);
    let n = stages_for(w);
    if k < n {
        if k < n - 1 {
            lemma_pow2_strictly_increases(k, (n - 1) as nat);
        }
    } else if n < k {
        if n < k - 1 {
            lemma_pow2_strictly_increases(n, (k - 1) as nat);
        }
    }
}

/// Rows that a word holds need six stages.
pub proof fn lemma_stages_few(w: nat)
    requires
        w <= 64,
    ensures
        stages_for(w) <= 6,
{
    lemma_stages(w);
    lemma2_to64();
    if stages_for(w) > 7 {
        lemma_pow2_strictly_increases(6, (stages_for(w) - 1) as nat);
    }
}

/// No more gates than this are built for a shifter.
pub open spec fn shift_bound(w: nat) -> nat {
    9 * (stages_for(w) * w) + 3 * w + 3
}

fn count_stages(w: usize) -> (k: usize)
    requires
        w <= u32::MAX,
    ensures
        k == stages_for(w as nat),
        1 <= k <= 32,
{
    let mut k: usize = 1;
    let mut span: u64 = 2;
    proof {
        lemma2_to64();
    }
    while span < w as u64
        invariant
            1 <= k <= 32,
            span == pow2(k as nat),
            k > 1 ==> pow2((k - 1) as nat) < w,
            w <= u32::MAX,
        decreases 32 - k,
    {
        proof {
            lemma2_to64();
            lemma_pow2_unfold((k + 1) as nat);
            if k == 32 {
                assert(pow2(32) == 0x1_0000_0000);
            }
        }
        k = k + 1;
        span = span * 2;
    }
    proof {
        lemma_stages_least(w as nat, k as nat);
    }
    k
}

/// Logarithmic barrel shifter on `w` bits: one mux stage per bit of the shift amount.
/// Shift amounts at or beyond the word width zero the result, which the last
/// step handles without building useless wide stages.
pub fn barrel_shift(net: &mut Netlist, a: &Vec<Sig>, s: &Vec<Sig>, w: usize, left: bool) -> (r: Vec<Sig>)
    requires
        old(net).wf(),
        row_wf(a@, old(net).gates().len()),
        row_wf(s@, old(net).gates().len()),
        old(net).room(shift_bound(w as nat)),
    ensures
        old(net).only_grew(final(net)),
        r@.len() == w,
        row_wf(r@, final(net).gates().len()),
        forall|e: Env|
            #![trigger levels(final(net).gates(), e, r@)]
            shifted(
                levels(old(net).gates(), e, resized(a@, w as nat)),
                word(levels(old(net).gates(), e, s@)),
                left,
                levels(final(net).gates(), e, r@),
            ),
        final(net).gates().len() <= old(net).gates().len() + shift_bound(w as nat),
{
    let x = resize_row(a, w);
    shift_row(net, &x, s, left)
}

/// A shift is a multiplication or a division by a power of two.
pub proof fn lemma_shift_value(a: Seq<bool>, amt: nat, left: bool, r: Seq<bool>)
    requires
        shifted(a, amt, left, r),
    ensures
        left ==> word(r) == (word(a) * pow2(amt)) % pow2(a.len()),
        !left ==> word(r) == word(a) / pow2(amt),
        amt >= a.len() ==> word(r) == 0,
{
    let w = a.len();
    lemma_pow2_pos(w);
    lemma_pow2_pos(amt);
    if amt >= w {
        assert forall|i: int| 0 <= i < r.len() implies !r[i] by {}
        lemma_word_zero(r);
        if left {
            lemma_pow2_adds(w, (amt - w) as nat);
            let (x, y, m) = (word(a), pow2((amt - w) as nat), pow2(w));
            assert(x * (m * y) == (x * y) * m) by (nonlinear_arith);
            vstd::arithmetic::div_mod::lemma_mod_multiples_basic((x * y) as int, m as int);
        } else {
            lemma_word_bound(a);
            if amt > w {
                lemma_pow2_strictly_increases(w, amt);
            }
            vstd::arithmetic::div_mod::lemma_basic_div(word(a) as int, pow2(amt) as int);
        }
    } else if left {
        lemma_word_shifted(a, r, amt);
    } else {
        lemma_word_split(a, amt as int);
        let high = a.skip(amt as int);
        assert(r.take(w - amt) =~= high);
        lemma_word_split(r, w - amt);
        let tail = r.skip(w - amt);
        assert forall|i: int| 0 <= i < tail.len() implies !#[trigger] tail[i] by {}
        lemma_word_zero(r.skip(w - amt));
        assert(pow2((w - amt) as nat) * 0 == 0);
        lemma_word_bound(a.take(amt as int));
        assert(pow2(amt) * word(high) == word(high) * pow2(amt)) by (nonlinear_arith);
        vstd::arithmetic::div_mod::lemma_fundamental_div_mod_converse(
            word(a) as int,
            pow2(amt) as int,
            word(high) as int,
            word(a.take(amt as int)) as int,
        );
    }
}

/// How far stage `k` moves a row of length `w`.
fn stage_amount(k: usize, w: usize) -> (n: usize)
    requires
        k < stages_for(w as nat) <= 32,
    ensures
        n == pow2(k as nat),
{
    proof {
        lemma2_to64();
        lemma_stages(w as nat);
        if k > 0 {
            if k < stages_for(w as nat) - 1 {
                lemma_pow2_strictly_increases(k as nat, (stages_for(w as nat) - 1) as nat);
            }
        }
    }
    let mut n: usize = 1;
    for i in 0..k
        invariant
            n == pow2(i as nat),
            k > 0 ==> pow2(k as nat) < w,
    {
        proof {
            lemma_pow2_unfold((i + 1) as nat);
            if i + 1 < k {
                lemma_pow2_strictly_increases((i + 1) as nat, k as nat);
            }
        }
        n = n * 2;
    }
    n
}

/// Shift a row.
fn shift_row(net: &mut Netlist, a: &Vec<Sig>, s: &Vec<Sig>, left: bool) -> (r: Vec<Sig>)
    requires
        old(net).wf(),
        row_wf(a@, old(net).gates().len()),
        row_wf(s@, old(net).gates().len()),
        old(net).room(shift_bound(a@.len())),
    ensures
        old(net).only_grew(final(net)),
        r@.len() == a@.len(),
        row_wf(r@, final(net).gates().len()),
        forall|e: Env|
            #![trigger levels(final(net).gates(), e, r@)]
            shifted(
                levels(old(net).gates(), e, a@),
                word(levels(old(net).gates(), e, s@)),
                left,
                levels(final(net).gates(), e, r@),
            ),
        final(net).gates().len() <= old(net).gates().len() + shift_bound(a@.len()),
{
    let ghost g0 = net.gates();
    let w: usize = a.len();
    let stages: usize = count_stages(w);
    let ghost span = pow2(stages as nat);
    proof {
        lemma2_to64();
        lemma_stages(w as nat);
        lemma_grown_refl(g0);
    }
    let mut cur: Vec<Sig> = a.clone();
    assert(cur@ =~= a@);
    let zero: u32 = net.zero();
    let used: usize = if stages < s.len() {
        stages
    } else {
        s.len()
    };
    proof {
        assert forall|e: Env|
            #![trigger levels(g0, e, cur@)]
            shifted(
                levels(g0, e, a@),
                word(levels(g0, e, s@).take(0)),
                left,
                levels(g0, e, cur@),
            ) by {
            assert(levels(g0, e, s@).take(0).len() == 0);
        }
        lemma2_to64();
    }
    for k in 0..used
        invariant
            old(net).only_grew(net),
            w == a@.len(),
            used <= stages,
            1 <= stages <= 32,
            stages == stages_for(w as nat),
            w <= u32::MAX,
            used <= s@.len(),
            old(net).room(shift_bound(w as nat)),
            g0 == old(net).gates(),
            row_wf(a@, g0.len()),
            row_wf(s@, g0.len()),
            zero == 1,
            cur@.len() == w,
            row_wf(cur@, net.gates().len()),
            net.gates().len() <= g0.len() + 9 * (k * w),
            forall|e: Env|
                #![trigger levels(net.gates(), e, cur@)]
                shifted(
                    levels(g0, e, a@),
                    word(levels(g0, e, s@).take(k as int)),
                    left,
                    levels(net.gates(), e, cur@),
                ),
    {
        let ghost g1 = net.gates();
        let ghost cur1 = cur@;
        assert(s@[k as int] < g0.len());
        let amount: usize = stage_amount(k, w);
        let shifted_row = moved(&cur, zero, amount, left);
        proof {
            assert(row_wf(shifted_row@, g1.len()));
            assert(k * w + w == (k + 1) * w && (k + 1) * w <= stages * w) by (nonlinear_arith)
                requires
                    k + 1 <= stages,
            ;
        }
        let next = mux_row(net, s[k], &shifted_row, &cur);
        let ghost g2 = net.gates();
        proof {
            lemma_grown_trans(g0, g1, g2);
            assert forall|e: Env|
                #![trigger levels(g2, e, next@)]
                shifted(
                    levels(g0, e, a@),
                    word(levels(g0, e, s@).take(k + 1)),
                    left,
                    levels(g2, e, next@),
                ) by {
                let la = levels(g0, e, a@);
                let ls = levels(g0, e, s@);
                let lc = levels(g1, e, cur1);
                let lm = levels(g1, e, shifted_row@);
                lemma_word_take(ls, k as int);
                assert(sig_value(g1, e, s@[k as int]) == ls[k as int]);
                assert(shifted(la, word(ls.take(k as int)), left, lc));
                assert(!sig_value(g1, e, zero));
                assert(shifted(lc, amount as nat, left, lm)) by {
                    assert forall|i: int| 0 <= i < lm.len() implies #[trigger] lm[i] == if left {
                        i >= amount && lc[i - amount]
                    } else {
                        i + amount < lc.len() && lc[i + amount]
                    } by {
                        assert(lm[i] == sig_value(g1, e, shifted_row@[i]));
                    }
                }
                if ls[k as int] {
                    lemma_shift_twice(la, word(ls.take(k as int)), amount as nat, left, lc, lm);
                }
            }
        }
        cur = next;
    }
    proof {
        assert(used * w <= stages * w) by (nonlinear_arith)
            requires
                used <= stages,
        ;
    }
    // Any high bit of the shift amount means "shifted out entirely".
    if s.len() > stages {
        let ghost g1 = net.gates();
        let ghost cur1 = cur@;
        let mut rest: Vec<Sig> = Vec::new();
        for i in stages..s.len()
            invariant
                stages < s@.len(),
                rest@.len() == i - stages,
                forall|k: int| 0 <= k < rest@.len() ==> #[trigger] rest@[k] == s@[k + stages],
        {
            rest.push(s[i]);
        }
        proof {
            assert forall|k: int| 0 <= k < rest@.len() implies (#[trigger] rest@[k]) < g1.len() by {
                assert(s@[k + stages] < g0.len());
            }
        }
        let hi: u32 = net.or_all(rest.as_slice());
        let ghost g2 = net.gates();
        let keep: u32 = net.not(hi);
        let ghost g3 = net.gates();
        proof {
            lemma_grown_trans(g0, g1, g2);
            lemma_grown_trans(g0, g2, g3);
            lemma_grown_trans(g1, g2, g3);
        }
        let gates_row = fill(keep, w);
        let next = and_rows(net, &gates_row, &cur);
        let ghost g4 = net.gates();
        proof {
            lemma_grown_trans(g0, g3, g4);
            assert forall|e: Env|
                #![trigger levels(g4, e, next@)]
                shifted(levels(g0, e, a@), word(levels(g0, e, s@)), left, levels(g4, e, next@)) by {
                let la = levels(g0, e, a@);
                let ls = levels(g0, e, s@);
                let lc = levels(g1, e, cur1);
                let ln = levels(g4, e, next@);
                lemma_levels_kept(g1, g3, e, cur1);
                let low = word(ls.take(stages as int));
                assert(shifted(la, low, left, lc));
                lemma_word_split(ls, stages as int);
                let high = ls.skip(stages as int);
                assert(sig_value(g3, e, keep) == !any_high(g1, e, rest@));
                assert forall|i: int| 0 <= i < w implies #[trigger] ln[i] == (sig_value(
                    g3,
                    e,
                    keep,
                ) && lc[i]) by {
                    assert(levels(g3, e, gates_row@)[i] == sig_value(g3, e, keep));
                }
                if any_high(g1, e, rest@) {
                    let k = choose|k: int| 0 <= k < rest@.len() && sig_value(g1, e, #[trigger] rest@[k]);
                    assert(sig_value(g0, e, s@[k + stages]));
                    assert(high[k]);
                    lemma_word_nonzero(high, k);
                    assert(pow2(stages as nat) * word(high) >= span) by (nonlinear_arith)
                        requires
                            word(high) >= 1,
                            pow2(stages as nat) == span,
                    ;
                    assert(word(ls) >= w);
                } else {
                    assert forall|k: int| 0 <= k < high.len() implies !high[k] by {
                        assert(!sig_value(g1, e, rest@[k]));
                    }
                    lemma_word_zero(high);
                    assert(pow2(stages as nat) * 0 == 0);
                    assert(word(ls) == low);
                    assert(ln =~= lc);
                }
            }
        }
        return next;
    }
    proof {
        assert forall|e: Env|
            #![trigger levels(net.gates(), e, cur@)]
            shifted(
                levels(g0, e, a@),
                word(levels(g0, e, s@)),
                left,
                levels(net.gates(), e, cur@),
            ) by {
            assert(levels(g0, e, s@).take(used as int) =~= levels(g0, e, s@));
        }
    }
    cur
}

proof fn lemma_word_nonzero(s: Seq<bool>, k: int)
    requires
        0 <= k < s.len(),
        s[k],
    ensures
        word(s) >= 1,
    decreases s.len(),
{
    lemma_pow2_pos((s.len() - 1) as nat);
    if k < s.len() - 1 {
        lemma_word_nonzero(s.drop_last(), k);
    }
}

/// Pointwise AND of two rows of one length.
fn and_rows(net: &mut Netlist, a: &Vec<Sig>, b: &Vec<Sig>) -> (r: Vec<Sig>)
    requires
        old(net).wf(),
        row_wf(a@, old(net).gates().len()),
        row_wf(b@, old(net).gates().len()),
        a@.len() == b@.len(),
        old(net).room(3 * a@.len()),
    ensures
        old(net).only_grew(final(net)),
        r@.len() == a@.len(),
        row_wf(r@, final(net).gates().len()),
        forall|e: Env, k: int|
            0 <= k < a@.len() ==> #[trigger] levels(final(net).gates(), e, r@)[k] == (levels(
                old(net).gates(),
                e,
                a@,
            )[k] && levels(old(net).gates(), e, b@)[k]),
        final(net).gates().len() <= old(net).gates().len() + 3 * a@.len(),
{
    let ghost g0 = net.gates();
    let mut r: Vec<Sig> = Vec::new();
    proof {
        lemma_grown_refl(g0);
    }
    for i in 0..a.len()
        invariant
            old(net).only_grew(net),
            old(net).room(3 * a@.len()),
            g0 == old(net).gates(),
            row_wf(a@, g0.len()),
            row_wf(b@, g0.len()),
            a@.len() == b@.len(),
            r@.len() == i,
            row_wf(r@, net.gates().len()),
            net.gates().len() <= g0.len() + 3 * i,
            forall|e: Env, k: int|
                0 <= k < i ==> #[trigger] levels(net.gates(), e, r@)[k] == (sig_value(g0, e, a@[k])
                    && sig_value(g0, e, b@[k])),
    {
        let ghost g1 = net.gates();
        let ghost r1 = r@;
        assert(a@[i as int] < g0.len() && b@[i as int] < g0.len());
        let x: u32 = net.and(a[i], b[i]);
        r.push(x);
        proof {
            lemma_grown_trans(g0, g1, net.gates());
            assert forall|e: Env, k: int| 0 <= k < i + 1 implies #[trigger] levels(
                net.gates(),
                e,
                r@,
            )[k] == (sig_value(g0, e, a@[k]) && sig_value(g0, e, b@[k])) by {
                if k < i {
                    assert(levels(g1, e, r1)[k] == (sig_value(g0, e, a@[k]) && sig_value(
                        g0,
                        e,
                        b@[k],
                    )));
                    assert(r1[k] < g1.len());
                } else {
                    assert(sig_value(g1, e, a@[k]) == sig_value(g0, e, a@[k]));
                    assert(sig_value(g1, e, b@[k]) == sig_value(g0, e, b@[k]));
                }
            }
        }
    }
    r
}

} // verus!
