//! Words as bits: what bit `i` of a `u64` is, and which number a row of bits,
//! least significant first, stands for.
use vstd::arithmetic::div_mod::{
    lemma_fundamental_div_mod, lemma_fundamental_div_mod_converse, lemma_mod_mod,
};
use vstd::arithmetic::power2::{
    lemma2_to64, lemma2_to64_rest, lemma_pow2_adds, lemma_pow2_pos, lemma_pow2_strictly_increases,
    lemma_pow2_unfold, pow2,
};
use vstd::bits::{lemma_u64_low_bits_mask_is_mod, lemma_u64_shr_is_div, low_bits_mask};
use vstd::prelude::*;

verus! {

/// Bit `i` of `v`, least significant first; nothing is set from bit 64 up.
pub open spec fn bit(v: u64, i: int) -> bool {
    0 <= i < 64 && (v >> (i as u64)) & 1u64 == 1u64
}

/// The low `width` bits of `v`.
pub open spec fn mask_of(v: u64, width: u32) -> u64 {
    if width >= 64 {
        v
    } else {
        v & (((1u64 << (width as u64)) - 1) as u64)
    }
}

/// Does `v` fit in `width` bits?
pub open spec fn fits(v: u64, width: u32) -> bool {
    mask_of(v, width) == v
}

/// The number that a row of bits stands for, least significant bit first.
pub open spec fn word(s: Seq<bool>) -> nat
    decreases s.len(),
{
    if s.len() == 0 {
        0
    } else {
        word(s.drop_last()) + if s.last() {
            pow2((s.len() - 1) as nat)
        } else {
            0
        }
    }
}

/// The low `w` bits of `v`, least significant first.
pub open spec fn bits_of(v: u64, w: nat) -> Seq<bool> {
    Seq::new(w, |i: int| bit(v, i))
}

/// A row of bits stands for a number below two to its length.
pub proof fn lemma_word_bound(s: Seq<bool>)
    ensures
        word(s) < pow2(s.len()),
    decreases s.len(),
{
    lemma2_to64();
    if s.len() > 0 {
        lemma_word_bound(s.drop_last());
        lemma_pow2_unfold(s.len());
    }
}

/// Rows of equal length that stand for the same number are the same row.
pub proof fn lemma_word_injective(a: Seq<bool>, b: Seq<bool>)
    requires
        a.len() == b.len(),
        word(a) == word(b),
    ensures
        a == b,
    decreases a.len(),
{
    if a.len() > 0 {
        lemma_word_bound(a.drop_last());
        lemma_word_bound(b.drop_last());
        lemma_word_injective(a.drop_last(), b.drop_last());
        assert(a =~= a.drop_last().push(a.last()));
        assert(b =~= b.drop_last().push(b.last()));
    } else {
        assert(a =~= b);
    }
}

/// One more bit on top adds its weight.
pub proof fn lemma_word_push(s: Seq<bool>, b: bool)
    ensures
        word(s.push(b)) == word(s) + if b {
            pow2(s.len())
        } else {
            0
        },
{
    assert(s.push(b).drop_last() =~= s);
}

proof fn lemma_bit_is_div(v: u64, i: int)
    requires
        0 <= i < 64,
    ensures
        bit(v, i) <==> (v as nat / pow2(i as nat)) % 2 == 1,
{
    lemma_u64_shr_is_div(v, i as u64);
    let q = v >> (i as u64);
    assert(q & 1u64 == q % 2u64) by (bit_vector);
}

/// The low `w` bits of `v` stand for the remainder of `v` by two to the `w`.
pub proof fn lemma_word_bits_of(v: u64, w: nat)
    requires
        w <= 64,
    ensures
        word(bits_of(v, w)) == v as nat % pow2(w),
    decreases w,
{
    lemma2_to64();
    if w > 0 {
        let k = (w - 1) as nat;
        lemma_word_bits_of(v, k);
        assert(bits_of(v, w).drop_last() =~= bits_of(v, k));
        lemma_bit_is_div(v, k as int);
        lemma_pow2_pos(k);
        lemma_pow2_unfold(w);
        let p = pow2(k) as int;
        let n = v as int;
        lemma_fundamental_div_mod(n, p);
        lemma_fundamental_div_mod(n / p, 2);
        let q = n / p;
        let r = q % 2;
        assert(n == p * q + n % p);
        assert(q == 2 * (q / 2) + r);
        assert(n == (2 * p) * (q / 2) + (r * p + n % p)) by (nonlinear_arith)
            requires
                n == p * q + n % p,
                q == 2 * (q / 2) + r,
        ;
        assert(0 <= r * p + n % p < 2 * p) by (nonlinear_arith)
            requires
                0 <= r <= 1,
                0 <= n % p < p,
        ;
        lemma_fundamental_div_mod_converse(n, 2 * p, q / 2, r * p + n % p);
        assert(r == 1 ==> r * p == p) by (nonlinear_arith);
        assert(r == 0 ==> r * p == 0) by (nonlinear_arith);
    } else {
        assert(v as nat % 1 == 0);
    }
}

pub proof fn lemma_mask_is_mod(v: u64, width: u32)
    requires
        width <= 64,
    ensures
        mask_of(v, width) as nat == v as nat % pow2(width as nat),
{
    if width == 64 {
        lemma2_to64_rest();
        assert(pow2(64) == 0x10000000000000000);
    } else {
        lemma_u64_low_bits_mask_is_mod(v, width as nat);
        lemma_low_mask(width);
        lemma2_to64_rest();
        lemma_pow2_strictly_increases(width as nat, 64);
        lemma_pow2_pos(width as nat);
    }
}

proof fn lemma_low_mask(width: u32)
    requires
        width < 64,
    ensures
        low_bits_mask(width as nat) == ((1u64 << (width as u64)) - 1) as u64,
{
    lemma2_to64_rest();
    lemma_pow2_strictly_increases(width as nat, 64);
    lemma_pow2_pos(width as nat);
    assert(1u64 * pow2(width as nat) == pow2(width as nat));
    vstd::bits::lemma_u64_shl_is_mul(1u64, width as u64);
}

/// What fits in `width` bits is below two to the `width`, and the other way round.
pub proof fn lemma_fits_bound(v: u64, width: u32)
    requires
        width <= 64,
    ensures
        fits(v, width) <==> (v as nat) < pow2(width as nat),
{
    lemma_mask_is_mod(v, width);
    lemma_pow2_pos(width as nat);
    if (v as nat) < pow2(width as nat) {
        vstd::arithmetic::div_mod::lemma_small_mod(v as nat, pow2(width as nat));
    }
}

/// A word that fits is the number its bits stand for.
pub proof fn lemma_word_of_fitting(v: u64, width: u32)
    requires
        width <= 64,
        fits(v, width),
    ensures
        word(bits_of(v, width as nat)) == v as nat,
{
    lemma_word_bits_of(v, width as nat);
    lemma_mask_is_mod(v, width);
}

/// Two fitting words with the same bits are the same word.
pub proof fn lemma_same_bits(a: u64, b: u64, width: u32)
    requires
        width <= 64,
        fits(a, width),
        fits(b, width),
        forall|i: int| 0 <= i < width ==> bit(a, i) == bit(b, i),
    ensures
        a == b,
{
    lemma_word_of_fitting(a, width);
    lemma_word_of_fitting(b, width);
    assert(bits_of(a, width as nat) =~= bits_of(b, width as nat));
}

/// A fitting word has the bits of any row that stands for it.
pub proof fn lemma_bits_from_word(s: Seq<bool>, v: u64)
    requires
        s.len() <= 64,
        word(s) == v as nat % pow2(s.len()),
    ensures
        forall|i: int| 0 <= i < s.len() ==> #[trigger] s[i] == bit(v, i),
{
    lemma_word_bits_of(v, s.len());
    lemma_word_injective(s, bits_of(v, s.len()));
}

pub proof fn lemma_mask_bit(v: u64, width: u32, i: int)
    requires
        width <= 64,
    ensures
        bit(mask_of(v, width), i) == (i < width && bit(v, i)),
{
    if 0 <= i < 64 && width < 64 {
        let k = i as u64;
        let w = width as u64;
        assert(((v & (((1u64 << w) - 1) as u64)) >> k) & 1u64 == (if k < w {
            (v >> k) & 1u64
        } else {
            0u64
        })) by (bit_vector)
            requires
                k < 64u64,
                w < 64u64,
        ;
    }
}

pub proof fn lemma_mask_idempotent(v: u64, width: u32)
    ensures
        mask_of(mask_of(v, width), width) == mask_of(v, width),
        fits(mask_of(v, width), width),
{
    if width < 64 {
        let m = ((1u64 << (width as u64)) - 1) as u64;
        assert((v & m) & m == v & m) by (bit_vector);
    }
}

/// A fitting word has no bit set from `width` up.
pub proof fn lemma_fits_high_bit(v: u64, width: u32, i: int)
    requires
        width <= 64,
        fits(v, width),
        i >= width,
    ensures
        !bit(v, i),
{
    lemma_mask_bit(v, width, i);
}

pub proof fn lemma_bit_logic(a: u64, b: u64, i: int)
    ensures
        bit(a & b, i) == (bit(a, i) && bit(b, i)),
        bit(a | b, i) == (bit(a, i) || bit(b, i)),
        bit(a ^ b, i) == (bit(a, i) != bit(b, i)),
        0 <= i < 64 ==> bit(!a, i) == !bit(a, i),
{
    if 0 <= i < 64 {
        let k = i as u64;
        assert(((a & b) >> k) & 1u64 == ((a >> k) & 1u64) & ((b >> k) & 1u64)) by (bit_vector)
            requires
                k < 64u64,
        ;
        assert(((a | b) >> k) & 1u64 == ((a >> k) & 1u64) | ((b >> k) & 1u64)) by (bit_vector)
            requires
                k < 64u64,
        ;
        assert(((a ^ b) >> k) & 1u64 == ((a >> k) & 1u64) ^ ((b >> k) & 1u64)) by (bit_vector)
            requires
                k < 64u64,
        ;
        assert(((!a) >> k) & 1u64 == 1u64 - ((a >> k) & 1u64)) by (bit_vector)
            requires
                k < 64u64,
        ;
        let x = (a >> k) & 1u64;
        let y = (b >> k) & 1u64;
        assert((x == 0u64 || x == 1u64) && (y == 0u64 || y == 1u64)) by (bit_vector)
            requires
                x == (a >> k) & 1u64,
                y == (b >> k) & 1u64,
        ;
        assert(0u64 & 0u64 == 0u64 && 0u64 & 1u64 == 0u64 && 1u64 & 0u64 == 0u64 && 1u64 & 1u64
            == 1u64 && 0u64 | 0u64 == 0u64 && 0u64 | 1u64 == 1u64 && 1u64 | 0u64 == 1u64 && 1u64
            | 1u64 == 1u64 && 0u64 ^ 0u64 == 0u64 && 0u64 ^ 1u64 == 1u64 && 1u64 ^ 0u64 == 1u64
            && 1u64 ^ 1u64 == 0u64) by (bit_vector);
    }
}

/// Logic on fitting words gives fitting words.
pub proof fn lemma_fits_logic(a: u64, b: u64, width: u32)
    requires
        fits(a, width),
        fits(b, width),
    ensures
        fits(a & b, width),
        fits(a | b, width),
        fits(a ^ b, width),
{
    if width < 64 {
        let m = ((1u64 << (width as u64)) - 1) as u64;
        assert(a & m == a && b & m == b ==> (a & b) & m == a & b && (a | b) & m == a | b && (a ^ b)
            & m == a ^ b) by (bit_vector);
    }
}

/// Bit `i` of a left shift by `s` is bit `i - s` of the word.
pub proof fn lemma_shl_bit(v: u64, s: u64, i: int)
    requires
        s < 64,
        0 <= i < 64,
    ensures
        bit(v << s, i) == (i >= s && bit(v, i - s)),
{
    let k = i as u64;
    if k >= s {
        let d = (k - s) as u64;
        assert(((v << s) >> k) & 1u64 == (v >> d) & 1u64) by (bit_vector)
            requires
                s < 64u64,
                k < 64u64,
                k >= s,
                d == k - s,
        ;
    } else {
        assert(((v << s) >> k) & 1u64 == 0u64) by (bit_vector)
            requires
                s < 64u64,
                k < s,
        ;
    }
}

/// Bit `i` of a right shift by `s` is bit `i + s` of the word.
pub proof fn lemma_shr_bit(v: u64, s: u64, i: int)
    requires
        s < 64,
        0 <= i < 64,
    ensures
        bit(v >> s, i) == bit(v, i + s),
{
    let k = i as u64;
    let d = (k + s) as u64;
    if d < 64 {
        assert(((v >> s) >> k) & 1u64 == (v >> d) & 1u64) by (bit_vector)
            requires
                s < 64u64,
                k < 64u64,
                d == k + s,
                d < 64u64,
        ;
    } else {
        assert(((v >> s) >> k) & 1u64 == 0u64) by (bit_vector)
            requires
                s < 64u64,
                k < 64u64,
                d == k + s,
                d >= 64u64,
        ;
    }
}

pub proof fn lemma_shr_fits(v: u64, s: u64, width: u32)
    requires
        s < 64,
        width <= 64,
        fits(v, width),
    ensures
        fits(v >> s, width),
{
    if width < 64 {
        let m = ((1u64 << (width as u64)) - 1) as u64;
        let w = width as u64;
        assert((v >> s) & m == v >> s) by (bit_vector)
            requires
                v & m == v,
                m == ((1u64 << w) - 1) as u64,
                w < 64u64,
                s < 64u64,
        ;
    }
}

/// One bit as a word.
pub open spec fn flag(b: bool) -> u64 {
    if b {
        1
    } else {
        0
    }
}

pub proof fn lemma_flag(b: bool)
    ensures
        bit(flag(b), 0) == b,
        forall|w: u32| 1 <= w ==> fits(flag(b), w),
        forall|i: int| 1 <= i ==> !bit(flag(b), i),
{
    assert((0u64 >> 0u64) & 1u64 == 0u64 && (1u64 >> 0u64) & 1u64 == 1u64) by (bit_vector);
    assert forall|w: u32| 1 <= w implies fits(flag(b), w) by {
        if w < 64 {
            let k = w as u64;
            assert(0u64 & (((1u64 << k) - 1) as u64) == 0u64 && 1u64 & (((1u64 << k) - 1) as u64)
                == 1u64) by (bit_vector)
                requires
                    1u64 <= k < 64u64,
            ;
        }
    }
    assert forall|i: int| 1 <= i implies !bit(flag(b), i) by {
        if i < 64 {
            let k = i as u64;
            assert((0u64 >> k) & 1u64 == 0u64 && (1u64 >> k) & 1u64 == 0u64) by (bit_vector)
                requires
                    1u64 <= k < 64u64,
            ;
        }
    }
}

/// Masking leaves zero and one alone.
pub proof fn lemma_small(w: u32)
    ensures
        mask_of(0, w) == 0,
        fits(0, w),
        1 <= w ==> mask_of(1, w) == 1 && fits(1, w),
{
    if w < 64 {
        let m = ((1u64 << (w as u64)) - 1) as u64;
        assert(0u64 & m == 0u64) by (bit_vector);
    }
    lemma_flag(true);
    if 1 <= w {
        assert(fits(flag(true), w));
    }
}

/// A word that fits in one bit is zero or one.
pub proof fn lemma_one_bit(v: u64)
    requires
        fits(v, 1),
    ensures
        v == flag(bit(v, 0)),
        bit(v, 0) == (v & 1u64 == 1u64),
{
    assert(v & (((1u64 << 1u64) - 1) as u64) == v ==> (v == 0u64 || v == 1u64) && (v >> 0u64)
        & 1u64 == v) by (bit_vector);
    assert(v >> 0u64 == v) by (bit_vector);
}

/// The lowest bit, as the machine tests it.
pub proof fn lemma_low_bit(v: u64)
    ensures
        bit(v, 0) == (v & 1u64 == 1u64),
{
    assert(v >> 0u64 == v) by (bit_vector);
}

/// No bit set means zero.
pub proof fn lemma_zero_bits(v: u64, width: u32)
    requires
        width <= 64,
        fits(v, width),
    ensures
        (v == 0) <==> (forall|i: int| 0 <= i < width ==> !bit(v, i)),
        forall|i: int| !bit(0u64, i),
        fits(0u64, width),
{
    assert forall|i: int| !bit(0u64, i) by {
        if 0 <= i < 64 {
            let k = i as u64;
            assert((0u64 >> k) & 1u64 == 0u64) by (bit_vector)
                requires
                    k < 64u64,
            ;
        }
    }
    if width < 64 {
        let m = ((1u64 << (width as u64)) - 1) as u64;
        assert(0u64 & m == 0u64) by (bit_vector);
    }
    if forall|i: int| 0 <= i < width ==> !bit(v, i) {
        lemma_same_bits(v, 0u64, width);
    }
}

/// Every bit below 64 is set in the word of all ones.
pub proof fn lemma_all_ones(i: int)
    requires
        0 <= i < 64,
    ensures
        bit(u64::MAX, i),
{
    let k = i as u64;
    assert((0xffff_ffff_ffff_ffffu64 >> k) & 1u64 == 1u64) by (bit_vector)
        requires
            k < 64u64,
    ;
}

/// Masking a number taken modulo two to the 64 masks the number itself.
pub proof fn lemma_mask_of_wrapped(n: nat, v: u64, width: u32)
    requires
        width <= 64,
        v as nat == n % 0x1_0000_0000_0000_0000,
    ensures
        mask_of(v, width) as nat == n % pow2(width as nat),
{
    lemma_mask_is_mod(v, width);
    lemma2_to64_rest();
    lemma_pow2_pos(width as nat);
    let p = pow2(width as nat) as int;
    lemma_pow2_pos((64 - width) as nat);
    let q = pow2((64 - width) as nat) as int;
    lemma_pow2_adds(width as nat, (64 - width) as nat);
    assert(p * q == 0x1_0000_0000_0000_0000);
    lemma_mod_mod(n as int, p, q);
}

} // verus!
