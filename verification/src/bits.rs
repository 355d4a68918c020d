//! Sequences of bits read as numbers, least significant bit first.

use vstd::prelude::*;
use vstd::arithmetic::power2::{pow2, lemma_pow2_pos, lemma_pow2_unfold, lemma_pow2_adds};
use vstd::arithmetic::div_mod::{
    lemma_fundamental_div_mod_converse,
    lemma_mod_breakdown,
    lemma_small_mod,
};
use crate::wire::{Residue, all_wf, all_modulo, any_set};

verus! {

/// Bit `i` of `x`.
pub open spec fn bit_of(x: nat, i: nat) -> nat {
    (x / pow2(i)) % 2
}

/// Every residue is a well-formed bit.
pub open spec fn is_bits(s: Seq<Residue>) -> bool {
    all_wf(s) && all_modulo(s, 2)
}

/// The number that the values spell, least significant first.
pub open spec fn bin_value(s: Seq<Residue>) -> nat
    decreases s.len(),
{
    if s.len() == 0 {
        0
    } else {
        bin_value(s.drop_last()) + s.last().value * pow2((s.len() - 1) as nat)
    }
}

/// The number read as a two's-complement number of `n` bits.
pub open spec fn signed_value(n: nat, x: nat) -> int {
    if n == 0 || x < pow2((n - 1) as nat) {
        x as int
    } else {
        x - pow2(n)
    }
}

/// The two's complement of `x` at width `n`.
pub open spec fn twos_complement_value(n: nat, x: nat) -> nat {
    ((pow2(n) - x) % (pow2(n) as int)) as nat
}

/// The absolute value of `x` read as a two's-complement number of `n` bits;
/// the most negative number is its own absolute value.
pub open spec fn abs_value(n: nat, x: nat) -> nat {
    if n == 0 || x < pow2((n - 1) as nat) {
        x
    } else {
        twos_complement_value(n, x)
    }
}

/// One more bit at the top adds the bit at its weight.
pub proof fn lemma_bin_value_push(s: Seq<Residue>, r: Residue)
    ensures
        bin_value(s.push(r)) == bin_value(s) + r.value * pow2(s.len()),
{
    assert(s.push(r).drop_last() =~= s);
}

/// Taking one more bit adds the bit at its weight.
pub proof fn lemma_bin_value_take(s: Seq<Residue>, i: int)
    requires
        0 <= i < s.len(),
    ensures
        bin_value(s.take(i + 1)) == bin_value(s.take(i)) + s[i].value * pow2(i as nat),
{
    assert(s.take(i + 1).drop_last() =~= s.take(i));
}

/// Each place of a sequence of bits holds a bit.
pub proof fn lemma_is_bits_value(s: Seq<Residue>, i: int)
    requires
        is_bits(s),
        0 <= i < s.len(),
    ensures
        s[i].value < 2,
        s[i].modulus == 2,
        s[i].wf(),
{
    assert(s[i].wf());
    assert(s[i].modulus == 2);
}

/// A part of a sequence of bits is a sequence of bits.
pub proof fn lemma_is_bits_sub(s: Seq<Residue>, a: int, b: int)
    requires
        is_bits(s),
        0 <= a <= b <= s.len(),
    ensures
        is_bits(s.subrange(a, b)),
{
    let t = s.subrange(a, b);
    assert forall|i: int| 0 <= i < t.len() implies (#[trigger] t[i]).wf() && t[i].modulus
        == 2 by {
        lemma_is_bits_value(s, a + i);
    }
}

/// A number of `n` bits lies below `2^n`.
pub proof fn lemma_bin_value_bound(s: Seq<Residue>)
    requires
        is_bits(s),
    ensures
        bin_value(s) < pow2(s.len()),
    decreases s.len(),
{
    if s.len() == 0 {
        lemma_pow2_pos(0);
    } else {
        let n = (s.len() - 1) as nat;
        lemma_is_bits_sub(s, 0, n as int);
        assert(s.drop_last() =~= s.subrange(0, n as int));
        lemma_bin_value_bound(s.drop_last());
        lemma_is_bits_value(s, n as int);
        lemma_pow2_unfold(s.len());
        let b = s.last().value;
        let p = pow2(n);
        assert(b * p <= p) by (nonlinear_arith)
            requires
                b < 2,
                p >= 0,
        ;
    }
}

/// Reading two sequences one after the other.
pub proof fn lemma_bin_value_concat(a: Seq<Residue>, b: Seq<Residue>)
    ensures
        bin_value(a + b) == bin_value(a) + pow2(a.len()) * bin_value(b),
    decreases b.len(),
{
    if b.len() == 0 {
        assert(a + b =~= a);
        assert(pow2(a.len()) * 0 == 0);
    } else {
        let b0 = b.drop_last();
        assert((a + b).drop_last() =~= a + b0);
        lemma_bin_value_concat(a, b0);
        lemma_pow2_adds(a.len(), b0.len());
        let pa = pow2(a.len()) as int;
        let pb = pow2(b0.len()) as int;
        let v = b.last().value as int;
        let r = bin_value(b0) as int;
        assert(pa * (r + v * pb) == pa * r + v * (pa * pb)) by (nonlinear_arith);
        assert((a + b).last() == b.last());
        assert(((a + b).len() - 1) as nat == a.len() + b0.len());
    }
}

/// Zeros spell zero.
pub proof fn lemma_bin_value_zeros(s: Seq<Residue>)
    requires
        forall|i: int| 0 <= i < s.len() ==> (#[trigger] s[i]).value == 0,
    ensures
        bin_value(s) == 0,
    decreases s.len(),
{
    if s.len() > 0 {
        lemma_bin_value_zeros(s.drop_last());
        assert(s.last().value == 0);
        assert(0 * pow2((s.len() - 1) as nat) == 0);
    }
}

/// The number depends on the values alone.
pub proof fn lemma_bin_value_ext(s: Seq<Residue>, t: Seq<Residue>)
    requires
        s.len() == t.len(),
        forall|i: int| 0 <= i < s.len() ==> (#[trigger] s[i]).value == t[i].value,
    ensures
        bin_value(s) == bin_value(t),
    decreases s.len(),
{
    if s.len() > 0 {
        lemma_bin_value_ext(s.drop_last(), t.drop_last());
        assert(s.last().value == t.last().value);
    }
}

/// The low `m` bits are the remainder by `2^m`, the others the quotient.
pub proof fn lemma_bin_value_split(s: Seq<Residue>, m: int)
    requires
        is_bits(s),
        0 <= m <= s.len(),
    ensures
        bin_value(s.take(m)) == bin_value(s) % pow2(m as nat),
        bin_value(s.skip(m)) == bin_value(s) / pow2(m as nat),
{
    assert(s.take(m) + s.skip(m) =~= s);
    lemma_bin_value_concat(s.take(m), s.skip(m));
    lemma_is_bits_sub(s, 0, m);
    lemma_bin_value_bound(s.take(m));
    lemma_pow2_pos(m as nat);
    let p = pow2(m as nat) as int;
    let lo = bin_value(s.take(m)) as int;
    let hi = bin_value(s.skip(m)) as int;
    assert(p * hi == hi * p) by (nonlinear_arith);
    lemma_fundamental_div_mod_converse(bin_value(s) as int, p, hi, lo);
}

/// The bits of `x`, as many as there are, spell `x` modulo `2^n`.
pub proof fn lemma_bin_value_of_bits(s: Seq<Residue>, x: nat)
    requires
        forall|i: int| 0 <= i < s.len() ==> (#[trigger] s[i]).value == bit_of(x, i as nat),
    ensures
        bin_value(s) == x % pow2(s.len()),
    decreases s.len(),
{
    if s.len() == 0 {
        assert(pow2(0) == 1) by {
            vstd::arithmetic::power2::lemma2_to64();
        }
    } else {
        let n = (s.len() - 1) as nat;
        let t = s.drop_last();
        assert forall|i: int| 0 <= i < t.len() implies (#[trigger] t[i]).value == bit_of(
            x,
            i as nat,
        ) by {
            assert(t[i] == s[i]);
        }
        lemma_bin_value_of_bits(t, x);
        lemma_pow2_pos(n);
        lemma_pow2_unfold(s.len());
        lemma_mod_breakdown(x as int, pow2(n) as int, 2);
        assert(s.last().value == bit_of(x, n));
        let p = pow2(n) as int;
        let b = bit_of(x, n) as int;
        assert(p * b == b * p) by (nonlinear_arith);
        assert(p * 2 == 2 * p);
    }
}

/// Every bit of a number is the bit that the number has at that place.
pub proof fn lemma_bits_of_bin_value(s: Seq<Residue>, j: int)
    requires
        is_bits(s),
        0 <= j < s.len(),
    ensures
        s[j].value == bit_of(bin_value(s), j as nat),
{
    let hi = s.skip(j);
    lemma_bin_value_split(s, j);
    lemma_is_bits_sub(s, j, s.len() as int);
    assert(hi =~= s.subrange(j, s.len() as int));
    lemma_bin_value_split(hi, 1);
    let one = hi.take(1);
    assert(one.drop_last() =~= Seq::<Residue>::empty());
    assert(one.last() == s[j]);
    assert(bin_value(one.drop_last()) == 0);
    assert(pow2(0) == 1 && pow2(1) == 2) by {
        vstd::arithmetic::power2::lemma2_to64();
    }
    assert(s[j].value * pow2(0) == s[j].value);
    lemma_is_bits_value(s, j);
}

/// Two numbers of one width are equal exactly where their bits are.
pub proof fn lemma_bin_value_injective(s: Seq<Residue>, t: Seq<Residue>)
    requires
        is_bits(s),
        is_bits(t),
        s.len() == t.len(),
    ensures
        bin_value(s) == bin_value(t) <==> forall|i: int|
            0 <= i < s.len() ==> (#[trigger] s[i]).value == t[i].value,
{
    if bin_value(s) == bin_value(t) {
        assert forall|i: int| 0 <= i < s.len() implies (#[trigger] s[i]).value == t[i].value by {
            lemma_bits_of_bin_value(s, i);
            lemma_bits_of_bin_value(t, i);
        }
    }
    if forall|i: int| 0 <= i < s.len() ==> (#[trigger] s[i]).value == t[i].value {
        lemma_bin_value_ext(s, t);
    }
}

/// A number is zero exactly where no bit is set.
pub proof fn lemma_bin_value_zero_iff(s: Seq<Residue>)
    ensures
        bin_value(s) == 0 <==> !any_set(s),
    decreases s.len(),
{
    if s.len() == 0 {
    } else {
        let t = s.drop_last();
        let n = (s.len() - 1) as nat;
        lemma_bin_value_zero_iff(t);
        lemma_pow2_pos(n);
        let p = pow2(n);
        let b = s.last().value;
        if any_set(t) {
            let j = choose|j: int| 0 <= j < t.len() && (#[trigger] t[j]).value != 0;
            assert(s[j].value != 0);
        }
        if any_set(s) {
            let j = choose|j: int| 0 <= j < s.len() && (#[trigger] s[j]).value != 0;
            if j < n {
                assert(t[j].value != 0);
            }
        }
        if b != 0 {
            assert(s[n as int].value != 0);
            assert(b * p > 0) by (nonlinear_arith)
                requires
                    b > 0,
                    p > 0,
            ;
        } else {
            assert(b * p == 0) by (nonlinear_arith)
                requires
                    b == 0,
            ;
        }
    }
}

/// Complementing every bit of an `n`-bit number `x` gives `2^n - 1 - x`.
pub proof fn lemma_bin_value_complement(s: Seq<Residue>, t: Seq<Residue>)
    requires
        s.len() == t.len(),
        forall|i: int| 0 <= i < s.len() ==> (#[trigger] t[i]).value == 1 - s[i].value,
    ensures
        bin_value(t) == pow2(s.len()) - 1 - bin_value(s),
    decreases s.len(),
{
    if s.len() == 0 {
        assert(pow2(0) == 1) by {
            vstd::arithmetic::power2::lemma2_to64();
        }
    } else {
        let n = (s.len() - 1) as nat;
        let s0 = s.drop_last();
        let t0 = t.drop_last();
        assert forall|i: int| 0 <= i < s0.len() implies (#[trigger] t0[i]).value == 1
            - s0[i].value by {
            assert(t0[i] == t[i]);
            assert(s0[i] == s[i]);
        }
        lemma_bin_value_complement(s0, t0);
        lemma_pow2_unfold(s.len());
        let p = pow2(n) as int;
        let a = s.last().value as int;
        let b = t.last().value as int;
        assert(t[n as int].value == 1 - s[n as int].value);
        assert(b * p == p - a * p) by (nonlinear_arith)
            requires
                b == 1 - a,
        ;
    }
}

/// Multiplying every bit by the bit `b` multiplies the number by `b`.
pub proof fn lemma_bin_value_scale(s: Seq<Residue>, t: Seq<Residue>, b: nat)
    requires
        s.len() == t.len(),
        forall|i: int| 0 <= i < s.len() ==> (#[trigger] t[i]).value == s[i].value * b,
    ensures
        bin_value(t) == bin_value(s) * b,
    decreases s.len(),
{
    if s.len() == 0 {
        assert(0 * b == 0);
    } else {
        let n = (s.len() - 1) as nat;
        let s0 = s.drop_last();
        let t0 = t.drop_last();
        assert forall|i: int| 0 <= i < s0.len() implies (#[trigger] t0[i]).value == s0[i].value
            * b by {
            assert(t0[i] == t[i]);
            assert(s0[i] == s[i]);
        }
        lemma_bin_value_scale(s0, t0, b);
        let p = pow2(n) as int;
        let v = s.last().value as int;
        let r = bin_value(s0) as int;
        assert(t[n as int].value == s[n as int].value * b);
        assert((v * b) * p + r * b == (r + v * p) * b) by (nonlinear_arith);
    }
}

/// The top bit is set exactly where the number reaches half the range.
pub proof fn lemma_top_bit(s: Seq<Residue>)
    requires
        is_bits(s),
        s.len() > 0,
    ensures
        s.last().value == 1 <==> bin_value(s) >= pow2((s.len() - 1) as nat),
{
    let n = (s.len() - 1) as nat;
    lemma_is_bits_sub(s, 0, n as int);
    assert(s.drop_last() =~= s.subrange(0, n as int));
    lemma_bin_value_bound(s.drop_last());
    lemma_is_bits_value(s, n as int);
    let p = pow2(n) as int;
    let b = s.last().value as int;
    if b == 0 {
        assert(b * p == 0) by (nonlinear_arith)
            requires
                b == 0,
        ;
    } else {
        assert(b * p == p) by (nonlinear_arith)
            requires
                b == 1,
        ;
    }
}

/// Taking the two's complement twice, or of a number and then its absolute
/// value, changes nothing: a number and its negative have one absolute value.
pub proof fn lemma_abs_of_twos_complement(n: nat, x: nat)
    requires
        x < pow2(n),
    ensures
        abs_value(n, twos_complement_value(n, x)) == abs_value(n, x),
{
    let big = pow2(n) as int;
    lemma_pow2_pos(n);
    if n == 0 {
        assert(pow2(0) == 1) by {
            vstd::arithmetic::power2::lemma2_to64();
        }
    } else {
        lemma_pow2_unfold(n);
        let half = pow2((n - 1) as nat) as int;
        if x == 0 {
            vstd::arithmetic::div_mod::lemma_mod_self_0(big);
            lemma_small_mod(0, big as nat);
        } else {
            lemma_small_mod((big - x) as nat, big as nat);
            let y = (big - x) as nat;
            assert(twos_complement_value(n, x) == y);
            lemma_small_mod(x, big as nat);
            assert(twos_complement_value(n, y) == x);
        }
    }
}

/// Numbers of one sign compare as two's-complement numbers the way they
/// compare as plain numbers.
pub proof fn lemma_signed_order(n: nat, x: nat, y: nat)
    requires
        n > 0,
        x < pow2(n),
        y < pow2(n),
        (x < pow2((n - 1) as nat)) == (y < pow2((n - 1) as nat)),
    ensures
        x < y <==> signed_value(n, x) < signed_value(n, y),
{
}

} // verus!
