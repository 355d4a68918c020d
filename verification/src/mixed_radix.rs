//! Numbers written digit by digit, each digit with a radix of its own, the
//! least significant digit first.

use vstd::prelude::*;
use vstd::arithmetic::div_mod::{
    lemma_mod_breakdown,
    lemma_fundamental_div_mod,
    lemma_fundamental_div_mod_converse,
    lemma_div_denominator,
    lemma_div_is_ordered,
};
use crate::wire::{Residue, all_wf, same_moduli, moduli_of, sum_values};
use crate::number_theory::{product, lemma_product_take, lemma_product_positive};

verus! {

/// The weight of digit `i`: the product of the radices below it.
pub open spec fn weight(ms: Seq<nat>, i: int) -> nat {
    product(ms.take(i))
}

/// The number that the digits spell, each digit's radix being its modulus.
pub open spec fn mixed_radix_value(s: Seq<Residue>) -> nat
    decreases s.len(),
{
    if s.len() == 0 {
        0
    } else {
        mixed_radix_value(s.drop_last()) + s.last().value * weight(moduli_of(s), s.len() - 1)
    }
}

/// The sum, over the numbers of the list, of what the low `i` digits of
/// each spell.
pub open spec fn total_value(xs: Seq<Seq<Residue>>, i: int) -> nat
    decreases xs.len(),
{
    if xs.len() == 0 {
        0
    } else {
        total_value(xs.drop_last(), i) + mixed_radix_value(xs.last().take(i))
    }
}

/// Digit `i` of each number of the list.
pub open spec fn column(xs: Seq<Seq<Residue>>, i: int) -> Seq<Residue> {
    Seq::new(xs.len(), |k: int| xs[k][i])
}

/// The numbers are written with the same radices as the first.
pub open spec fn same_radices(xs: Seq<Seq<Residue>>) -> bool {
    forall|k: int| 0 <= k < xs.len() ==> same_moduli(#[trigger] xs[k], xs[0])
}

/// The largest carry that can come into digit `i` when `nargs` numbers with
/// the radices `ms` are added.
pub open spec fn max_carry(ms: Seq<nat>, nargs: nat, i: int) -> nat
    decreases i,
{
    if i <= 0 {
        0
    } else {
        ((nargs * (ms[i - 1] - 1) + max_carry(ms, nargs, i - 1)) / (ms[i - 1] as int)) as nat
    }
}

/// The largest value that the sum of the digits `i` and the carry into them
/// can take.
pub open spec fn max_digit_sum(ms: Seq<nat>, nargs: nat, i: int) -> nat {
    (nargs * (ms[i] - 1) + max_carry(ms, nargs, i)) as nat
}

/// Every sum of digits and carry, but the last, fits a wire: it stays below
/// the largest modulus.
pub open spec fn radices_fit(ms: Seq<nat>, nargs: nat) -> bool {
    forall|i: int| 0 <= i < ms.len() - 1 ==> #[trigger] max_digit_sum(ms, nargs, i) < u16::MAX
}

/// Numbers that the digit-wise addition can add: at least one, of at least
/// one digit, all with the same radices, and such that every intermediate
/// sum fits a wire.
pub open spec fn mixed_radix_ok(xs: Seq<Seq<Residue>>) -> bool {
    &&& xs.len() >= 1
    &&& xs[0].len() >= 1
    &&& same_radices(xs)
    &&& radices_fit(moduli_of(xs[0]), xs.len())
}

/// The most significant digit of the sum of the numbers, the sum taken
/// modulo the product of the radices.
pub open spec fn msb_of_sum(xs: Seq<Seq<Residue>>) -> nat {
    let ms = moduli_of(xs[0]);
    let n = ms.len() as int;
    (total_value(xs, n) / weight(ms, n - 1)) % ms[n - 1]
}

/// Taking one more digit of every number adds the digits, at their weight.
pub proof fn lemma_total_step(xs: Seq<Seq<Residue>>, ms: Seq<nat>, i: int)
    requires
        forall|k: int| 0 <= k < xs.len() ==> moduli_of(#[trigger] xs[k]) == ms,
        0 <= i < ms.len(),
    ensures
        total_value(xs, i + 1) == total_value(xs, i) + sum_values(column(xs, i)) * weight(ms, i),
    decreases xs.len(),
{
    if xs.len() == 0 {
        assert(sum_values(column(xs, i)) == 0);
        assert(0 * weight(ms, i) == 0);
    } else {
        let rest = xs.drop_last();
        let last = xs[xs.len() - 1];
        assert forall|k: int| 0 <= k < rest.len() implies moduli_of(#[trigger] rest[k]) == ms by {
            assert(rest[k] == xs[k]);
        }
        lemma_total_step(rest, ms, i);
        assert(moduli_of(last) == ms);
        assert(last.len() == ms.len());
        let t = last.take(i + 1);
        assert(t.drop_last() =~= last.take(i));
        assert(t.last() == last[i]);
        assert(moduli_of(t).take(i) =~= ms.take(i)) by {
            assert forall|j: int| 0 <= j < i implies moduli_of(t).take(i)[j] == ms.take(i)[j] by {
                assert(moduli_of(last)[j] == last[j].modulus);
            }
        }
        assert(column(xs, i).drop_last() =~= column(rest, i));
        assert(column(xs, i).last() == last[i]);
        let w = weight(ms, i) as int;
        let a = sum_values(column(rest, i)) as int;
        let b = last[i].value as int;
        assert((a + b) * w == a * w + b * w) by (nonlinear_arith);
    }
}

/// The carry out of a digit: where the low digits sum to `low` and the
/// digits at weight `w`, of radix `m`, sum to `d`, the carry into the next
/// digit is the sum of `d` and the carry into this one, divided by `m`.
pub proof fn lemma_carry_step(low: nat, d: nat, w: nat, m: nat)
    requires
        w > 0,
        m > 0,
    ensures
        (low + d * w) / w == d + low / w,
        (low + d * w) / (w * m) == (d + low / w) / m,
{
    let t = low / w;
    let r = low % w;
    lemma_fundamental_div_mod(low as int, w as int);
    assert(low + d * w == (d + t) * w + r) by (nonlinear_arith)
        requires
            low == w * t + r,
    ;
    lemma_fundamental_div_mod_converse((low + d * w) as int, w as int, (d + t) as int, r as int);
    lemma_div_denominator((low + d * w) as int, w as int, m as int);
}

/// The carry into a digit does not exceed the largest carry.
pub proof fn lemma_carry_bound(ms: Seq<nat>, nargs: nat, i: int, d: nat, carry: nat)
    requires
        0 <= i < ms.len(),
        ms[i] > 0,
        d <= nargs * (ms[i] - 1),
        carry <= max_carry(ms, nargs, i),
    ensures
        d + carry <= max_digit_sum(ms, nargs, i),
        (d + carry) / ms[i] <= max_carry(ms, nargs, i + 1),
{
    lemma_div_is_ordered((d + carry) as int, max_digit_sum(ms, nargs, i) as int, ms[i] as int);
}

/// No digits spell zero, whatever the numbers.
pub proof fn lemma_total_none(xs: Seq<Seq<Residue>>)
    ensures
        total_value(xs, 0) == 0,
    decreases xs.len(),
{
    if xs.len() > 0 {
        lemma_total_none(xs.drop_last());
        assert(mixed_radix_value(xs.last().take(0)) == 0);
    }
}

/// One round of the digit-wise addition: where `carry` is the carry into
/// digit `i` and `d` the sum of the digits `i`, the carry into digit `i + 1`
/// is their sum divided by the radix, and it stays within its bound.
pub proof fn lemma_round(xs: Seq<Seq<Residue>>, ms: Seq<nat>, i: int, d: nat, carry: nat)
    requires
        xs.len() >= 1,
        forall|k: int| 0 <= k < xs.len() ==> moduli_of(#[trigger] xs[k]) == ms,
        forall|k: int| 0 <= k < xs.len() ==> all_wf(#[trigger] xs[k]),
        0 <= i < ms.len(),
        d == sum_values(column(xs, i)),
        carry == total_value(xs, i) / weight(ms, i),
        carry <= max_carry(ms, xs.len(), i),
    ensures
        ms[i] >= 2,
        weight(ms, i) > 0,
        d <= xs.len() * (ms[i] - 1),
        d + carry <= max_digit_sum(ms, xs.len(), i),
        max_digit_sum(ms, xs.len(), i) >= ms[i] - 1,
        (d + carry) / ms[i] == total_value(xs, i + 1) / weight(ms, i + 1),
        d + carry == total_value(xs, i + 1) / weight(ms, i),
        (d + carry) / ms[i] <= max_carry(ms, xs.len(), i + 1),
        max_carry(ms, xs.len(), i + 1) <= max_digit_sum(ms, xs.len(), i),
{
    let nargs = xs.len();
    let q = ms[i];
    assert(moduli_of(xs[0]) == ms);
    assert(all_wf(xs[0]));
    assert forall|j: int| 0 <= j < ms.len() implies #[trigger] ms[j] >= 2 by {
        assert(xs[0][j].wf());
        assert(moduli_of(xs[0])[j] == xs[0][j].modulus);
    }
    let head = ms.take(i);
    assert forall|j: int| 0 <= j < head.len() implies #[trigger] head[j] > 0 by {
        assert(head[j] == ms[j]);
    }
    lemma_product_positive(head);
    let col = column(xs, i);
    assert forall|k: int| 0 <= k < col.len() implies (#[trigger] col[k]).value <= q - 1 by {
        assert(moduli_of(xs[k]) == ms);
        assert(all_wf(xs[k]));
        assert(xs[k][i].wf());
        assert(moduli_of(xs[k])[i] == xs[k][i].modulus);
    }
    crate::wire::lemma_sum_values_bound(col, (q - 1) as nat);
    lemma_carry_bound(ms, nargs, i, d, carry);
    lemma_total_step(xs, ms, i);
    lemma_product_take(ms, i);
    lemma_carry_step(total_value(xs, i), d, weight(ms, i), q);
    assert(nargs * (q - 1) >= q - 1) by (nonlinear_arith)
        requires
            nargs >= 1,
            q >= 2,
    ;
    let top = max_digit_sum(ms, nargs, i) as int;
    assert(top / (q as int) <= top) by {
        vstd::arithmetic::div_mod::lemma_div_nonincreasing(top, q as int);
    }
}

/// The largest digit sum is at least 1.
pub proof fn lemma_top_positive(xs: Seq<Seq<Residue>>, ms: Seq<nat>, i: int)
    requires
        xs.len() >= 1,
        moduli_of(xs[0]) == ms,
        all_wf(xs[0]),
        0 <= i < ms.len(),
    ensures
        max_digit_sum(ms, xs.len(), i) >= 1,
{
    let nargs = xs.len();
    let q = ms[i];
    assert(xs[0][i].wf());
    assert(moduli_of(xs[0])[i] == xs[0][i].modulus);
    assert(nargs * (q - 1) >= 1) by (nonlinear_arith)
        requires
            nargs >= 1,
            q >= 2,
    ;
}

/// Digit `j` of `x` written with the radices `ms`.
pub open spec fn digit_of(x: nat, ms: Seq<nat>, j: int) -> nat {
    (x / weight(ms, j)) % ms[j]
}

/// The digits of a number spell the number, modulo the product of the
/// radices.
pub proof fn lemma_digits_value(s: Seq<Residue>, x: nat)
    requires
        all_wf(s),
        forall|j: int| 0 <= j < s.len() ==> (#[trigger] s[j]).value == digit_of(x, moduli_of(s), j),
    ensures
        product(moduli_of(s)) > 0,
        mixed_radix_value(s) == x % product(moduli_of(s)),
    decreases s.len(),
{
    let ms = moduli_of(s);
    assert forall|j: int| 0 <= j < ms.len() implies #[trigger] ms[j] > 0 by {
        assert(s[j].wf());
    }
    lemma_product_positive(ms);
    if s.len() == 0 {
    } else {
        let n = s.len() - 1;
        let t = s.drop_last();
        let mt = moduli_of(t);
        assert(mt =~= ms.take(n));
        assert forall|j: int| 0 <= j < t.len() implies (#[trigger] t[j]).wf() by {
            assert(t[j] == s[j]);
            assert(s[j].wf());
        }
        assert forall|j: int| 0 <= j < t.len() implies (#[trigger] t[j]).value == digit_of(
            x,
            mt,
            j,
        ) by {
            assert(t[j] == s[j]);
            assert(mt.take(j) =~= ms.take(j));
            assert(s[j].value == digit_of(x, ms, j));
        }
        lemma_digits_value(t, x);
        let w = weight(ms, n);
        let m = ms[n];
        assert(s[n].wf());
        assert(s[n].value == digit_of(x, ms, n));
        assert(ms =~= ms.take(n).push(m));
        assert(ms.drop_last() =~= ms.take(n));
        lemma_mod_breakdown(x as int, w as int, m as int);
        let d = s[n].value as int;
        assert(d * w == w * d) by (nonlinear_arith);
    }
}

} // verus!
