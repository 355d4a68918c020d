//! For which numbers the sign that the projections find is the true sign.
//!
//! The gadget adds, for each residue, a share of the fraction that the
//! number is of its modulus, each share rounded to a whole number of units.
//! The rounding moves the sum by at most half a unit for each residue, so
//! the sign that is found is the true one for every number that keeps this
//! distance from both ends of its half of the range.

use vstd::prelude::*;
use vstd::arithmetic::div_mod::{
    lemma_fundamental_div_mod,
    lemma_fundamental_div_mod_converse,
    lemma_div_multiples_vanish,
    lemma_div_is_ordered,
    lemma_mod_mod,
    lemma_mod_bound,
    lemma_small_mod,
    lemma_add_mod_noop,
    lemma_mul_mod_noop_left,
    lemma_mul_mod_noop_right,
};
use crate::wire::{Residue, all_wf, moduli_of};
use crate::number_theory::{
    product,
    distinct_primes,
    is_prime,
    is_inverse,
    invertible,
    lemma_product_divisible,
    lemma_product_positive,
    lemma_product_take,
    lemma_crt_unique,
};
use crate::mixed_radix::weight;
use crate::crt::{
    crt_modulus,
    represents,
    crt_coef,
    frac_term,
    frac_sum,
    frac_msb,
    frac_ok,
    sign_of_msb,
};

verus! {

/// The number `v`, held by `n` residues modulo `q`, lies so far inside its
/// half of the range that rounding cannot move it across an end: with
/// `big` units to the whole range and `half` units to its lower half, twice
/// its place in units, `2 * big * v / q`, keeps a distance of `n` from both
/// ends of the half it lies in.
pub open spec fn sign_is_sure(q: nat, big: nat, half: nat, n: nat, v: nat) -> bool {
    ||| n * q <= 2 * big * v && 2 * big * v + n * q < 2 * q * half
    ||| 2 * q * half + n * q <= 2 * big * v && 2 * big * v + n * q < 2 * q * big && 2 * v >= q
}

/// The units that make up the lower half of the range: the weight of the
/// last digit times half its radix.
pub open spec fn half_units(ms: Seq<nat>) -> nat {
    weight(ms, ms.len() - 1) * (ms.last() / 2)
}

/// The product without one factor, times the factor, is the product.
proof fn lemma_product_remove(s: Seq<nat>, i: int)
    requires
        0 <= i < s.len(),
    ensures
        product(s) == s[i] * product(s.remove(i)),
    decreases s.len(),
{
    let n = s.len() - 1;
    let head = s.drop_last();
    let last = s[n];
    if i == n {
        assert(s.remove(i) =~= head);
        assert(product(head) * last == last * product(head)) by (nonlinear_arith);
    } else {
        lemma_product_remove(head, i);
        let rest = head.remove(i);
        assert(s.remove(i).drop_last() =~= rest);
        assert(s.remove(i).last() == last);
        assert(head[i] == s[i]);
        let a = s[i] as int;
        let b = product(rest) as int;
        let c = last as int;
        assert((a * b) * c == a * (b * c)) by (nonlinear_arith);
    }
}

/// What is left of the product when one factor is taken out is a whole
/// number of every other factor, and times the factor it is the product.
proof fn lemma_cofactor(ps: Seq<nat>, i: int, j: int)
    requires
        forall|k: int| 0 <= k < ps.len() ==> #[trigger] ps[k] > 0,
        0 <= i < ps.len(),
        0 <= j < ps.len(),
    ensures
        ps[i] * (product(ps) / ps[i]) == product(ps),
        product(ps) / ps[i] >= 1,
        i != j ==> (product(ps) / ps[i]) % ps[j] == 0,
{
    let rest = ps.remove(i);
    lemma_product_remove(ps, i);
    assert(ps[i] > 0);
    lemma_div_multiples_vanish(product(rest) as int, ps[i] as int);
    assert(product(ps) / ps[i] == product(rest));
    assert forall|k: int| 0 <= k < rest.len() implies #[trigger] rest[k] > 0 by {
        if k < i {
            assert(rest[k] == ps[k]);
        } else {
            assert(rest[k] == ps[k + 1]);
        }
    }
    lemma_product_positive(rest);
    if i != j {
        let jj = if j < i { j } else { j - 1 };
        assert(rest[jj] == ps[j]);
        lemma_product_divisible(rest, jj);
    }
}

/// The shares of the first `k` residues, summed.
spec fn share_sum(x: Seq<Residue>, q: nat, big: nat, k: int) -> int
    decreases k,
{
    if k <= 0 {
        0
    } else {
        share_sum(x, q, big, k - 1) + frac_term(
            big,
            x[k - 1].value,
            crt_coef(q, x[k - 1].modulus),
            x[k - 1].modulus,
        )
    }
}

/// One rounded share, before it is taken modulo `big`.
spec fn rounded(big: nat, a: nat, c: nat, p: nat) -> int {
    ((2 * big * a * c + p) / (2 * p)) as int
}

/// The rounded shares of the first `k` residues, summed.
spec fn rounded_sum(x: Seq<Residue>, q: nat, big: nat, k: int) -> int
    decreases k,
{
    if k <= 0 {
        0
    } else {
        rounded_sum(x, q, big, k - 1) + rounded(
            big,
            x[k - 1].value,
            crt_coef(q, x[k - 1].modulus),
            x[k - 1].modulus,
        )
    }
}

/// How often the rounded shares of the first `k` residues wrap around
/// `big`, summed.
spec fn wraps_sum(x: Seq<Residue>, q: nat, big: nat, k: int) -> int
    decreases k,
{
    if k <= 0 {
        0
    } else {
        wraps_sum(x, q, big, k - 1) + rounded(
            big,
            x[k - 1].value,
            crt_coef(q, x[k - 1].modulus),
            x[k - 1].modulus,
        ) / (big as int)
    }
}

/// The number put together again from the first `k` residues: each residue
/// times its coefficient times the product of the other moduli, summed.
spec fn recon_sum(x: Seq<Residue>, q: nat, k: int) -> int
    decreases k,
{
    if k <= 0 {
        0
    } else {
        recon_sum(x, q, k - 1) + x[k - 1].value * crt_coef(q, x[k - 1].modulus) * (q
            / x[k - 1].modulus)
    }
}

/// The sum of the shares, written by places.
proof fn lemma_share_sum_prefix(x: Seq<Residue>, y: Seq<Residue>, q: nat, big: nat, k: int)
    requires
        0 <= k <= x.len(),
        k <= y.len(),
        forall|i: int| 0 <= i < k ==> x[i] == y[i],
    ensures
        share_sum(x, q, big, k) == share_sum(y, q, big, k),
    decreases k,
{
    if k > 0 {
        lemma_share_sum_prefix(x, y, q, big, k - 1);
    }
}

/// The sum of the shares is the sum over all places.
proof fn lemma_frac_sum_by_places(x: Seq<Residue>, q: nat, big: nat)
    ensures
        frac_sum(x, q, big) == share_sum(x, q, big, x.len() as int),
    decreases x.len(),
{
    if x.len() > 0 {
        let head = x.drop_last();
        lemma_frac_sum_by_places(head, q, big);
        lemma_share_sum_prefix(x, head, q, big, head.len() as int);
    }
}

/// Rounding one share moves it by at most half a unit: in terms of whole
/// numbers, twice the modulus times the rounded share differs from the
/// exact numerator by at most the modulus.
proof fn lemma_rounded_step(big: nat, a: nat, c: nat, p: nat, cof: nat, q: nat)
    requires
        p >= 1,
        cof >= 1,
        p * cof == q,
    ensures
        -(q as int) <= 2 * q * rounded(big, a, c, p) - 2 * big * (a * c * cof) <= q,
        rounded(big, a, c, p) >= 0,
{
    let num = (2 * big * a * c + p) as int;
    let den = (2 * p) as int;
    let u = rounded(big, a, c, p);
    let rem = num % den;
    lemma_fundamental_div_mod(num, den);
    lemma_mod_bound(num, den);
    assert(num >= 0) by (nonlinear_arith)
        requires
            num == 2 * big * a * c + p,
    ;
    vstd::arithmetic::div_mod::lemma_div_pos_is_pos(num, den);
    let d = p - rem;
    assert(den * u == 2 * p * u) by (nonlinear_arith)
        requires
            den == 2 * p,
    ;
    assert(2 * p * u - 2 * big * a * c == d);
    assert(-(p as int) < d <= p);
    assert(-(q as int) <= d * cof <= q) by (nonlinear_arith)
        requires
            -(p as int) < d <= p,
            cof >= 1,
            p * cof == q,
    ;
    assert(d * cof == 2 * q * u - 2 * big * (a * c * cof)) by (nonlinear_arith)
        requires
            2 * p * u - 2 * big * a * c == d,
            p * cof == q,
    ;
}

/// The sums keep what each share keeps: the shares are the rounded shares
/// less their wraps, and twice the modulus times the rounded shares differs
/// from the exact numerator by at most the modulus for each residue.
proof fn lemma_sums_rounding(x: Seq<Residue>, q: nat, big: nat, k: int)
    requires
        0 <= k <= x.len(),
        big >= 1,
        forall|i: int|
            0 <= i < x.len() ==> (#[trigger] x[i]).modulus >= 1 && q / x[i].modulus >= 1
                && x[i].modulus * (q / x[i].modulus) == q,
    ensures
        share_sum(x, q, big, k) == rounded_sum(x, q, big, k) - big * wraps_sum(x, q, big, k),
        -k * q <= 2 * q * rounded_sum(x, q, big, k) - 2 * big * recon_sum(x, q, k) <= k * q,
    decreases k,
{
    if k > 0 {
        lemma_sums_rounding(x, q, big, k - 1);
        let r = x[k - 1];
        let p = r.modulus;
        let a = r.value;
        let c = crt_coef(q, p);
        let cof = q / p;
        assert(p >= 1 && cof >= 1 && p * cof == q);
        lemma_rounded_step(big, a, c, p, cof, q);
        let u = rounded(big, a, c, p);
        lemma_fundamental_div_mod(u, big as int);
        assert(frac_term(big, a, c, p) == u % (big as int));
        let us = rounded_sum(x, q, big, k - 1);
        let ys = recon_sum(x, q, k - 1);
        let ws = wraps_sum(x, q, big, k - 1);
        let w = u / (big as int);
        assert(big * (ws + w) == big * ws + big * w) by (nonlinear_arith);
        assert(2 * q * (us + u) == 2 * q * us + 2 * q * u) by (nonlinear_arith);
        let y = (a * c * cof) as int;
        assert(2 * big * (ys + y) == 2 * big * ys + 2 * big * y) by (nonlinear_arith);
        assert(-k * q == -(k - 1) * q - q && k * q == (k - 1) * q + q) by (nonlinear_arith);
    }
}

/// Modulo the modulus at place `j`, the number put together from the first
/// `k` residues is the residue at place `j` once that place is among them,
/// and zero before.
proof fn lemma_recon_residue(x: Seq<Residue>, q: nat, k: int, j: int)
    requires
        0 <= k <= x.len(),
        0 <= j < x.len(),
        x[j].modulus >= 1,
        forall|i: int| 0 <= i < x.len() && i != j ==> (q / (#[trigger] x[i]).modulus) % x[j].modulus == 0,
        (crt_coef(q, x[j].modulus) * (q / x[j].modulus)) % x[j].modulus == 1,
    ensures
        recon_sum(x, q, k) % (x[j].modulus as int) == if j < k {
            (x[j].value % x[j].modulus) as int
        } else {
            0
        },
    decreases k,
{
    let pj = x[j].modulus as int;
    if k == 0 {
        lemma_small_mod(0, pj as nat);
    } else {
        lemma_recon_residue(x, q, k - 1, j);
        let r = x[k - 1];
        let an = r.value;
        let cn = crt_coef(q, r.modulus);
        let cofn = q / r.modulus;
        let a = an as int;
        let c = cn as int;
        let cof = cofn as int;
        let before = recon_sum(x, q, k - 1);
        let term = (an * cn * cofn) as int;
        assert(recon_sum(x, q, k) == before + term);
        assert(term == a * c * cof) by (nonlinear_arith)
            requires
                term == an * cn * cofn,
                a == an,
                c == cn,
                cof == cofn,
        ;
        lemma_add_mod_noop(before, term, pj);
        assert((before + term) % pj == ((before % pj) + (term % pj)) % pj);
        if k - 1 == j {
            // the term is the residue times 1
            assert(term == a * (c * cof)) by (nonlinear_arith)
                requires
                    term == a * c * cof,
            ;
            lemma_mul_mod_noop_right(a, c * cof, pj);
            assert(a * 1 == a);
            assert((c * cof) % pj == 1);
            assert(term % pj == a % pj);
            lemma_mod_mod_same(a, pj);
            lemma_small_mod(0, pj as nat);
            assert(before % pj == 0);
            assert((before + term) % pj == a % pj);
        } else {
            // the term is a multiple of the modulus
            assert(x[k - 1] == r);
            assert(cof % pj == 0);
            assert(term == (a * c) * cof) by (nonlinear_arith)
                requires
                    term == a * c * cof,
            ;
            lemma_mul_mod_noop_right(a * c, cof, pj);
            assert((a * c) * 0 == 0);
            lemma_small_mod(0, pj as nat);
            assert(term % pj == 0);
            if j < k - 1 {
                lemma_mod_mod_same(x[j].value as int, pj);
                assert((before + term) % pj == (x[j].value as int) % pj);
            } else {
                assert((before + term) % pj == 0);
            }
        }
    }
}

/// A remainder is its own remainder.
proof fn lemma_mod_mod_same(a: int, p: int)
    requires
        p > 0,
    ensures
        (a % p) % p == a % p,
        ((a % p) + 0) % p == a % p,
        (0 + (a % p)) % p == a % p,
{
    lemma_mod_bound(a, p);
    lemma_small_mod((a % p) as nat, p as nat);
}

/// Where a sum is a whole number of rounds of `big` plus a rest below
/// `big`, its last digit is that of the rest.
proof fn lemma_digit_of_sum(t: int, big: int, w: int, m: int, kk: int, r: int)
    requires
        w >= 1,
        m >= 1,
        big == w * m,
        t == big * kk + r,
        0 <= r < big,
    ensures
        (t / w) % m == r / w,
        0 <= r / w < m,
{
    let d = r / w;
    let e = r % w;
    lemma_fundamental_div_mod(r, w);
    lemma_mod_bound(r, w);
    vstd::arithmetic::div_mod::lemma_div_pos_is_pos(r, w);
    assert(d < m) by (nonlinear_arith)
        requires
            r == w * d + e,
            0 <= e < w,
            r < w * m,
            w >= 1,
    ;
    assert(t == (m * kk + d) * w + e) by (nonlinear_arith)
        requires
            t == big * kk + r,
            big == w * m,
            r == w * d + e,
    ;
    lemma_fundamental_div_mod_converse(t, w, m * kk + d, e);
    vstd::arithmetic::div_mod::lemma_mod_multiples_vanish(kk, d, m);
    lemma_small_mod(d as nat, m as nat);
}

/// Where twice the modulus times the rest is twice the place of the number
/// in units, give or take the rounding, and the number keeps its distance
/// from the ends of its half, the rest lies in the half in which the number
/// lies.
proof fn lemma_rest_in_half(q: nat, big: nat, half: nat, n: nat, v: nat, d: int, r: int)
    requires
        q >= 1,
        big >= 1,
        2 * half <= big,
        2 * q * r == 2 * big * v + d,
        -(n * q) <= d <= n * q,
        sign_is_sure(q, big, half, n, v),
    ensures
        0 <= r < big,
        2 * v < q ==> r < half,
        2 * v >= q ==> r >= half,
{
    let nq = n * q;
    let bv = 2 * big * v;
    let qh = 2 * q * half;
    let qb = 2 * q * big;
    if nq <= bv && bv + nq < qh {
        assert(0 <= r < half) by (nonlinear_arith)
            requires
                2 * q * r == bv + d,
                -nq <= d <= nq,
                nq <= bv,
                bv + nq < qh,
                qh == 2 * q * half,
                q >= 1,
        ;
        assert(2 * v < q) by (nonlinear_arith)
            requires
                bv + nq < qh,
                bv == 2 * big * v,
                qh == 2 * q * half,
                nq >= 0,
                2 * half <= big,
                big >= 1,
                q >= 1,
        ;
    } else {
        assert(qh + nq <= bv && bv + nq < qb && 2 * v >= q);
        assert(half <= r < big) by (nonlinear_arith)
            requires
                2 * q * r == bv + d,
                -nq <= d <= nq,
                qh + nq <= bv,
                bv + nq < qb,
                qh == 2 * q * half,
                qb == 2 * q * big,
                q >= 1,
        ;
    }
}

/// For a number that keeps its distance from the ends of its half of the
/// range, the sign that the projections find is the true sign: 0 for the
/// lower half of the range and 1 from the middle of the range on.
pub proof fn lemma_sign_found(x: Seq<Residue>, ms: Seq<nat>, v: nat)
    requires
        all_wf(x),
        distinct_primes(moduli_of(x)),
        frac_ok(x, ms),
        represents(x, v as int),
        v < crt_modulus(x),
        sign_is_sure(crt_modulus(x), product(ms), half_units(ms), x.len(), v),
    ensures
        sign_of_msb(frac_msb(x, ms), ms.last()) == if 2 * v < crt_modulus(x) {
            0nat
        } else {
            1nat
        },
{
    let ps = moduli_of(x);
    let q = product(ps);
    let n = x.len() as int;
    let big = product(ms);
    let last = ms.len() - 1;
    let w = weight(ms, last);
    let m = ms[last];
    // the radices
    assert(m >= 2);
    assert forall|i: int| 0 <= i < ms.len() implies #[trigger] ms[i] > 0 by {
        assert(ms[i] >= 2);
    }
    lemma_product_positive(ms);
    let head = ms.take(last);
    assert forall|i: int| 0 <= i < head.len() implies #[trigger] head[i] > 0 by {
        assert(head[i] == ms[i]);
    }
    lemma_product_positive(head);
    lemma_product_take(ms, last);
    assert(ms.take(last + 1) =~= ms);
    assert(big == w * m);
    let half = half_units(ms);
    assert(2 * half <= big) by (nonlinear_arith)
        requires
            half == w * (m / 2),
            big == w * m,
            w >= 0,
            2 * (m / 2) <= m,
    ;
    // the moduli
    assert forall|i: int| 0 <= i < ps.len() implies #[trigger] ps[i] > 0 by {
        assert(x[i].wf());
    }
    lemma_product_positive(ps);
    assert forall|i: int| 0 <= i < x.len() implies (#[trigger] x[i]).modulus >= 1 && q
        / x[i].modulus >= 1 && x[i].modulus * (q / x[i].modulus) == q by {
        assert(ps[i] == x[i].modulus);
        lemma_cofactor(ps, i, i);
    }
    lemma_frac_sum_by_places(x, q, big);
    lemma_sums_rounding(x, q, big, n);
    // the number put together from the residues is the number
    let y = recon_sum(x, q, n);
    let yq = y % (q as int);
    lemma_mod_bound(y, q as int);
    assert forall|j: int| 0 <= j < ps.len() implies (yq as nat) % #[trigger] ps[j] == v
        % ps[j] by {
        let pj = x[j].modulus;
        assert(ps[j] == pj);
        assert(x[j].wf());
        assert forall|i: int| 0 <= i < x.len() && i != j implies (q / (#[trigger] x[i]).modulus)
            % pj == 0 by {
            assert(ps[i] == x[i].modulus);
            lemma_cofactor(ps, i, j);
        }
        let cof = q / pj;
        let a = cof % pj;
        assert(invertible((crt_modulus(x) / x[j].modulus) % x[j].modulus, x[j].modulus));
        let c = crt_coef(q, pj);
        assert(is_inverse(a, c, pj));
        lemma_mul_mod_noop_left(cof as int, c as int, pj as int);
        assert(c * cof == cof * c) by (nonlinear_arith);
        lemma_recon_residue(x, q, n, j);
        lemma_small_mod(x[j].value, pj);
        lemma_cofactor(ps, j, j);
        lemma_mod_mod(y, pj as int, cof as int);
        assert(x[j].value == (v as int) % (pj as int));
    }
    lemma_crt_unique(yq as nat, v, ps);
    lemma_fundamental_div_mod(y, q as int);
    let ky = y / (q as int);
    // the shares, the rounded shares and the number
    let t = frac_sum(x, q, big) as int;
    let u = rounded_sum(x, q, big, n);
    let ws = wraps_sum(x, q, big, n);
    let d = 2 * q * u - 2 * big * y;
    let kk = ky - ws;
    let r = t - big * kk;
    assert(2 * q * r == 2 * big * v + d) by (nonlinear_arith)
        requires
            r == t - big * kk,
            kk == ky - ws,
            t == u - big * ws,
            y == q * ky + v,
            d == 2 * q * u - 2 * big * y,
    ;
    assert(-(x.len() * q) <= d <= x.len() * q) by (nonlinear_arith)
        requires
            -n * q <= d <= n * q,
            n == x.len(),
    ;
    lemma_rest_in_half(q, big, half, x.len(), v, d, r);
    lemma_digit_of_sum(t, big as int, w as int, m as int, kk, r);
    assert(frac_msb(x, ms) == r / (w as int));
    // the digit against half the radix
    let h = (m / 2) as int;
    lemma_div_multiples_vanish(h, w as int);
    if 2 * v < q {
        if r / (w as int) >= h {
            lemma_fundamental_div_mod(r, w as int);
            lemma_mod_bound(r, w as int);
            assert(r >= w * h) by (nonlinear_arith)
                requires
                    r == w * (r / (w as int)) + r % (w as int),
                    r % (w as int) >= 0,
                    r / (w as int) >= h,
                    w >= 0,
            ;
        }
    } else {
        lemma_div_is_ordered(half as int, r, w as int);
    }
}

} // verus!
