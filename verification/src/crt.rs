//! Bundles that hold a number by its residues modulo distinct primes, and
//! the gadgets that compute on such bundles wire by wire.

use vstd::prelude::*;
use vstd::string::StringSliceAdditionalSpecFns;
use vstd::arithmetic::div_mod::{
    lemma_add_mod_noop,
    lemma_sub_mod_noop,
    lemma_mul_mod_noop,
    lemma_mul_mod_noop_right,
    lemma_mod_mod,
    lemma_small_mod,
    lemma_fundamental_div_mod,
    lemma_mod_add_multiples_vanish,
};
use crate::error::{FancyError, failed, backend_failure};
use crate::wire::{
    HasModulus,
    Residue,
    carries,
    views,
    all_wf,
    same_moduli,
    moduli_of,
    sum_values,
    lemma_sum_values_ext,
    all_bundles_wf,
};
use crate::mixed_radix::{
    weight,
    total_value,
    column,
    same_radices,
    max_carry,
    max_digit_sum,
    radices_fit,
    mixed_radix_ok,
    msb_of_sum,
    lemma_total_step,
    lemma_total_none,
    lemma_carry_step,
    lemma_round,
    lemma_top_positive,
    digit_of,
    mixed_radix_value,
    lemma_digits_value,
};
use crate::number_theory::{
    nats,
    is_prime,
    is_inverse,
    invertible,
    product,
    lemma_product_divisible,
    lemma_product_positive,
    lemma_inverse_unique,
    has_residues,
};
use crate::fancy::{Fancy, product_modulus};
use crate::bundle::{Bundle, BundleGadgets, WireOp, wirewise, bundles_view, moduli_match};
use crate::util::{
    factor,
    crt,
    factorable,
    table_divisors,
    lemma_table_divisors,
    product_of,
    inverse,
    as_mixed_radix,
};

verus! {

/// A bundle that is meant to hold the residues of one number modulo distinct
/// primes. Nothing is checked when it is made.
pub struct CrtBundle<W: HasModulus>(Bundle<W>);

impl<W: HasModulus> CrtBundle<W> {
    /// The residues that the wires stand for, in order.
    pub closed spec fn view(&self) -> Seq<Residue> {
        self.0@
    }

    /// The wires themselves, in order.
    pub closed spec fn spec_wires(&self) -> Seq<W> {
        self.0.spec_wires()
    }

    /// Create a new residue bundle from a vector of wires.
    pub fn new(ws: Vec<W>) -> (b: CrtBundle<W>)
        ensures
            b@ == views(ws@),
    {
        CrtBundle(Bundle::new(ws))
    }

    /// Extract the underlying bundle.
    pub fn extract(self) -> (b: Bundle<W>)
        ensures
            b@ == self@,
    {
        self.0
    }

    /// The underlying bundle, borrowed.
    pub fn as_bundle(&self) -> (b: &Bundle<W>)
        ensures
            b@ == self@,
    {
        &self.0
    }

    /// The wires, in order.
    pub fn wires(&self) -> (ws: &[W])
        ensures
            views(ws@) == self@,
    {
        self.0.wires()
    }

    /// The number of wires.
    pub fn size(&self) -> (n: usize)
        ensures
            n == self@.len(),
    {
        self.0.size()
    }

    /// Another bundle of the same wires.
    pub fn duplicate(&self) -> (b: CrtBundle<W>)
        ensures
            b@ == self@,
    {
        CrtBundle(self.0.duplicate())
    }
}

impl<W: HasModulus + Clone> Clone for CrtBundle<W> {
    /// A bundle of clones of the wires.
    fn clone(&self) -> (b: CrtBundle<W>)
        ensures
            b@.len() == self@.len(),
            b.spec_wires().len() == self.spec_wires().len(),
            forall|i: int|
                0 <= i < self.spec_wires().len() ==> cloned(
                    #[trigger] self.spec_wires()[i],
                    b.spec_wires()[i],
                ),
    {
        CrtBundle(self.0.clone())
    }
}

/// The residues of a list of residue bundles.
pub open spec fn crt_views<W: HasModulus>(xs: Seq<CrtBundle<W>>) -> Seq<Seq<Residue>> {
    Seq::new(xs.len(), |k: int| xs[k]@)
}

/// The product of the moduli: the modulus of the number that the bundle
/// holds.
pub open spec fn crt_modulus(s: Seq<Residue>) -> nat {
    product(moduli_of(s))
}

/// Each residue is that of `x` modulo its modulus.
pub open spec fn represents(s: Seq<Residue>, x: int) -> bool {
    forall|i: int| 0 <= i < s.len() ==> (#[trigger] s[i]).value == x % (s[i].modulus as int)
}

/// `z` holds, place by place, the residue of `x` times `c`.
pub open spec fn scaled(z: Seq<Residue>, x: Seq<Residue>, c: nat, evaluates: bool) -> bool {
    &&& z.len() == x.len()
    &&& forall|i: int|
        0 <= i < z.len() ==> carries(
            #[trigger] z[i],
            x[i].modulus,
            ((x[i].value * c) % x[i].modulus) as int,
            evaluates,
        )
}

/// The values of the residues, in order.
pub open spec fn values_of(s: Seq<Residue>) -> Seq<nat> {
    Seq::new(s.len(), |i: int| s[i].value)
}

/// The values of a bundle that holds the number `x` are the residues of
/// `x`: what was put into a bundle for the modulus `q` is what turning the
/// values of its wires back into a number gives.
pub proof fn lemma_represents_residues(s: Seq<Residue>, x: nat)
    requires
        represents(s, x as int),
    ensures
        has_residues(x, values_of(s), moduli_of(s)),
{
    assert forall|i: int| 0 <= i < moduli_of(s).len() implies #[trigger] values_of(s)[i] == x
        % moduli_of(s)[i] by {
        assert(s[i].value == (x as int) % (s[i].modulus as int));
    }
}

/// What represents a number represents its remainder by the product of the
/// moduli too.
pub proof fn lemma_represents_mod(s: Seq<Residue>, x: int)
    requires
        all_wf(s),
        represents(s, x),
    ensures
        crt_modulus(s) > 0,
        represents(s, x % (crt_modulus(s) as int)),
{
    let ms = moduli_of(s);
    let q = crt_modulus(s);
    assert forall|i: int| 0 <= i < ms.len() implies #[trigger] ms[i] > 0 by {
        assert(s[i].wf());
    }
    lemma_product_positive(ms);
    assert forall|i: int| 0 <= i < s.len() implies (#[trigger] s[i]).value == (x % (q as int)) % (
    s[i].modulus as int) by {
        let p = s[i].modulus;
        assert(ms[i] == p);
        lemma_product_divisible(ms, i);
        let c = q / p;
        lemma_fundamental_div_mod(q as int, p as int);
        assert(c > 0) by (nonlinear_arith)
            requires
                q == p * c,
                q > 0,
                p > 0,
                c >= 0,
        ;
        lemma_mod_mod(x, p as int, c as int);
    }
}

/// Adding wire by wire adds the numbers, modulo the product of the moduli.
pub proof fn lemma_crt_add(z: Seq<Residue>, x: Seq<Residue>, y: Seq<Residue>, a: int, b: int)
    requires
        all_wf(x),
        same_moduli(x, y),
        wirewise(WireOp::Add, z, x, y, true),
        represents(x, a),
        represents(y, b),
    ensures
        represents(z, (a + b) % (crt_modulus(x) as int)),
        moduli_of(z) == moduli_of(x),
{
    assert(moduli_of(z) =~= moduli_of(x)) by {
        assert forall|i: int| 0 <= i < z.len() implies moduli_of(z)[i] == moduli_of(x)[i] by {
            assert(carries(z[i], x[i].modulus, WireOp::Add.value(x[i], y[i]), true));
        }
    }
    assert(all_wf(z)) by {
        assert forall|i: int| 0 <= i < z.len() implies (#[trigger] z[i]).wf() by {
            assert(carries(z[i], x[i].modulus, WireOp::Add.value(x[i], y[i]), true));
        }
    }
    assert forall|i: int| 0 <= i < z.len() implies (#[trigger] z[i]).value == (a + b) % (
    z[i].modulus as int) by {
        assert(carries(z[i], x[i].modulus, WireOp::Add.value(x[i], y[i]), true));
        assert(x[i].wf());
        assert(x[i].modulus == y[i].modulus);
        lemma_add_mod_noop(a, b, x[i].modulus as int);
    }
    lemma_represents_mod(z, a + b);
}

/// Subtracting wire by wire subtracts the numbers, modulo the product of
/// the moduli.
pub proof fn lemma_crt_sub(z: Seq<Residue>, x: Seq<Residue>, y: Seq<Residue>, a: int, b: int)
    requires
        all_wf(x),
        same_moduli(x, y),
        wirewise(WireOp::Sub, z, x, y, true),
        represents(x, a),
        represents(y, b),
    ensures
        represents(z, (a - b) % (crt_modulus(x) as int)),
        moduli_of(z) == moduli_of(x),
{
    assert(moduli_of(z) =~= moduli_of(x)) by {
        assert forall|i: int| 0 <= i < z.len() implies moduli_of(z)[i] == moduli_of(x)[i] by {
            assert(carries(z[i], x[i].modulus, WireOp::Sub.value(x[i], y[i]), true));
        }
    }
    assert(all_wf(z)) by {
        assert forall|i: int| 0 <= i < z.len() implies (#[trigger] z[i]).wf() by {
            assert(carries(z[i], x[i].modulus, WireOp::Sub.value(x[i], y[i]), true));
        }
    }
    assert forall|i: int| 0 <= i < z.len() implies (#[trigger] z[i]).value == (a - b) % (
    z[i].modulus as int) by {
        assert(carries(z[i], x[i].modulus, WireOp::Sub.value(x[i], y[i]), true));
        assert(x[i].wf());
        assert(x[i].modulus == y[i].modulus);
        lemma_sub_mod_noop(a, b, x[i].modulus as int);
    }
    lemma_represents_mod(z, a - b);
}

/// Multiplying wire by wire multiplies the numbers, modulo the product of
/// the moduli.
pub proof fn lemma_crt_mul(z: Seq<Residue>, x: Seq<Residue>, y: Seq<Residue>, a: int, b: int)
    requires
        all_wf(x),
        same_moduli(x, y),
        wirewise(WireOp::Mul, z, x, y, true),
        represents(x, a),
        represents(y, b),
    ensures
        represents(z, (a * b) % (crt_modulus(x) as int)),
        moduli_of(z) == moduli_of(x),
{
    assert(moduli_of(z) =~= moduli_of(x)) by {
        assert forall|i: int| 0 <= i < z.len() implies moduli_of(z)[i] == moduli_of(x)[i] by {
            assert(carries(z[i], x[i].modulus, WireOp::Mul.value(x[i], y[i]), true));
        }
    }
    assert(all_wf(z)) by {
        assert forall|i: int| 0 <= i < z.len() implies (#[trigger] z[i]).wf() by {
            assert(carries(z[i], x[i].modulus, WireOp::Mul.value(x[i], y[i]), true));
        }
    }
    assert forall|i: int| 0 <= i < z.len() implies (#[trigger] z[i]).value == (a * b) % (
    z[i].modulus as int) by {
        assert(carries(z[i], x[i].modulus, WireOp::Mul.value(x[i], y[i]), true));
        assert(x[i].wf());
        assert(x[i].modulus == y[i].modulus);
        lemma_mul_mod_noop(a, b, x[i].modulus as int);
    }
    lemma_represents_mod(z, a * b);
}

/// Multiplying wire by wire by a scalar multiplies the number, modulo the
/// product of the moduli.
pub proof fn lemma_crt_cmul(z: Seq<Residue>, x: Seq<Residue>, c: nat, a: int)
    requires
        all_wf(x),
        scaled(z, x, c, true),
        represents(x, a),
    ensures
        represents(z, (c * a) % (crt_modulus(x) as int)),
        moduli_of(z) == moduli_of(x),
{
    assert(moduli_of(z) =~= moduli_of(x)) by {
        assert forall|i: int| 0 <= i < z.len() implies moduli_of(z)[i] == moduli_of(x)[i] by {
            assert(carries(z[i], x[i].modulus, ((x[i].value * c) % x[i].modulus) as int, true));
        }
    }
    assert(all_wf(z)) by {
        assert forall|i: int| 0 <= i < z.len() implies (#[trigger] z[i]).wf() by {
            assert(carries(z[i], x[i].modulus, ((x[i].value * c) % x[i].modulus) as int, true));
        }
    }
    assert forall|i: int| 0 <= i < z.len() implies (#[trigger] z[i]).value == (c * a) % (
    z[i].modulus as int) by {
        assert(carries(z[i], x[i].modulus, ((x[i].value * c) % x[i].modulus) as int, true));
        assert(x[i].wf());
        lemma_mul_mod_noop_right(c as int, a, x[i].modulus as int);
        assert(x[i].value * c == c * x[i].value) by (nonlinear_arith);
    }
    lemma_represents_mod(z, c * a);
}

/// The error that the digit-wise addition owes on numbers that it cannot
/// add.
pub open spec fn mixed_radix_error(xs: Seq<Seq<Residue>>) -> FancyError {
    if xs.len() == 0 || xs[0].len() == 0 {
        FancyError::InvalidArgNum { got: 0, needed: 1 }
    } else if !same_radices(xs) {
        FancyError::UnequalModuli
    } else {
        FancyError::InvalidInput
    }
}

/// For each digit but the last, the largest value that the sum of the digits
/// and the carry can take when `nargs` numbers with the radices `ms` are
/// added; `None` where one of them does not fit a wire.
fn radix_tops(ms: &[u16], nargs: usize) -> (r: Option<Vec<u16>>)
    requires
        ms@.len() >= 1,
        forall|i: int| 0 <= i < ms@.len() ==> ms@[i] >= 2,
    ensures
        match r {
            Some(tops) => {
                &&& radices_fit(nats(ms@), nargs as nat)
                &&& tops@.len() == ms@.len() - 1
                &&& forall|i: int|
                    0 <= i < tops@.len() ==> #[trigger] tops@[i] == max_digit_sum(
                        nats(ms@),
                        nargs as nat,
                        i,
                    )
            },
            None => !radices_fit(nats(ms@), nargs as nat),
        },
{
    let ghost msn = nats(ms@);
    let n = ms.len();
    let mut tops: Vec<u16> = Vec::new();
    let mut carry: u128 = 0;
    let mut i: usize = 0;
    while i < n - 1
        invariant
            i <= n - 1,
            n == ms@.len(),
            msn == nats(ms@),
            forall|j: int| 0 <= j < ms@.len() ==> ms@[j] >= 2,
            carry == max_carry(msn, nargs as nat, i as int),
            carry < u16::MAX,
            tops@.len() == i,
            forall|j: int|
                0 <= j < i ==> #[trigger] tops@[j] == max_digit_sum(msn, nargs as nat, j),
            forall|j: int| 0 <= j < i ==> #[trigger] max_digit_sum(msn, nargs as nat, j) < u16::MAX,
        decreases n - 1 - i,
    {
        let q = ms[i];
        assert(msn[i as int] == q);
        assert(nargs as int * (q - 1) <= 0xffff_ffff_ffff_ffff * 0xffff) by (nonlinear_arith)
            requires
                0 <= nargs <= 0xffff_ffff_ffff_ffff,
                2 <= q <= 0xffff,
        ;
        let top: u128 = (nargs as u128) * ((q - 1) as u128) + carry;
        if top >= 0xffff {
            assert(max_digit_sum(msn, nargs as nat, i as int) >= u16::MAX);
            return None;
        }
        tops.push(top as u16);
        carry = top / (q as u128);
        i += 1;
    }
    Some(tops)
}

/// Digit `i` of every number of the list, each carried over to the modulus
/// `to`, which is at least the radix of the digit.
fn lift_column<F: Fancy>(f: &mut F, xs: &[Bundle<F::Item>], i: usize, to: u16) -> (r: Result<
    Vec<F::Item>,
    FancyError,
>)
    requires
        all_bundles_wf(bundles_view(xs@)),
        forall|k: int|
            0 <= k < xs@.len() ==> i < (#[trigger] bundles_view(xs@)[k]).len() && bundles_view(
                xs@,
            )[k][i as int].modulus <= to,
    ensures
        final(f).outputs() == old(f).outputs(),
        match r {
            Ok(ws) => {
                &&& ws@.len() == xs@.len()
                &&& forall|k: int|
                    0 <= k < ws@.len() ==> carries(
                        #[trigger] views(ws@)[k],
                        to as nat,
                        bundles_view(xs@)[k][i as int].value as int,
                        F::evaluates(),
                    )
            },
            Err(e) => backend_failure(e, F::infallible()),
        },
{
    let ghost xv = bundles_view(xs@);
    let mut ws: Vec<F::Item> = Vec::new();
    let mut k: usize = 0;
    while k < xs.len()
        invariant
            k <= xs@.len(),
            xv == bundles_view(xs@),
            all_bundles_wf(xv),
            forall|j: int|
                0 <= j < xs@.len() ==> i < (#[trigger] xv[j]).len() && xv[j][i as int].modulus <= to,
            f.outputs() == old(f).outputs(),
            ws@.len() == k,
            forall|j: int|
                0 <= j < k ==> carries(
                    #[trigger] views(ws@)[j],
                    to as nat,
                    xv[j][i as int].value as int,
                    F::evaluates(),
                ),
        decreases xs@.len() - k,
    {
        let wires = xs[k].wires();
        proof {
            assert(xv[k as int] == xs@[k as int]@);
            assert(all_wf(xv[k as int]));
            assert(i < xv[k as int].len() && xv[k as int][i as int].modulus <= to);
            assert(xv[k as int][i as int].wf());
            lemma_small_mod(xv[k as int][i as int].value, to as nat);
        }
        let w = f.mod_change(&wires[i], to)?;
        let ghost before = views(ws@);
        ws.push(w);
        assert forall|j: int| 0 <= j < k + 1 implies carries(
            #[trigger] views(ws@)[j],
            to as nat,
            xv[j][i as int].value as int,
            F::evaluates(),
        ) by {
            if j < k {
                assert(views(ws@)[j] == before[j]);
            }
        }
        k += 1;
    }
    Ok(ws)
}

/// The most significant digit of the sum of numbers written digit by digit:
/// the digits are added place by place, each sum on a wire wide enough to
/// hold it, and each carry is projected out of its sum.
#[verifier::rlimit(40)]
fn mixed_radix_msb<F: Fancy>(f: &mut F, xs: &[Bundle<F::Item>]) -> (r: Result<
    F::Item,
    FancyError,
>)
    requires
        all_bundles_wf(bundles_view(xs@)),
    ensures
        final(f).outputs() == old(f).outputs(),
        match r {
            Ok(w) => mixed_radix_ok(bundles_view(xs@)) && carries(
                w@,
                bundles_view(xs@)[0].last().modulus,
                msb_of_sum(bundles_view(xs@)) as int,
                F::evaluates(),
            ),
            Err(e) => failed(
                e,
                mixed_radix_ok(bundles_view(xs@)),
                mixed_radix_error(bundles_view(xs@)),
                F::infallible(),
            ),
        },
{
    let ghost xv = bundles_view(xs@);
    let nargs = xs.len();
    if nargs == 0 {
        return Err(FancyError::InvalidArgNum { got: 0, needed: 1 });
    }
    assert(xv[0] == xs@[0]@);
    let n = xs[0].size();
    if n == 0 {
        return Err(FancyError::InvalidArgNum { got: 0, needed: 1 });
    }
    let mut k: usize = 0;
    while k < nargs
        invariant
            k <= nargs,
            nargs == xs@.len(),
            xv == bundles_view(xs@),
            n == xv[0].len(),
            n >= 1,
            forall|j: int| 0 <= j < k ==> same_moduli(#[trigger] xv[j], xv[0]),
        decreases nargs - k,
    {
        assert(xv[k as int] == xs@[k as int]@);
        if !moduli_match(xs[k].wires(), xs[0].wires()) {
            assert(!same_moduli(xv[k as int], xv[0]));
            return Err(FancyError::UnequalModuli);
        }
        k += 1;
    }
    let ms = xs[0].moduli();
    let ghost msn = moduli_of(xv[0]);
    proof {
        assert(all_wf(xv[0]));
        assert(nats(ms@) =~= msn);
        assert forall|i: int| 0 <= i < ms@.len() implies ms@[i] >= 2 by {
            assert(xv[0][i].wf());
        }
        assert forall|j: int| 0 <= j < xv.len() implies moduli_of(#[trigger] xv[j]) == msn by {
            assert(same_moduli(xv[j], xv[0]));
            assert(moduli_of(xv[j]) =~= msn);
        }
    }
    let tops = match radix_tops(ms.as_slice(), nargs) {
        Some(t) => t,
        None => {
            return Err(FancyError::InvalidInput);
        },
    };
    let mut carry: Option<F::Item> = None;
    let mut i: usize = 0;
    proof {
        lemma_total_none(xv);
    }
    while i < n - 1
        invariant
            i <= n - 1,
            n >= 1,
            nargs == xs@.len(),
            nargs >= 1,
            xv == bundles_view(xs@),
            all_bundles_wf(xv),
            mixed_radix_ok(xv),
            msn == moduli_of(xv[0]),
            msn == nats(ms@),
            n == msn.len(),
            forall|j: int| 0 <= j < xv.len() ==> moduli_of(#[trigger] xv[j]) == msn,
            forall|j: int| 0 <= j < ms@.len() ==> ms@[j] >= 2,
            tops@.len() == n - 1,
            forall|j: int|
                0 <= j < tops@.len() ==> #[trigger] tops@[j] == max_digit_sum(msn, nargs as nat, j),
            forall|j: int| 0 <= j < n - 1 ==> #[trigger] max_digit_sum(msn, nargs as nat, j) < u16::MAX,
            f.outputs() == old(f).outputs(),
            (i == 0) == (carry is None),
            total_value(xv, 0) == 0,
            total_value(xv, i as int) / weight(msn, i as int) <= max_carry(
                msn,
                nargs as nat,
                i as int,
            ),
            carry matches Some(c) ==> c@.wf() && c@.modulus == (if i < n - 1 {
                tops@[i as int] + 1
            } else {
                ms@[n - 1] as int
            }) && (F::evaluates() ==> c@.value == (if i < n - 1 {
                total_value(xv, i as int) / weight(msn, i as int)
            } else {
                (total_value(xv, i as int) / weight(msn, i as int)) % (ms@[n - 1] as nat)
            })),
        decreases n - 1 - i,
    {
        let top = tops[i];
        let q = ms[i];
        let wide: u16 = top + 1;
        let ghost d = sum_values(column(xv, i as int));
        let ghost cin = total_value(xv, i as int) / weight(msn, i as int);
        proof {
            assert(msn[i as int] == q);
            assert(top == max_digit_sum(msn, nargs as nat, i as int));
            if i == 0 {
                assert(weight(msn, 0) == 1) by {
                    assert(msn.take(0) =~= Seq::<nat>::empty());
                }
            }
            lemma_round(xv, msn, i as int, d, cin);
            if i + 1 < n - 1 {
                lemma_top_positive(xv, msn, i + 1);
            }
            assert forall|j: int| 0 <= j < xs@.len() implies i < (#[trigger] xv[j]).len()
                && xv[j][i as int].modulus <= wide by {
                assert(moduli_of(xv[j]) == msn);
                assert(moduli_of(xv[j])[i as int] == xv[j][i as int].modulus);
            }
        }
        let col = lift_column(f, xs, i, wide)?;
        let ghost cv = views(col@);
        proof {
            assert forall|j: int| 0 <= j < cv.len() implies (#[trigger] cv[j]).wf() && cv[j].modulus
                == wide by {
                assert(carries(cv[j], wide as nat, xv[j][i as int].value as int, F::evaluates()));
            }
            assert(cv[0] == col@[0]@);
            if F::evaluates() {
                assert forall|j: int| 0 <= j < cv.len() implies (#[trigger] cv[j]).value == column(
                    xv,
                    i as int,
                )[j].value by {
                    assert(carries(cv[j], wide as nat, xv[j][i as int].value as int, F::evaluates()));
                }
                lemma_sum_values_ext(cv, column(xv, i as int));
                lemma_small_mod(d, wide as nat);
            }
        }
        let sum = f.add_many(col.as_slice())?;
        let both = match &carry {
            Some(c) => f.add(&sum, c)?,
            None => sum,
        };
        proof {
            if F::evaluates() {
                lemma_small_mod(d + cin, wide as nat);
                assert(both@.value == d + cin);
            }
        }
        let next: u16 = if i + 1 < n - 1 {
            tops[i + 1] + 1
        } else {
            ms[n - 1]
        };
        let mut tt: Vec<u16> = Vec::new();
        let mut v: u32 = 0;
        while v <= top as u32
            invariant
                v <= top + 1,
                top < 0xffff,
                q >= 2,
                next >= 1,
                tt@.len() == v,
                forall|j: int| 0 <= j < tt@.len() ==> #[trigger] tt@[j] == (j / (q as int)) % (
                next as int),
            decreases top + 1 - v,
        {
            tt.push(((v / (q as u32)) % (next as u32)) as u16);
            v += 1;
        }
        let out = f.proj(&both, next, tt.as_slice())?;
        proof {
            if F::evaluates() {
                let t1 = (d + cin) / (q as nat);
                assert(out@.value == t1 % (next as nat));
                if i + 1 < n - 1 {
                    assert(tops@[i + 1] == max_digit_sum(msn, nargs as nat, i + 1));
                    lemma_small_mod(t1, next as nat);
                }
            }
        }
        carry = Some(out);
        i += 1;
    }
    // the top digits: their sum and the carry into them, modulo their radix
    let m = ms[n - 1];
    let ghost d = sum_values(column(xv, n - 1));
    let ghost cin = total_value(xv, n - 1) / weight(msn, n - 1);
    proof {
        assert(msn[n - 1] == m);
        if n == 1 {
            assert(weight(msn, 0) == 1) by {
                assert(msn.take(0) =~= Seq::<nat>::empty());
            }
            lemma_total_none(xv);
        }
        assert forall|j: int| 0 <= j < xs@.len() implies n - 1 < (#[trigger] xv[j]).len() && xv[j][n
            - 1].modulus <= m by {
            assert(moduli_of(xv[j]) == msn);
            assert(moduli_of(xv[j])[n - 1] == xv[j][n - 1].modulus);
        }
    }
    let col = lift_column(f, xs, n - 1, m)?;
    let ghost cv = views(col@);
    proof {
        assert forall|j: int| 0 <= j < cv.len() implies (#[trigger] cv[j]).wf() && cv[j].modulus
            == m by {
            assert(carries(cv[j], m as nat, xv[j][n - 1].value as int, F::evaluates()));
        }
        assert(cv[0] == col@[0]@);
        if F::evaluates() {
            assert forall|j: int| 0 <= j < cv.len() implies (#[trigger] cv[j]).value == column(
                xv,
                n - 1,
            )[j].value by {
                assert(carries(cv[j], m as nat, xv[j][n - 1].value as int, F::evaluates()));
            }
            lemma_sum_values_ext(cv, column(xv, n - 1));
        }
    }
    let sum = f.add_many(col.as_slice())?;
    let res = match &carry {
        Some(c) => f.add(&sum, c)?,
        None => sum,
    };
    proof {
        assert(xv[0].last().modulus == m) by {
            assert(moduli_of(xv[0])[n - 1] == xv[0][n - 1].modulus);
        }
        if F::evaluates() {
            let head = msn.take(n - 1);
            assert forall|j: int| 0 <= j < head.len() implies #[trigger] head[j] > 0 by {
                assert(head[j] == msn[j]);
            }
            lemma_product_positive(head);
            lemma_total_step(xv, msn, n - 1);
            lemma_carry_step(total_value(xv, n - 1), d, weight(msn, n - 1), m as nat);
            lemma_add_mod_noop(d as int, cin as int, m as int);
            if n == 1 {
                lemma_small_mod(d % (m as nat), m as nat);
            }
        }
    }
    Ok(res)
}

/// The coefficient of the prime factor `p` of `q` in the reconstruction of a
/// number from its residues: the inverse of `q / p` modulo `p`.
pub open spec fn crt_coef(q: nat, p: nat) -> nat {
    let a = (q / p) % p;
    choose|u: nat| is_inverse(a, u, p)
}

/// The share of one residue in the fraction that a number is of its
/// modulus: `a * c / p` in units of one `big`-th, rounded to the nearest
/// unit, halves upwards, and taken modulo `big`.
pub open spec fn frac_term(big: nat, a: nat, c: nat, p: nat) -> nat {
    ((2 * big * a * c + p) / (2 * p)) % big
}

/// The sum of the shares of the residues of a bundle whose modulus is `q`.
pub open spec fn frac_sum(x: Seq<Residue>, q: nat, big: nat) -> nat
    decreases x.len(),
{
    if x.len() == 0 {
        0
    } else {
        frac_sum(x.drop_last(), q, big) + frac_term(
            big,
            x.last().value,
            crt_coef(q, x.last().modulus),
            x.last().modulus,
        )
    }
}

/// The most significant digit, in the radices `ms`, of the approximate
/// fraction that the number held by `x` is of its modulus.
pub open spec fn frac_msb(x: Seq<Residue>, ms: Seq<nat>) -> nat {
    let n = ms.len() as int;
    (frac_sum(x, crt_modulus(x), product(ms)) / weight(ms, n - 1)) % ms[n - 1]
}

/// The bundle and the radices are such that the fraction can be computed:
/// neither is empty, every radix is at least 2, the product of the radices
/// fits 64 bits and the modulus of the bundle 128, the moduli of the bundle
/// are coprime, and the sums of digits fit their wires.
pub open spec fn frac_ok(x: Seq<Residue>, ms: Seq<nat>) -> bool {
    &&& x.len() >= 1
    &&& ms.len() >= 1
    &&& forall|j: int| 0 <= j < ms.len() ==> #[trigger] ms[j] >= 2
    &&& product(ms) <= u64::MAX
    &&& crt_modulus(x) <= u128::MAX
    &&& forall|i: int|
        0 <= i < x.len() ==> invertible(
            (crt_modulus(x) / (#[trigger] x[i]).modulus) % x[i].modulus,
            x[i].modulus,
        )
    &&& radices_fit(ms, x.len())
}

/// The moduli and the radices are such that the fraction can be computed
/// for a bundle with these moduli: neither list is empty, every radix is at
/// least 2, the product of the radices fits 64 bits and that of the moduli
/// 128, each modulus has an inverse of the product of the others, and the
/// sums of digits fit their wires.
pub open spec fn frac_moduli_ok(ps: Seq<nat>, ms: Seq<nat>) -> bool {
    &&& ps.len() >= 1
    &&& ms.len() >= 1
    &&& forall|j: int| 0 <= j < ms.len() ==> #[trigger] ms[j] >= 2
    &&& product(ms) <= u64::MAX
    &&& product(ps) <= u128::MAX
    &&& forall|i: int|
        0 <= i < ps.len() ==> invertible((product(ps) / #[trigger] ps[i]) % ps[i], ps[i])
    &&& radices_fit(ms, ps.len())
}

/// Whether the fraction can be computed for a bundle depends on its moduli
/// alone.
pub proof fn lemma_frac_ok_moduli(x: Seq<Residue>, ms: Seq<nat>)
    ensures
        frac_ok(x, ms) == frac_moduli_ok(moduli_of(x), ms),
{
    let ps = moduli_of(x);
    let q = product(ps);
    if frac_ok(x, ms) {
        assert forall|i: int| 0 <= i < ps.len() implies invertible(
            (q / #[trigger] ps[i]) % ps[i],
            ps[i],
        ) by {
            assert(invertible((crt_modulus(x) / x[i].modulus) % x[i].modulus, x[i].modulus));
        }
    }
    if frac_moduli_ok(ps, ms) {
        assert forall|i: int| 0 <= i < x.len() implies invertible(
            (crt_modulus(x) / (#[trigger] x[i]).modulus) % x[i].modulus,
            x[i].modulus,
        ) by {
            assert(invertible((q / ps[i]) % ps[i], ps[i]));
        }
    }
}

/// Whether the fraction can be computed, with the radices `ms`, for a
/// bundle with the moduli `ps`.
pub fn frac_check(ps: &[u16], ms: &[u16]) -> (b: bool)
    ensures
        b == frac_moduli_ok(nats(ps@), nats(ms@)),
{
    let ghost psn = nats(ps@);
    let ghost msn = nats(ms@);
    if ps.len() == 0 || ms.len() == 0 {
        return false;
    }
    let mut j: usize = 0;
    while j < ms.len()
        invariant
            j <= ms@.len(),
            msn == nats(ms@),
            forall|i: int| 0 <= i < j ==> ms@[i] >= 2,
        decreases ms@.len() - j,
    {
        if ms[j] < 2 {
            assert(msn[j as int] < 2);
            return false;
        }
        j += 1;
    }
    let q = match product_of(ps) {
        Some(q) => q,
        None => {
            return false;
        },
    };
    let big = match product_of(ms) {
        Some(b) => b,
        None => {
            return false;
        },
    };
    if big > 0xffff_ffff_ffff_ffff {
        return false;
    }
    let mut k: usize = 0;
    while k < ps.len()
        invariant
            k <= ps@.len(),
            psn == nats(ps@),
            q == product(psn),
            forall|i: int|
                0 <= i < k ==> invertible((q as nat / #[trigger] psn[i]) % psn[i], psn[i]),
        decreases ps@.len() - k,
    {
        let p = ps[k];
        assert(psn[k as int] == p);
        if p == 0 {
            proof {
                let a0 = (q as nat / psn[k as int]) % psn[k as int];
                let p0 = psn[k as int];
                assert forall|u: nat| !#[trigger] is_inverse(a0, u, p0) by {
                }
                assert(!invertible(a0, p0));
            }
            return false;
        }
        let a: u16 = ((q / (p as u128)) % (p as u128)) as u16;
        if inverse(a, p).is_none() {
            assert(!invertible((q as nat / psn[k as int]) % psn[k as int], psn[k as int]));
            return false;
        }
        k += 1;
    }
    let fits = radix_tops(ms, ps.len()).is_some();
    proof {
        assert forall|i: int| 0 <= i < msn.len() implies #[trigger] msn[i] >= 2 by {
            assert(ms@[i] >= 2);
        }
    }
    fits
}

/// The table that takes a residue modulo `p` to digit `j` of its share.
fn digit_table(big: u128, ms: &[u16], j: usize, p: u16, c: u16) -> (tt: Vec<u16>)
    requires
        forall|i: int| 0 <= i < ms@.len() ==> ms@[i] >= 2,
        j < ms@.len(),
        1 <= big <= u64::MAX,
        p >= 2,
        c < p,
    ensures
        tt@.len() == p,
        forall|a: int|
            0 <= a < p ==> #[trigger] tt@[a] == digit_of(
                frac_term(big as nat, a as nat, c as nat, p as nat),
                nats(ms@),
                j as int,
            ) && tt@[a] < ms@[j as int],
{
    let mut tt: Vec<u16> = Vec::new();
    let mut a: u16 = 0;
    while a < p
        invariant
            a <= p,
            forall|i: int| 0 <= i < ms@.len() ==> ms@[i] >= 2,
            j < ms@.len(),
            1 <= big <= u64::MAX,
            p >= 2,
            c < p,
            tt@.len() == a,
            forall|b: int|
                0 <= b < a ==> #[trigger] tt@[b] == digit_of(
                    frac_term(big as nat, b as nat, c as nat, p as nat),
                    nats(ms@),
                    j as int,
                ) && tt@[b] < ms@[j as int],
        decreases p - a,
    {
        assert(2 * big * a * c <= 2 * 0xffff_ffff_ffff_ffff * 0xffff * 0xffff && 2 * big * a * c
            >= 0 && 2 * big * a >= 0 && 2 * big * a <= 2 * 0xffff_ffff_ffff_ffff * 0xffff)
            by (nonlinear_arith)
            requires
                0 <= big <= 0xffff_ffff_ffff_ffff,
                0 <= a <= 0xffff,
                0 <= c <= 0xffff,
        ;
        let num: u128 = 2 * big * (a as u128) * (c as u128) + (p as u128);
        let y: u128 = (num / (2 * (p as u128))) % big;
        let ds = as_mixed_radix(y, ms);
        proof {
            assert(nats(ms@)[j as int] == ms@[j as int]);
        }
        tt.push(ds[j]);
        a += 1;
    }
    tt
}

/// The digits of the share of one wire, each projected out of the wire.
fn digit_wires<F: Fancy>(f: &mut F, wire: &F::Item, ms: &[u16], big: u128, c: u16) -> (r: Result<
    Vec<F::Item>,
    FancyError,
>)
    requires
        wire@.wf(),
        forall|i: int| 0 <= i < ms@.len() ==> ms@[i] >= 2,
        1 <= big <= u64::MAX,
        c < wire@.modulus,
    ensures
        final(f).outputs() == old(f).outputs(),
        match r {
            Ok(ws) => {
                &&& ws@.len() == ms@.len()
                &&& forall|j: int|
                    0 <= j < ws@.len() ==> carries(
                        #[trigger] views(ws@)[j],
                        ms@[j] as nat,
                        digit_of(
                            frac_term(big as nat, wire@.value, c as nat, wire@.modulus),
                            nats(ms@),
                            j,
                        ) as int,
                        F::evaluates(),
                    )
            },
            Err(e) => backend_failure(e, F::infallible()),
        },
{
    let p = wire.modulus();
    let ghost term = frac_term(big as nat, wire@.value, c as nat, wire@.modulus);
    let mut ws: Vec<F::Item> = Vec::new();
    let mut j: usize = 0;
    while j < ms.len()
        invariant
            j <= ms@.len(),
            wire@.wf(),
            p == wire@.modulus,
            forall|i: int| 0 <= i < ms@.len() ==> ms@[i] >= 2,
            1 <= big <= u64::MAX,
            c < p,
            term == frac_term(big as nat, wire@.value, c as nat, wire@.modulus),
            f.outputs() == old(f).outputs(),
            ws@.len() == j,
            forall|i: int|
                0 <= i < j ==> carries(
                    #[trigger] views(ws@)[i],
                    ms@[i] as nat,
                    digit_of(term, nats(ms@), i) as int,
                    F::evaluates(),
                ),
        decreases ms@.len() - j,
    {
        let tt = digit_table(big, ms, j, p, c);
        proof {
            assert forall|a: int| 0 <= a < tt@.len() implies tt@[a] < ms@[j as int] by {
                assert(tt@[a] == digit_of(
                    frac_term(big as nat, a as nat, c as nat, p as nat),
                    nats(ms@),
                    j as int,
                ) && tt@[a] < ms@[j as int]);
            }
            let a = wire@.value as int;
            assert(tt@[a] == digit_of(
                frac_term(big as nat, a as nat, c as nat, p as nat),
                nats(ms@),
                j as int,
            ) && tt@[a] < ms@[j as int]);
        }
        let w = f.proj(wire, ms[j], tt.as_slice())?;
        let ghost before = views(ws@);
        ws.push(w);
        assert forall|i: int| 0 <= i < j + 1 implies carries(
            #[trigger] views(ws@)[i],
            ms@[i] as nat,
            digit_of(term, nats(ms@), i) as int,
            F::evaluates(),
        ) by {
            if i < j {
                assert(views(ws@)[i] == before[i]);
            }
        }
        j += 1;
    }
    Ok(ws)
}

/// Where each number of the list spells the share of the residue at its
/// place, the numbers sum to the sum of the shares.
proof fn lemma_total_frac(dv: Seq<Seq<Residue>>, x: Seq<Residue>, q: nat, big: nat, n: int)
    requires
        dv.len() == x.len(),
        forall|k: int| 0 <= k < dv.len() ==> (#[trigger] dv[k]).len() == n,
        forall|k: int|
            0 <= k < dv.len() ==> mixed_radix_value(#[trigger] dv[k]) == frac_term(
                big,
                x[k].value,
                crt_coef(q, x[k].modulus),
                x[k].modulus,
            ),
    ensures
        total_value(dv, n) == frac_sum(x, q, big),
    decreases dv.len(),
{
    if dv.len() > 0 {
        let dr = dv.drop_last();
        let xr = x.drop_last();
        assert forall|k: int| 0 <= k < dr.len() implies (#[trigger] dr[k]).len() == n by {
            assert(dr[k] == dv[k]);
        }
        assert forall|k: int| 0 <= k < dr.len() implies mixed_radix_value(#[trigger] dr[k])
            == frac_term(big, xr[k].value, crt_coef(q, xr[k].modulus), xr[k].modulus) by {
            assert(dr[k] == dv[k]);
            assert(xr[k] == x[k]);
        }
        lemma_total_frac(dr, xr, q, big, n);
        let last = dv[dv.len() - 1];
        assert(last.len() == n);
        assert(last.take(n) =~= last);
    }
}

/// How closely the approximate sign agrees with the true one.
#[derive(Clone, Copy, Debug, PartialEq, Eq, Structural)]
pub enum Accuracy {
    /// The sign is exact.
    Exact,
    /// The sign is right on at least 99.9% of the numbers.
    ThreeNines,
    /// The sign is right on at least 99% of the numbers.
    TwoNines,
}

impl Accuracy {
    /// The accuracy that a name stands for: `100%`, `99.9%` or `99%`.
    pub open spec fn of_name(name: Seq<u8>) -> Option<Accuracy> {
        if name == seq![49u8, 48u8, 48u8, 37u8] {
            Some(Accuracy::Exact)
        } else if name == seq![57u8, 57u8, 46u8, 57u8, 37u8] {
            Some(Accuracy::ThreeNines)
        } else if name == seq![57u8, 57u8, 37u8] {
            Some(Accuracy::TwoNines)
        } else {
            None
        }
    }

    /// The accuracy named `100%`, `99.9%` or `99%`; `None` for any other
    /// name.
    pub fn from_name(name: &str) -> (r: Option<Accuracy>)
        ensures
            r == Accuracy::of_name(name.spec_bytes()),
    {
        let b = name.as_bytes();
        if b.len() == 4 && b[0] == 49 && b[1] == 48 && b[2] == 48 && b[3] == 37 {
            assert(b@ =~= seq![49u8, 48u8, 48u8, 37u8]);
            Some(Accuracy::Exact)
        } else if b.len() == 5 && b[0] == 57 && b[1] == 57 && b[2] == 46 && b[3] == 57 && b[4]
            == 37 {
            assert(b@ =~= seq![57u8, 57u8, 46u8, 57u8, 37u8]);
            Some(Accuracy::ThreeNines)
        } else if b.len() == 3 && b[0] == 57 && b[1] == 57 && b[2] == 37 {
            assert(b@ =~= seq![57u8, 57u8, 37u8]);
            Some(Accuracy::TwoNines)
        } else {
            proof {
                let e = seq![49u8, 48u8, 48u8, 37u8];
                let t = seq![57u8, 57u8, 46u8, 57u8, 37u8];
                let h = seq![57u8, 57u8, 37u8];
                if b@ == e {
                    assert(e[0] == 49 && e[1] == 48 && e[2] == 48 && e[3] == 37);
                }
                if b@ == t {
                    assert(t[0] == 57 && t[1] == 57 && t[2] == 46 && t[3] == 57 && t[4] == 37);
                }
                if b@ == h {
                    assert(h[0] == 57 && h[1] == 57 && h[2] == 37);
                }
            }
            None
        }
    }
}

/// The radices with which the sign of a number held by `nprimes` residues,
/// modulo the first primes, is found to the given accuracy; `None` where no
/// schedule is known.
pub open spec fn schedule_of(nprimes: nat, accuracy: Accuracy) -> Option<Seq<u16>> {
    match accuracy {
        Accuracy::Exact => if nprimes == 3 {
            Some(seq![2u16, 2u16, 2u16, 2u16, 2u16])
        } else if nprimes == 4 {
            Some(seq![3u16, 26u16])
        } else if nprimes == 5 {
            Some(seq![3u16, 4u16, 54u16])
        } else if nprimes == 6 {
            Some(seq![5u16, 5u16, 5u16, 60u16])
        } else if nprimes == 7 {
            Some(seq![5u16, 6u16, 6u16, 7u16, 86u16])
        } else if nprimes == 8 {
            Some(seq![5u16, 7u16, 8u16, 8u16, 9u16, 98u16])
        } else {
            None
        },
        Accuracy::ThreeNines => if nprimes == 5 {
            Some(seq![3u16, 5u16, 30u16])
        } else if nprimes == 6 {
            Some(seq![4u16, 5u16, 48u16])
        } else if nprimes == 7 {
            Some(seq![4u16, 5u16, 60u16])
        } else if nprimes == 8 {
            Some(seq![3u16, 5u16, 78u16])
        } else {
            None
        },
        Accuracy::TwoNines => if nprimes == 4 {
            Some(seq![3u16, 18u16])
        } else if nprimes == 5 {
            Some(seq![3u16, 36u16])
        } else if nprimes == 6 {
            Some(seq![3u16, 40u16])
        } else if nprimes == 7 {
            Some(seq![3u16, 40u16])
        } else if nprimes == 8 {
            Some(seq![126u16])
        } else {
            None
        },
    }
}

/// The schedule for `nprimes` residues at the given accuracy.
pub fn schedule(nprimes: usize, accuracy: Accuracy) -> (r: Option<Vec<u16>>)
    ensures
        match r {
            Some(ms) => schedule_of(nprimes as nat, accuracy) == Some(ms@),
            None => schedule_of(nprimes as nat, accuracy) is None,
        },
{
    let r = match accuracy {
        Accuracy::Exact => {
            if nprimes == 3 {
                Some(vec![2u16, 2u16, 2u16, 2u16, 2u16])
            } else if nprimes == 4 {
                Some(vec![3u16, 26u16])
            } else if nprimes == 5 {
                Some(vec![3u16, 4u16, 54u16])
            } else if nprimes == 6 {
                Some(vec![5u16, 5u16, 5u16, 60u16])
            } else if nprimes == 7 {
                Some(vec![5u16, 6u16, 6u16, 7u16, 86u16])
            } else if nprimes == 8 {
                Some(vec![5u16, 7u16, 8u16, 8u16, 9u16, 98u16])
            } else {
                None
            }
        },
        Accuracy::ThreeNines => {
            if nprimes == 5 {
                Some(vec![3u16, 5u16, 30u16])
            } else if nprimes == 6 {
                Some(vec![4u16, 5u16, 48u16])
            } else if nprimes == 7 {
                Some(vec![4u16, 5u16, 60u16])
            } else if nprimes == 8 {
                Some(vec![3u16, 5u16, 78u16])
            } else {
                None
            }
        },
        Accuracy::TwoNines => {
            if nprimes == 4 {
                Some(vec![3u16, 18u16])
            } else if nprimes == 5 {
                Some(vec![3u16, 36u16])
            } else if nprimes == 6 {
                Some(vec![3u16, 40u16])
            } else if nprimes == 7 {
                Some(vec![3u16, 40u16])
            } else if nprimes == 8 {
                Some(vec![126u16])
            } else {
                None
            }
        },
    };
    proof {
        if r is Some {
            assert(schedule_of(nprimes as nat, accuracy)->Some_0 =~= r->Some_0@);
        }
    }
    r
}

/// The most significant digit of the approximate fraction that the number
/// held by `x` is of its modulus, written in the radices `ms`. Each residue
/// is projected to the digits of its share; the shares are added digit by
/// digit.
#[verifier::rlimit(40)]
fn fractional_mixed_radix<F: Fancy>(f: &mut F, x: &CrtBundle<F::Item>, ms: &[u16]) -> (r:
    Result<F::Item, FancyError>)
    requires
        all_wf(x@),
    ensures
        final(f).outputs() == old(f).outputs(),
        match r {
            Ok(w) => frac_ok(x@, nats(ms@)) && carries(
                w@,
                ms@.last() as nat,
                frac_msb(x@, nats(ms@)) as int,
                F::evaluates(),
            ),
            Err(e) => failed(
                e,
                frac_ok(x@, nats(ms@)),
                FancyError::InvalidInput,
                F::infallible(),
            ),
        },
        !frac_ok(x@, nats(ms@)) ==> *final(f) == *old(f),
{
    let ghost xv = x@;
    let ghost msn = nats(ms@);
    let xw = x.wires();
    let nprimes = xw.len();
    let nd = ms.len();
    if nprimes == 0 || nd == 0 {
        return Err(FancyError::InvalidInput);
    }
    let mut j: usize = 0;
    while j < nd
        invariant
            j <= nd,
            nd == ms@.len(),
            msn == nats(ms@),
            forall|i: int| 0 <= i < j ==> ms@[i] >= 2,
        decreases nd - j,
    {
        if ms[j] < 2 {
            assert(msn[j as int] < 2);
            return Err(FancyError::InvalidInput);
        }
        j += 1;
    }
    let ps = x.as_bundle().moduli();
    proof {
        assert(nats(ps@) =~= moduli_of(xv));
    }
    let q = match product_of(ps.as_slice()) {
        Some(q) => q,
        None => {
            return Err(FancyError::InvalidInput);
        },
    };
    let big = match product_of(ms) {
        Some(b) => b,
        None => {
            return Err(FancyError::InvalidInput);
        },
    };
    if big > 0xffff_ffff_ffff_ffff {
        return Err(FancyError::InvalidInput);
    }
    proof {
        assert forall|i: int| 0 <= i < msn.len() implies #[trigger] msn[i] > 0 by {
            assert(ms@[i] >= 2);
        }
        lemma_product_positive(msn);
    }
    let mut coefs: Vec<u16> = Vec::new();
    let mut k: usize = 0;
    while k < nprimes
        invariant
            k <= nprimes,
            nprimes == xw@.len(),
            xv == views(xw@),
            xv == x@,
            all_wf(xv),
            ps@.len() == nprimes,
            forall|i: int| 0 <= i < ps@.len() ==> (#[trigger] ps@[i]) == xv[i].modulus,
            q == crt_modulus(xv),
            coefs@.len() == k,
            forall|i: int|
                0 <= i < k ==> (#[trigger] coefs@[i]) == crt_coef(q as nat, xv[i].modulus)
                    && coefs@[i] < xv[i].modulus && invertible(
                    (q as nat / xv[i].modulus) % xv[i].modulus,
                    xv[i].modulus,
                ),
        decreases nprimes - k,
    {
        let p = ps[k];
        assert(xv[k as int].wf());
        let a: u16 = ((q / (p as u128)) % (p as u128)) as u16;
        let c = match inverse(a, p) {
            Some(c) => c,
            None => {
                assert(!invertible(
                    (crt_modulus(xv) / xv[k as int].modulus) % xv[k as int].modulus,
                    xv[k as int].modulus,
                ));
                return Err(FancyError::InvalidInput);
            },
        };
        proof {
            assert(is_inverse(a as nat, c as nat, p as nat));
            let u = crt_coef(q as nat, p as nat);
            assert(is_inverse(a as nat, u, p as nat));
            lemma_inverse_unique(a as nat, c as nat, u, p as nat);
        }
        coefs.push(c);
        k += 1;
    }
    let tops = match radix_tops(ms, nprimes) {
        Some(t) => t,
        None => {
            return Err(FancyError::InvalidInput);
        },
    };
    proof {
        assert forall|j: int| 0 <= j < msn.len() implies #[trigger] msn[j] >= 2 by {
            assert(ms@[j] >= 2);
        }
        assert forall|i: int| 0 <= i < xv.len() implies invertible(
            (crt_modulus(xv) / (#[trigger] xv[i]).modulus) % xv[i].modulus,
            xv[i].modulus,
        ) by {
            assert(coefs@[i] == crt_coef(q as nat, xv[i].modulus));
        }
        assert(product(msn) <= u64::MAX);
        assert(crt_modulus(xv) <= u128::MAX);
        assert(radices_fit(msn, xv.len()));
    }
    assert(frac_ok(xv, msn));
    let mut ds: Vec<Bundle<F::Item>> = Vec::new();
    let mut k: usize = 0;
    while k < nprimes
        invariant
            k <= nprimes,
            nprimes == xw@.len(),
            nprimes >= 1,
            nd == ms@.len(),
            nd >= 1,
            xv == views(xw@),
            xv == x@,
            all_wf(xv),
            msn == nats(ms@),
            frac_ok(xv, msn),
            forall|i: int| 0 <= i < ms@.len() ==> ms@[i] >= 2,
            1 <= big <= u64::MAX,
            big == product(msn),
            q == crt_modulus(xv),
            coefs@.len() == nprimes,
            forall|i: int|
                0 <= i < nprimes ==> (#[trigger] coefs@[i]) == crt_coef(q as nat, xv[i].modulus)
                    && coefs@[i] < xv[i].modulus,
            f.outputs() == old(f).outputs(),
            ds@.len() == k,
            forall|i: int|
                0 <= i < k ==> all_wf(#[trigger] bundles_view(ds@)[i]) && moduli_of(
                    bundles_view(ds@)[i],
                ) == msn,
            F::evaluates() ==> forall|i: int|
                0 <= i < k ==> mixed_radix_value(#[trigger] bundles_view(ds@)[i]) == frac_term(
                    big as nat,
                    xv[i].value,
                    crt_coef(q as nat, xv[i].modulus),
                    xv[i].modulus,
                ),
        decreases nprimes - k,
    {
        assert(xv[k as int].wf());
        assert(coefs@[k as int] == crt_coef(q as nat, xv[k as int].modulus) && coefs@[k as int]
            < xv[k as int].modulus);
        let ws = digit_wires(f, &xw[k], ms, big, coefs[k])?;
        let b = Bundle::new(ws);
        let ghost before = bundles_view(ds@);
        let ghost term = frac_term(
            big as nat,
            xv[k as int].value,
            crt_coef(q as nat, xv[k as int].modulus),
            xv[k as int].modulus,
        );
        proof {
            assert forall|i: int| 0 <= i < b@.len() implies (#[trigger] b@[i]).wf() && b@[i].modulus
                == ms@[i] by {
                assert(carries(b@[i], ms@[i] as nat, digit_of(term, msn, i) as int, F::evaluates()));
            }
            assert(moduli_of(b@) =~= msn);
            if F::evaluates() {
                assert forall|i: int| 0 <= i < b@.len() implies (#[trigger] b@[i]).value
                    == digit_of(term, moduli_of(b@), i) by {
                    assert(carries(
                        b@[i],
                        ms@[i] as nat,
                        digit_of(term, msn, i) as int,
                        F::evaluates(),
                    ));
                }
                lemma_digits_value(b@, term);
                lemma_small_mod(term, big as nat);
            }
        }
        ds.push(b);
        proof {
            let after = bundles_view(ds@);
            assert(after[k as int] == b@);
            assert forall|i: int| 0 <= i < k + 1 implies all_wf(#[trigger] after[i]) && moduli_of(
                after[i],
            ) == msn by {
                if i < k {
                    assert(after[i] == before[i]);
                }
            }
            if F::evaluates() {
                assert forall|i: int| 0 <= i < k + 1 implies mixed_radix_value(#[trigger] after[i])
                    == frac_term(
                    big as nat,
                    xv[i].value,
                    crt_coef(q as nat, xv[i].modulus),
                    xv[i].modulus,
                ) by {
                    if i < k {
                        assert(after[i] == before[i]);
                    }
                }
            }
        }
        k += 1;
    }
    let ghost dv = bundles_view(ds@);
    proof {
        assert(moduli_of(dv[0]) == msn);
        assert(dv[0].len() == nd);
        assert(same_radices(dv)) by {
            assert forall|i: int| 0 <= i < dv.len() implies same_moduli(#[trigger] dv[i], dv[0]) by {
                assert(moduli_of(dv[i]) == msn);
                assert forall|t: int| 0 <= t < dv[i].len() implies (#[trigger] dv[i][t]).modulus
                    == dv[0][t].modulus by {
                    assert(moduli_of(dv[i])[t] == dv[i][t].modulus);
                    assert(moduli_of(dv[0])[t] == dv[0][t].modulus);
                }
            }
        }
        assert(all_bundles_wf(dv));
        assert(mixed_radix_ok(dv));
        assert(dv[0].last().modulus == ms@.last()) by {
            assert(moduli_of(dv[0])[nd - 1] == dv[0][nd - 1].modulus);
        }
        if F::evaluates() {
            assert forall|i: int| 0 <= i < dv.len() implies (#[trigger] dv[i]).len() == nd by {
                assert(moduli_of(dv[i]) == msn);
            }
            lemma_total_frac(dv, xv, q as nat, big as nat, nd as int);
        }
    }
    mixed_radix_msb(f, ds.as_slice())
}

/// The bit that the last digit of the fraction stands for: 1 where the
/// digit reaches half its radix, and the number so counts as negative.
pub open spec fn sign_of_msb(msb: nat, radix: nat) -> nat {
    if msb >= radix / 2 {
        1
    } else {
        0
    }
}

/// The radices that `relu` uses for the bundle at the named accuracy.
pub open spec fn relu_schedule(x: Seq<Residue>, name: Seq<u8>) -> Option<Seq<u16>> {
    match Accuracy::of_name(name) {
        Some(accuracy) => schedule_of(x.len(), accuracy),
        None => None,
    }
}

/// The accuracy is known by its name, a schedule is known for the number of
/// residues, and the fraction can be computed with it.
pub open spec fn relu_ok(x: Seq<Residue>, name: Seq<u8>) -> bool {
    relu_schedule(x, name) matches Some(ms) && frac_ok(x, nats(ms))
}

/// `z` holds `x` where the sign found with the radices `ms` is 0, and zero
/// where it is 1.
pub open spec fn rectified(z: Seq<Residue>, x: Seq<Residue>, ms: Seq<nat>, evaluates: bool) -> bool {
    &&& z.len() == x.len()
    &&& forall|i: int|
        0 <= i < z.len() ==> carries(
            #[trigger] z[i],
            x[i].modulus,
            if sign_of_msb(frac_msb(x, ms), ms.last()) == 0 {
                x[i].value as int
            } else {
                0
            },
            evaluates,
        )
}

/// Gadgets on residue bundles. Every backend has them.
pub trait CrtGadgets: Fancy + BundleGadgets {
    /// The constant `x` by its residues modulo the prime factors of `q`.
    fn crt_constant_bundle(&mut self, x: u128, q: u128) -> (r: Result<
        CrtBundle<Self::Item>,
        FancyError,
    >)
        ensures
            final(self).outputs() == old(self).outputs(),
            match r {
                Ok(b) => {
                    &&& factorable(q as nat) && x < q
                    &&& all_wf(b@)
                    &&& moduli_of(b@) == table_divisors(q as nat)
                    &&& Self::evaluates() ==> represents(b@, x as int)
                },
                Err(e) => failed(
                    e,
                    factorable(q as nat) && x < q,
                    FancyError::InvalidInput,
                    Self::infallible(),
                ),
            },
    {
        let ps = match factor(q) {
            Some(ps) => ps,
            None => {
                return Err(FancyError::InvalidInput);
            },
        };
        if x >= q {
            return Err(FancyError::InvalidInput);
        }
        proof {
            lemma_table_divisors(q as nat);
            assert forall|i: int| 0 <= i < ps@.len() implies ps@[i] >= 2 by {
                assert(is_prime(nats(ps@)[i]));
            }
        }
        let rs = crt(x, ps.as_slice());
        proof {
            assert forall|i: int| 0 <= i < rs@.len() implies rs@[i] < ps@[i] by {
                assert(nats(rs@)[i] == x as nat % nats(ps@)[i]);
            }
        }
        let b = self.constant_bundle(rs.as_slice(), ps.as_slice())?;
        proof {
            assert forall|i: int| 0 <= i < b@.len() implies (#[trigger] b@[i]).wf() && b@[i].modulus
                == ps@[i] by {
                assert(carries(b@[i], ps@[i] as nat, rs@[i] as int, Self::evaluates()));
            }
            assert(moduli_of(b@) =~= nats(ps@));
            if Self::evaluates() {
                assert forall|i: int| 0 <= i < b@.len() implies (#[trigger] b@[i]).value == (
                x as int) % (b@[i].modulus as int) by {
                    assert(carries(b@[i], ps@[i] as nat, rs@[i] as int, Self::evaluates()));
                    assert(nats(rs@)[i] == x as nat % nats(ps@)[i]);
                }
            }
        }
        Ok(CrtBundle(b))
    }

    /// A bundle of fresh inputs of the garbler, one modulo each prime factor
    /// of `q`. `InvalidInput` where `q` is not a product of distinct primes of
    /// the table, and where the backend refuses an input.
    fn crt_garbler_input_bundle(&mut self, q: u128) -> (r: Result<
        CrtBundle<Self::Item>,
        FancyError,
    >)
        ensures
            final(self).outputs() == old(self).outputs(),
            match r {
                Ok(b) => factorable(q as nat) && all_wf(b@) && moduli_of(b@) == table_divisors(
                    q as nat,
                ),
                Err(e) => e == FancyError::InvalidInput || (!Self::infallible() && e
                    == FancyError::BackendError),
            },
            !factorable(q as nat) ==> r == Err::<CrtBundle<Self::Item>, FancyError>(
                FancyError::InvalidInput,
            ) && *final(self) == *old(self),
            factorable(q as nat) && table_divisors(q as nat).len() == 0 ==> r is Ok
                && *final(self) == *old(self),
    {
        let ps = match factor(q) {
            Some(ps) => ps,
            None => {
                return Err(FancyError::InvalidInput);
            },
        };
        let b = self.garbler_input_bundle(ps.as_slice())?;
        proof {
            assert(moduli_of(b@) =~= nats(ps@));
        }
        Ok(CrtBundle(b))
    }

    /// A bundle of fresh inputs of the evaluator, one modulo each prime
    /// factor of `q`, on the same terms.
    fn crt_evaluator_input_bundle(&mut self, q: u128) -> (r: Result<
        CrtBundle<Self::Item>,
        FancyError,
    >)
        ensures
            final(self).outputs() == old(self).outputs(),
            match r {
                Ok(b) => factorable(q as nat) && all_wf(b@) && moduli_of(b@) == table_divisors(
                    q as nat,
                ),
                Err(e) => e == FancyError::InvalidInput || (!Self::infallible() && e
                    == FancyError::BackendError),
            },
            !factorable(q as nat) ==> r == Err::<CrtBundle<Self::Item>, FancyError>(
                FancyError::InvalidInput,
            ) && *final(self) == *old(self),
            factorable(q as nat) && table_divisors(q as nat).len() == 0 ==> r is Ok
                && *final(self) == *old(self),
    {
        let ps = match factor(q) {
            Some(ps) => ps,
            None => {
                return Err(FancyError::InvalidInput);
            },
        };
        let b = self.evaluator_input_bundle(ps.as_slice())?;
        proof {
            assert(moduli_of(b@) =~= nats(ps@));
        }
        Ok(CrtBundle(b))
    }

    /// Declares the wires of the bundle outputs, in order.
    fn crt_output(&mut self, x: &CrtBundle<Self::Item>) -> (r: Result<(), FancyError>)
        requires
            all_wf(x@),
        ensures
            match r {
                Ok(_) => final(self).outputs() == old(self).outputs() + x@,
                Err(e) => backend_failure(e, Self::infallible()) && exists|
                    k: int,
                |
                    0 <= k < x@.len() && final(self).outputs() == old(self).outputs() + (
                    #[trigger] x@.take(k)),
            },
    {
        self.output_bundle(x.as_bundle())
    }

    /// The sum of two numbers held by residues of the same moduli: where
    /// the bundles hold `a` and `b`, the result holds `a + b` modulo the
    /// product of the moduli.
    fn crt_add(&mut self, x: &CrtBundle<Self::Item>, y: &CrtBundle<Self::Item>) -> (r: Result<
        CrtBundle<Self::Item>,
        FancyError,
    >)
        requires
            all_wf(x@),
            all_wf(y@),
        ensures
            final(self).outputs() == old(self).outputs(),
            match r {
                Ok(z) => {
                    &&& same_moduli(x@, y@)
                    &&& wirewise(WireOp::Add, z@, x@, y@, Self::evaluates())
                    &&& Self::evaluates() ==> forall|a: int, b: int|
                        #![trigger represents(x@, a), represents(y@, b)]
                        represents(x@, a) && represents(y@, b) ==> represents(
                            z@,
                            (a + b) % (crt_modulus(x@) as int),
                        )
                },
                Err(e) => failed(
                    e,
                    same_moduli(x@, y@),
                    FancyError::UnequalModuli,
                    Self::infallible(),
                ),
            },
    {
        let z = self.add_bundles(x.as_bundle(), y.as_bundle())?;
        proof {
            if Self::evaluates() {
                assert forall|a: int, b: int|
                    #![trigger represents(x@, a), represents(y@, b)]
                    represents(x@, a) && represents(y@, b) implies represents(
                    z@,
                    (a + b) % (crt_modulus(x@) as int),
                ) by {
                    lemma_crt_add(z@, x@, y@, a, b);
                }
            }
        }
        Ok(CrtBundle(z))
    }

    /// The difference of two numbers held by residues of the same moduli,
    /// modulo the product of the moduli.
    fn crt_sub(&mut self, x: &CrtBundle<Self::Item>, y: &CrtBundle<Self::Item>) -> (r: Result<
        CrtBundle<Self::Item>,
        FancyError,
    >)
        requires
            all_wf(x@),
            all_wf(y@),
        ensures
            final(self).outputs() == old(self).outputs(),
            match r {
                Ok(z) => {
                    &&& same_moduli(x@, y@)
                    &&& wirewise(WireOp::Sub, z@, x@, y@, Self::evaluates())
                    &&& Self::evaluates() ==> forall|a: int, b: int|
                        #![trigger represents(x@, a), represents(y@, b)]
                        represents(x@, a) && represents(y@, b) ==> represents(
                            z@,
                            (a - b) % (crt_modulus(x@) as int),
                        )
                },
                Err(e) => failed(
                    e,
                    same_moduli(x@, y@),
                    FancyError::UnequalModuli,
                    Self::infallible(),
                ),
            },
    {
        let z = self.sub_bundles(x.as_bundle(), y.as_bundle())?;
        proof {
            if Self::evaluates() {
                assert forall|a: int, b: int|
                    #![trigger represents(x@, a), represents(y@, b)]
                    represents(x@, a) && represents(y@, b) implies represents(
                    z@,
                    (a - b) % (crt_modulus(x@) as int),
                ) by {
                    lemma_crt_sub(z@, x@, y@, a, b);
                }
            }
        }
        Ok(CrtBundle(z))
    }

    /// The product of two numbers held by residues of the same moduli,
    /// modulo the product of the moduli.
    fn crt_mul(&mut self, x: &CrtBundle<Self::Item>, y: &CrtBundle<Self::Item>) -> (r: Result<
        CrtBundle<Self::Item>,
        FancyError,
    >)
        requires
            all_wf(x@),
            all_wf(y@),
        ensures
            final(self).outputs() == old(self).outputs(),
            match r {
                Ok(z) => {
                    &&& same_moduli(x@, y@)
                    &&& wirewise(WireOp::Mul, z@, x@, y@, Self::evaluates())
                    &&& Self::evaluates() ==> forall|a: int, b: int|
                        #![trigger represents(x@, a), represents(y@, b)]
                        represents(x@, a) && represents(y@, b) ==> represents(
                            z@,
                            (a * b) % (crt_modulus(x@) as int),
                        )
                },
                Err(e) => failed(
                    e,
                    same_moduli(x@, y@),
                    FancyError::UnequalModuli,
                    Self::infallible(),
                ),
            },
    {
        let z = self.mul_bundles(x.as_bundle(), y.as_bundle())?;
        proof {
            if Self::evaluates() {
                assert forall|a: int, b: int|
                    #![trigger represents(x@, a), represents(y@, b)]
                    represents(x@, a) && represents(y@, b) implies represents(
                    z@,
                    (a * b) % (crt_modulus(x@) as int),
                ) by {
                    lemma_crt_mul(z@, x@, y@, a, b);
                }
            }
        }
        Ok(CrtBundle(z))
    }

    /// The number held by the bundle times the constant `c`, modulo the
    /// product of the moduli. Each wire is multiplied by `c` reduced modulo
    /// the wire's modulus.
    fn crt_cmul(&mut self, x: &CrtBundle<Self::Item>, c: u128) -> (r: Result<
        CrtBundle<Self::Item>,
        FancyError,
    >)
        requires
            all_wf(x@),
        ensures
            final(self).outputs() == old(self).outputs(),
            match r {
                Ok(z) => {
                    &&& scaled(z@, x@, c as nat, Self::evaluates())
                    &&& Self::evaluates() ==> forall|a: int| #[trigger]
                        represents(x@, a) ==> represents(
                            z@,
                            (c * a) % (crt_modulus(x@) as int),
                        )
                },
                Err(e) => backend_failure(e, Self::infallible()),
            },
    {
        let xw = x.wires();
        let ghost xs = x@;
        let mut zs: Vec<Self::Item> = Vec::new();
        let mut i: usize = 0;
        while i < xw.len()
            invariant
                i <= xw@.len(),
                xs == views(xw@),
                xs == x@,
                all_wf(xs),
                self.outputs() == old(self).outputs(),
                zs@.len() == i,
                forall|j: int|
                    0 <= j < i ==> carries(
                        #[trigger] views(zs@)[j],
                        xs[j].modulus,
                        ((xs[j].value * c as nat) % xs[j].modulus) as int,
                        Self::evaluates(),
                    ),
            decreases xw@.len() - i,
        {
            assert(xs[i as int].wf());
            let p = xw[i].modulus();
            let cp: u16 = (c % (p as u128)) as u16;
            let w = self.cmul(&xw[i], cp)?;
            proof {
                lemma_mul_mod_noop_right(xs[i as int].value as int, c as int, p as int);
            }
            let ghost before = views(zs@);
            zs.push(w);
            assert forall|j: int| 0 <= j < i + 1 implies carries(
                #[trigger] views(zs@)[j],
                xs[j].modulus,
                ((xs[j].value * c as nat) % xs[j].modulus) as int,
                Self::evaluates(),
            ) by {
                if j < i {
                    assert(views(zs@)[j] == before[j]);
                }
            }
            i += 1;
        }
        let z = CrtBundle::new(zs);
        proof {
            if Self::evaluates() {
                assert forall|a: int| #[trigger] represents(x@, a) implies represents(
                    z@,
                    (c * a) % (crt_modulus(x@) as int),
                ) by {
                    lemma_crt_cmul(z@, x@, c as nat, a);
                }
            }
        }
        Ok(z)
    }

    /// From a bit `r`, the number `1 - 2 * r` modulo `q` by its residues: 1
    /// where the bit is 0, -1 where it is 1.
    fn zero_one_to_one_negative_one(&mut self, r: &Self::Item, q: u128) -> (res: Result<
        CrtBundle<Self::Item>,
        FancyError,
    >)
        requires
            r@.wf(),
        ensures
            final(self).outputs() == old(self).outputs(),
            match res {
                Ok(b) => {
                    &&& r@.modulus == 2 && factorable(q as nat)
                    &&& all_wf(b@)
                    &&& moduli_of(b@) == table_divisors(q as nat)
                    &&& Self::evaluates() ==> represents(b@, 1 - 2 * r@.value)
                },
                Err(e) => failed(
                    e,
                    r@.modulus == 2 && factorable(q as nat),
                    if r@.modulus == 2 {
                        FancyError::InvalidInput
                    } else {
                        FancyError::UnequalModuli
                    },
                    Self::infallible(),
                ),
            },
    {
        if r.modulus() != 2 {
            return Err(FancyError::UnequalModuli);
        }
        let ps = match factor(q) {
            Some(ps) => ps,
            None => {
                return Err(FancyError::InvalidInput);
            },
        };
        proof {
            lemma_table_divisors(q as nat);
        }
        let mut ws: Vec<Self::Item> = Vec::new();
        let mut i: usize = 0;
        while i < ps.len()
            invariant
                i <= ps@.len(),
                r@.wf(),
                r@.modulus == 2,
                factorable(q as nat),
                forall|j: int| 0 <= j < ps@.len() ==> is_prime(#[trigger] nats(ps@)[j]),
                self.outputs() == old(self).outputs(),
                ws@.len() == i,
                forall|j: int|
                    0 <= j < i ==> carries(
                        #[trigger] views(ws@)[j],
                        ps@[j] as nat,
                        (1 - 2 * r@.value) % (ps@[j] as int),
                        Self::evaluates(),
                    ),
            decreases ps@.len() - i,
        {
            let p = ps[i];
            proof {
                assert(is_prime(nats(ps@)[i as int]));
            }
            let mut tt: Vec<u16> = Vec::new();
            tt.push(1);
            tt.push(p - 1);
            let w = self.proj(r, p, tt.as_slice())?;
            proof {
                if Self::evaluates() {
                    if r@.value == 0 {
                        lemma_small_mod(1, p as nat);
                    } else {
                        lemma_mod_add_multiples_vanish(-1, p as int);
                        lemma_small_mod((p - 1) as nat, p as nat);
                    }
                }
            }
            let ghost before = views(ws@);
            ws.push(w);
            assert forall|j: int| 0 <= j < i + 1 implies carries(
                #[trigger] views(ws@)[j],
                ps@[j] as nat,
                (1 - 2 * r@.value) % (ps@[j] as int),
                Self::evaluates(),
            ) by {
                if j < i {
                    assert(views(ws@)[j] == before[j]);
                }
            }
            i += 1;
        }
        let b = CrtBundle::new(ws);
        proof {
            assert forall|j: int| 0 <= j < b@.len() implies (#[trigger] b@[j]).wf() && b@[j].modulus
                == ps@[j] by {
                assert(carries(
                    b@[j],
                    ps@[j] as nat,
                    (1 - 2 * r@.value) % (ps@[j] as int),
                    Self::evaluates(),
                ));
            }
            assert(moduli_of(b@) =~= nats(ps@));
            if Self::evaluates() {
                assert forall|j: int| 0 <= j < b@.len() implies (#[trigger] b@[j]).value == (1 - 2
                    * r@.value) % (b@[j].modulus as int) by {
                    assert(carries(
                        b@[j],
                        ps@[j] as nat,
                        (1 - 2 * r@.value) % (ps@[j] as int),
                        Self::evaluates(),
                    ));
                }
            }
        }
        Ok(b)
    }

    /// The most significant digit of the sum of numbers written digit by
    /// digit with the same radices.
    fn mixed_radix_addition_msb_only(&mut self, xs: &[Bundle<Self::Item>]) -> (r: Result<
        Self::Item,
        FancyError,
    >)
        requires
            all_bundles_wf(bundles_view(xs@)),
        ensures
            final(self).outputs() == old(self).outputs(),
            match r {
                Ok(w) => mixed_radix_ok(bundles_view(xs@)) && carries(
                    w@,
                    bundles_view(xs@)[0].last().modulus,
                    msb_of_sum(bundles_view(xs@)) as int,
                    Self::evaluates(),
                ),
                Err(e) => failed(
                    e,
                    mixed_radix_ok(bundles_view(xs@)),
                    mixed_radix_error(bundles_view(xs@)),
                    Self::infallible(),
                ),
            },
    {
        mixed_radix_msb(self, xs)
    }

    /// The most significant digit, in the radices `ms`, of the approximate
    /// fraction that the number held by `x` is of its modulus.
    fn crt_fractional_mixed_radix(&mut self, x: &CrtBundle<Self::Item>, ms: &[u16]) -> (r: Result<
        Self::Item,
        FancyError,
    >)
        requires
            all_wf(x@),
        ensures
            final(self).outputs() == old(self).outputs(),
            match r {
                Ok(w) => frac_ok(x@, nats(ms@)) && carries(
                    w@,
                    ms@.last() as nat,
                    frac_msb(x@, nats(ms@)) as int,
                    Self::evaluates(),
                ),
                Err(e) => failed(
                    e,
                    frac_ok(x@, nats(ms@)),
                    FancyError::InvalidInput,
                    Self::infallible(),
                ),
            },
            !frac_ok(x@, nats(ms@)) ==> *final(self) == *old(self),
    {
        fractional_mixed_radix(self, x, ms)
    }

    /// The sign of the number held by `x`, found by way of the radices
    /// `ms`: the bundle is projected to the digits of the fraction that the
    /// number is of its modulus, and the last digit to a bit, 0 for the
    /// lower half of the range and 1 for the upper half. How often the bit
    /// is the true sign depends on the radices; `sign::lemma_sign_found` says
    /// for which numbers it is, whatever the radices.
    fn sgn(&mut self, x: &CrtBundle<Self::Item>, ms: &[u16]) -> (r: Result<Self::Item, FancyError>)
        requires
            all_wf(x@),
        ensures
            final(self).outputs() == old(self).outputs(),
            match r {
                Ok(w) => frac_ok(x@, nats(ms@)) && carries(
                    w@,
                    2,
                    sign_of_msb(frac_msb(x@, nats(ms@)), ms@.last() as nat) as int,
                    Self::evaluates(),
                ),
                Err(e) => failed(
                    e,
                    frac_ok(x@, nats(ms@)),
                    FancyError::InvalidInput,
                    Self::infallible(),
                ),
            },
            !frac_ok(x@, nats(ms@)) ==> *final(self) == *old(self),
    {
        let res = fractional_mixed_radix(self, x, ms)?;
        let p = ms[ms.len() - 1];
        proof {
            assert(nats(ms@)[ms@.len() - 1] >= 2);
        }
        let mut tt: Vec<u16> = Vec::new();
        let mut v: u16 = 0;
        while v < p
            invariant
                v <= p,
                tt@.len() == v,
                forall|j: int|
                    0 <= j < tt@.len() ==> #[trigger] tt@[j] == sign_of_msb(j as nat, p as nat),
            decreases p - v,
        {
            tt.push(if v >= p / 2 { 1 } else { 0 });
            v += 1;
        }
        self.proj(&res, 2, tt.as_slice())
    }

    /// The number held by `x` where it is not negative, and zero where it
    /// is, the sign found to the accuracy named: `100%`, `99.9%` or `99%`.
    /// `InvalidInput` for another name and where no schedule of radices is
    /// known for the number of residues.
    fn relu(&mut self, x: &CrtBundle<Self::Item>, accuracy: &str) -> (r: Result<
        CrtBundle<Self::Item>,
        FancyError,
    >)
        requires
            all_wf(x@),
        ensures
            final(self).outputs() == old(self).outputs(),
            match r {
                Ok(z) => relu_ok(x@, accuracy.spec_bytes()) && rectified(
                    z@,
                    x@,
                    nats(relu_schedule(x@, accuracy.spec_bytes())->Some_0),
                    Self::evaluates(),
                ),
                Err(e) => failed(
                    e,
                    relu_ok(x@, accuracy.spec_bytes()),
                    FancyError::InvalidInput,
                    Self::infallible(),
                ),
            },
            !relu_ok(x@, accuracy.spec_bytes()) ==> *final(self) == *old(self),
    {
        let level = match Accuracy::from_name(accuracy) {
            Some(level) => level,
            None => {
                return Err(FancyError::InvalidInput);
            },
        };
        let xw = x.wires();
        let ms = match schedule(xw.len(), level) {
            Some(ms) => ms,
            None => {
                return Err(FancyError::InvalidInput);
            },
        };
        let ghost msn = nats(ms@);
        assert(relu_schedule(x@, accuracy.spec_bytes()) == Some(ms@));
        let res = fractional_mixed_radix(self, x, ms.as_slice())?;
        let p = ms[ms.len() - 1];
        proof {
            assert(msn[ms@.len() - 1] >= 2);
        }
        let mut tt: Vec<u16> = Vec::new();
        let mut v: u16 = 0;
        while v < p
            invariant
                v <= p,
                tt@.len() == v,
                forall|j: int|
                    0 <= j < tt@.len() ==> #[trigger] tt@[j] == 1 - sign_of_msb(j as nat, p as nat),
            decreases p - v,
        {
            tt.push(if v < p / 2 { 1 } else { 0 });
            v += 1;
        }
        let mask = self.proj(&res, 2, tt.as_slice())?;
        let ghost xs = x@;
        let ghost keep = sign_of_msb(frac_msb(xs, msn), p as nat) == 0;
        let mut zs: Vec<Self::Item> = Vec::new();
        let mut i: usize = 0;
        while i < xw.len()
            invariant
                i <= xw@.len(),
                xs == views(xw@),
                xs == x@,
                all_wf(xs),
                msn == nats(ms@),
                relu_schedule(xs, accuracy.spec_bytes()) == Some(ms@),
                frac_ok(xs, msn),
                mask@.wf(),
                mask@.modulus == 2,
                Self::evaluates() ==> mask@.value == if keep { 1nat } else { 0nat },
                self.outputs() == old(self).outputs(),
                zs@.len() == i,
                forall|j: int|
                    0 <= j < i ==> carries(
                        #[trigger] views(zs@)[j],
                        xs[j].modulus,
                        if keep { xs[j].value as int } else { 0 },
                        Self::evaluates(),
                    ),
            decreases xw@.len() - i,
        {
            assert(xs[i as int].wf());
            let w = self.mul(&xw[i], &mask)?;
            proof {
                assert(product_modulus(xs[i as int].modulus, 2) == xs[i as int].modulus);
                if Self::evaluates() {
                    let a = xs[i as int].value;
                    let b = mask@.value;
                    assert(a * b == if b == 0 { 0 } else { a }) by (nonlinear_arith)
                        requires
                            b < 2,
                    ;
                    lemma_small_mod(a, xs[i as int].modulus);
                    lemma_small_mod(0, xs[i as int].modulus);
                }
            }
            let ghost before = views(zs@);
            zs.push(w);
            assert forall|j: int| 0 <= j < i + 1 implies carries(
                #[trigger] views(zs@)[j],
                xs[j].modulus,
                if keep { xs[j].value as int } else { 0 },
                Self::evaluates(),
            ) by {
                if j < i {
                    assert(views(zs@)[j] == before[j]);
                }
            }
            i += 1;
        }
        Ok(CrtBundle::new(zs))
    }
}

impl<F: Fancy> CrtGadgets for F {

}

} // verus!
