//! A discretised neural network as a circuit: two layers of weighted sums
//! over residue bundles, with the sign as the activation between them.

use vstd::prelude::*;
use crate::error::{FancyError, failed, backend_failure};
use crate::wire::{HasModulus, Residue, carries, all_wf, same_moduli, moduli_of};
use crate::number_theory::{nats, product};
use crate::sign::{sign_is_sure, half_units, lemma_sign_found};
use crate::fancy::Fancy;
use crate::bundle::WireOp;
use crate::crt::{
    CrtBundle,
    CrtGadgets,
    crt_views,
    represents,
    frac_ok,
    frac_moduli_ok,
    frac_check,
    lemma_frac_ok_moduli,
    frac_msb,
    sign_of_msb,
};
use crate::util::{factor, factorable, table_divisors, lemma_table_divisors};

verus! {

/// The widths of the layers: inputs, hidden neurons, outputs.
pub const TOPOLOGY: [usize; 3] = [256, 30, 10];

/// The one radix with which the hidden neurons find their sign.
pub const SIGN_RADIX: u16 = 128;

/// The number `x` as a number modulo `q`: its positive representative.
pub fn to_mod_q(q: u128, x: i16) -> (r: u128)
    requires
        q > 0,
    ensures
        r == (x as int) % (q as int),
{
    if x >= 0 {
        (x as u128) % q
    } else {
        let m: u128 = ((-(x as i32)) as u128) % q;
        proof {
            let xi = x as int;
            let qi = q as int;
            // x = -(q * k + m) with 0 <= m < q
            vstd::arithmetic::div_mod::lemma_fundamental_div_mod(-xi, qi);
            let k = (-xi) / qi;
            if m == 0 {
                assert(xi == qi * (-k) + 0) by (nonlinear_arith)
                    requires
                        -xi == qi * k + 0,
                ;
                vstd::arithmetic::div_mod::lemma_fundamental_div_mod_converse(xi, qi, -k, 0);
            } else {
                assert(xi == (-k - 1) * qi + (qi - m)) by (nonlinear_arith)
                    requires
                        -xi == qi * k + m,
                ;
                vstd::arithmetic::div_mod::lemma_fundamental_div_mod_converse(
                    xi,
                    qi,
                    -k - 1,
                    qi - m,
                );
            }
        }
        if m == 0 {
            0
        } else {
            q - m
        }
    }
}

/// The number that `x` stands for modulo `q` when the lower half of the
/// range is read as itself and the upper half, from `q / 2` on, as
/// negative.
pub open spec fn signed_mod_q(q: nat, x: nat) -> int {
    if 2 * x < q {
        x as int
    } else {
        x - q
    }
}

/// A number of the lower half of the signed range, or the negative of one
/// of the upper half, is the signed number that its positive representative
/// stands for.
pub proof fn lemma_signed_roundtrip(q: nat, x: int)
    requires
        q > 0,
        -(q as int) <= 2 * x < q,
    ensures
        signed_mod_q(q, (x % (q as int)) as nat) == x,
{
    if x >= 0 {
        vstd::arithmetic::div_mod::lemma_small_mod(x as nat, q);
    } else {
        vstd::arithmetic::div_mod::lemma_mod_add_multiples_vanish(x, q as int);
        vstd::arithmetic::div_mod::lemma_small_mod((x + q) as nat, q);
    }
}

/// The signed number that `x` stands for modulo `q`.
pub fn from_mod_q(q: u128, x: u128) -> (r: i32)
    requires
        x < q,
        q <= u32::MAX,
    ensures
        r == signed_mod_q(q as nat, x as nat),
{
    if 2 * x < q {
        x as i32
    } else {
        -((q - x) as i32)
    }
}

/// The first place that holds the largest of the numbers; 0 where there is
/// none.
pub fn argmax(res: &[i32]) -> (winner: usize)
    ensures
        res@.len() == 0 ==> winner == 0,
        res@.len() > 0 ==> winner < res@.len(),
        forall|i: int| 0 <= i < res@.len() ==> res@[i] <= res@[winner as int],
        forall|i: int| 0 <= i < winner ==> res@[i] < res@[winner as int],
{
    let mut winner: usize = 0;
    let mut i: usize = 1;
    while i < res.len()
        invariant
            1 <= i,
            res@.len() > 0 ==> winner < i && winner < res@.len(),
            res@.len() == 0 ==> winner == 0,
            forall|j: int| 0 <= j < i && j < res@.len() ==> res@[j] <= res@[winner as int],
            forall|j: int| 0 <= j < winner ==> res@[j] < res@[winner as int],
        decreases res@.len() - i,
    {
        if res[i] > res[winner] {
            winner = i;
        }
        i += 1;
    }
    winner
}

/// The numbers as numbers modulo `q`.
pub fn to_mod_q_all(q: u128, values: &[i16]) -> (out: Vec<u128>)
    requires
        q > 0,
    ensures
        out@.len() == values@.len(),
        forall|i: int| 0 <= i < out@.len() ==> #[trigger] out@[i] == (values@[i] as int) % (q as int),
{
    let mut out: Vec<u128> = Vec::new();
    let mut i: usize = 0;
    while i < values.len()
        invariant
            i <= values@.len(),
            q > 0,
            out@.len() == i,
            forall|j: int| 0 <= j < i ==> #[trigger] out@[j] == (values@[j] as int) % (q as int),
        decreases values@.len() - i,
    {
        out.push(to_mod_q(q, values[i]));
        i += 1;
    }
    out
}

/// `nrows` rows of `ncols` numbers each, cut from the flat list from place
/// `start` on; `None` where the list is too short.
pub fn rows_from(values: &[u128], start: usize, nrows: usize, ncols: usize) -> (r: Option<
    Vec<Vec<u128>>,
>)
    ensures
        match r {
            Some(m) => {
                &&& start + nrows * ncols <= values@.len()
                &&& m@.len() == nrows
                &&& forall|i: int| 0 <= i < nrows ==> (#[trigger] m@[i])@.len() == ncols
                &&& forall|i: int, j: int|
                    0 <= i < nrows && 0 <= j < ncols ==> #[trigger] m@[i]@[j] == values@[start + i
                        * ncols + j]
            },
            None => start + nrows * ncols > values@.len(),
        },
{
    let len = values.len();
    let total = match nrows.checked_mul(ncols) {
        Some(t) => t,
        None => {
            assert(start + nrows * ncols > len);
            return None;
        },
    };
    let end = match start.checked_add(total) {
        Some(e) => e,
        None => {
            assert(start + nrows * ncols > len);
            return None;
        },
    };
    if end > len {
        return None;
    }
    let mut m: Vec<Vec<u128>> = Vec::new();
    let mut i: usize = 0;
    while i < nrows
        invariant
            i <= nrows,
            total == nrows * ncols,
            end == start + total,
            end <= values@.len(),
            m@.len() == i,
            forall|a: int| 0 <= a < i ==> (#[trigger] m@[a])@.len() == ncols,
            forall|a: int, b: int|
                0 <= a < i && 0 <= b < ncols ==> #[trigger] m@[a]@[b] == values@[start + a * ncols
                    + b],
        decreases nrows - i,
    {
        let mut row: Vec<u128> = Vec::new();
        let mut j: usize = 0;
        assert(i * ncols + ncols <= nrows * ncols) by (nonlinear_arith)
            requires
                i < nrows,
                ncols >= 0,
        ;
        while j < ncols
            invariant
                j <= ncols,
                i < nrows,
                i * ncols + ncols <= nrows * ncols,
                total == nrows * ncols,
                end == start + total,
                end <= values@.len(),
                row@.len() == j,
                forall|b: int| 0 <= b < j ==> #[trigger] row@[b] == values@[start + i * ncols + b],
            decreases ncols - j,
        {
            assert(i * ncols >= 0) by (nonlinear_arith)
                requires
                    i >= 0,
                    ncols >= 0,
            ;
            row.push(values[start + i * ncols + j]);
            j += 1;
        }
        m.push(row);
        i += 1;
    }
    Some(m)
}

/// Column `j` of a matrix of weights.
pub open spec fn weights_column(w: Seq<Vec<u128>>, j: int) -> Seq<nat> {
    Seq::new(w.len(), |i: int| w[i]@[j] as nat)
}

/// The weights have `nin` rows of `nout` columns each.
pub open spec fn has_shape(w: Seq<Vec<u128>>, nin: nat, nout: nat) -> bool {
    &&& w.len() == nin
    &&& forall|i: int| 0 <= i < w.len() ==> (#[trigger] w[i])@.len() == nout
}

/// Residue `t` of the weighted sum of the bundles `xs`, with the weights
/// `ws`, on top of the bundle `bias`: each bundle in turn is multiplied by
/// its weight and added, everything modulo the modulus at place `t`.
pub open spec fn affine_value(xs: Seq<Seq<Residue>>, ws: Seq<nat>, bias: Seq<Residue>, t: int) -> nat
    decreases xs.len(),
{
    if xs.len() == 0 {
        bias[t].value
    } else {
        let p = bias[t].modulus;
        (affine_value(xs.drop_last(), ws.drop_last(), bias, t) + (xs.last()[t].value * ws.last())
            % p) % p
    }
}

/// `z` is the weighted sum of the bundles `xs` on top of `bias`.
pub open spec fn is_affine(
    z: Seq<Residue>,
    xs: Seq<Seq<Residue>>,
    ws: Seq<nat>,
    bias: Seq<Residue>,
    evaluates: bool,
) -> bool {
    &&& z.len() == bias.len()
    &&& forall|t: int|
        0 <= t < z.len() ==> carries(
            #[trigger] z[t],
            bias[t].modulus,
            affine_value(xs, ws, bias, t) as int,
            evaluates,
        )
}

/// The bias plus the sum of the numbers, each times its weight.
pub open spec fn weighted_sum(vals: Seq<int>, ws: Seq<nat>, b: int) -> int
    decreases vals.len(),
{
    if vals.len() == 0 {
        b
    } else {
        weighted_sum(vals.drop_last(), ws.drop_last(), b) + ws.last() * vals.last()
    }
}

/// Where the bundles hold the numbers `vals` and the bias holds `b`, each
/// residue of their weighted sum is that of the weighted sum of the
/// numbers.
pub proof fn lemma_affine_value(
    xs: Seq<Seq<Residue>>,
    ws: Seq<nat>,
    bias: Seq<Residue>,
    vals: Seq<int>,
    b: int,
    t: int,
)
    requires
        all_wf(bias),
        0 <= t < bias.len(),
        xs.len() == ws.len(),
        xs.len() == vals.len(),
        forall|i: int| 0 <= i < xs.len() ==> moduli_of(#[trigger] xs[i]) == moduli_of(bias),
        forall|i: int| 0 <= i < xs.len() ==> represents(#[trigger] xs[i], vals[i]),
        represents(bias, b),
    ensures
        affine_value(xs, ws, bias, t) == weighted_sum(vals, ws, b) % (bias[t].modulus as int),
    decreases xs.len(),
{
    let p = bias[t].modulus as int;
    assert(bias[t].wf());
    if xs.len() > 0 {
        let xr = xs.drop_last();
        let wr = ws.drop_last();
        let vr = vals.drop_last();
        assert forall|i: int| 0 <= i < xr.len() implies moduli_of(#[trigger] xr[i]) == moduli_of(
            bias,
        ) by {
            assert(xr[i] == xs[i]);
        }
        assert forall|i: int| 0 <= i < xr.len() implies represents(#[trigger] xr[i], vr[i]) by {
            assert(xr[i] == xs[i]);
        }
        lemma_affine_value(xr, wr, bias, vr, b, t);
        let last = xs[xs.len() - 1];
        let v = vals[vals.len() - 1];
        let w = ws[ws.len() - 1] as int;
        assert(represents(last, v));
        assert(moduli_of(last) == moduli_of(bias));
        assert(last.len() == moduli_of(last).len());
        assert(bias.len() == moduli_of(bias).len());
        assert(moduli_of(last)[t] == last[t].modulus);
        assert(moduli_of(bias)[t] == bias[t].modulus);
        assert(last[t].value == v % p);
        let rest = weighted_sum(vr, wr, b);
        vstd::arithmetic::div_mod::lemma_mul_mod_noop_left(v, w, p);
        vstd::arithmetic::div_mod::lemma_add_mod_noop(rest, v * w, p);
        assert(v * w == w * v) by (nonlinear_arith);
    }
}

/// Where the bundles hold the numbers `vals` and the bias holds `b`, their
/// weighted sum holds the weighted sum of the numbers.
pub proof fn lemma_affine_represents(
    z: Seq<Residue>,
    xs: Seq<Seq<Residue>>,
    ws: Seq<nat>,
    bias: Seq<Residue>,
    vals: Seq<int>,
    b: int,
)
    requires
        all_wf(bias),
        xs.len() == ws.len(),
        xs.len() == vals.len(),
        forall|i: int| 0 <= i < xs.len() ==> moduli_of(#[trigger] xs[i]) == moduli_of(bias),
        forall|i: int| 0 <= i < xs.len() ==> represents(#[trigger] xs[i], vals[i]),
        represents(bias, b),
        is_affine(z, xs, ws, bias, true),
    ensures
        represents(z, weighted_sum(vals, ws, b)),
{
    assert forall|t: int| 0 <= t < z.len() implies (#[trigger] z[t]).value == weighted_sum(
        vals,
        ws,
        b,
    ) % (z[t].modulus as int) by {
        assert(carries(z[t], bias[t].modulus, affine_value(xs, ws, bias, t) as int, true));
        lemma_affine_value(xs, ws, bias, vals, b, t);
    }
}

/// What a hidden neuron passes on, as a number: where its sum holds the
/// number `z` below `q`, and `z` keeps its distance from the ends of its
/// half of the range, the activation holds 1 for `z` in the lower half and
/// -1 for `z` from the middle of the range on.
pub proof fn lemma_activation(
    acts: Seq<Seq<Residue>>,
    hidden: Seq<Seq<Residue>>,
    q: nat,
    j: int,
    z: nat,
)
    requires
        are_activations(acts, hidden, true),
        0 <= j < hidden.len(),
        all_wf(hidden[j]),
        moduli_of(hidden[j]) == table_divisors(q),
        factorable(q),
        represents(hidden[j], z as int),
        z < q,
        sign_is_sure(q, product(sign_radices()), half_units(sign_radices()), hidden[j].len(), z),
    ensures
        represents(acts[j], if 2 * z < q { 1int } else { -1int }),
{
    lemma_table_divisors(q);
    assert(frac_ok(hidden[j], sign_radices()));
    lemma_sign_found(hidden[j], sign_radices(), z);
    assert(sign_radices().last() == 128);
}

/// Every bundle of the list is well formed and has the moduli `ms`.
pub open spec fn all_with_moduli(s: Seq<Seq<Residue>>, ms: Seq<nat>) -> bool {
    forall|i: int| 0 <= i < s.len() ==> all_wf(#[trigger] s[i]) && moduli_of(s[i]) == ms
}

/// Bundles with the same moduli agree place by place.
pub proof fn lemma_same_moduli(a: Seq<Residue>, b: Seq<Residue>)
    requires
        moduli_of(a) == moduli_of(b),
    ensures
        same_moduli(a, b),
{
    assert(a.len() == moduli_of(a).len());
    assert(b.len() == moduli_of(b).len());
    assert forall|i: int| 0 <= i < a.len() implies (#[trigger] a[i]).modulus == b[i].modulus by {
        assert(moduli_of(a)[i] == a[i].modulus);
        assert(moduli_of(b)[i] == b[i].modulus);
    }
}

/// The weighted sum of the bundles `xs`, each with its weight from column
/// `j`, on top of `bias`.
#[verifier::rlimit(40)]
fn neuron<F: Fancy>(
    f: &mut F,
    xs: &Vec<CrtBundle<F::Item>>,
    w: &Vec<Vec<u128>>,
    j: usize,
    bias: &CrtBundle<F::Item>,
) -> (r: Result<CrtBundle<F::Item>, FancyError>)
    requires
        all_wf(bias@),
        all_with_moduli(crt_views(xs@), moduli_of(bias@)),
        w@.len() == xs@.len(),
        forall|i: int| 0 <= i < w@.len() ==> j < (#[trigger] w@[i])@.len(),
    ensures
        final(f).outputs() == old(f).outputs(),
        match r {
            Ok(z) => all_wf(z@) && moduli_of(z@) == moduli_of(bias@) && is_affine(
                z@,
                crt_views(xs@),
                weights_column(w@, j as int),
                bias@,
                F::evaluates(),
            ),
            Err(e) => backend_failure(e, F::infallible()),
        },
{
    let ghost xv = crt_views(xs@);
    let ghost ws = weights_column(w@, j as int);
    let ghost bv = bias@;
    let mut acc = bias.duplicate();
    let mut i: usize = 0;
    proof {
        assert(xv.take(0) =~= Seq::<Seq<Residue>>::empty());
        assert forall|t: int| 0 <= t < bv.len() implies carries(
            #[trigger] acc@[t],
            bv[t].modulus,
            affine_value(xv.take(0), ws.take(0), bv, t) as int,
            F::evaluates(),
        ) by {
            assert(bv[t].wf());
        }
    }
    while i < xs.len()
        invariant
            i <= xs@.len(),
            xv == crt_views(xs@),
            ws == weights_column(w@, j as int),
            bv == bias@,
            all_wf(bv),
            all_with_moduli(xv, moduli_of(bv)),
            w@.len() == xs@.len(),
            forall|k: int| 0 <= k < w@.len() ==> j < (#[trigger] w@[k])@.len(),
            f.outputs() == old(f).outputs(),
            acc@.len() == bv.len(),
            forall|t: int|
                0 <= t < bv.len() ==> carries(
                    #[trigger] acc@[t],
                    bv[t].modulus,
                    affine_value(xv.take(i as int), ws.take(i as int), bv, t) as int,
                    F::evaluates(),
                ),
        decreases xs@.len() - i,
    {
        let x = &xs[i];
        proof {
            assert(xv[i as int] == x@);
            assert(all_wf(xv[i as int]) && moduli_of(xv[i as int]) == moduli_of(bv));
            lemma_same_moduli(x@, bv);
        }
        let y = f.crt_cmul(x, w[i][j])?;
        proof {
            assert forall|t: int| 0 <= t < y@.len() implies (#[trigger] y@[t]).wf() && y@[t].modulus
                == bv[t].modulus by {
                assert(carries(
                    y@[t],
                    x@[t].modulus,
                    ((x@[t].value * (w@[i as int]@[j as int] as nat)) % x@[t].modulus) as int,
                    F::evaluates(),
                ));
            }
            assert forall|t: int| 0 <= t < acc@.len() implies (#[trigger] acc@[t]).wf()
                && acc@[t].modulus == y@[t].modulus by {
                assert(carries(
                    acc@[t],
                    bv[t].modulus,
                    affine_value(xv.take(i as int), ws.take(i as int), bv, t) as int,
                    F::evaluates(),
                ));
            }
        }
        let ghost before = acc@;
        acc = f.crt_add(&acc, &y)?;
        proof {
            assert(xv.take(i + 1).drop_last() =~= xv.take(i as int));
            assert(ws.take(i + 1).drop_last() =~= ws.take(i as int));
            assert(xv.take(i + 1).last() == x@);
            assert(ws.take(i + 1).last() == w@[i as int]@[j as int] as nat);
            assert forall|t: int| 0 <= t < bv.len() implies carries(
                #[trigger] acc@[t],
                bv[t].modulus,
                affine_value(xv.take(i + 1), ws.take(i + 1), bv, t) as int,
                F::evaluates(),
            ) by {
                assert(carries(
                    acc@[t],
                    before[t].modulus,
                    WireOp::Add.value(before[t], y@[t]),
                    F::evaluates(),
                ));
                assert(carries(
                    before[t],
                    bv[t].modulus,
                    affine_value(xv.take(i as int), ws.take(i as int), bv, t) as int,
                    F::evaluates(),
                ));
                assert(carries(
                    y@[t],
                    x@[t].modulus,
                    ((x@[t].value * (w@[i as int]@[j as int] as nat)) % x@[t].modulus) as int,
                    F::evaluates(),
                ));
                assert(x@[t].modulus == bv[t].modulus);
            }
        }
        i += 1;
    }
    proof {
        assert(xv.take(xs@.len() as int) =~= xv);
        assert(ws.take(xs@.len() as int) =~= ws);
        assert forall|t: int| 0 <= t < acc@.len() implies (#[trigger] acc@[t]).wf() by {
            assert(carries(
                acc@[t],
                bv[t].modulus,
                affine_value(xv, ws, bv, t) as int,
                F::evaluates(),
            ));
        }
        assert(moduli_of(acc@) =~= moduli_of(bv)) by {
            assert forall|t: int| 0 <= t < acc@.len() implies moduli_of(acc@)[t] == moduli_of(
                bv,
            )[t] by {
                assert(carries(
                    acc@[t],
                    bv[t].modulus,
                    affine_value(xv, ws, bv, t) as int,
                    F::evaluates(),
                ));
            }
        }
    }
    Ok(acc)
}

/// The wires of a network circuit: the inputs that it takes, and what each
/// layer computes from them.
pub struct DinnCircuit<W: HasModulus> {
    /// The biases of the hidden neurons: inputs of the circuit.
    pub biases0: Vec<CrtBundle<W>>,
    /// The biases of the output neurons: inputs of the circuit.
    pub biases1: Vec<CrtBundle<W>>,
    /// The image: inputs of the circuit.
    pub inputs: Vec<CrtBundle<W>>,
    /// The weighted sums of the hidden neurons.
    pub hidden: Vec<CrtBundle<W>>,
    /// What the hidden neurons pass on: 1 or -1.
    pub activations: Vec<CrtBundle<W>>,
    /// The weighted sums of the output neurons: the outputs of the circuit.
    pub outputs: Vec<CrtBundle<W>>,
}

/// The radices with which the hidden neurons find their sign.
pub open spec fn sign_radices() -> Seq<nat> {
    seq![128nat]
}

/// The sign can be found, with the one radix 128, for numbers modulo `q`.
pub open spec fn sign_ok(q: nat) -> bool {
    frac_moduli_ok(table_divisors(q), sign_radices())
}

/// The sign can be found for every one of the neurons.
pub open spec fn all_signs_ok(hidden: Seq<Seq<Residue>>) -> bool {
    forall|k: int| 0 <= k < hidden.len() ==> frac_ok(#[trigger] hidden[k], sign_radices())
}

/// For bundles modulo `q`, the sign can be found for all of them or for
/// none.
pub proof fn lemma_signs_ok(hidden: Seq<Seq<Residue>>, q: nat)
    requires
        all_with_moduli(hidden, table_divisors(q)),
    ensures
        sign_ok(q) ==> all_signs_ok(hidden),
        hidden.len() > 0 && all_signs_ok(hidden) ==> sign_ok(q),
        forall|k: int|
            0 <= k < hidden.len() ==> frac_ok(#[trigger] hidden[k], sign_radices()) == sign_ok(q),
{
    assert forall|k: int| 0 <= k < hidden.len() implies frac_ok(
        #[trigger] hidden[k],
        sign_radices(),
    ) == sign_ok(q) by {
        lemma_frac_ok_moduli(hidden[k], sign_radices());
    }
    if hidden.len() > 0 && all_signs_ok(hidden) {
        assert(frac_ok(hidden[0], sign_radices()));
    }
}

/// The wires of all the bundles, one bundle after the other.
pub open spec fn flatten(s: Seq<Seq<Residue>>) -> Seq<Residue>
    decreases s.len(),
{
    if s.len() == 0 {
        Seq::empty()
    } else {
        flatten(s.drop_last()) + s.last()
    }
}

/// The modulus and the weights fit the network: the modulus is a product
/// of distinct primes of the table, and there are two matrices of weights,
/// of the widths of the layers.
pub open spec fn dinn_ok(q: nat, weights: Seq<Vec<Vec<u128>>>) -> bool {
    &&& factorable(q)
    &&& weights.len() == 2
    &&& has_shape(weights[0]@, 256, 30)
    &&& has_shape(weights[1]@, 30, 10)
}

/// `acts` are the activations of the neurons `hidden`: each holds 1 where
/// the sign of its neuron is 0 and -1 where it is 1.
pub open spec fn are_activations(
    acts: Seq<Seq<Residue>>,
    hidden: Seq<Seq<Residue>>,
    evaluates: bool,
) -> bool {
    &&& acts.len() == hidden.len()
    &&& forall|j: int|
        0 <= j < acts.len() ==> frac_ok(#[trigger] hidden[j], sign_radices()) && (evaluates
            ==> represents(
            acts[j],
            1 - 2 * sign_of_msb(frac_msb(hidden[j], sign_radices()), 128),
        ))
}

/// `outs` are the weighted sums of the bundles `xs`: neuron `j` with the
/// weights of column `j`, on top of bias `j`.
pub open spec fn is_layer(
    outs: Seq<Seq<Residue>>,
    xs: Seq<Seq<Residue>>,
    w: Seq<Vec<u128>>,
    biases: Seq<Seq<Residue>>,
    evaluates: bool,
) -> bool {
    &&& outs.len() == biases.len()
    &&& forall|j: int|
        0 <= j < outs.len() ==> is_affine(
            #[trigger] outs[j],
            xs,
            weights_column(w, j),
            biases[j],
            evaluates,
        )
}

/// Whether the matrix has `nin` rows of `nout` columns each.
fn shape_is(w: &Vec<Vec<u128>>, nin: usize, nout: usize) -> (b: bool)
    ensures
        b == has_shape(w@, nin as nat, nout as nat),
{
    if w.len() != nin {
        return false;
    }
    let mut i: usize = 0;
    while i < w.len()
        invariant
            i <= w@.len(),
            forall|k: int| 0 <= k < i ==> (#[trigger] w@[k])@.len() == nout,
        decreases w@.len() - i,
    {
        if w[i].len() != nout {
            return false;
        }
        i += 1;
    }
    true
}

/// `n` bundles of fresh inputs of the garbler, each modulo `q`.
fn inputs_crt<F: Fancy>(f: &mut F, q: u128, n: usize) -> (r: Result<
    Vec<CrtBundle<F::Item>>,
    FancyError,
>)
    ensures
        final(f).outputs() == old(f).outputs(),
        match r {
            Ok(bs) => bs@.len() == n && all_with_moduli(
                crt_views(bs@),
                table_divisors(q as nat),
            ) && (n > 0 ==> factorable(q as nat)),
            Err(e) => e == FancyError::InvalidInput || (!F::infallible() && e
                == FancyError::BackendError && factorable(q as nat)),
        },
        factorable(q as nat) && table_divisors(q as nat).len() == 0 ==> r is Ok && *final(f)
            == *old(f),
{
    let mut bs: Vec<CrtBundle<F::Item>> = Vec::new();
    let mut i: usize = 0;
    while i < n
        invariant
            i <= n,
            f.outputs() == old(f).outputs(),
            factorable(q as nat) && table_divisors(q as nat).len() == 0 ==> *f == *old(f),
            bs@.len() == i,
            all_with_moduli(crt_views(bs@), table_divisors(q as nat)),
            i > 0 ==> factorable(q as nat),
        decreases n - i,
    {
        let b = f.crt_garbler_input_bundle(q)?;
        let ghost before = crt_views(bs@);
        bs.push(b);
        proof {
            let after = crt_views(bs@);
            assert forall|k: int| 0 <= k < after.len() implies all_wf(#[trigger] after[k])
                && moduli_of(after[k]) == table_divisors(q as nat) by {
                if k < i {
                    assert(after[k] == before[k]);
                }
            }
        }
        i += 1;
    }
    Ok(bs)
}

/// One layer: for each bias, the weighted sum of the bundles `xs` on top
/// of it.
fn layer<F: Fancy>(
    f: &mut F,
    xs: &Vec<CrtBundle<F::Item>>,
    w: &Vec<Vec<u128>>,
    biases: &Vec<CrtBundle<F::Item>>,
    Ghost(ms): Ghost<Seq<nat>>,
) -> (r: Result<Vec<CrtBundle<F::Item>>, FancyError>)
    requires
        all_with_moduli(crt_views(xs@), ms),
        all_with_moduli(crt_views(biases@), ms),
        has_shape(w@, xs@.len(), biases@.len()),
    ensures
        final(f).outputs() == old(f).outputs(),
        match r {
            Ok(outs) => all_with_moduli(crt_views(outs@), ms) && is_layer(
                crt_views(outs@),
                crt_views(xs@),
                w@,
                crt_views(biases@),
                F::evaluates(),
            ),
            Err(e) => backend_failure(e, F::infallible()),
        },
{
    let ghost xv = crt_views(xs@);
    let ghost bv = crt_views(biases@);
    let mut outs: Vec<CrtBundle<F::Item>> = Vec::new();
    let mut j: usize = 0;
    while j < biases.len()
        invariant
            j <= biases@.len(),
            xv == crt_views(xs@),
            bv == crt_views(biases@),
            all_with_moduli(xv, ms),
            all_with_moduli(bv, ms),
            has_shape(w@, xs@.len(), biases@.len()),
            f.outputs() == old(f).outputs(),
            outs@.len() == j,
            all_with_moduli(crt_views(outs@), ms),
            forall|k: int|
                0 <= k < j ==> is_affine(
                    #[trigger] crt_views(outs@)[k],
                    xv,
                    weights_column(w@, k),
                    bv[k],
                    F::evaluates(),
                ),
        decreases biases@.len() - j,
    {
        let bias = &biases[j];
        proof {
            assert(bv[j as int] == bias@);
            assert(all_wf(bv[j as int]) && moduli_of(bv[j as int]) == ms);
        }
        let z = neuron(f, xs, w, j, bias)?;
        let ghost before = crt_views(outs@);
        outs.push(z);
        proof {
            let after = crt_views(outs@);
            assert forall|k: int| 0 <= k < after.len() implies all_wf(#[trigger] after[k])
                && moduli_of(after[k]) == ms by {
                if k < j {
                    assert(after[k] == before[k]);
                }
            }
            assert forall|k: int| 0 <= k < j + 1 implies is_affine(
                #[trigger] after[k],
                xv,
                weights_column(w@, k),
                bv[k],
                F::evaluates(),
            ) by {
                if k < j {
                    assert(after[k] == before[k]);
                }
            }
        }
        j += 1;
    }
    Ok(outs)
}

/// The activations of the neurons: for each, the sign of its sum, turned
/// into 1 or -1 modulo `q`.
fn activate<F: Fancy>(f: &mut F, hidden: &Vec<CrtBundle<F::Item>>, q: u128) -> (r: Result<
    Vec<CrtBundle<F::Item>>,
    FancyError,
>)
    requires
        all_with_moduli(crt_views(hidden@), table_divisors(q as nat)),
        factorable(q as nat),
    ensures
        final(f).outputs() == old(f).outputs(),
        match r {
            Ok(acts) => all_with_moduli(crt_views(acts@), table_divisors(q as nat))
                && are_activations(crt_views(acts@), crt_views(hidden@), F::evaluates()),
            Err(e) => failed(
                e,
                all_signs_ok(crt_views(hidden@)),
                FancyError::InvalidInput,
                F::infallible(),
            ),
        },
        !all_signs_ok(crt_views(hidden@)) ==> *final(f) == *old(f),
{
    let ghost hv = crt_views(hidden@);
    proof {
        lemma_signs_ok(hv, q as nat);
    }
    let mut ms: Vec<u16> = Vec::new();
    ms.push(SIGN_RADIX);
    assert(nats(ms@) =~= sign_radices());
    let mut acts: Vec<CrtBundle<F::Item>> = Vec::new();
    let mut j: usize = 0;
    while j < hidden.len()
        invariant
            j <= hidden@.len(),
            hv == crt_views(hidden@),
            all_with_moduli(hv, table_divisors(q as nat)),
            factorable(q as nat),
            nats(ms@) == sign_radices(),
            ms@.len() == 1,
            ms@[0] == 128,
            forall|k: int|
                0 <= k < hv.len() ==> frac_ok(#[trigger] hv[k], sign_radices()) == sign_ok(
                    q as nat,
                ),
            f.outputs() == old(f).outputs(),
            j == 0 ==> *f == *old(f),
            j > 0 ==> sign_ok(q as nat),
            acts@.len() == j,
            all_with_moduli(crt_views(acts@), table_divisors(q as nat)),
            forall|k: int|
                0 <= k < j ==> frac_ok(#[trigger] hv[k], sign_radices()) && (F::evaluates()
                    ==> represents(
                    crt_views(acts@)[k],
                    1 - 2 * sign_of_msb(frac_msb(hv[k], sign_radices()), 128),
                )),
        decreases hidden@.len() - j,
    {
        let h = &hidden[j];
        proof {
            assert(hv[j as int] == h@);
            assert(all_wf(hv[j as int]));
        }
        let bit = match f.sgn(h, ms.as_slice()) {
            Ok(bit) => bit,
            Err(e) => {
                proof {
                    assert(frac_ok(hv[j as int], sign_radices()) == sign_ok(q as nat));
                }
                return Err(e);
            },
        };
        proof {
            assert(frac_ok(hv[j as int], sign_radices()) == sign_ok(q as nat));
        }
        let a = f.zero_one_to_one_negative_one(&bit, q)?;
        let ghost before = crt_views(acts@);
        acts.push(a);
        proof {
            let after = crt_views(acts@);
            assert forall|k: int| 0 <= k < after.len() implies all_wf(#[trigger] after[k])
                && moduli_of(after[k]) == table_divisors(q as nat) by {
                if k < j {
                    assert(after[k] == before[k]);
                }
            }
            assert forall|k: int| 0 <= k < j + 1 implies frac_ok(#[trigger] hv[k], sign_radices())
                && (F::evaluates() ==> represents(
                after[k],
                1 - 2 * sign_of_msb(frac_msb(hv[k], sign_radices()), 128),
            )) by {
                if k < j {
                    assert(after[k] == before[k]);
                }
            }
        }
        j += 1;
    }
    Ok(acts)
}

/// Declares the wires of every bundle outputs, bundle after bundle.
fn declare<F: Fancy>(f: &mut F, outs: &Vec<CrtBundle<F::Item>>) -> (r: Result<(), FancyError>)
    requires
        forall|k: int| 0 <= k < outs@.len() ==> all_wf(#[trigger] crt_views(outs@)[k]),
    ensures
        match r {
            Ok(_) => final(f).outputs() == old(f).outputs() + flatten(crt_views(outs@)),
            Err(e) => !F::infallible() && e == FancyError::BackendError,
        },
{
    let ghost ov = crt_views(outs@);
    let mut i: usize = 0;
    proof {
        assert(ov.take(0) =~= Seq::<Seq<Residue>>::empty());
        assert(old(f).outputs() + flatten(ov.take(0)) =~= old(f).outputs());
    }
    while i < outs.len()
        invariant
            i <= outs@.len(),
            ov == crt_views(outs@),
            forall|k: int| 0 <= k < outs@.len() ==> all_wf(#[trigger] ov[k]),
            f.outputs() == old(f).outputs() + flatten(ov.take(i as int)),
        decreases outs@.len() - i,
    {
        let out = &outs[i];
        proof {
            assert(ov[i as int] == out@);
            assert(all_wf(ov[i as int]));
            assert(ov.take(i + 1).drop_last() =~= ov.take(i as int));
            assert(ov.take(i + 1).last() == out@);
        }
        let ghost before = f.outputs();
        f.crt_output(out)?;
        proof {
            assert(f.outputs() =~= old(f).outputs() + flatten(ov.take(i + 1)));
        }
        i += 1;
    }
    proof {
        assert(ov.take(outs@.len() as int) =~= ov);
    }
    Ok(())
}

/// The network on inputs that are there already: each hidden neuron is the
/// weighted sum of the image on top of its bias, and passes on 1 or -1 by
/// its sign; each output neuron is the weighted sum of what the hidden
/// neurons pass on, on top of its bias, and is declared an output.
///
/// Whether the sign can be found for the modulus is settled before any gate
/// is made: where it cannot, the answer is `InvalidInput` and the backend is
/// as it was. On a backend that cannot fail there is no other failure.
pub fn forward<F: Fancy>(
    f: &mut F,
    q: u128,
    weights: &Vec<Vec<Vec<u128>>>,
    biases0: Vec<CrtBundle<F::Item>>,
    biases1: Vec<CrtBundle<F::Item>>,
    inputs: Vec<CrtBundle<F::Item>>,
) -> (r: Result<DinnCircuit<F::Item>, FancyError>)
    requires
        dinn_ok(q as nat, weights@),
        biases0@.len() == 30,
        biases1@.len() == 10,
        inputs@.len() == 256,
        all_with_moduli(crt_views(biases0@), table_divisors(q as nat)),
        all_with_moduli(crt_views(biases1@), table_divisors(q as nat)),
        all_with_moduli(crt_views(inputs@), table_divisors(q as nat)),
    ensures
        match r {
            Ok(c) => {
                let ms = table_divisors(q as nat);
                &&& sign_ok(q as nat)
                &&& c.biases0@ == biases0@
                &&& c.biases1@ == biases1@
                &&& c.inputs@ == inputs@
                &&& all_with_moduli(crt_views(c.hidden@), ms)
                &&& all_with_moduli(crt_views(c.activations@), ms)
                &&& all_with_moduli(crt_views(c.outputs@), ms)
                &&& is_layer(
                    crt_views(c.hidden@),
                    crt_views(inputs@),
                    weights@[0]@,
                    crt_views(biases0@),
                    F::evaluates(),
                )
                &&& are_activations(
                    crt_views(c.activations@),
                    crt_views(c.hidden@),
                    F::evaluates(),
                )
                &&& is_layer(
                    crt_views(c.outputs@),
                    crt_views(c.activations@),
                    weights@[1]@,
                    crt_views(biases1@),
                    F::evaluates(),
                )
                &&& final(f).outputs() == old(f).outputs() + flatten(crt_views(c.outputs@))
            },
            Err(e) => failed(e, sign_ok(q as nat), FancyError::InvalidInput, F::infallible()),
        },
        !sign_ok(q as nat) ==> *final(f) == *old(f),
{
    let ghost ms = table_divisors(q as nat);
    let ps = match factor(q) {
        Some(ps) => ps,
        None => {
            return Err(FancyError::InvalidInput);
        },
    };
    let mut radices: Vec<u16> = Vec::new();
    radices.push(SIGN_RADIX);
    assert(nats(radices@) =~= sign_radices());
    if !frac_check(ps.as_slice(), radices.as_slice()) {
        return Err(FancyError::InvalidInput);
    }
    let hidden = layer(f, &inputs, &weights[0], &biases0, Ghost(ms))?;
    proof {
        lemma_signs_ok(crt_views(hidden@), q as nat);
    }
    let activations = activate(f, &hidden, q)?;
    proof {
        assert(crt_views(activations@).len() == crt_views(hidden@).len());
    }
    let outputs = layer(f, &activations, &weights[1], &biases1, Ghost(ms))?;
    proof {
        assert forall|k: int| 0 <= k < outputs@.len() implies all_wf(
            #[trigger] crt_views(outputs@)[k],
        ) by {
        }
    }
    declare(f, &outputs)?;
    Ok(DinnCircuit { biases0, biases1, inputs, hidden, activations, outputs })
}

/// The circuit of the network with the given weights, over numbers modulo
/// `q`. Inputs of the garbler are taken for the biases of the hidden
/// neurons, for those of the output neurons and for the image, in this
/// order; each hidden neuron is the weighted sum of the image on top of
/// its bias, and passes on 1 or -1 by its sign; each output neuron is the
/// weighted sum of what the hidden neurons pass on, on top of its bias, and
/// is declared an output.
///
/// `InvalidInput` where the modulus or the weights do not fit the network,
/// where the sign cannot be computed for the modulus, and where the backend
/// refuses an input.
pub fn build_circuit<F: Fancy>(f: &mut F, q: u128, weights: &Vec<Vec<Vec<u128>>>) -> (r: Result<
    DinnCircuit<F::Item>,
    FancyError,
>)
    ensures
        match r {
            Ok(c) => {
                let ms = table_divisors(q as nat);
                &&& dinn_ok(q as nat, weights@)
                &&& sign_ok(q as nat)
                &&& c.biases0@.len() == 30 && all_with_moduli(crt_views(c.biases0@), ms)
                &&& c.biases1@.len() == 10 && all_with_moduli(crt_views(c.biases1@), ms)
                &&& c.inputs@.len() == 256 && all_with_moduli(crt_views(c.inputs@), ms)
                &&& all_with_moduli(crt_views(c.hidden@), ms)
                &&& all_with_moduli(crt_views(c.activations@), ms)
                &&& all_with_moduli(crt_views(c.outputs@), ms)
                &&& is_layer(
                    crt_views(c.hidden@),
                    crt_views(c.inputs@),
                    weights@[0]@,
                    crt_views(c.biases0@),
                    F::evaluates(),
                )
                &&& are_activations(
                    crt_views(c.activations@),
                    crt_views(c.hidden@),
                    F::evaluates(),
                )
                &&& is_layer(
                    crt_views(c.outputs@),
                    crt_views(c.activations@),
                    weights@[1]@,
                    crt_views(c.biases1@),
                    F::evaluates(),
                )
                &&& final(f).outputs() == old(f).outputs() + flatten(crt_views(c.outputs@))
            },
            Err(e) => {
                &&& e == FancyError::InvalidInput || (!F::infallible() && e
                    == FancyError::BackendError)
                &&& e == FancyError::InvalidInput ==> final(f).outputs() == old(f).outputs()
            },
        },
        !dinn_ok(q as nat, weights@) ==> r is Err && r->Err_0 == FancyError::InvalidInput
            && final(f).outputs() == old(f).outputs(),
        dinn_ok(q as nat, weights@) && table_divisors(q as nat).len() == 0 ==> r is Err && r->Err_0
            == FancyError::InvalidInput && *final(f) == *old(f),
{
    if weights.len() != 2 {
        return Err(FancyError::InvalidInput);
    }
    if !shape_is(&weights[0], TOPOLOGY[0], TOPOLOGY[1]) || !shape_is(
        &weights[1],
        TOPOLOGY[1],
        TOPOLOGY[2],
    ) {
        return Err(FancyError::InvalidInput);
    }
    let biases0 = inputs_crt(f, q, TOPOLOGY[1])?;
    let biases1 = inputs_crt(f, q, TOPOLOGY[2])?;
    let inputs = inputs_crt(f, q, TOPOLOGY[0])?;
    forward(f, q, weights, biases0, biases1, inputs)
}

} // verus!
