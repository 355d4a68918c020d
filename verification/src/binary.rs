//! Bundles of bits, read as numbers with the least significant bit first and,
//! where a sign is asked for, in two's complement; and the gadgets on them.

use vstd::prelude::*;
use vstd::arithmetic::power2::{pow2, lemma_pow2_pos, lemma_pow2_unfold, lemma2_to64};
use vstd::arithmetic::power2::{lemma_pow2_adds, lemma_pow2_strictly_increases};
use vstd::arithmetic::div_mod::{lemma_basic_div, lemma_div_denominator};
use vstd::arithmetic::div_mod::{
    lemma_fundamental_div_mod_converse,
    lemma_small_mod,
    lemma_truncate_middle,
    lemma_mod_multiples_basic,
    lemma_add_mod_noop,
    lemma_mod_breakdown,
    lemma_mul_mod_noop_right,
    lemma_mod_add_multiples_vanish,
};
use crate::error::{FancyError, failed, backend_failure};
use crate::wire::{
    HasModulus,
    Residue,
    carries,
    views,
    all_wf,
    all_modulo,
    sum_values,
    lemma_views_push,
    lemma_sum_values_take,
    all_bundles_wf,
    lemma_bit_product,
};
use crate::bits::{
    bit_of,
    is_bits,
    bin_value,
    lemma_bin_value_push,
    lemma_bin_value_take,
    lemma_bin_value_bound,
    lemma_bin_value_of_bits,
    lemma_is_bits_value,
    lemma_is_bits_sub,
    lemma_bin_value_concat,
    lemma_bin_value_zeros,
    lemma_bin_value_split,
    lemma_bin_value_complement,
    lemma_bin_value_scale,
    lemma_bin_value_ext,
    lemma_bin_value_zero_iff,
    lemma_bin_value_injective,
    lemma_top_bit,
    twos_complement_value,
    abs_value,
};
use crate::fancy::Fancy;
use crate::bundle::{
    Bundle,
    BundleGadgets,
    WireOp,
    wirewise,
    shifted,
    zip_wires,
    moduli_all,
    MAX_EQ_WIDTH,
};
use crate::util::u128_to_bits;

verus! {

/// A bundle that is meant to hold bits. Nothing is checked when it is made:
/// a gadget that finds another modulus in it answers `UnequalModuli`.
pub struct BinaryBundle<W: HasModulus>(Bundle<W>);

impl<W: HasModulus> BinaryBundle<W> {
    /// The residues that the wires stand for, in order.
    pub closed spec fn view(&self) -> Seq<Residue> {
        self.0@
    }

    /// The wires themselves, in order.
    pub closed spec fn spec_wires(&self) -> Seq<W> {
        self.0.spec_wires()
    }

    /// Create a new binary bundle from a vector of wires.
    pub fn new(ws: Vec<W>) -> (b: BinaryBundle<W>)
        ensures
            b@ == views(ws@),
    {
        BinaryBundle(Bundle::new(ws))
    }

    /// Extract the underlying bundle from this binary bundle.
    pub fn extract(self) -> (b: Bundle<W>)
        ensures
            b@ == self@,
    {
        self.0
    }

    /// The underlying bundle, borrowed.
    pub fn as_bundle(&self) -> (b: &Bundle<W>)
        ensures
            b@ == self@,
    {
        &self.0
    }

    /// The wires, in order.
    pub fn wires(&self) -> (ws: &[W])
        ensures
            views(ws@) == self@,
    {
        self.0.wires()
    }

    /// The number of wires.
    pub fn size(&self) -> (n: usize)
        ensures
            n == self@.len(),
    {
        self.0.size()
    }

    /// Another bundle of the same wires.
    pub fn duplicate(&self) -> (b: BinaryBundle<W>)
        ensures
            b@ == self@,
    {
        BinaryBundle(self.0.duplicate())
    }
}

impl<W: HasModulus + Clone> Clone for BinaryBundle<W> {
    /// A bundle of clones of the wires.
    fn clone(&self) -> (b: BinaryBundle<W>)
        ensures
            b@.len() == self@.len(),
            b.spec_wires().len() == self.spec_wires().len(),
            forall|i: int|
                0 <= i < self.spec_wires().len() ==> cloned(
                    #[trigger] self.spec_wires()[i],
                    b.spec_wires()[i],
                ),
    {
        BinaryBundle(self.0.clone())
    }
}

impl<W: HasModulus> core::ops::Deref for BinaryBundle<W> {
    type Target = Bundle<W>;

    fn deref(&self) -> (b: &Bundle<W>)
        ensures
            b@ == self@,
    {
        &self.0
    }
}

impl<W: HasModulus> From<Bundle<W>> for BinaryBundle<W> {
    fn from(b: Bundle<W>) -> (r: BinaryBundle<W>) {
        BinaryBundle(b)
    }
}

impl<W: HasModulus> vstd::std_specs::convert::FromSpecImpl<Bundle<W>> for BinaryBundle<W> {
    open spec fn obeys_from_spec() -> bool {
        true
    }

    closed spec fn from_spec(b: Bundle<W>) -> BinaryBundle<W> {
        BinaryBundle(b)
    }
}

/// The binary bundle made of a bundle holds the wires of the bundle.
pub proof fn lemma_from_bundle<W: HasModulus>(b: Bundle<W>)
    ensures
        <BinaryBundle<W> as vstd::std_specs::convert::FromSpec<Bundle<W>>>::from_spec(b)@ == b@,
{
}

/// Two bundles of bits of one width.
pub open spec fn bin_pair_ok(x: Seq<Residue>, y: Seq<Residue>) -> bool {
    &&& x.len() == y.len()
    &&& all_modulo(x, 2)
    &&& all_modulo(y, 2)
}

/// `z` holds, place by place, the disjunction of the bits of `x` and `y`.
pub open spec fn bitwise_or(z: Seq<Residue>, x: Seq<Residue>, y: Seq<Residue>, evaluates: bool) -> bool {
    &&& z.len() == x.len()
    &&& forall|i: int|
        0 <= i < z.len() ==> carries(
            #[trigger] z[i],
            2,
            x[i].value + y[i].value - x[i].value * y[i].value,
            evaluates,
        )
}

/// Whether the two lists hold bits only and are of one length.
fn pair_is_binary<W: HasModulus>(x: &[W], y: &[W]) -> (b: bool)
    ensures
        b == bin_pair_ok(views(x@), views(y@)),
{
    x.len() == y.len() && moduli_all(x, 2) && moduli_all(y, 2)
}

/// The sum bits of the `k` low places of `x` and `y`, and the carry out of
/// them.
#[verifier::rlimit(40)]
fn ripple<F: Fancy>(f: &mut F, x: &[F::Item], y: &[F::Item], k: usize) -> (r: Result<
    (Vec<F::Item>, F::Item),
    FancyError,
>)
    requires
        is_bits(views(x@)),
        is_bits(views(y@)),
        x@.len() == y@.len(),
        1 <= k <= x@.len(),
    ensures
        final(f).outputs() == old(f).outputs(),
        match r {
            Ok((zs, c)) => {
                &&& zs@.len() == k
                &&& is_bits(views(zs@))
                &&& c@.wf()
                &&& c@.modulus == 2
                &&& F::evaluates() ==> bin_value(views(zs@)) + c@.value * pow2(k as nat)
                    == bin_value(views(x@).take(k as int)) + bin_value(views(y@).take(k as int))
            },
            Err(e) => backend_failure(e, F::infallible()),
        },
{
    let ghost xs = views(x@);
    let ghost ys = views(y@);
    proof {
        lemma_is_bits_value(xs, 0);
        lemma_is_bits_value(ys, 0);
        lemma2_to64();
    }
    let (z, c0) = f.adder(&x[0], &y[0], None)?;
    let mut c = c0;
    let mut zs: Vec<F::Item> = Vec::new();
    proof {
        lemma_views_push(zs@, z);
        lemma_bin_value_push(views(zs@), z@);
        lemma_bin_value_take(xs, 0);
        lemma_bin_value_take(ys, 0);
        assert(bin_value(xs.take(0)) == 0);
        assert(bin_value(ys.take(0)) == 0);
        assert(bin_value(views(zs@)) == 0);
        assert(pow2(0) == 1 && pow2(1) == 2);
        assert(z@.value * pow2(0) == z@.value);
        assert(xs[0].value * pow2(0) == xs[0].value);
        assert(ys[0].value * pow2(0) == ys[0].value);
        assert(c@.value * pow2(1) == 2 * c@.value);
    }
    zs.push(z);
    let mut i: usize = 1;
    while i < k
        invariant
            1 <= i <= k <= x@.len(),
            x@.len() == y@.len(),
            xs == views(x@),
            ys == views(y@),
            is_bits(xs),
            is_bits(ys),
            f.outputs() == old(f).outputs(),
            zs@.len() == i,
            is_bits(views(zs@)),
            c@.wf(),
            c@.modulus == 2,
            F::evaluates() ==> bin_value(views(zs@)) + c@.value * pow2(i as nat) == bin_value(
                xs.take(i as int),
            ) + bin_value(ys.take(i as int)),
        decreases k - i,
    {
        proof {
            lemma_is_bits_value(xs, i as int);
            lemma_is_bits_value(ys, i as int);
        }
        let ghost before = views(zs@);
        let ghost cin = c@.value;
        let (z, cout) = f.adder(&x[i], &y[i], Some(&c))?;
        proof {
            lemma_views_push(zs@, z);
            lemma_bin_value_push(before, z@);
            lemma_bin_value_take(xs, i as int);
            lemma_bin_value_take(ys, i as int);
            lemma_pow2_unfold((i + 1) as nat);
            if F::evaluates() {
                let p = pow2(i as nat) as int;
                let a = xs[i as int].value as int;
                let b = ys[i as int].value as int;
                let zv = z@.value as int;
                let cv = cout@.value as int;
                assert(zv + 2 * cv == a + b + cin);
                assert(zv * p + cv * (2 * p) == a * p + b * p + cin * p) by (nonlinear_arith)
                    requires
                        zv + 2 * cv == a + b + cin,
                ;
            }
        }
        zs.push(z);
        c = cout;
        proof {
            assert forall|j: int| 0 <= j < zs@.len() implies (#[trigger] views(zs@)[j]).wf()
                && views(zs@)[j].modulus == 2 by {
                if j < i {
                    lemma_is_bits_value(before, j);
                }
            }
        }
        i += 1;
    }
    Ok((zs, c))
}

/// Moving a number of `n` bits `k` places up multiplies it by `2^k` modulo
/// `2^n`.
pub proof fn lemma_shifted_bits(z: Seq<Residue>, x: Seq<Residue>, k: nat, evaluates: bool)
    requires
        is_bits(x),
        x.len() > 0,
        shifted(z, x, k, 2, evaluates),
    ensures
        is_bits(z),
        evaluates ==> bin_value(z) == (bin_value(x) * pow2(k)) % pow2(x.len()),
{
    let n = x.len();
    assert forall|i: int| 0 <= i < z.len() implies (#[trigger] z[i]).wf() && z[i].modulus == 2 by {
        if i < k {
            assert(carries(z[i], 2, 0, evaluates));
        } else {
            assert(z[i] == x[i - k]);
            lemma_is_bits_value(x, i - k);
        }
    }
    if evaluates {
        let big = pow2(n) as int;
        let xv = bin_value(x) as int;
        lemma_pow2_pos(n);
        lemma_pow2_pos(k);
        if k >= n {
            assert forall|i: int| 0 <= i < z.len() implies (#[trigger] z[i]).value == 0 by {
                assert(carries(z[i], 2, 0, evaluates));
            }
            lemma_bin_value_zeros(z);
            lemma_pow2_adds(n, (k - n) as nat);
            let rest = pow2((k - n) as nat) as int;
            assert(xv * (big * rest) == (xv * rest) * big) by (nonlinear_arith);
            lemma_mod_multiples_basic(xv * rest, big);
        } else {
            let m = (n - k) as nat;
            let lo = z.take(k as int);
            let hi = z.skip(k as int);
            assert(lo + hi =~= z);
            lemma_bin_value_concat(lo, hi);
            assert forall|i: int| 0 <= i < lo.len() implies (#[trigger] lo[i]).value == 0 by {
                assert(carries(z[i], 2, 0, evaluates));
            }
            lemma_bin_value_zeros(lo);
            assert(hi =~= x.take(m as int)) by {
                assert forall|i: int| 0 <= i < hi.len() implies hi[i] == x.take(m as int)[i] by {
                    assert(z[i + k] == x[i + k - k]);
                }
            }
            lemma_bin_value_split(x, m as int);
            lemma_pow2_pos(m);
            lemma_pow2_adds(k, m);
            lemma_truncate_middle(xv, pow2(k) as int, pow2(m) as int);
            assert(pow2(k) * xv == xv * pow2(k)) by (nonlinear_arith);
        }
    }
}

/// The conjunction of every bit of `xs` with the bit `b`.
fn and_with<F: Fancy>(f: &mut F, xs: &[F::Item], b: &F::Item) -> (r: Result<Vec<F::Item>, FancyError>)
    requires
        is_bits(views(xs@)),
        b@.wf(),
        b@.modulus == 2,
    ensures
        final(f).outputs() == old(f).outputs(),
        match r {
            Ok(zs) => {
                &&& zs@.len() == xs@.len()
                &&& is_bits(views(zs@))
                &&& F::evaluates() ==> bin_value(views(zs@)) == bin_value(views(xs@)) * b@.value
            },
            Err(e) => backend_failure(e, F::infallible()),
        },
{
    let ghost xv = views(xs@);
    let mut zs: Vec<F::Item> = Vec::new();
    let mut i: usize = 0;
    while i < xs.len()
        invariant
            i <= xs@.len(),
            xv == views(xs@),
            is_bits(xv),
            b@.wf(),
            b@.modulus == 2,
            f.outputs() == old(f).outputs(),
            zs@.len() == i,
            forall|j: int|
                0 <= j < i ==> carries(
                    #[trigger] views(zs@)[j],
                    2,
                    (xv[j].value * b@.value) as int,
                    F::evaluates(),
                ),
        decreases xs@.len() - i,
    {
        proof {
            lemma_is_bits_value(xv, i as int);
        }
        let w = f.and(&xs[i], b)?;
        let ghost before = views(zs@);
        zs.push(w);
        assert forall|j: int| 0 <= j < i + 1 implies carries(
            #[trigger] views(zs@)[j],
            2,
            (xv[j].value * b@.value) as int,
            F::evaluates(),
        ) by {
            if j < i {
                assert(views(zs@)[j] == before[j]);
            }
        }
        i += 1;
    }
    proof {
        let zv = views(zs@);
        assert forall|j: int| 0 <= j < zv.len() implies (#[trigger] zv[j]).wf() && zv[j].modulus
            == 2 by {
            assert(carries(zv[j], 2, (xv[j].value * b@.value) as int, F::evaluates()));
        }
        if F::evaluates() {
            assert forall|j: int| 0 <= j < xv.len() implies (#[trigger] zv[j]).value == xv[j].value
                * b@.value by {
                assert(carries(zv[j], 2, (xv[j].value * b@.value) as int, F::evaluates()));
            }
            lemma_bin_value_scale(xv, zv, b@.value);
        }
    }
    Ok(zs)
}

/// The residues of a list of binary bundles.
pub open spec fn bundle_views<W: HasModulus>(xs: Seq<BinaryBundle<W>>) -> Seq<Seq<Residue>> {
    Seq::new(xs.len(), |i: int| xs[i]@)
}

/// At least two bundles, all of bits and of one width.
pub open spec fn bin_max_ok(s: Seq<Seq<Residue>>) -> bool {
    &&& s.len() >= 2
    &&& forall|i: int|
        0 <= i < s.len() ==> all_modulo(#[trigger] s[i], 2) && s[i].len() == s[0].len()
}

/// The error that `bin_max` owes on bundles that it cannot compare.
pub open spec fn bin_max_error(s: Seq<Seq<Residue>>) -> FancyError {
    if s.len() < 2 {
        FancyError::InvalidArgNum { got: s.len() as usize, needed: 2 }
    } else {
        FancyError::UnequalModuli
    }
}

/// The largest of the numbers that the bundles spell; of none, zero.
pub open spec fn max_bin_value(s: Seq<Seq<Residue>>) -> nat
    decreases s.len(),
{
    if s.len() == 0 {
        0
    } else {
        let m = max_bin_value(s.drop_last());
        let v = bin_value(s.last());
        if m < v {
            v
        } else {
            m
        }
    }
}

/// `z` is `x` moved `c` places down: the low wires dropped, zeros at the top.
pub open spec fn lowered(z: Seq<Residue>, x: Seq<Residue>, c: nat, evaluates: bool) -> bool {
    &&& z.len() == x.len()
    &&& forall|i: int| 0 <= i < z.len() && i + c < x.len() ==> (#[trigger] z[i]) == x[i + c]
    &&& forall|i: int| 0 <= i < z.len() && i + c >= x.len() ==> carries(#[trigger] z[i], 2, 0, evaluates)
}

/// Moving a number `c` places down divides it by `2^c`.
pub proof fn lemma_lowered_bits(z: Seq<Residue>, x: Seq<Residue>, c: nat, evaluates: bool)
    requires
        is_bits(x),
        lowered(z, x, c, evaluates),
    ensures
        is_bits(z),
        evaluates ==> bin_value(z) == bin_value(x) / pow2(c),
{
    let n = x.len();
    assert forall|i: int| 0 <= i < z.len() implies (#[trigger] z[i]).wf() && z[i].modulus == 2 by {
        if i + c < n {
            assert(z[i] == x[i + c]);
            lemma_is_bits_value(x, i + c);
        } else {
            assert(carries(z[i], 2, 0, evaluates));
        }
    }
    if evaluates {
        lemma_bin_value_bound(x);
        lemma_pow2_pos(c);
        if c >= n {
            assert forall|i: int| 0 <= i < z.len() implies (#[trigger] z[i]).value == 0 by {
                assert(carries(z[i], 2, 0, evaluates));
            }
            lemma_bin_value_zeros(z);
            if c > n {
                lemma_pow2_strictly_increases(n, c);
            }
            lemma_basic_div(bin_value(x) as int, pow2(c) as int);
        } else {
            let m = (n - c) as int;
            let lo = z.take(m);
            let hi = z.skip(m);
            assert(lo + hi =~= z);
            lemma_bin_value_concat(lo, hi);
            assert forall|i: int| 0 <= i < hi.len() implies (#[trigger] hi[i]).value == 0 by {
                assert(carries(z[i + m], 2, 0, evaluates));
            }
            lemma_bin_value_zeros(hi);
            assert(pow2(lo.len()) * 0 == 0);
            assert(lo =~= x.skip(c as int)) by {
                assert forall|i: int| 0 <= i < lo.len() implies lo[i] == x.skip(c as int)[i] by {
                    assert(z[i] == x[i + c]);
                }
            }
            lemma_bin_value_split(x, c as int);
        }
    }
}

/// What `bin_mux_many` computes: the sum modulo 2 of the wires whose place,
/// taken modulo `2^nbits`, is the index. Where there are no more wires than
/// indices this is the wire at the index, or 0 past the end.
pub open spec fn mux_many_value(index: nat, nbits: nat, xs: Seq<Residue>) -> nat
    decreases xs.len(),
{
    if xs.len() == 0 {
        0
    } else {
        let place = (xs.len() - 1) as nat;
        let hit = if place % pow2(nbits) == index {
            xs.last().value
        } else {
            0
        };
        (mux_many_value(index, nbits, xs.drop_last()) + hit) % 2
    }
}

/// With no more wires than indices, the multiplexer picks the wire at the
/// index, and 0 where the index is past the end.
pub proof fn lemma_mux_many_picks(index: nat, nbits: nat, xs: Seq<Residue>)
    requires
        is_bits(xs),
        xs.len() <= pow2(nbits),
    ensures
        mux_many_value(index, nbits, xs) == if index < xs.len() {
            xs[index as int].value
        } else {
            0
        },
    decreases xs.len(),
{
    if xs.len() > 0 {
        let place = (xs.len() - 1) as nat;
        let rest = xs.drop_last();
        lemma_is_bits_sub(xs, 0, place as int);
        assert(rest =~= xs.subrange(0, place as int));
        lemma_mux_many_picks(index, nbits, rest);
        lemma_small_mod(place, pow2(nbits));
        lemma_is_bits_value(xs, place as int);
        if index < place {
            lemma_is_bits_value(rest, index as int);
        }
    }
}

/// The error that `bin_mux_many` owes on operands that it cannot use.
pub open spec fn mux_many_error(ix: Seq<Residue>, xs: Seq<Residue>) -> FancyError {
    if all_modulo(ix, 2) && all_modulo(xs, 2) {
        FancyError::InvalidArgNum { got: ix.len() as usize, needed: MAX_EQ_WIDTH }
    } else {
        FancyError::UnequalModuli
    }
}

/// Place by place `y` where the bit `pos` is set and `x` where it is not,
/// given `pos` and its complement `neg`.
fn blend<F: Fancy>(f: &mut F, pos: &F::Item, neg: &F::Item, x: &[F::Item], y: &[F::Item]) -> (r:
    Result<Vec<F::Item>, FancyError>)
    requires
        is_bits(views(x@)),
        is_bits(views(y@)),
        x@.len() == y@.len(),
        pos@.wf(),
        neg@.wf(),
        pos@.modulus == 2,
        neg@.modulus == 2,
        F::evaluates() ==> neg@.value == 1 - pos@.value,
    ensures
        final(f).outputs() == old(f).outputs(),
        match r {
            Ok(zs) => {
                &&& zs@.len() == x@.len()
                &&& is_bits(views(zs@))
                &&& F::evaluates() ==> bin_value(views(zs@)) == if pos@.value == 0 {
                    bin_value(views(x@))
                } else {
                    bin_value(views(y@))
                }
            },
            Err(e) => backend_failure(e, F::infallible()),
        },
{
    let ghost xv = views(x@);
    let ghost yv = views(y@);
    let mut zs: Vec<F::Item> = Vec::new();
    let mut i: usize = 0;
    while i < x.len()
        invariant
            i <= x@.len(),
            x@.len() == y@.len(),
            xv == views(x@),
            yv == views(y@),
            is_bits(xv),
            is_bits(yv),
            pos@.wf(),
            neg@.wf(),
            pos@.modulus == 2,
            neg@.modulus == 2,
            F::evaluates() ==> neg@.value == 1 - pos@.value,
            f.outputs() == old(f).outputs(),
            zs@.len() == i,
            forall|j: int|
                0 <= j < i ==> carries(
                    #[trigger] views(zs@)[j],
                    2,
                    if pos@.value == 0 { xv[j].value as int } else { yv[j].value as int },
                    F::evaluates(),
                ),
        decreases x@.len() - i,
    {
        proof {
            lemma_is_bits_value(xv, i as int);
            lemma_is_bits_value(yv, i as int);
        }
        let xp = f.mul(&x[i], neg)?;
        let yp = f.mul(&y[i], pos)?;
        let w = f.add(&xp, &yp)?;
        proof {
            if F::evaluates() {
                let a = xv[i as int].value as int;
                let b = yv[i as int].value as int;
                let pv = pos@.value as int;
                let nv = neg@.value as int;
                assert(a * nv == if pv == 0 { a } else { 0 }) by (nonlinear_arith)
                    requires
                        0 <= pv < 2,
                        nv == 1 - pv,
                ;
                assert(b * pv == if pv == 0 { 0 } else { b }) by (nonlinear_arith)
                    requires
                        0 <= pv < 2,
                ;
                assert(crate::fancy::product_modulus(2, 2) == 2);
                assert(xp@.value == if pv == 0 { a } else { 0 });
                assert(yp@.value == if pv == 0 { 0 } else { b });
                assert(w@.value == if pv == 0 { a } else { b });
            }
        }
        let ghost before = views(zs@);
        zs.push(w);
        assert(views(zs@)[i as int] == w@);
        assert forall|j: int| 0 <= j < i + 1 implies carries(
            #[trigger] views(zs@)[j],
            2,
            if pos@.value == 0 { xv[j].value as int } else { yv[j].value as int },
            F::evaluates(),
        ) by {
            if j < i {
                assert(views(zs@)[j] == before[j]);
            }
        }
        i += 1;
    }
    proof {
        let zv = views(zs@);
        assert forall|j: int| 0 <= j < zv.len() implies (#[trigger] zv[j]).wf() && zv[j].modulus
            == 2 by {
            assert(carries(
                zv[j],
                2,
                if pos@.value == 0 { xv[j].value as int } else { yv[j].value as int },
                F::evaluates(),
            ));
        }
        if F::evaluates() {
            let chosen = if pos@.value == 0 { xv } else { yv };
            assert forall|j: int| 0 <= j < zv.len() implies (#[trigger] zv[j]).value
                == chosen[j].value by {
                assert(carries(
                    zv[j],
                    2,
                    if pos@.value == 0 { xv[j].value as int } else { yv[j].value as int },
                    F::evaluates(),
                ));
            }
            lemma_bin_value_ext(zv, chosen);
        }
    }
    Ok(zs)
}

/// Gadgets on bundles of bits. Every backend has them.
pub trait BinaryGadgets: Fancy + BundleGadgets {
    /// The constant `val`, as `nbits` bits.
    fn bin_constant_bundle(&mut self, val: u128, nbits: usize) -> (r: Result<
        BinaryBundle<Self::Item>,
        FancyError,
    >)
        ensures
            final(self).outputs() == old(self).outputs(),
            match r {
                Ok(b) => {
                    &&& b@.len() == nbits
                    &&& is_bits(b@)
                    &&& Self::evaluates() ==> bin_value(b@) == val as nat % pow2(nbits as nat)
                },
                Err(e) => backend_failure(e, Self::infallible()),
            },
    {
        let bits = u128_to_bits(val, nbits);
        let mut ps: Vec<u16> = Vec::new();
        let mut i: usize = 0;
        while i < nbits
            invariant
                i <= nbits,
                ps@.len() == i,
                forall|j: int| 0 <= j < i ==> ps@[j] == 2,
            decreases nbits - i,
        {
            ps.push(2);
            i += 1;
        }
        let b = self.constant_bundle(bits.as_slice(), ps.as_slice())?;
        proof {
            assert forall|j: int| 0 <= j < b@.len() implies (#[trigger] b@[j]).wf() && b@[j].modulus
                == 2 by {
                assert(carries(b@[j], ps@[j] as nat, bits@[j] as int, Self::evaluates()));
            }
            if Self::evaluates() {
                assert forall|j: int| 0 <= j < b@.len() implies (#[trigger] b@[j]).value == bit_of(
                    val as nat,
                    j as nat,
                ) by {
                    assert(carries(b@[j], ps@[j] as nat, bits@[j] as int, Self::evaluates()));
                }
                lemma_bin_value_of_bits(b@, val as nat);
            }
        }
        Ok(BinaryBundle(b))
    }

    /// Xor the bits of two bundles together pairwise.
    fn bin_xor(&mut self, x: &BinaryBundle<Self::Item>, y: &BinaryBundle<Self::Item>) -> (r:
        Result<BinaryBundle<Self::Item>, FancyError>)
        requires
            all_wf(x@),
            all_wf(y@),
        ensures
            final(self).outputs() == old(self).outputs(),
            match r {
                Ok(z) => bin_pair_ok(x@, y@) && is_bits(z@) && wirewise(
                    WireOp::Add,
                    z@,
                    x@,
                    y@,
                    Self::evaluates(),
                ),
                Err(e) => failed(
                    e,
                    bin_pair_ok(x@, y@),
                    FancyError::UnequalModuli,
                    Self::infallible(),
                ),
            },
            !(bin_pair_ok(x@, y@)) ==> *final(self) == *old(self),
    {
        if !pair_is_binary(x.wires(), y.wires()) {
            return Err(FancyError::UnequalModuli);
        }
        let ws = zip_wires(self, WireOp::Add, x.wires(), y.wires())?;
        let z = BinaryBundle::new(ws);
        proof {
            assert forall|j: int| 0 <= j < z@.len() implies (#[trigger] z@[j]).wf() && z@[j].modulus
                == 2 by {
                assert(carries(z@[j], x@[j].modulus, WireOp::Add.value(x@[j], y@[j]), Self::evaluates()));
            }
        }
        Ok(z)
    }

    /// And the bits of two bundles together pairwise.
    fn bin_and(&mut self, x: &BinaryBundle<Self::Item>, y: &BinaryBundle<Self::Item>) -> (r:
        Result<BinaryBundle<Self::Item>, FancyError>)
        requires
            all_wf(x@),
            all_wf(y@),
        ensures
            final(self).outputs() == old(self).outputs(),
            match r {
                Ok(z) => bin_pair_ok(x@, y@) && is_bits(z@) && wirewise(
                    WireOp::Mul,
                    z@,
                    x@,
                    y@,
                    Self::evaluates(),
                ),
                Err(e) => failed(
                    e,
                    bin_pair_ok(x@, y@),
                    FancyError::UnequalModuli,
                    Self::infallible(),
                ),
            },
            !(bin_pair_ok(x@, y@)) ==> *final(self) == *old(self),
    {
        if !pair_is_binary(x.wires(), y.wires()) {
            return Err(FancyError::UnequalModuli);
        }
        let ws = zip_wires(self, WireOp::Mul, x.wires(), y.wires())?;
        let z = BinaryBundle::new(ws);
        proof {
            assert forall|j: int| 0 <= j < z@.len() implies (#[trigger] z@[j]).wf() && z@[j].modulus
                == 2 by {
                assert(carries(z@[j], x@[j].modulus, WireOp::Mul.value(x@[j], y@[j]), Self::evaluates()));
            }
        }
        Ok(z)
    }

    /// Or the bits of two bundles together pairwise.
    fn bin_or(&mut self, x: &BinaryBundle<Self::Item>, y: &BinaryBundle<Self::Item>) -> (r:
        Result<BinaryBundle<Self::Item>, FancyError>)
        requires
            all_wf(x@),
            all_wf(y@),
        ensures
            final(self).outputs() == old(self).outputs(),
            match r {
                Ok(z) => bin_pair_ok(x@, y@) && is_bits(z@) && bitwise_or(
                    z@,
                    x@,
                    y@,
                    Self::evaluates(),
                ),
                Err(e) => failed(
                    e,
                    bin_pair_ok(x@, y@),
                    FancyError::UnequalModuli,
                    Self::infallible(),
                ),
            },
            !(bin_pair_ok(x@, y@)) ==> *final(self) == *old(self),
    {
        let xw = x.wires();
        let yw = y.wires();
        if !pair_is_binary(xw, yw) {
            return Err(FancyError::UnequalModuli);
        }
        let ghost xs = x@;
        let ghost ys = y@;
        let mut zs: Vec<Self::Item> = Vec::new();
        let mut i: usize = 0;
        while i < xw.len()
            invariant
                i <= xw@.len(),
                xs == views(xw@),
                ys == views(yw@),
                xs == x@,
                ys == y@,
                all_wf(xs),
                all_wf(ys),
                bin_pair_ok(xs, ys),
                self.outputs() == old(self).outputs(),
                zs@.len() == i,
                forall|j: int|
                    0 <= j < i ==> carries(
                        #[trigger] views(zs@)[j],
                        2,
                        xs[j].value + ys[j].value - xs[j].value * ys[j].value,
                        Self::evaluates(),
                    ),
            decreases xw@.len() - i,
        {
            assert(xs[i as int].wf() && ys[i as int].wf());
            assert(xs[i as int].modulus == 2 && ys[i as int].modulus == 2);
            let w = self.or(&xw[i], &yw[i])?;
            let ghost before = views(zs@);
            zs.push(w);
            assert forall|j: int| 0 <= j < i + 1 implies carries(
                #[trigger] views(zs@)[j],
                2,
                xs[j].value + ys[j].value - xs[j].value * ys[j].value,
                Self::evaluates(),
            ) by {
                if j < i {
                    assert(views(zs@)[j] == before[j]);
                }
            }
            i += 1;
        }
        let z = BinaryBundle::new(zs);
        proof {
            assert forall|j: int| 0 <= j < z@.len() implies (#[trigger] z@[j]).wf() && z@[j].modulus
                == 2 by {
                assert(carries(
                    z@[j],
                    2,
                    xs[j].value + ys[j].value - xs[j].value * ys[j].value,
                    Self::evaluates(),
                ));
            }
        }
        Ok(z)
    }

    /// Binary addition. Returns the result and the carry.
    fn bin_addition(&mut self, xs: &BinaryBundle<Self::Item>, ys: &BinaryBundle<Self::Item>) -> (r:
        Result<(BinaryBundle<Self::Item>, Self::Item), FancyError>)
        requires
            all_wf(xs@),
            all_wf(ys@),
        ensures
            final(self).outputs() == old(self).outputs(),
            match r {
                Ok((zs, c)) => {
                    &&& bin_pair_ok(xs@, ys@)
                    &&& zs@.len() == xs@.len()
                    &&& is_bits(zs@)
                    &&& c@.wf()
                    &&& c@.modulus == 2
                    &&& Self::evaluates() ==> {
                        &&& bin_value(zs@) == (bin_value(xs@) + bin_value(ys@)) % pow2(xs@.len())
                        &&& c@.value == (bin_value(xs@) + bin_value(ys@)) / pow2(xs@.len())
                    }
                },
                Err(e) => failed(
                    e,
                    bin_pair_ok(xs@, ys@),
                    FancyError::UnequalModuli,
                    Self::infallible(),
                ),
            },
            !(bin_pair_ok(xs@, ys@)) ==> *final(self) == *old(self),
    {
        let xw = xs.wires();
        let yw = ys.wires();
        if !pair_is_binary(xw, yw) {
            return Err(FancyError::UnequalModuli);
        }
        let n = xw.len();
        if n == 0 {
            let c = self.constant(0, 2)?;
            let zs = BinaryBundle::new(Vec::new());
            proof {
                lemma2_to64();
                assert(bin_value(xs@) == 0 && bin_value(ys@) == 0 && bin_value(zs@) == 0);
            }
            return Ok((zs, c));
        }
        let (ws, c) = ripple(self, xw, yw, n)?;
        let zs = BinaryBundle::new(ws);
        proof {
            if Self::evaluates() {
                assert(xs@.take(n as int) =~= xs@);
                assert(ys@.take(n as int) =~= ys@);
                lemma_bin_value_bound(zs@);
                lemma_pow2_pos(n as nat);
                lemma_fundamental_div_mod_converse(
                    (bin_value(xs@) + bin_value(ys@)) as int,
                    pow2(n as nat) as int,
                    c@.value as int,
                    bin_value(zs@) as int,
                );
            }
        }
        Ok((zs, c))
    }

    /// Binary addition. Avoids creating extra gates for the final carry: the
    /// top bit is the sum of the two top bits and the carry into them.
    fn bin_addition_no_carry(
        &mut self,
        xs: &BinaryBundle<Self::Item>,
        ys: &BinaryBundle<Self::Item>,
    ) -> (r: Result<BinaryBundle<Self::Item>, FancyError>)
        requires
            all_wf(xs@),
            all_wf(ys@),
        ensures
            final(self).outputs() == old(self).outputs(),
            match r {
                Ok(zs) => {
                    &&& bin_pair_ok(xs@, ys@)
                    &&& zs@.len() == xs@.len()
                    &&& is_bits(zs@)
                    &&& Self::evaluates() ==> bin_value(zs@) == (bin_value(xs@) + bin_value(ys@))
                        % pow2(xs@.len())
                },
                Err(e) => failed(
                    e,
                    bin_pair_ok(xs@, ys@),
                    FancyError::UnequalModuli,
                    Self::infallible(),
                ),
            },
            !(bin_pair_ok(xs@, ys@)) ==> *final(self) == *old(self),
    {
        let xw = xs.wires();
        let yw = ys.wires();
        if !pair_is_binary(xw, yw) {
            return Err(FancyError::UnequalModuli);
        }
        let n = xw.len();
        if n == 0 {
            let zs = BinaryBundle::new(Vec::new());
            proof {
                lemma2_to64();
                assert(bin_value(xs@) == 0 && bin_value(ys@) == 0 && bin_value(zs@) == 0);
            }
            return Ok(zs);
        }
        let ghost xv = xs@;
        let ghost yv = ys@;
        proof {
            lemma_is_bits_value(xv, n - 1);
            lemma_is_bits_value(yv, n - 1);
            lemma_bin_value_take(xv, n - 1);
            lemma_bin_value_take(yv, n - 1);
            assert(xv.take(n as int) =~= xv);
            assert(yv.take(n as int) =~= yv);
            lemma_pow2_pos((n - 1) as nat);
            lemma_pow2_unfold(n as nat);
        }
        let mut ws: Vec<Self::Item> = Vec::new();
        let ghost mut cv: int = 0;
        let top: Self::Item;
        if n == 1 {
            top = self.xor(&xw[0], &yw[0])?;
            proof {
                lemma2_to64();
                assert(bin_value(xv.take(0)) == 0);
                assert(bin_value(yv.take(0)) == 0);
                assert(bin_value(views(ws@)) == 0);
            }
        } else {
            let (lows, c) = ripple(self, xw, yw, n - 1)?;
            ws = lows;
            let mut last: Vec<Self::Item> = Vec::new();
            last.push(xw[n - 1].duplicate());
            last.push(yw[n - 1].duplicate());
            last.push(c.duplicate());
            proof {
                cv = c@.value as int;
                let s = views(last@);
                assert(s[0] == xv[n - 1] && s[1] == yv[n - 1] && s[2] == c@);
                assert(all_wf(s));
                assert(all_modulo(s, 2));
                lemma_sum_values_take(s, 0);
                lemma_sum_values_take(s, 1);
                lemma_sum_values_take(s, 2);
                assert(s.take(3) =~= s);
                assert(sum_values(s.take(0)) == 0);
            }
            top = self.add_many(last.as_slice())?;
        }
        let ghost before = views(ws@);
        let ghost p = pow2((n - 1) as nat) as int;
        let ghost a = xv[n - 1].value as int;
        let ghost b = yv[n - 1].value as int;
        assert(is_bits(before) && before.len() == n - 1);
        assert(top@.wf() && top@.modulus == 2);
        assert(Self::evaluates() ==> 0 <= cv < 2 && top@.value == (a + b + cv) % 2 && bin_value(
            before,
        ) + cv * p == bin_value(xv.take(n - 1)) + bin_value(yv.take(n - 1)));
        proof {
            lemma_views_push(ws@, top);
            lemma_bin_value_push(before, top@);
        }
        ws.push(top);
        let zs = BinaryBundle::new(ws);
        proof {
            assert forall|j: int| 0 <= j < zs@.len() implies (#[trigger] zs@[j]).wf()
                && zs@[j].modulus == 2 by {
                if j < n - 1 {
                    lemma_is_bits_value(before, j);
                }
            }
            if Self::evaluates() {
                lemma_bin_value_bound(zs@);
                let t = top@.value as int;
                let total = (bin_value(xv) + bin_value(yv)) as int;
                let q = (a + b + cv) / 2;
                assert(t + 2 * q == a + b + cv);
                assert(total == q * (2 * p) + (bin_value(before) + t * p)) by (nonlinear_arith)
                    requires
                        t + 2 * q == a + b + cv,
                        total == bin_value(before) + cv * p + a * p + b * p,
                ;
                lemma_fundamental_div_mod_converse(total, 2 * p, q, bin_value(zs@) as int);
            }
        }
        Ok(zs)
    }

    /// Binary multiplication.
    ///
    /// Returns the lower-order half of the output bits, ie a number with the
    /// same number of bits as the inputs.
    fn bin_multiplication_lower_half(
        &mut self,
        xs: &BinaryBundle<Self::Item>,
        ys: &BinaryBundle<Self::Item>,
    ) -> (r: Result<BinaryBundle<Self::Item>, FancyError>)
        requires
            all_wf(xs@),
            all_wf(ys@),
        ensures
            final(self).outputs() == old(self).outputs(),
            match r {
                Ok(zs) => {
                    &&& bin_pair_ok(xs@, ys@)
                    &&& zs@.len() == xs@.len()
                    &&& is_bits(zs@)
                    &&& Self::evaluates() ==> bin_value(zs@) == (bin_value(xs@) * bin_value(ys@))
                        % pow2(xs@.len())
                },
                Err(e) => failed(
                    e,
                    bin_pair_ok(xs@, ys@),
                    FancyError::UnequalModuli,
                    Self::infallible(),
                ),
            },
            !(bin_pair_ok(xs@, ys@)) ==> *final(self) == *old(self),
    {
        let xw = xs.wires();
        let yw = ys.wires();
        if !pair_is_binary(xw, yw) {
            return Err(FancyError::UnequalModuli);
        }
        let n = xw.len();
        if n == 0 {
            let zs = BinaryBundle::new(Vec::new());
            proof {
                lemma2_to64();
                assert(bin_value(xs@) == 0 && bin_value(ys@) == 0 && bin_value(zs@) == 0);
                assert(0 * 0 == 0);
            }
            return Ok(zs);
        }
        let ghost xv = xs@;
        let ghost yv = ys@;
        let ghost big = pow2(n as nat);
        proof {
            lemma_is_bits_value(yv, 0);
            lemma_pow2_pos(n as nat);
        }
        let first = and_with(self, xw, &yw[0])?;
        let mut sum = BinaryBundle::new(first);
        proof {
            if Self::evaluates() {
                lemma2_to64();
                lemma_bin_value_take(yv, 0);
                assert(bin_value(yv.take(0)) == 0);
                assert(yv[0].value * pow2(0) == yv[0].value);
                lemma_bin_value_bound(sum@);
                lemma_small_mod(bin_value(sum@), big);
            }
        }
        let mut i: usize = 1;
        while i < n
            invariant
                1 <= i <= n,
                n == xw@.len(),
                n == yw@.len(),
                xv == views(xw@),
                yv == views(yw@),
                xv == xs@,
                yv == ys@,
                big == pow2(n as nat),
                big > 0,
                is_bits(xv),
                is_bits(yv),
                self.outputs() == old(self).outputs(),
                sum@.len() == n,
                is_bits(sum@),
                Self::evaluates() ==> bin_value(sum@) == (bin_value(xv) * bin_value(
                    yv.take(i as int),
                )) % big,
            decreases n - i,
        {
            proof {
                lemma_is_bits_value(yv, i as int);
            }
            let part = and_with(self, xw, &yw[i])?;
            let part = Bundle::new(part);
            let moved = self.shift(&part, i)?;
            proof {
                lemma_shifted_bits(moved@, part@, i as nat, Self::evaluates());
            }
            let moved = BinaryBundle(moved);
            let ghost before = bin_value(sum@);
            sum = self.bin_addition_no_carry(&sum, &moved)?;
            proof {
                if Self::evaluates() {
                    let x = bin_value(xv) as int;
                    let lo = bin_value(yv.take(i as int)) as int;
                    let b = yv[i as int].value as int;
                    let p = pow2(i as nat) as int;
                    lemma_bin_value_take(yv, i as int);
                    lemma_add_mod_noop(x * lo, (x * b) * p, big as int);
                    assert(x * (lo + b * p) == x * lo + (x * b) * p) by (nonlinear_arith);
                }
            }
            i += 1;
        }
        proof {
            assert(yv.take(n as int) =~= yv);
        }
        Ok(sum)
    }

    /// Compute the twos complement of the input bundle (which must be base
    /// 2): every bit is complemented and 1 is added, without a carry out.
    fn bin_twos_complement(&mut self, xs: &BinaryBundle<Self::Item>) -> (r: Result<
        BinaryBundle<Self::Item>,
        FancyError,
    >)
        requires
            all_wf(xs@),
        ensures
            final(self).outputs() == old(self).outputs(),
            match r {
                Ok(zs) => {
                    &&& all_modulo(xs@, 2)
                    &&& zs@.len() == xs@.len()
                    &&& is_bits(zs@)
                    &&& Self::evaluates() ==> bin_value(zs@) == twos_complement_value(
                        xs@.len(),
                        bin_value(xs@),
                    )
                },
                Err(e) => failed(
                    e,
                    all_modulo(xs@, 2),
                    FancyError::UnequalModuli,
                    Self::infallible(),
                ),
            },
            !(all_modulo(xs@, 2)) ==> *final(self) == *old(self),
    {
        let xw = xs.wires();
        if !moduli_all(xw, 2) {
            return Err(FancyError::UnequalModuli);
        }
        let n = xw.len();
        let ghost xv = xs@;
        let mut flipped: Vec<Self::Item> = Vec::new();
        let mut i: usize = 0;
        while i < n
            invariant
                i <= n,
                n == xw@.len(),
                xv == views(xw@),
                xv == xs@,
                is_bits(xv),
                self.outputs() == old(self).outputs(),
                flipped@.len() == i,
                forall|j: int|
                    0 <= j < i ==> carries(
                        #[trigger] views(flipped@)[j],
                        2,
                        1 - xv[j].value,
                        Self::evaluates(),
                    ),
            decreases n - i,
        {
            proof {
                lemma_is_bits_value(xv, i as int);
            }
            let w = self.negate(&xw[i])?;
            let ghost before = views(flipped@);
            flipped.push(w);
            assert forall|j: int| 0 <= j < i + 1 implies carries(
                #[trigger] views(flipped@)[j],
                2,
                1 - xv[j].value,
                Self::evaluates(),
            ) by {
                if j < i {
                    assert(views(flipped@)[j] == before[j]);
                }
            }
            i += 1;
        }
        let not_xs = BinaryBundle::new(flipped);
        proof {
            assert forall|j: int| 0 <= j < not_xs@.len() implies (#[trigger] not_xs@[j]).wf()
                && not_xs@[j].modulus == 2 by {
                assert(carries(not_xs@[j], 2, 1 - xv[j].value, Self::evaluates()));
            }
            if Self::evaluates() {
                assert forall|j: int| 0 <= j < xv.len() implies (#[trigger] not_xs@[j]).value == 1
                    - xv[j].value by {
                    assert(carries(not_xs@[j], 2, 1 - xv[j].value, Self::evaluates()));
                }
                lemma_bin_value_complement(xv, not_xs@);
            }
        }
        let one = match self.bin_constant_bundle(1, n) {
            Ok(b) => b,
            Err(e) => {
                return Err(e);
            },
        };
        let zs = self.bin_addition_no_carry(&not_xs, &one)?;
        proof {
            if Self::evaluates() {
                lemma_pow2_pos(n as nat);
                lemma_bin_value_bound(xv);
                let big = pow2(n as nat) as int;
                let x = bin_value(xv) as int;
                if n == 0 {
                    lemma2_to64();
                } else {
                    lemma_pow2_unfold(n as nat);
                    lemma_pow2_pos((n - 1) as nat);
                    lemma_small_mod(1, big as nat);
                }
            }
        }
        Ok(zs)
    }

    /// Subtract two binary bundles. Returns the result and whether it
    /// underflowed.
    ///
    /// Due to the way that `twos_complement(0) = 0`, underflow indicates
    /// `y != 0 && x >= y`.
    fn bin_subtraction(&mut self, xs: &BinaryBundle<Self::Item>, ys: &BinaryBundle<Self::Item>)
        -> (r: Result<(BinaryBundle<Self::Item>, Self::Item), FancyError>)
        requires
            all_wf(xs@),
            all_wf(ys@),
        ensures
            final(self).outputs() == old(self).outputs(),
            match r {
                Ok((zs, c)) => {
                    &&& bin_pair_ok(xs@, ys@)
                    &&& zs@.len() == xs@.len()
                    &&& is_bits(zs@)
                    &&& c@.wf()
                    &&& c@.modulus == 2
                    &&& Self::evaluates() ==> {
                        &&& bin_value(zs@) == (bin_value(xs@) - bin_value(ys@)) % (pow2(
                            xs@.len(),
                        ) as int)
                        &&& c@.value == if bin_value(ys@) != 0 && bin_value(xs@) >= bin_value(
                            ys@,
                        ) {
                            1nat
                        } else {
                            0nat
                        }
                    }
                },
                Err(e) => failed(
                    e,
                    bin_pair_ok(xs@, ys@),
                    FancyError::UnequalModuli,
                    Self::infallible(),
                ),
            },
            !(bin_pair_ok(xs@, ys@)) ==> *final(self) == *old(self),
    {
        if !pair_is_binary(xs.wires(), ys.wires()) {
            return Err(FancyError::UnequalModuli);
        }
        let neg_ys = self.bin_twos_complement(ys)?;
        let (zs, c) = self.bin_addition(xs, &neg_ys)?;
        proof {
            if Self::evaluates() {
                let n = xs@.len();
                let big = pow2(n) as int;
                let x = bin_value(xs@) as int;
                let y = bin_value(ys@) as int;
                lemma_pow2_pos(n);
                lemma_bin_value_bound(xs@);
                lemma_bin_value_bound(ys@);
                if y == 0 {
                    vstd::arithmetic::div_mod::lemma_mod_self_0(big);
                    lemma_fundamental_div_mod_converse(x, big, 0, x);
                } else {
                    lemma_small_mod((big - y) as nat, big as nat);
                    if x >= y {
                        lemma_fundamental_div_mod_converse(x + big - y, big, 1, x - y);
                        lemma_small_mod((x - y) as nat, big as nat);
                    } else {
                        lemma_fundamental_div_mod_converse(x + big - y, big, 0, x + big - y);
                        lemma_mod_add_multiples_vanish(x - y, big);
                    }
                }
            }
        }
        Ok((zs, c))
    }

    /// If `x=0` return `c1` as a bundle of constant bits, else return `c2`.
    fn bin_multiplex_constant_bits(&mut self, x: &Self::Item, c1: u128, c2: u128, nbits: usize)
        -> (r: Result<BinaryBundle<Self::Item>, FancyError>)
        requires
            x@.wf(),
        ensures
            final(self).outputs() == old(self).outputs(),
            match r {
                Ok(zs) => {
                    &&& x@.modulus == 2
                    &&& zs@.len() == nbits
                    &&& is_bits(zs@)
                    &&& Self::evaluates() ==> bin_value(zs@) == (if x@.value == 0 {
                        c1 as nat
                    } else {
                        c2 as nat
                    }) % pow2(nbits as nat)
                },
                Err(e) => failed(
                    e,
                    x@.modulus == 2,
                    FancyError::UnequalModuli,
                    Self::infallible(),
                ),
            },
            !(x@.modulus == 2) ==> *final(self) == *old(self),
    {
        if x.modulus() != 2 {
            return Err(FancyError::UnequalModuli);
        }
        let c1_bs = u128_to_bits(c1, nbits);
        let c2_bs = u128_to_bits(c2, nbits);
        let ghost chosen = if x@.value == 0 { c1 as nat } else { c2 as nat };
        let mut ws: Vec<Self::Item> = Vec::new();
        let mut i: usize = 0;
        while i < nbits
            invariant
                i <= nbits,
                x@.wf(),
                x@.modulus == 2,
                c1_bs@.len() == nbits,
                c2_bs@.len() == nbits,
                forall|j: int| 0 <= j < nbits ==> (#[trigger] c1_bs@[j]) == bit_of(c1 as nat, j as nat),
                forall|j: int| 0 <= j < nbits ==> (#[trigger] c2_bs@[j]) == bit_of(c2 as nat, j as nat),
                chosen == if x@.value == 0 { c1 as nat } else { c2 as nat },
                self.outputs() == old(self).outputs(),
                ws@.len() == i,
                forall|j: int|
                    0 <= j < i ==> carries(
                        #[trigger] views(ws@)[j],
                        2,
                        bit_of(chosen, j as nat) as int,
                        Self::evaluates(),
                    ),
            decreases nbits - i,
        {
            let b1 = c1_bs[i] > 0;
            let b2 = c2_bs[i] > 0;
            let w = self.mux_constant_bits(x, b1, b2)?;
            let ghost before = views(ws@);
            ws.push(w);
            assert forall|j: int| 0 <= j < i + 1 implies carries(
                #[trigger] views(ws@)[j],
                2,
                bit_of(chosen, j as nat) as int,
                Self::evaluates(),
            ) by {
                if j < i {
                    assert(views(ws@)[j] == before[j]);
                }
            }
            i += 1;
        }
        let zs = BinaryBundle::new(ws);
        proof {
            assert forall|j: int| 0 <= j < zs@.len() implies (#[trigger] zs@[j]).wf()
                && zs@[j].modulus == 2 by {
                assert(carries(zs@[j], 2, bit_of(chosen, j as nat) as int, Self::evaluates()));
            }
            if Self::evaluates() {
                assert forall|j: int| 0 <= j < zs@.len() implies (#[trigger] zs@[j]).value
                    == bit_of(chosen, j as nat) by {
                    assert(carries(zs@[j], 2, bit_of(chosen, j as nat) as int, Self::evaluates()));
                }
                lemma_bin_value_of_bits(zs@, chosen);
            }
        }
        Ok(zs)
    }

    /// Write the constant in binary and that gives you the shift amounts,
    /// Eg.. 7x is 4x+2x+x. The bundle must be `nbits` wide; the product is
    /// cut to that width.
    fn bin_cmul(&mut self, x: &BinaryBundle<Self::Item>, c: u128, nbits: usize) -> (r: Result<
        BinaryBundle<Self::Item>,
        FancyError,
    >)
        requires
            all_wf(x@),
        ensures
            final(self).outputs() == old(self).outputs(),
            match r {
                Ok(zs) => {
                    &&& all_modulo(x@, 2)
                    &&& x@.len() == nbits
                    &&& zs@.len() == nbits
                    &&& is_bits(zs@)
                    &&& Self::evaluates() ==> bin_value(zs@) == (bin_value(x@) * c as nat) % pow2(
                        nbits as nat,
                    )
                },
                Err(e) => failed(
                    e,
                    all_modulo(x@, 2) && x@.len() == nbits,
                    FancyError::UnequalModuli,
                    Self::infallible(),
                ),
            },
            !(all_modulo(x@, 2) && x@.len() == nbits) ==> *final(self) == *old(self),
    {
        let xw = x.wires();
        if xw.len() != nbits || !moduli_all(xw, 2) {
            return Err(FancyError::UnequalModuli);
        }
        let mut sum = match self.bin_constant_bundle(0, nbits) {
            Ok(b) => b,
            Err(e) => {
                return Err(e);
            },
        };
        let bits = u128_to_bits(c, nbits);
        let ghost xv = x@;
        let ghost big = pow2(nbits as nat);
        proof {
            lemma_pow2_pos(nbits as nat);
            lemma2_to64();
            if Self::evaluates() {
                lemma_small_mod(0, big);
                assert(c as nat % pow2(0) == 0);
                assert(bin_value(xv) * 0 == 0);
            }
        }
        let mut i: usize = 0;
        while i < nbits
            invariant
                i <= nbits,
                nbits == xw@.len(),
                xv == views(xw@),
                xv == x@,
                is_bits(xv),
                big == pow2(nbits as nat),
                big > 0,
                bits@.len() == nbits,
                forall|j: int| 0 <= j < nbits ==> (#[trigger] bits@[j]) == bit_of(c as nat, j as nat),
                self.outputs() == old(self).outputs(),
                sum@.len() == nbits,
                is_bits(sum@),
                Self::evaluates() ==> bin_value(sum@) == (bin_value(xv) * (c as nat % pow2(
                    i as nat,
                ))) % big,
            decreases nbits - i,
        {
            let ghost lo = (c as nat % pow2(i as nat)) as int;
            let ghost p = pow2(i as nat) as int;
            proof {
                lemma_pow2_pos(i as nat);
                lemma_pow2_unfold((i + 1) as nat);
                lemma_mod_breakdown(c as int, p, 2);
                assert(p * 2 == 2 * p);
                assert(bits@[i as int] == bit_of(c as nat, i as nat));
            }
            if bits[i] > 0 {
                let moved = self.shift(x.as_bundle(), i)?;
                proof {
                    lemma_shifted_bits(moved@, xv, i as nat, Self::evaluates());
                }
                let moved = BinaryBundle(moved);
                sum = self.bin_addition_no_carry(&sum, &moved)?;
                proof {
                    if Self::evaluates() {
                        let xx = bin_value(xv) as int;
                        lemma_add_mod_noop(xx * lo, xx * p, big as int);
                        assert(xx * (lo + p) == xx * lo + xx * p) by (nonlinear_arith);
                        assert(p * 1 == p);
                    }
                }
            } else {
                proof {
                    assert(p * 0 == 0);
                }
            }
            i += 1;
        }
        proof {
            if Self::evaluates() {
                lemma_mul_mod_noop_right(bin_value(xv) as int, c as int, big as int);
            }
        }
        Ok(sum)
    }

    /// Compute the absolute value of a binary bundle: the bundle itself
    /// where its top bit is 0, its two's complement where it is 1.
    fn bin_abs(&mut self, x: &BinaryBundle<Self::Item>) -> (r: Result<
        BinaryBundle<Self::Item>,
        FancyError,
    >)
        requires
            all_wf(x@),
        ensures
            final(self).outputs() == old(self).outputs(),
            match r {
                Ok(zs) => {
                    &&& all_modulo(x@, 2)
                    &&& zs@.len() == x@.len()
                    &&& is_bits(zs@)
                    &&& Self::evaluates() ==> bin_value(zs@) == abs_value(x@.len(), bin_value(x@))
                },
                Err(e) => failed(
                    e,
                    all_modulo(x@, 2),
                    FancyError::UnequalModuli,
                    Self::infallible(),
                ),
            },
            !(all_modulo(x@, 2)) ==> *final(self) == *old(self),
    {
        let xw = x.wires();
        if !moduli_all(xw, 2) {
            return Err(FancyError::UnequalModuli);
        }
        let n = xw.len();
        if n == 0 {
            return Ok(x.duplicate());
        }
        proof {
            lemma_is_bits_value(x@, n - 1);
        }
        let negated = self.bin_twos_complement(x)?;
        let z = self.multiplex(&xw[n - 1], x.as_bundle(), negated.as_bundle())?;
        let zs = BinaryBundle(z);
        proof {
            let bit = x@[n - 1].value;
            assert forall|j: int| 0 <= j < zs@.len() implies (#[trigger] zs@[j]).wf()
                && zs@[j].modulus == 2 by {
                assert(carries(
                    zs@[j],
                    x@[j].modulus,
                    if bit == 0 { x@[j].value as int } else { negated@[j].value as int },
                    Self::evaluates(),
                ));
                lemma_is_bits_value(x@, j);
            }
            if Self::evaluates() {
                lemma_top_bit(x@);
                let chosen = if bit == 0 { x@ } else { negated@ };
                assert forall|j: int| 0 <= j < zs@.len() implies (#[trigger] zs@[j]).value
                    == chosen[j].value by {
                    assert(carries(
                        zs@[j],
                        x@[j].modulus,
                        if bit == 0 { x@[j].value as int } else { negated@[j].value as int },
                        Self::evaluates(),
                    ));
                }
                lemma_bin_value_ext(zs@, chosen);
            }
        }
        Ok(zs)
    }

    /// Returns 1 if `x < y`, both read as plain numbers. The borrow of the
    /// subtraction says `y != 0 && x >= y`; together with `y == 0` that is
    /// `x >= y`, and the result is its complement.
    fn bin_lt(&mut self, x: &BinaryBundle<Self::Item>, y: &BinaryBundle<Self::Item>) -> (r:
        Result<Self::Item, FancyError>)
        requires
            all_wf(x@),
            all_wf(y@),
        ensures
            final(self).outputs() == old(self).outputs(),
            match r {
                Ok(w) => bin_pair_ok(x@, y@) && carries(
                    w@,
                    2,
                    if bin_value(x@) < bin_value(y@) { 1int } else { 0int },
                    Self::evaluates(),
                ),
                Err(e) => failed(
                    e,
                    bin_pair_ok(x@, y@),
                    FancyError::UnequalModuli,
                    Self::infallible(),
                ),
            },
            !(bin_pair_ok(x@, y@)) ==> *final(self) == *old(self),
    {
        if !pair_is_binary(x.wires(), y.wires()) {
            return Err(FancyError::UnequalModuli);
        }
        let (_, lhs) = self.bin_subtraction(x, y)?;
        let y_contains_1 = self.or_many(y.wires())?;
        let y_eq_0 = self.negate(&y_contains_1)?;
        let geq = self.or(&lhs, &y_eq_0)?;
        let w = self.negate(&geq)?;
        proof {
            if Self::evaluates() {
                lemma_bin_value_zero_iff(y@);
                let a = lhs@.value;
                let b = y_eq_0@.value;
                lemma_bit_product(a, b);
            }
        }
        Ok(w)
    }

    /// Returns 1 if `x >= y`, both read as plain numbers.
    fn bin_geq(&mut self, x: &BinaryBundle<Self::Item>, y: &BinaryBundle<Self::Item>) -> (r:
        Result<Self::Item, FancyError>)
        requires
            all_wf(x@),
            all_wf(y@),
        ensures
            final(self).outputs() == old(self).outputs(),
            match r {
                Ok(w) => bin_pair_ok(x@, y@) && carries(
                    w@,
                    2,
                    if bin_value(x@) >= bin_value(y@) { 1int } else { 0int },
                    Self::evaluates(),
                ),
                Err(e) => failed(
                    e,
                    bin_pair_ok(x@, y@),
                    FancyError::UnequalModuli,
                    Self::infallible(),
                ),
            },
            !(bin_pair_ok(x@, y@)) ==> *final(self) == *old(self),
    {
        let z = self.bin_lt(x, y)?;
        self.negate(&z)
    }

    /// Compute the maximum bundle in `xs`, all read as plain numbers.
    fn bin_max(&mut self, xs: &[BinaryBundle<Self::Item>]) -> (r: Result<
        BinaryBundle<Self::Item>,
        FancyError,
    >)
        requires
            all_bundles_wf(bundle_views(xs@)),
        ensures
            final(self).outputs() == old(self).outputs(),
            match r {
                Ok(zs) => {
                    &&& bin_max_ok(bundle_views(xs@))
                    &&& zs@.len() == xs@[0]@.len()
                    &&& is_bits(zs@)
                    &&& Self::evaluates() ==> bin_value(zs@) == max_bin_value(bundle_views(xs@))
                },
                Err(e) => failed(
                    e,
                    bin_max_ok(bundle_views(xs@)),
                    bin_max_error(bundle_views(xs@)),
                    Self::infallible(),
                ),
            },
            !(bin_max_ok(bundle_views(xs@))) ==> *final(self) == *old(self),
    {
        let n = xs.len();
        if n < 2 {
            return Err(FancyError::InvalidArgNum { got: n, needed: 2 });
        }
        let ghost s = bundle_views(xs@);
        let width = xs[0].size();
        let mut k: usize = 0;
        while k < n
            invariant
                k <= n,
                n == xs@.len(),
                n >= 2,
                s == bundle_views(xs@),
                width == s[0].len(),
                forall|j: int| 0 <= j < k ==> all_modulo(#[trigger] s[j], 2) && s[j].len() == width,
            decreases n - k,
        {
            assert(s[k as int] == xs@[k as int]@);
            if xs[k].size() != width || !moduli_all(xs[k].wires(), 2) {
                assert(!(all_modulo(s[k as int], 2) && s[k as int].len() == s[0].len()));
                return Err(FancyError::UnequalModuli);
            }
            k += 1;
        }
        let mut cur = xs[0].duplicate();
        proof {
            assert(s[0] == xs@[0]@);
            assert(all_wf(s[0]));
            assert(s.take(1).drop_last() =~= Seq::<Seq<Residue>>::empty());
            assert(s.take(1).last() == s[0]);
            assert(max_bin_value(s.take(1).drop_last()) == 0);
        }
        let mut i: usize = 1;
        while i < n
            invariant
                1 <= i <= n,
                n == xs@.len(),
                n >= 2,
                s == bundle_views(xs@),
                all_bundles_wf(s),
                bin_max_ok(s),
                self.outputs() == old(self).outputs(),
                cur@.len() == s[0].len(),
                is_bits(cur@),
                Self::evaluates() ==> bin_value(cur@) == max_bin_value(s.take(i as int)),
            decreases n - i,
        {
            let y = &xs[i];
            proof {
                assert(s[i as int] == xs@[i as int]@);
                assert(all_wf(s[i as int]));
                assert(all_modulo(s[i as int], 2) && s[i as int].len() == s[0].len());
                assert(s.take(i + 1).drop_last() =~= s.take(i as int));
                assert(s.take(i + 1).last() == s[i as int]);
            }
            let pos = self.bin_lt(&cur, y)?;
            let neg = self.negate(&pos)?;
            let ws = blend(self, &pos, &neg, cur.wires(), y.wires())?;
            cur = BinaryBundle::new(ws);
            i += 1;
        }
        proof {
            assert(s.take(n as int) =~= s);
        }
        Ok(cur)
    }

    /// Shift the bits of the bundle to the right by a constant amount: the
    /// low `c` wires are dropped and zeros come in at the top.
    fn bin_lshr_constant(&mut self, xs: &BinaryBundle<Self::Item>, c: usize) -> (r: Result<
        BinaryBundle<Self::Item>,
        FancyError,
    >)
        requires
            all_wf(xs@),
        ensures
            final(self).outputs() == old(self).outputs(),
            match r {
                Ok(zs) => {
                    &&& all_modulo(xs@, 2)
                    &&& zs@.len() == xs@.len()
                    &&& is_bits(zs@)
                    &&& lowered(zs@, xs@, c as nat, Self::evaluates())
                    &&& Self::evaluates() ==> bin_value(zs@) == bin_value(xs@) / pow2(c as nat)
                },
                Err(e) => failed(
                    e,
                    all_modulo(xs@, 2),
                    FancyError::UnequalModuli,
                    Self::infallible(),
                ),
            },
            !(all_modulo(xs@, 2)) ==> *final(self) == *old(self),
    {
        let xw = xs.wires();
        if !moduli_all(xw, 2) {
            return Err(FancyError::UnequalModuli);
        }
        let width = xw.len();
        let keep: usize = if c < width {
            width - c
        } else {
            0
        };
        let zero = self.constant(0, 2)?;
        let ghost xv = xs@;
        let mut ws: Vec<Self::Item> = Vec::new();
        let mut i: usize = 0;
        while i < width
            invariant
                i <= width,
                width == xw@.len(),
                xv == views(xw@),
                keep == if c < width { width - c } else { 0 },
                carries(zero@, 2, 0, Self::evaluates()),
                ws@.len() == i,
                forall|j: int| 0 <= j < i && j + c < width ==> (#[trigger] views(ws@)[j]) == xv[j + c],
                forall|j: int|
                    0 <= j < i && j + c >= width ==> carries(
                        #[trigger] views(ws@)[j],
                        2,
                        0,
                        Self::evaluates(),
                    ),
            decreases width - i,
        {
            let ghost before = views(ws@);
            if i < keep {
                ws.push(xw[i + c].duplicate());
            } else {
                ws.push(zero.duplicate());
            }
            assert forall|j: int| 0 <= j < i + 1 && j + c < width implies (#[trigger] views(ws@)[j])
                == xv[j + c] by {
                if j < i {
                    assert(views(ws@)[j] == before[j]);
                }
            }
            assert forall|j: int| 0 <= j < i + 1 && j + c >= width implies carries(
                #[trigger] views(ws@)[j],
                2,
                0,
                Self::evaluates(),
            ) by {
                if j < i {
                    assert(views(ws@)[j] == before[j]);
                }
            }
            i += 1;
        }
        let zs = BinaryBundle::new(ws);
        proof {
            lemma_lowered_bits(zs@, xv, c as nat, Self::evaluates());
        }
        Ok(zs)
    }

    /// Shift the bits of the bundle to the right by the amount that the
    /// bundle `ys` spells: for each bit of `ys`, from the lowest, the bundle
    /// is shifted by that bit's weight where the bit is set.
    #[verifier::rlimit(40)]
    fn bin_logical_shr(&mut self, xs: &BinaryBundle<Self::Item>, ys: &BinaryBundle<Self::Item>)
        -> (r: Result<BinaryBundle<Self::Item>, FancyError>)
        requires
            all_wf(xs@),
            all_wf(ys@),
        ensures
            final(self).outputs() == old(self).outputs(),
            match r {
                Ok(zs) => {
                    &&& all_modulo(xs@, 2) && all_modulo(ys@, 2)
                    &&& zs@.len() == xs@.len()
                    &&& is_bits(zs@)
                    &&& Self::evaluates() ==> bin_value(zs@) == bin_value(xs@) / pow2(
                        bin_value(ys@),
                    )
                },
                Err(e) => failed(
                    e,
                    all_modulo(xs@, 2) && all_modulo(ys@, 2),
                    FancyError::UnequalModuli,
                    Self::infallible(),
                ),
            },
            !(all_modulo(xs@, 2) && all_modulo(ys@, 2)) ==> *final(self) == *old(self),
    {
        let yw = ys.wires();
        if !moduli_all(xs.wires(), 2) || !moduli_all(yw, 2) {
            return Err(FancyError::UnequalModuli);
        }
        let width = xs.size();
        let m = yw.len();
        let ghost xv = xs@;
        let ghost yv = ys@;
        let mut cur = xs.duplicate();
        // the weight of the current bit of `ys`, cut off at the width
        let mut step: usize = if width == 0 { 0 } else { 1 };
        proof {
            lemma2_to64();
            assert(bin_value(yv.take(0)) == 0);
            assert(bin_value(xv) as int / 1 == bin_value(xv));
        }
        let mut j: usize = 0;
        while j < m
            invariant
                j <= m,
                m == yw@.len(),
                yv == views(yw@),
                xv == xs@,
                yv == ys@,
                width == xv.len(),
                is_bits(xv),
                is_bits(yv),
                self.outputs() == old(self).outputs(),
                cur@.len() == width,
                is_bits(cur@),
                step <= width,
                step == if pow2(j as nat) < width { pow2(j as nat) } else { width as nat },
                Self::evaluates() ==> bin_value(cur@) == bin_value(xv) / pow2(
                    bin_value(yv.take(j as int)),
                ),
            decreases m - j,
        {
            proof {
                lemma_is_bits_value(yv, j as int);
            }
            let moved = self.bin_lshr_constant(&cur, step)?;
            let sel = self.multiplex(&yw[j], cur.as_bundle(), moved.as_bundle())?;
            let next = BinaryBundle(sel);
            proof {
                let bit = yv[j as int].value;
                assert forall|t: int| 0 <= t < next@.len() implies (#[trigger] next@[t]).wf()
                    && next@[t].modulus == 2 by {
                    assert(carries(
                        next@[t],
                        cur@[t].modulus,
                        if bit == 0 { cur@[t].value as int } else { moved@[t].value as int },
                        Self::evaluates(),
                    ));
                    lemma_is_bits_value(cur@, t);
                }
                lemma_pow2_pos(j as nat);
                lemma_pow2_unfold((j + 1) as nat);
                if Self::evaluates() {
                    let chosen = if bit == 0 { cur@ } else { moved@ };
                    assert forall|t: int| 0 <= t < next@.len() implies (#[trigger] next@[t]).value
                        == chosen[t].value by {
                        assert(carries(
                            next@[t],
                            cur@[t].modulus,
                            if bit == 0 { cur@[t].value as int } else { moved@[t].value as int },
                            Self::evaluates(),
                        ));
                    }
                    lemma_bin_value_ext(next@, chosen);
                    lemma_bin_value_take(yv, j as int);
                    let lo = bin_value(yv.take(j as int));
                    let w = pow2(j as nat);
                    let x = bin_value(xv) as int;
                    if bit == 0 {
                        assert(bit * w == 0) by (nonlinear_arith)
                            requires
                                bit == 0,
                        ;
                    } else {
                        assert(bit * w == w) by (nonlinear_arith)
                            requires
                                bit == 1,
                        ;
                        lemma_pow2_pos(lo);
                        lemma_pow2_pos(w);
                        lemma_pow2_adds(lo, w);
                        lemma_div_denominator(x, pow2(lo) as int, pow2(w) as int);
                        if w >= width {
                            // the whole bundle is shifted out either way
                            lemma_bin_value_bound(cur@);
                            lemma_pow2_pos(width as nat);
                            if w > width {
                                lemma_pow2_strictly_increases(width as nat, w);
                            }
                            lemma_basic_div(bin_value(cur@) as int, pow2(width as nat) as int);
                            lemma_basic_div(bin_value(cur@) as int, pow2(w) as int);
                        }
                    }
                }
            }
            cur = next;
            step = if step >= width - step {
                width
            } else {
                step + step
            };
            j += 1;
        }
        proof {
            assert(yv.take(m as int) =~= yv);
        }
        Ok(cur)
    }

    /// Selects the wire of `xs` at the index that the bundle `ix` spells:
    /// the sum over all places of the wire at the place, times the bit that
    /// says whether the index is the place.
    #[verifier::rlimit(40)]
    fn bin_mux_many(&mut self, ix: &BinaryBundle<Self::Item>, xs: &[Self::Item]) -> (r: Result<
        Self::Item,
        FancyError,
    >)
        requires
            all_wf(ix@),
            all_wf(views(xs@)),
        ensures
            final(self).outputs() == old(self).outputs(),
            match r {
                Ok(w) => {
                    &&& all_modulo(ix@, 2) && all_modulo(views(xs@), 2)
                    &&& ix@.len() <= MAX_EQ_WIDTH
                    &&& carries(
                        w@,
                        2,
                        mux_many_value(bin_value(ix@), ix@.len(), views(xs@)) as int,
                        Self::evaluates(),
                    )
                },
                Err(e) => failed(
                    e,
                    all_modulo(ix@, 2) && all_modulo(views(xs@), 2) && ix@.len() <= MAX_EQ_WIDTH,
                    mux_many_error(ix@, views(xs@)),
                    Self::infallible(),
                ),
            },
            !(all_modulo(ix@, 2) && all_modulo(views(xs@), 2) && ix@.len() <= MAX_EQ_WIDTH)
                ==> *final(self) == *old(self),
    {
        if !moduli_all(ix.wires(), 2) || !moduli_all(xs, 2) {
            return Err(FancyError::UnequalModuli);
        }
        let nbits = ix.size();
        if nbits > MAX_EQ_WIDTH {
            return Err(FancyError::InvalidArgNum { got: nbits, needed: MAX_EQ_WIDTH });
        }
        let ghost iv = ix@;
        let ghost xv = views(xs@);
        let mut sum = self.constant(0, 2)?;
        let mut i: usize = 0;
        while i < xs.len()
            invariant
                i <= xs@.len(),
                iv == ix@,
                xv == views(xs@),
                is_bits(iv),
                is_bits(xv),
                nbits == iv.len(),
                nbits <= MAX_EQ_WIDTH,
                self.outputs() == old(self).outputs(),
                carries(
                    sum@,
                    2,
                    mux_many_value(bin_value(iv), nbits as nat, xv.take(i as int)) as int,
                    Self::evaluates(),
                ),
            decreases xs@.len() - i,
        {
            proof {
                lemma_is_bits_value(xv, i as int);
                assert(xv.take(i + 1).drop_last() =~= xv.take(i as int));
                assert(xv.take(i + 1).last() == xv[i as int]);
            }
            let ix_ = match self.bin_constant_bundle(i as u128, nbits) {
                Ok(b) => b,
                Err(e) => {
                    return Err(e);
                },
            };
            let mask = self.eq_bundles(ix.as_bundle(), ix_.as_bundle())?;
            let y = self.mul(&mask, &xs[i])?;
            let ghost before = sum@.value;
            sum = self.add(&sum, &y)?;
            proof {
                if Self::evaluates() {
                    lemma_bin_value_injective(iv, ix_@);
                    let a = mask@.value;
                    let b = xv[i as int].value;
                    assert(a * b == if a == 0 { 0 } else { b }) by (nonlinear_arith)
                        requires
                            a < 2,
                    ;
                }
            }
            i += 1;
        }
        proof {
            assert(xv.take(xs@.len() as int) =~= xv);
        }
        Ok(sum)
    }
}

impl<F: Fancy> BinaryGadgets for F {

}

} // verus!
