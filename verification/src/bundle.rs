//! Bundles: ordered sequences of wires, and the gadgets that treat a bundle
//! wire by wire.

use vstd::prelude::*;
use vstd::arithmetic::div_mod::lemma_small_mod;
use crate::error::{FancyError, failed, backend_failure};
use crate::wire::{HasModulus, Residue, carries, views, all_wf, all_modulo, same_moduli, sum_values};
use crate::fancy::{Fancy, constant_ok};

verus! {

/// An ordered sequence of wires. Its view is the sequence of residues that
/// the wires stand for.
pub struct Bundle<W: HasModulus>(Vec<W>);

impl<W: HasModulus> Bundle<W> {
    /// The residues that the wires stand for, in order.
    pub closed spec fn view(&self) -> Seq<Residue> {
        views(self.0@)
    }

    /// The wires themselves, in order.
    pub closed spec fn spec_wires(&self) -> Seq<W> {
        self.0@
    }

    /// The bundle of the given wires.
    pub fn new(ws: Vec<W>) -> (b: Bundle<W>)
        ensures
            b@ == views(ws@),
            b.spec_wires() == ws@,
    {
        Bundle(ws)
    }

    /// The wires, in order.
    pub fn wires(&self) -> (ws: &[W])
        ensures
            views(ws@) == self@,
            ws@ == self.spec_wires(),
    {
        self.0.as_slice()
    }

    /// The wires, given up by the bundle.
    pub fn into_wires(self) -> (ws: Vec<W>)
        ensures
            views(ws@) == self@,
    {
        self.0
    }

    /// The number of wires.
    pub fn size(&self) -> (n: usize)
        ensures
            n == self@.len(),
    {
        self.0.len()
    }

    /// The moduli of the wires, in order.
    pub fn moduli(&self) -> (ms: Vec<u16>)
        ensures
            ms@.len() == self@.len(),
            forall|i: int| 0 <= i < ms@.len() ==> (#[trigger] ms@[i]) == self@[i].modulus,
    {
        let mut ms: Vec<u16> = Vec::new();
        let mut i: usize = 0;
        while i < self.0.len()
            invariant
                i <= self.0@.len(),
                ms@.len() == i,
                forall|j: int| 0 <= j < i ==> (#[trigger] ms@[j]) == self.0@[j]@.modulus,
            decreases self.0@.len() - i,
        {
            ms.push(self.0[i].modulus());
            i += 1;
        }
        ms
    }

    /// Another bundle of the same wires.
    pub fn duplicate(&self) -> (b: Bundle<W>)
        ensures
            b@ == self@,
    {
        let ws = duplicate_wires(self.0.as_slice());
        Bundle(ws)
    }
}

impl<W: HasModulus + Clone> Clone for Bundle<W> {
    /// A bundle of clones of the wires. What a clone of a wire stands for is
    /// for the wire's own `clone` to say; `duplicate` keeps the residues.
    fn clone(&self) -> (b: Bundle<W>)
        ensures
            b@.len() == self@.len(),
            b.spec_wires().len() == self.spec_wires().len(),
            forall|i: int|
                0 <= i < self.spec_wires().len() ==> cloned(
                    #[trigger] self.spec_wires()[i],
                    b.spec_wires()[i],
                ),
    {
        Bundle(self.0.clone())
    }
}

/// New handles to the same wires.
pub fn duplicate_wires<W: HasModulus>(ws: &[W]) -> (out: Vec<W>)
    ensures
        views(out@) == views(ws@),
{
    let mut out: Vec<W> = Vec::new();
    let mut i: usize = 0;
    while i < ws.len()
        invariant
            i <= ws@.len(),
            out@.len() == i,
            forall|j: int| 0 <= j < i ==> (#[trigger] out@[j])@ == ws@[j]@,
        decreases ws@.len() - i,
    {
        out.push(ws[i].duplicate());
        i += 1;
    }
    assert(views(out@) =~= views(ws@));
    out
}

/// Whether two lists of wires agree in length and, place by place, in
/// modulus.
pub fn moduli_match<W: HasModulus>(x: &[W], y: &[W]) -> (b: bool)
    ensures
        b == same_moduli(views(x@), views(y@)),
{
    if x.len() != y.len() {
        return false;
    }
    let mut i: usize = 0;
    while i < x.len()
        invariant
            i <= x@.len(),
            x@.len() == y@.len(),
            forall|j: int| 0 <= j < i ==> (#[trigger] views(x@)[j]).modulus == views(y@)[j].modulus,
        decreases x@.len() - i,
    {
        if x[i].modulus() != y[i].modulus() {
            assert(views(x@)[i as int].modulus != views(y@)[i as int].modulus);
            return false;
        }
        i += 1;
    }
    true
}

/// Whether every wire of the list is taken modulo `p`.
pub fn moduli_all<W: HasModulus>(x: &[W], p: u16) -> (b: bool)
    ensures
        b == all_modulo(views(x@), p as nat),
{
    let mut i: usize = 0;
    while i < x.len()
        invariant
            i <= x@.len(),
            forall|j: int| 0 <= j < i ==> (#[trigger] views(x@)[j]).modulus == p,
        decreases x@.len() - i,
    {
        if x[i].modulus() != p {
            assert(views(x@)[i as int].modulus != p);
            return false;
        }
        i += 1;
    }
    true
}

/// The residues of a list of bundles.
pub open spec fn bundles_view<W: HasModulus>(xs: Seq<Bundle<W>>) -> Seq<Seq<Residue>> {
    Seq::new(xs.len(), |k: int| xs[k]@)
}

/// An operation on two wires of one modulus.
pub enum WireOp {
    Add,
    Sub,
    Mul,
}

impl WireOp {
    /// The value that the operation gives on two residues of one modulus.
    pub open spec fn value(self, a: Residue, b: Residue) -> int {
        match self {
            WireOp::Add => ((a.value + b.value) % a.modulus) as int,
            WireOp::Sub => (a.value - b.value) % (a.modulus as int),
            WireOp::Mul => ((a.value * b.value) % a.modulus) as int,
        }
    }
}

/// `z` holds, place by place, the result of `op` on `x` and `y`.
pub open spec fn wirewise(
    op: WireOp,
    z: Seq<Residue>,
    x: Seq<Residue>,
    y: Seq<Residue>,
    evaluates: bool,
) -> bool {
    &&& z.len() == x.len()
    &&& forall|i: int|
        0 <= i < z.len() ==> carries(#[trigger] z[i], x[i].modulus, op.value(x[i], y[i]), evaluates)
}

/// `z` holds, place by place, the wire of `x` where the bit is 0 and that of
/// `y` where it is 1.
pub open spec fn selected(
    z: Seq<Residue>,
    bit: nat,
    x: Seq<Residue>,
    y: Seq<Residue>,
    evaluates: bool,
) -> bool {
    &&& z.len() == x.len()
    &&& forall|i: int|
        0 <= i < z.len() ==> carries(
            #[trigger] z[i],
            x[i].modulus,
            if bit == 0 { x[i].value as int } else { y[i].value as int },
            evaluates,
        )
}

/// `z` is `x` moved `n` places up: zeros modulo `p` below, the low wires of
/// `x` above them, the top wires of `x` dropped.
pub open spec fn shifted(z: Seq<Residue>, x: Seq<Residue>, n: nat, p: nat, evaluates: bool) -> bool {
    &&& z.len() == x.len()
    &&& forall|i: int| 0 <= i < z.len() && i < n ==> carries(#[trigger] z[i], p, 0, evaluates)
    &&& forall|i: int| 0 <= i < z.len() && i >= n ==> (#[trigger] z[i]) == x[i - n]
}

/// Place by place the two sequences hold one value.
pub open spec fn values_equal(x: Seq<Residue>, y: Seq<Residue>) -> bool {
    forall|i: int| 0 <= i < x.len() ==> (#[trigger] x[i]).value == y[i].value
}

/// The constants asked for can be made: as many values as moduli, each value
/// below its modulus.
pub open spec fn constants_ok(xs: Seq<u16>, ps: Seq<u16>) -> bool {
    &&& xs.len() == ps.len()
    &&& forall|i: int| 0 <= i < xs.len() ==> constant_ok(#[trigger] xs[i] as nat, ps[i] as nat)
}

/// The widest bundles that `eq_bundles` can compare: it counts the places
/// that agree on a wire whose modulus is the width plus one.
pub const MAX_EQ_WIDTH: usize = 65534;

/// The operands of `eq_bundles` can be compared.
pub open spec fn eq_bundles_ok(x: Seq<Residue>, y: Seq<Residue>) -> bool {
    same_moduli(x, y) && x.len() <= MAX_EQ_WIDTH
}

/// The error that `eq_bundles` owes on operands that it cannot compare.
pub open spec fn eq_bundles_error(x: Seq<Residue>, y: Seq<Residue>) -> FancyError {
    if same_moduli(x, y) {
        FancyError::InvalidArgNum { got: x.len() as usize, needed: MAX_EQ_WIDTH }
    } else {
        FancyError::UnequalModuli
    }
}

/// Indicators sum to their number exactly where all of them are 1.
pub proof fn lemma_sum_indicators(s: Seq<Residue>)
    requires
        forall|i: int| 0 <= i < s.len() ==> (#[trigger] s[i]).value <= 1,
    ensures
        sum_values(s) <= s.len(),
        sum_values(s) == s.len() <==> forall|i: int|
            0 <= i < s.len() ==> (#[trigger] s[i]).value == 1,
    decreases s.len(),
{
    if s.len() > 0 {
        let t = s.drop_last();
        assert forall|i: int| 0 <= i < t.len() implies (#[trigger] t[i]).value <= 1 by {
            assert(t[i] == s[i]);
        }
        lemma_sum_indicators(t);
        assert(s.last().value <= 1);
        if sum_values(s) == s.len() {
            assert forall|i: int| 0 <= i < s.len() implies (#[trigger] s[i]).value == 1 by {
                if i < t.len() {
                    assert(t[i] == s[i]);
                }
            }
        }
        if forall|i: int| 0 <= i < s.len() ==> (#[trigger] s[i]).value == 1 {
            assert forall|i: int| 0 <= i < t.len() implies (#[trigger] t[i]).value == 1 by {
                assert(t[i] == s[i]);
            }
            assert(s[s.len() - 1].value == 1);
        }
    }
}

/// Applies `op` to the wires of `x` and `y`, place by place.
pub fn zip_wires<F: Fancy>(f: &mut F, op: WireOp, x: &[F::Item], y: &[F::Item]) -> (r: Result<
    Vec<F::Item>,
    FancyError,
>)
    requires
        all_wf(views(x@)),
        all_wf(views(y@)),
    ensures
        final(f).outputs() == old(f).outputs(),
        match r {
            Ok(z) => same_moduli(views(x@), views(y@)) && wirewise(
                op,
                views(z@),
                views(x@),
                views(y@),
                F::evaluates(),
            ),
            Err(e) => failed(
                e,
                same_moduli(views(x@), views(y@)),
                FancyError::UnequalModuli,
                F::infallible(),
            ),
        },
{
    if !moduli_match(x, y) {
        return Err(FancyError::UnequalModuli);
    }
    let ghost xs = views(x@);
    let ghost ys = views(y@);
    let mut z: Vec<F::Item> = Vec::new();
    let mut i: usize = 0;
    while i < x.len()
        invariant
            i <= x@.len(),
            xs == views(x@),
            ys == views(y@),
            all_wf(xs),
            all_wf(ys),
            same_moduli(xs, ys),
            f.outputs() == old(f).outputs(),
            z@.len() == i,
            forall|j: int|
                0 <= j < i ==> carries(
                    #[trigger] views(z@)[j],
                    xs[j].modulus,
                    op.value(xs[j], ys[j]),
                    F::evaluates(),
                ),
        decreases x@.len() - i,
    {
        assert(xs[i as int].wf() && ys[i as int].wf());
        assert(xs[i as int].modulus == ys[i as int].modulus);
        let w = match op {
            WireOp::Add => f.add(&x[i], &y[i])?,
            WireOp::Sub => f.sub(&x[i], &y[i])?,
            WireOp::Mul => f.mul(&x[i], &y[i])?,
        };
        let ghost before = views(z@);
        z.push(w);
        assert forall|j: int| 0 <= j < i + 1 implies carries(
            #[trigger] views(z@)[j],
            xs[j].modulus,
            op.value(xs[j], ys[j]),
            F::evaluates(),
        ) by {
            if j < i {
                assert(views(z@)[j] == before[j]);
            }
        }
        i += 1;
    }
    Ok(z)
}

/// Gadgets that treat a bundle wire by wire. Every backend has them.
pub trait BundleGadgets: Fancy + Sized {
    /// The bundle of the constants `xs`, wire `i` modulo `ps[i]`.
    fn constant_bundle(&mut self, xs: &[u16], ps: &[u16]) -> (r: Result<
        Bundle<Self::Item>,
        FancyError,
    >)
        ensures
            final(self).outputs() == old(self).outputs(),
            match r {
                Ok(b) => constants_ok(xs@, ps@) && b@.len() == xs@.len() && forall|i: int|
                    0 <= i < b@.len() ==> carries(
                        #[trigger] b@[i],
                        ps@[i] as nat,
                        xs@[i] as int,
                        Self::evaluates(),
                    ),
                Err(e) => failed(
                    e,
                    constants_ok(xs@, ps@),
                    FancyError::InvalidInput,
                    Self::infallible(),
                ),
            },
    {
        if xs.len() != ps.len() {
            return Err(FancyError::InvalidInput);
        }
        let mut k: usize = 0;
        while k < xs.len()
            invariant
                k <= xs@.len(),
                xs@.len() == ps@.len(),
                forall|j: int| 0 <= j < k ==> constant_ok(#[trigger] xs@[j] as nat, ps@[j] as nat),
            decreases xs@.len() - k,
        {
            if ps[k] < 2 || xs[k] >= ps[k] {
                assert(!constant_ok(xs@[k as int] as nat, ps@[k as int] as nat));
                return Err(FancyError::InvalidInput);
            }
            k += 1;
        }
        let mut ws: Vec<Self::Item> = Vec::new();
        let mut i: usize = 0;
        while i < xs.len()
            invariant
                i <= xs@.len(),
                constants_ok(xs@, ps@),
                self.outputs() == old(self).outputs(),
                ws@.len() == i,
                forall|j: int|
                    0 <= j < i ==> carries(
                        #[trigger] views(ws@)[j],
                        ps@[j] as nat,
                        xs@[j] as int,
                        Self::evaluates(),
                    ),
            decreases xs@.len() - i,
        {
            assert(constant_ok(xs@[i as int] as nat, ps@[i as int] as nat));
            let w = self.constant(xs[i], ps[i])?;
            let ghost before = views(ws@);
            ws.push(w);
            assert forall|j: int| 0 <= j < i + 1 implies carries(
                #[trigger] views(ws@)[j],
                ps@[j] as nat,
                xs@[j] as int,
                Self::evaluates(),
            ) by {
                if j < i {
                    assert(views(ws@)[j] == before[j]);
                }
            }
            i += 1;
        }
        Ok(Bundle::new(ws))
    }

    /// A bundle of fresh inputs of the garbler, wire `i` modulo `ps[i]`.
    /// Inputs taken before a failure stay taken.
    fn garbler_input_bundle(&mut self, ps: &[u16]) -> (r: Result<Bundle<Self::Item>, FancyError>)
        ensures
            final(self).outputs() == old(self).outputs(),
            match r {
                Ok(b) => all_wf(b@) && b@.len() == ps@.len() && forall|i: int|
                    0 <= i < b@.len() ==> (#[trigger] b@[i]).modulus == ps@[i],
                Err(e) => e == FancyError::InvalidInput || (!Self::infallible() && e
                    == FancyError::BackendError),
            },
            ps@.len() == 0 ==> r is Ok && *final(self) == *old(self),
    {
        let mut ws: Vec<Self::Item> = Vec::new();
        let mut i: usize = 0;
        while i < ps.len()
            invariant
                i <= ps@.len(),
                self.outputs() == old(self).outputs(),
                i == 0 ==> *self == *old(self),
                ws@.len() == i,
                forall|j: int|
                    0 <= j < i ==> (#[trigger] views(ws@)[j]).wf() && views(ws@)[j].modulus
                        == ps@[j],
            decreases ps@.len() - i,
        {
            let w = self.garbler_input(ps[i])?;
            let ghost before = views(ws@);
            ws.push(w);
            assert forall|j: int| 0 <= j < i + 1 implies (#[trigger] views(ws@)[j]).wf() && views(
                ws@,
            )[j].modulus == ps@[j] by {
                if j < i {
                    assert(views(ws@)[j] == before[j]);
                }
            }
            i += 1;
        }
        Ok(Bundle::new(ws))
    }

    /// A bundle of fresh inputs of the evaluator, wire `i` modulo `ps[i]`.
    /// Inputs taken before a failure stay taken.
    fn evaluator_input_bundle(&mut self, ps: &[u16]) -> (r: Result<
        Bundle<Self::Item>,
        FancyError,
    >)
        ensures
            final(self).outputs() == old(self).outputs(),
            match r {
                Ok(b) => all_wf(b@) && b@.len() == ps@.len() && forall|i: int|
                    0 <= i < b@.len() ==> (#[trigger] b@[i]).modulus == ps@[i],
                Err(e) => e == FancyError::InvalidInput || (!Self::infallible() && e
                    == FancyError::BackendError),
            },
            ps@.len() == 0 ==> r is Ok && *final(self) == *old(self),
    {
        let mut ws: Vec<Self::Item> = Vec::new();
        let mut i: usize = 0;
        while i < ps.len()
            invariant
                i <= ps@.len(),
                self.outputs() == old(self).outputs(),
                i == 0 ==> *self == *old(self),
                ws@.len() == i,
                forall|j: int|
                    0 <= j < i ==> (#[trigger] views(ws@)[j]).wf() && views(ws@)[j].modulus
                        == ps@[j],
            decreases ps@.len() - i,
        {
            let w = self.evaluator_input(ps[i])?;
            let ghost before = views(ws@);
            ws.push(w);
            assert forall|j: int| 0 <= j < i + 1 implies (#[trigger] views(ws@)[j]).wf() && views(
                ws@,
            )[j].modulus == ps@[j] by {
                if j < i {
                    assert(views(ws@)[j] == before[j]);
                }
            }
            i += 1;
        }
        Ok(Bundle::new(ws))
    }

    /// Declares every wire of the bundle an output, in order. On a failure
    /// the wires before the failing one have been declared.
    fn output_bundle(&mut self, x: &Bundle<Self::Item>) -> (r: Result<(), FancyError>)
        requires
            all_wf(x@),
        ensures
            match r {
                Ok(_) => final(self).outputs() == old(self).outputs() + x@,
                Err(e) => backend_failure(e, Self::infallible()) && exists|
                    k: int,
                |
                    0 <= k < x@.len() && final(self).outputs() == old(self).outputs() + (
                    #[trigger] x@.take(k)),
            },
    {
        self.outputs_many(x.wires())
    }

    /// The sums of the wires of two bundles, place by place.
    fn add_bundles(&mut self, x: &Bundle<Self::Item>, y: &Bundle<Self::Item>) -> (r: Result<
        Bundle<Self::Item>,
        FancyError,
    >)
        requires
            all_wf(x@),
            all_wf(y@),
        ensures
            final(self).outputs() == old(self).outputs(),
            match r {
                Ok(z) => same_moduli(x@, y@) && wirewise(
                    WireOp::Add,
                    z@,
                    x@,
                    y@,
                    Self::evaluates(),
                ),
                Err(e) => failed(
                    e,
                    same_moduli(x@, y@),
                    FancyError::UnequalModuli,
                    Self::infallible(),
                ),
            },
    {
        let ws = zip_wires(self, WireOp::Add, x.wires(), y.wires())?;
        Ok(Bundle::new(ws))
    }

    /// The differences of the wires of two bundles, place by place.
    fn sub_bundles(&mut self, x: &Bundle<Self::Item>, y: &Bundle<Self::Item>) -> (r: Result<
        Bundle<Self::Item>,
        FancyError,
    >)
        requires
            all_wf(x@),
            all_wf(y@),
        ensures
            final(self).outputs() == old(self).outputs(),
            match r {
                Ok(z) => same_moduli(x@, y@) && wirewise(
                    WireOp::Sub,
                    z@,
                    x@,
                    y@,
                    Self::evaluates(),
                ),
                Err(e) => failed(
                    e,
                    same_moduli(x@, y@),
                    FancyError::UnequalModuli,
                    Self::infallible(),
                ),
            },
    {
        let ws = zip_wires(self, WireOp::Sub, x.wires(), y.wires())?;
        Ok(Bundle::new(ws))
    }

    /// The products of the wires of two bundles, place by place.
    fn mul_bundles(&mut self, x: &Bundle<Self::Item>, y: &Bundle<Self::Item>) -> (r: Result<
        Bundle<Self::Item>,
        FancyError,
    >)
        requires
            all_wf(x@),
            all_wf(y@),
        ensures
            final(self).outputs() == old(self).outputs(),
            match r {
                Ok(z) => same_moduli(x@, y@) && wirewise(
                    WireOp::Mul,
                    z@,
                    x@,
                    y@,
                    Self::evaluates(),
                ),
                Err(e) => failed(
                    e,
                    same_moduli(x@, y@),
                    FancyError::UnequalModuli,
                    Self::infallible(),
                ),
            },
    {
        let ws = zip_wires(self, WireOp::Mul, x.wires(), y.wires())?;
        Ok(Bundle::new(ws))
    }

    /// The bit that says whether two bundles of the same moduli hold the
    /// same values. Each place is compared by a projection to a wire modulo
    /// the width plus one; the sum of these wires is projected to the bit.
    #[verifier::rlimit(40)]
    fn eq_bundles(&mut self, x: &Bundle<Self::Item>, y: &Bundle<Self::Item>) -> (r: Result<
        Self::Item,
        FancyError,
    >)
        requires
            all_wf(x@),
            all_wf(y@),
        ensures
            final(self).outputs() == old(self).outputs(),
            match r {
                Ok(w) => eq_bundles_ok(x@, y@) && carries(
                    w@,
                    2,
                    if values_equal(x@, y@) { 1int } else { 0int },
                    Self::evaluates(),
                ),
                Err(e) => failed(
                    e,
                    eq_bundles_ok(x@, y@),
                    eq_bundles_error(x@, y@),
                    Self::infallible(),
                ),
            },
    {
        let xw = x.wires();
        let yw = y.wires();
        if !moduli_match(xw, yw) {
            return Err(FancyError::UnequalModuli);
        }
        let n = xw.len();
        if n > MAX_EQ_WIDTH {
            return Err(FancyError::InvalidArgNum { got: n, needed: MAX_EQ_WIDTH });
        }
        if n == 0 {
            return self.constant(1, 2);
        }
        let q: u16 = (n + 1) as u16;
        let ghost xs = x@;
        let ghost ys = y@;
        let mut zs: Vec<Self::Item> = Vec::new();
        let mut i: usize = 0;
        while i < n
            invariant
                i <= n,
                n == xw@.len(),
                1 <= n <= MAX_EQ_WIDTH,
                q == n + 1,
                xs == views(xw@),
                ys == views(yw@),
                xs == x@,
                ys == y@,
                all_wf(xs),
                all_wf(ys),
                same_moduli(xs, ys),
                self.outputs() == old(self).outputs(),
                zs@.len() == i,
                forall|j: int|
                    0 <= j < i ==> carries(
                        #[trigger] views(zs@)[j],
                        q as nat,
                        if xs[j].value == ys[j].value { 1int } else { 0int },
                        Self::evaluates(),
                    ),
            decreases n - i,
        {
            assert(xs[i as int].wf() && ys[i as int].wf());
            assert(xs[i as int].modulus == ys[i as int].modulus);
            let d = self.sub(&xw[i], &yw[i])?;
            let p = xw[i].modulus();
            let mut tt: Vec<u16> = Vec::new();
            tt.push(1);
            let mut k: u16 = 1;
            while k < p
                invariant
                    1 <= k <= p,
                    2 <= q,
                    tt@.len() == k,
                    tt@[0] == 1,
                    forall|j: int| 1 <= j < tt@.len() ==> tt@[j] == 0,
                decreases p - k,
            {
                tt.push(0);
                k += 1;
            }
            let w = self.proj(&d, q, tt.as_slice())?;
            proof {
                if Self::evaluates() {
                    let diff = xs[i as int].value - ys[i as int].value;
                    if diff == 0 {
                        lemma_small_mod(0, p as nat);
                    } else if diff > 0 {
                        lemma_small_mod(diff as nat, p as nat);
                    } else {
                        vstd::arithmetic::div_mod::lemma_mod_add_multiples_vanish(diff, p as int);
                        lemma_small_mod((p + diff) as nat, p as nat);
                    }
                }
            }
            let ghost before = views(zs@);
            zs.push(w);
            assert forall|j: int| 0 <= j < i + 1 implies carries(
                #[trigger] views(zs@)[j],
                q as nat,
                if xs[j].value == ys[j].value { 1int } else { 0int },
                Self::evaluates(),
            ) by {
                if j < i {
                    assert(views(zs@)[j] == before[j]);
                }
            }
            i += 1;
        }
        let ghost zv = views(zs@);
        assert(all_wf(zv) && all_modulo(zv, q as nat)) by {
            assert forall|j: int| 0 <= j < zv.len() implies (#[trigger] zv[j]).wf() && zv[j].modulus
                == q by {
                assert(carries(
                    zv[j],
                    q as nat,
                    if xs[j].value == ys[j].value { 1int } else { 0int },
                    Self::evaluates(),
                ));
            }
        }
        assert(zv[0].modulus == q && zv[0] == zs@[0]@);
        let total = self.add_many(zs.as_slice())?;
        let mut tab: Vec<u16> = Vec::new();
        let mut k: usize = 0;
        while k < n
            invariant
                k <= n,
                n <= MAX_EQ_WIDTH,
                tab@.len() == k,
                forall|j: int| 0 <= j < tab@.len() ==> tab@[j] == 0,
            decreases n - k,
        {
            tab.push(0);
            k += 1;
        }
        tab.push(1);
        let w = self.proj(&total, 2, tab.as_slice())?;
        proof {
            if Self::evaluates() {
                assert forall|j: int| 0 <= j < zv.len() implies (#[trigger] zv[j]).value <= 1 by {
                    assert(carries(
                        zv[j],
                        q as nat,
                        if xs[j].value == ys[j].value { 1int } else { 0int },
                        Self::evaluates(),
                    ));
                }
                lemma_sum_indicators(zv);
                lemma_small_mod(sum_values(zv), q as nat);
                if values_equal(xs, ys) {
                    assert forall|j: int| 0 <= j < zv.len() implies (#[trigger] zv[j]).value
                        == 1 by {
                        assert(carries(
                            zv[j],
                            q as nat,
                            if xs[j].value == ys[j].value { 1int } else { 0int },
                            Self::evaluates(),
                        ));
                        assert(xs[j].value == ys[j].value);
                    }
                } else {
                    let j = choose|j: int| 0 <= j < xs.len() && (#[trigger] xs[j]).value
                        != ys[j].value;
                    assert(carries(
                        zv[j],
                        q as nat,
                        if xs[j].value == ys[j].value { 1int } else { 0int },
                        Self::evaluates(),
                    ));
                    assert(zv[j].value != 1);
                }
            }
        }
        Ok(w)
    }

    /// The bundle `x` where the bit `b` is 0, `y` where it is 1.
    fn multiplex(&mut self, b: &Self::Item, x: &Bundle<Self::Item>, y: &Bundle<Self::Item>) -> (r:
        Result<Bundle<Self::Item>, FancyError>)
        requires
            b@.wf(),
            all_wf(x@),
            all_wf(y@),
        ensures
            final(self).outputs() == old(self).outputs(),
            match r {
                Ok(z) => b@.modulus == 2 && same_moduli(x@, y@) && selected(
                    z@,
                    b@.value,
                    x@,
                    y@,
                    Self::evaluates(),
                ),
                Err(e) => failed(
                    e,
                    b@.modulus == 2 && same_moduli(x@, y@),
                    FancyError::UnequalModuli,
                    Self::infallible(),
                ),
            },
    {
        let xw = x.wires();
        let yw = y.wires();
        if b.modulus() != 2 || !moduli_match(xw, yw) {
            return Err(FancyError::UnequalModuli);
        }
        let ghost xs = x@;
        let ghost ys = y@;
        let mut zs: Vec<Self::Item> = Vec::new();
        let mut i: usize = 0;
        while i < xw.len()
            invariant
                i <= xw@.len(),
                xs == views(xw@),
                ys == views(yw@),
                xs == x@,
                ys == y@,
                all_wf(xs),
                all_wf(ys),
                same_moduli(xs, ys),
                b@.wf(),
                b@.modulus == 2,
                self.outputs() == old(self).outputs(),
                zs@.len() == i,
                forall|j: int|
                    0 <= j < i ==> carries(
                        #[trigger] views(zs@)[j],
                        xs[j].modulus,
                        if b@.value == 0 { xs[j].value as int } else { ys[j].value as int },
                        Self::evaluates(),
                    ),
            decreases xw@.len() - i,
        {
            assert(xs[i as int].wf() && ys[i as int].wf());
            assert(xs[i as int].modulus == ys[i as int].modulus);
            let w = self.mux(b, &xw[i], &yw[i])?;
            let ghost before = views(zs@);
            zs.push(w);
            assert forall|j: int| 0 <= j < i + 1 implies carries(
                #[trigger] views(zs@)[j],
                xs[j].modulus,
                if b@.value == 0 { xs[j].value as int } else { ys[j].value as int },
                Self::evaluates(),
            ) by {
                if j < i {
                    assert(views(zs@)[j] == before[j]);
                }
            }
            i += 1;
        }
        Ok(Bundle::new(zs))
    }

    /// The bundle moved `n` places up: the top `n` wires are dropped and `n`
    /// zeros, taken modulo the modulus of the top wire, come in at the
    /// bottom.
    fn shift(&mut self, x: &Bundle<Self::Item>, n: usize) -> (r: Result<
        Bundle<Self::Item>,
        FancyError,
    >)
        requires
            all_wf(x@),
        ensures
            final(self).outputs() == old(self).outputs(),
            match r {
                Ok(z) => x@.len() == 0 && z@.len() == 0 || x@.len() > 0 && shifted(
                    z@,
                    x@,
                    n as nat,
                    x@.last().modulus,
                    Self::evaluates(),
                ),
                Err(e) => backend_failure(e, Self::infallible()),
            },
    {
        let xw = x.wires();
        let len = xw.len();
        if len == 0 {
            return Ok(Bundle::new(Vec::new()));
        }
        let ghost xs = x@;
        assert(xs[len - 1].wf());
        let p = xw[len - 1].modulus();
        let zero = self.constant(0, p)?;
        let mut zs: Vec<Self::Item> = Vec::new();
        let mut i: usize = 0;
        while i < len
            invariant
                i <= len,
                len == xw@.len(),
                xs == views(xw@),
                zs@.len() == i,
                carries(zero@, p as nat, 0, Self::evaluates()),
                forall|j: int|
                    0 <= j < i && j < n ==> carries(
                        #[trigger] views(zs@)[j],
                        p as nat,
                        0,
                        Self::evaluates(),
                    ),
                forall|j: int| 0 <= j < i && j >= n ==> (#[trigger] views(zs@)[j]) == xs[j - n],
            decreases len - i,
        {
            let ghost before = views(zs@);
            if i < n {
                zs.push(zero.duplicate());
            } else {
                zs.push(xw[i - n].duplicate());
            }
            assert forall|j: int| 0 <= j < i + 1 && j < n implies carries(
                #[trigger] views(zs@)[j],
                p as nat,
                0,
                Self::evaluates(),
            ) by {
                if j < i {
                    assert(views(zs@)[j] == before[j]);
                }
            }
            assert forall|j: int| 0 <= j < i + 1 && j >= n implies (#[trigger] views(zs@)[j])
                == xs[j - n] by {
                if j < i {
                    assert(views(zs@)[j] == before[j]);
                }
            }
            i += 1;
        }
        Ok(Bundle::new(zs))
    }
}

impl<F: Fancy> BundleGadgets for F {

}

} // verus!
