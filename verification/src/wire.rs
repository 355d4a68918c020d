//! Wires: opaque values of a backend, each tagged with a modulus.

use vstd::prelude::*;

verus! {

/// What a wire stands for: a residue `value` modulo `modulus`.
pub struct Residue {
    pub modulus: nat,
    pub value: nat,
}

impl Residue {
    /// A modulus is at least 2 and fits sixteen bits; the value lies below it.
    pub open spec fn wf(self) -> bool {
        &&& 2 <= self.modulus <= u16::MAX
        &&& self.value < self.modulus
    }
}

/// A well-formed residue with the given modulus which, on a backend that
/// evaluates, has the given value.
pub open spec fn carries(w: Residue, modulus: nat, value: int, evaluates: bool) -> bool {
    &&& w.wf()
    &&& w.modulus == modulus
    &&& evaluates ==> w.value == value
}

/// A wire of some backend. Its view says which residue it stands for; a
/// backend that only counts gates leaves the value at zero.
pub trait HasModulus: Sized {
    /// The residue that the wire stands for.
    spec fn view(&self) -> Residue;

    /// The modulus this wire is tagged with.
    fn modulus(&self) -> (m: u16)
        ensures
            m == self@.modulus,
    ;

    /// Another handle to the same wire.
    fn duplicate(&self) -> (w: Self)
        ensures
            w@ == self@,
    ;
}

/// The residues that a sequence of wires stands for.
pub open spec fn views<W: HasModulus>(ws: Seq<W>) -> Seq<Residue> {
    Seq::new(ws.len(), |i: int| ws[i]@)
}

/// One more wire adds its residue at the end.
pub proof fn lemma_views_push<W: HasModulus>(ws: Seq<W>, w: W)
    ensures
        views(ws.push(w)) == views(ws).push(w@),
{
    assert(views(ws.push(w)) =~= views(ws).push(w@));
}

/// The moduli of the residues, in order.
pub open spec fn moduli_of(s: Seq<Residue>) -> Seq<nat> {
    Seq::new(s.len(), |i: int| s[i].modulus)
}

/// The sum depends on the values alone.
pub proof fn lemma_sum_values_ext(s: Seq<Residue>, t: Seq<Residue>)
    requires
        s.len() == t.len(),
        forall|i: int| 0 <= i < s.len() ==> (#[trigger] s[i]).value == t[i].value,
    ensures
        sum_values(s) == sum_values(t),
    decreases s.len(),
{
    if s.len() > 0 {
        lemma_sum_values_ext(s.drop_last(), t.drop_last());
        assert(s.last().value == t.last().value);
    }
}

/// Values of at most `b` sum to at most their number times `b`.
pub proof fn lemma_sum_values_bound(s: Seq<Residue>, b: nat)
    requires
        forall|i: int| 0 <= i < s.len() ==> (#[trigger] s[i]).value <= b,
    ensures
        sum_values(s) <= s.len() * b,
    decreases s.len(),
{
    if s.len() > 0 {
        lemma_sum_values_bound(s.drop_last(), b);
        assert(s.last().value <= b);
        assert((s.len() - 1) * b + b == s.len() * b) by (nonlinear_arith);
    } else {
        assert(0 * b == 0);
    }
}

/// The product of two bits is 1 where both are 1, and 0 otherwise.
pub proof fn lemma_bit_product(a: nat, b: nat)
    by (nonlinear_arith)
    requires
        a < 2,
        b < 2,
    ensures
        a * b == if a == 1 && b == 1 { 1int } else { 0int },
{
}

/// Every residue is well formed.
pub open spec fn all_wf(s: Seq<Residue>) -> bool {
    forall|i: int| 0 <= i < s.len() ==> (#[trigger] s[i]).wf()
}

/// Every bundle of the list is well formed.
pub open spec fn all_bundles_wf(s: Seq<Seq<Residue>>) -> bool {
    forall|i: int| 0 <= i < s.len() ==> all_wf(#[trigger] s[i])
}

/// Every residue is taken modulo `p`.
pub open spec fn all_modulo(s: Seq<Residue>, p: nat) -> bool {
    forall|i: int| 0 <= i < s.len() ==> (#[trigger] s[i]).modulus == p
}

/// The two sequences agree in length and, place by place, in modulus.
pub open spec fn same_moduli(s: Seq<Residue>, t: Seq<Residue>) -> bool {
    &&& s.len() == t.len()
    &&& forall|i: int| 0 <= i < s.len() ==> (#[trigger] s[i]).modulus == t[i].modulus
}

/// Some residue is not zero.
pub open spec fn any_set(s: Seq<Residue>) -> bool {
    exists|i: int| 0 <= i < s.len() && (#[trigger] s[i]).value != 0
}

/// The sum of the values.
pub open spec fn sum_values(s: Seq<Residue>) -> nat
    decreases s.len(),
{
    if s.len() == 0 {
        0
    } else {
        sum_values(s.drop_last()) + s.last().value
    }
}

/// Taking one more element adds its value to the sum.
pub proof fn lemma_sum_values_take(s: Seq<Residue>, i: int)
    requires
        0 <= i < s.len(),
    ensures
        sum_values(s.take(i + 1)) == sum_values(s.take(i)) + s[i].value,
{
    assert(s.take(i + 1).drop_last() =~= s.take(i));
}

} // verus!
