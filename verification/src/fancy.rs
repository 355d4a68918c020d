//! The primitive vocabulary of a circuit backend, and the one-line gates
//! that every backend inherits from it.

use vstd::prelude::*;
use vstd::arithmetic::div_mod::{
    lemma_add_mod_noop,
    lemma_small_mod,
    lemma_mod_add_multiples_vanish,
};
use crate::error::{FancyError, failed, backend_failure};
use crate::wire::{
    HasModulus,
    Residue,
    carries,
    views,
    all_wf,
    all_modulo,
    any_set,
    sum_values,
    lemma_sum_values_take,
    lemma_bit_product,
};

verus! {

/// `tt` is a truth table from the residues modulo `from` to residues modulo
/// `to`.
pub open spec fn table_ok(from: nat, to: nat, tt: Seq<u16>) -> bool {
    &&& 2 <= to
    &&& tt.len() == from
    &&& forall|i: int| 0 <= i < tt.len() ==> tt[i] < to
}

/// A constant `val` modulo `modulus` can be made.
pub open spec fn constant_ok(val: nat, modulus: nat) -> bool {
    2 <= modulus && val < modulus
}

/// The larger of two moduli: the modulus of a product.
pub open spec fn product_modulus(p: nat, q: nat) -> nat {
    if p < q {
        q
    } else {
        p
    }
}

/// The error that `add_many` owes on operands that it cannot add.
pub open spec fn add_many_error(s: Seq<Residue>) -> FancyError {
    if s.len() == 0 {
        FancyError::InvalidArgNum { got: 0, needed: 1 }
    } else {
        FancyError::UnequalModuli
    }
}

/// A circuit under construction. Each operation hands back a wire of the
/// backend's own kind; gadgets are written against this trait alone.
///
/// A backend says of itself whether it `evaluates` (its wires carry the
/// values that the circuit computes) and whether it is `infallible` (an
/// operation on valid operands always succeeds). Operands are checked before
/// anything else happens: on operands that are not valid the error is the one
/// that the operation names, whatever the backend.
pub trait Fancy {
    type Item: HasModulus;

    /// No operation of this backend fails on valid operands.
    spec fn infallible() -> bool;

    /// The wires of this backend carry values.
    spec fn evaluates() -> bool;

    /// The wires declared as outputs so far, in order.
    spec fn outputs(&self) -> Seq<Residue>;

    /// A fresh input wire of the garbler. A modulus below 2 is refused with
    /// `InvalidInput`; a backend that holds the inputs may answer the same
    /// where none is left or the next one does not fit.
    fn garbler_input(&mut self, modulus: u16) -> (r: Result<Self::Item, FancyError>)
        ensures
            final(self).outputs() == old(self).outputs(),
            match r {
                Ok(w) => w@.wf() && w@.modulus == modulus,
                Err(e) => e == FancyError::InvalidInput || (!Self::infallible() && e
                    == FancyError::BackendError),
            },
    ;

    /// A fresh input wire of the evaluator, on the same terms.
    fn evaluator_input(&mut self, modulus: u16) -> (r: Result<Self::Item, FancyError>)
        ensures
            final(self).outputs() == old(self).outputs(),
            match r {
                Ok(w) => w@.wf() && w@.modulus == modulus,
                Err(e) => e == FancyError::InvalidInput || (!Self::infallible() && e
                    == FancyError::BackendError),
            },
    ;

    /// The constant `val` modulo `modulus`, known to both parties.
    fn constant(&mut self, val: u16, modulus: u16) -> (r: Result<Self::Item, FancyError>)
        ensures
            final(self).outputs() == old(self).outputs(),
            match r {
                Ok(w) => constant_ok(val as nat, modulus as nat) && carries(
                    w@,
                    modulus as nat,
                    val as int,
                    Self::evaluates(),
                ),
                Err(e) => failed(
                    e,
                    constant_ok(val as nat, modulus as nat),
                    FancyError::InvalidInput,
                    Self::infallible(),
                ),
            },
    ;

    /// The sum of two wires of one modulus.
    fn add(&mut self, x: &Self::Item, y: &Self::Item) -> (r: Result<Self::Item, FancyError>)
        requires
            x@.wf(),
            y@.wf(),
        ensures
            final(self).outputs() == old(self).outputs(),
            match r {
                Ok(w) => x@.modulus == y@.modulus && carries(
                    w@,
                    x@.modulus,
                    ((x@.value + y@.value) % x@.modulus) as int,
                    Self::evaluates(),
                ),
                Err(e) => failed(
                    e,
                    x@.modulus == y@.modulus,
                    FancyError::UnequalModuli,
                    Self::infallible(),
                ),
            },
    ;

    /// The difference of two wires of one modulus.
    fn sub(&mut self, x: &Self::Item, y: &Self::Item) -> (r: Result<Self::Item, FancyError>)
        requires
            x@.wf(),
            y@.wf(),
        ensures
            final(self).outputs() == old(self).outputs(),
            match r {
                Ok(w) => x@.modulus == y@.modulus && carries(
                    w@,
                    x@.modulus,
                    (x@.value - y@.value) % (x@.modulus as int),
                    Self::evaluates(),
                ),
                Err(e) => failed(
                    e,
                    x@.modulus == y@.modulus,
                    FancyError::UnequalModuli,
                    Self::infallible(),
                ),
            },
    ;

    /// The wire times the scalar `c`.
    fn cmul(&mut self, x: &Self::Item, c: u16) -> (r: Result<Self::Item, FancyError>)
        requires
            x@.wf(),
        ensures
            final(self).outputs() == old(self).outputs(),
            match r {
                Ok(w) => carries(
                    w@,
                    x@.modulus,
                    ((x@.value * (c as nat)) % x@.modulus) as int,
                    Self::evaluates(),
                ),
                Err(e) => backend_failure(e, Self::infallible()),
            },
    ;

    /// The product of two wires, modulo the larger of their moduli.
    fn mul(&mut self, x: &Self::Item, y: &Self::Item) -> (r: Result<Self::Item, FancyError>)
        requires
            x@.wf(),
            y@.wf(),
        ensures
            final(self).outputs() == old(self).outputs(),
            match r {
                Ok(w) => carries(
                    w@,
                    product_modulus(x@.modulus, y@.modulus),
                    ((x@.value * y@.value) % product_modulus(x@.modulus, y@.modulus)) as int,
                    Self::evaluates(),
                ),
                Err(e) => backend_failure(e, Self::infallible()),
            },
    ;

    /// The wire looked up in the truth table `tt`, as a wire modulo
    /// `modulus`.
    fn proj(&mut self, x: &Self::Item, modulus: u16, tt: &[u16]) -> (r: Result<
        Self::Item,
        FancyError,
    >)
        requires
            x@.wf(),
        ensures
            final(self).outputs() == old(self).outputs(),
            match r {
                Ok(w) => table_ok(x@.modulus, modulus as nat, tt@) && carries(
                    w@,
                    modulus as nat,
                    tt@[x@.value as int] as int,
                    Self::evaluates(),
                ),
                Err(e) => failed(
                    e,
                    table_ok(x@.modulus, modulus as nat, tt@),
                    FancyError::InvalidTruthTable,
                    Self::infallible(),
                ),
            },
    ;

    /// Declares the wire an output of the circuit.
    fn output(&mut self, x: &Self::Item) -> (r: Result<(), FancyError>)
        requires
            x@.wf(),
        ensures
            match r {
                Ok(_) => final(self).outputs() == old(self).outputs().push(x@),
                Err(e) => final(self).outputs() == old(self).outputs() && backend_failure(
                    e,
                    Self::infallible(),
                ),
            },
    ;

    /// The sum of one or more wires of one modulus.
    fn add_many(&mut self, args: &[Self::Item]) -> (r: Result<Self::Item, FancyError>)
        requires
            all_wf(views(args@)),
        ensures
            final(self).outputs() == old(self).outputs(),
            match r {
                Ok(w) => args@.len() > 0 && all_modulo(views(args@), args@[0]@.modulus)
                    && carries(
                    w@,
                    args@[0]@.modulus,
                    (sum_values(views(args@)) % args@[0]@.modulus) as int,
                    Self::evaluates(),
                ),
                Err(e) => failed(
                    e,
                    args@.len() > 0 && all_modulo(views(args@), args@[0]@.modulus),
                    add_many_error(views(args@)),
                    Self::infallible(),
                ),
            },
    {
        let n = args.len();
        if n == 0 {
            return Err(FancyError::InvalidArgNum { got: 0, needed: 1 });
        }
        let p = args[0].modulus();
        let mut k: usize = 1;
        while k < n
            invariant
                1 <= k <= n,
                n == args@.len(),
                p == args@[0]@.modulus,
                all_modulo(views(args@).take(k as int), p as nat),
            decreases n - k,
        {
            if args[k].modulus() != p {
                assert(views(args@)[k as int].modulus != p);
                return Err(FancyError::UnequalModuli);
            }
            assert forall|j: int| 0 <= j < k + 1 implies (#[trigger] views(args@).take(
                k + 1,
            )[j]).modulus == p by {
                if j < k {
                    assert(views(args@).take(k as int)[j].modulus == p);
                }
            }
            k += 1;
        }
        assert(views(args@).take(n as int) =~= views(args@));
        let ghost s = views(args@);
        let mut z = args[0].duplicate();
        proof {
            assert(s.take(1).drop_last() =~= Seq::<Residue>::empty());
            assert(s.take(1).last() == s[0]);
            assert(sum_values(s.take(1)) == 0 + s[0].value) by {
                assert(sum_values(s.take(1).drop_last()) == 0);
            }
            assert(s[0].wf());
            lemma_small_mod(s[0].value, p as nat);
        }
        let mut i: usize = 1;
        while i < n
            invariant
                1 <= i <= n,
                n == args@.len(),
                s == views(args@),
                all_wf(s),
                all_modulo(s, p as nat),
                p == args@[0]@.modulus,
                2 <= p,
                self.outputs() == old(self).outputs(),
                carries(
                    z@,
                    p as nat,
                    (sum_values(s.take(i as int)) % (p as nat)) as int,
                    Self::evaluates(),
                ),
            decreases n - i,
        {
            assert(s[i as int].wf());
            assert(s[i as int].modulus == p);
            let ghost before = z@.value;
            z = self.add(&z, &args[i])?;
            proof {
                lemma_sum_values_take(s, i as int);
                if Self::evaluates() {
                    let a = sum_values(s.take(i as int)) as int;
                    let b = s[i as int].value as int;
                    lemma_add_mod_noop(a, b, p as int);
                    lemma_small_mod(b as nat, p as nat);
                    lemma_small_mod(before, p as nat);
                }
            }
            i += 1;
        }
        assert(s.take(n as int) =~= s);
        Ok(z)
    }

    /// The exclusive or of two bits.
    fn xor(&mut self, x: &Self::Item, y: &Self::Item) -> (r: Result<Self::Item, FancyError>)
        requires
            x@.wf(),
            y@.wf(),
        ensures
            final(self).outputs() == old(self).outputs(),
            match r {
                Ok(w) => x@.modulus == 2 && y@.modulus == 2 && carries(
                    w@,
                    2,
                    ((x@.value + y@.value) % 2) as int,
                    Self::evaluates(),
                ),
                Err(e) => failed(
                    e,
                    x@.modulus == 2 && y@.modulus == 2,
                    FancyError::UnequalModuli,
                    Self::infallible(),
                ),
            },
    {
        if x.modulus() != 2 || y.modulus() != 2 {
            return Err(FancyError::UnequalModuli);
        }
        self.add(x, y)
    }

    /// The conjunction of two bits.
    fn and(&mut self, x: &Self::Item, y: &Self::Item) -> (r: Result<Self::Item, FancyError>)
        requires
            x@.wf(),
            y@.wf(),
        ensures
            final(self).outputs() == old(self).outputs(),
            match r {
                Ok(w) => x@.modulus == 2 && y@.modulus == 2 && carries(
                    w@,
                    2,
                    (x@.value * y@.value) as int,
                    Self::evaluates(),
                ),
                Err(e) => failed(
                    e,
                    x@.modulus == 2 && y@.modulus == 2,
                    FancyError::UnequalModuli,
                    Self::infallible(),
                ),
            },
    {
        if x.modulus() != 2 || y.modulus() != 2 {
            return Err(FancyError::UnequalModuli);
        }
        let w = self.mul(x, y)?;
        proof {
            let a = x@.value;
            let b = y@.value;
            lemma_bit_product(a, b);
            assert(product_modulus(2, 2) == 2);
            assert((a * b) % 2 == a * b);
        }
        Ok(w)
    }

    /// The complement of a bit.
    fn negate(&mut self, x: &Self::Item) -> (r: Result<Self::Item, FancyError>)
        requires
            x@.wf(),
        ensures
            final(self).outputs() == old(self).outputs(),
            match r {
                Ok(w) => x@.modulus == 2 && carries(w@, 2, 1 - x@.value, Self::evaluates()),
                Err(e) => failed(
                    e,
                    x@.modulus == 2,
                    FancyError::UnequalModuli,
                    Self::infallible(),
                ),
            },
    {
        if x.modulus() != 2 {
            return Err(FancyError::UnequalModuli);
        }
        let one = self.constant(1, 2)?;
        self.add(x, &one)
    }

    /// The disjunction of two bits, as `x + y - x * y`.
    fn or(&mut self, x: &Self::Item, y: &Self::Item) -> (r: Result<Self::Item, FancyError>)
        requires
            x@.wf(),
            y@.wf(),
        ensures
            final(self).outputs() == old(self).outputs(),
            match r {
                Ok(w) => x@.modulus == 2 && y@.modulus == 2 && carries(
                    w@,
                    2,
                    x@.value + y@.value - x@.value * y@.value,
                    Self::evaluates(),
                ),
                Err(e) => failed(
                    e,
                    x@.modulus == 2 && y@.modulus == 2,
                    FancyError::UnequalModuli,
                    Self::infallible(),
                ),
            },
    {
        if x.modulus() != 2 || y.modulus() != 2 {
            return Err(FancyError::UnequalModuli);
        }
        let both = self.mul(x, y)?;
        let either = self.add(x, y)?;
        let w = self.sub(&either, &both)?;
        proof {
            let a = x@.value;
            let b = y@.value;
            lemma_bit_product(a, b);
        }
        Ok(w)
    }

    /// The disjunction of any number of bits; of none, the constant 0.
    fn or_many(&mut self, args: &[Self::Item]) -> (r: Result<Self::Item, FancyError>)
        requires
            all_wf(views(args@)),
        ensures
            final(self).outputs() == old(self).outputs(),
            match r {
                Ok(w) => all_modulo(views(args@), 2) && carries(
                    w@,
                    2,
                    if any_set(views(args@)) { 1int } else { 0int },
                    Self::evaluates(),
                ),
                Err(e) => failed(
                    e,
                    all_modulo(views(args@), 2),
                    FancyError::UnequalModuli,
                    Self::infallible(),
                ),
            },
    {
        let n = args.len();
        let ghost s = views(args@);
        let mut k: usize = 0;
        while k < n
            invariant
                k <= n,
                n == args@.len(),
                s == views(args@),
                all_modulo(s.take(k as int), 2),
            decreases n - k,
        {
            if args[k].modulus() != 2 {
                assert(s[k as int].modulus != 2);
                return Err(FancyError::UnequalModuli);
            }
            assert forall|j: int| 0 <= j < k + 1 implies (#[trigger] s.take(k + 1)[j]).modulus
                == 2 by {
                if j < k {
                    assert(s.take(k as int)[j].modulus == 2);
                }
            }
            k += 1;
        }
        assert(s.take(n as int) =~= s);
        if n == 0 {
            return self.constant(0, 2);
        }
        let mut z = args[0].duplicate();
        proof {
            assert(s[0].wf());
            if s[0].value != 0 {
                assert(s.take(1)[0].value != 0);
            }
        }
        let mut i: usize = 1;
        while i < n
            invariant
                1 <= i <= n,
                n == args@.len(),
                s == views(args@),
                all_wf(s),
                all_modulo(s, 2),
                self.outputs() == old(self).outputs(),
                carries(
                    z@,
                    2,
                    if any_set(s.take(i as int)) { 1int } else { 0int },
                    Self::evaluates(),
                ),
            decreases n - i,
        {
            assert(s[i as int].wf());
            assert(s[i as int].modulus == 2);
            let ghost before = z@;
            z = self.or(&z, &args[i])?;
            proof {
                let b = s[i as int].value;
                let t0 = s.take(i as int);
                let t1 = s.take(i + 1);
                if any_set(t0) {
                    let j = choose|j: int| 0 <= j < t0.len() && (#[trigger] t0[j]).value != 0;
                    assert(t1[j].value != 0);
                }
                if b != 0 {
                    assert(t1[i as int].value != 0);
                }
                if any_set(t1) {
                    let j = choose|j: int| 0 <= j < t1.len() && (#[trigger] t1[j]).value != 0;
                    if j < i {
                        assert(t0[j].value != 0);
                    }
                }
                if Self::evaluates() {
                    let a = before.value;
                    lemma_bit_product(a, b);
                }
            }
            i += 1;
        }
        Ok(z)
    }

    /// A half adder, or with `carry_in` a full adder: the sum bit and the
    /// carry out.
    fn adder(&mut self, x: &Self::Item, y: &Self::Item, carry_in: Option<&Self::Item>) -> (r:
        Result<(Self::Item, Self::Item), FancyError>)
        requires
            x@.wf(),
            y@.wf(),
            carry_in matches Some(c) ==> c@.wf(),
        ensures
            final(self).outputs() == old(self).outputs(),
            match r {
                Ok((z, c)) => adder_ok(x@, y@, carry_in) && carries(
                    z@,
                    2,
                    ((x@.value + y@.value + carry_value(carry_in)) % 2) as int,
                    Self::evaluates(),
                ) && carries(
                    c@,
                    2,
                    ((x@.value + y@.value + carry_value(carry_in)) / 2) as int,
                    Self::evaluates(),
                ),
                Err(e) => failed(
                    e,
                    adder_ok(x@, y@, carry_in),
                    FancyError::UnequalModuli,
                    Self::infallible(),
                ),
            },
    {
        if x.modulus() != 2 || y.modulus() != 2 {
            return Err(FancyError::UnequalModuli);
        }
        match carry_in {
            Some(c) => {
                if c.modulus() != 2 {
                    return Err(FancyError::UnequalModuli);
                }
                let z1 = self.xor(x, y)?;
                let z2 = self.xor(&z1, c)?;
                let z3 = self.xor(x, c)?;
                let z4 = self.and(&z1, &z3)?;
                let carry = self.xor(&z4, x)?;
                proof {
                    let a = z1@.value;
                    let b = z3@.value;
                    lemma_bit_product(a, b);
                }
                Ok((z2, carry))
            },
            None => {
                let z = self.xor(x, y)?;
                let carry = self.and(x, y)?;
                proof {
                    let a = x@.value;
                    let b = y@.value;
                    lemma_bit_product(a, b);
                }
                Ok((z, carry))
            },
        }
    }

    /// `x` where the bit `b` is 0, `y` where it is 1.
    fn mux(&mut self, b: &Self::Item, x: &Self::Item, y: &Self::Item) -> (r: Result<
        Self::Item,
        FancyError,
    >)
        requires
            b@.wf(),
            x@.wf(),
            y@.wf(),
        ensures
            final(self).outputs() == old(self).outputs(),
            match r {
                Ok(w) => b@.modulus == 2 && x@.modulus == y@.modulus && carries(
                    w@,
                    x@.modulus,
                    if b@.value == 0 { x@.value as int } else { y@.value as int },
                    Self::evaluates(),
                ),
                Err(e) => failed(
                    e,
                    b@.modulus == 2 && x@.modulus == y@.modulus,
                    FancyError::UnequalModuli,
                    Self::infallible(),
                ),
            },
    {
        if b.modulus() != 2 || x.modulus() != y.modulus() {
            return Err(FancyError::UnequalModuli);
        }
        let notb = self.negate(b)?;
        let xsel = self.mul(x, &notb)?;
        let ysel = self.mul(y, b)?;
        let w = self.add(&xsel, &ysel)?;
        proof {
            if Self::evaluates() {
                let p = x@.modulus;
                lemma_small_mod(x@.value, p);
                lemma_small_mod(y@.value, p);
                lemma_small_mod(0, p);
                if b@.value == 0 {
                    assert(x@.value * 1 == x@.value);
                    assert(y@.value * 0 == 0);
                } else {
                    assert(x@.value * 0 == 0);
                    assert(y@.value * 1 == y@.value);
                }
            }
        }
        Ok(w)
    }

    /// The constant bit `b1` where the bit `x` is 0, `b2` where it is 1.
    fn mux_constant_bits(&mut self, x: &Self::Item, b1: bool, b2: bool) -> (r: Result<
        Self::Item,
        FancyError,
    >)
        requires
            x@.wf(),
        ensures
            final(self).outputs() == old(self).outputs(),
            match r {
                Ok(w) => x@.modulus == 2 && carries(
                    w@,
                    2,
                    if (if x@.value == 0 { b1 } else { b2 }) { 1int } else { 0int },
                    Self::evaluates(),
                ),
                Err(e) => failed(
                    e,
                    x@.modulus == 2,
                    FancyError::UnequalModuli,
                    Self::infallible(),
                ),
            },
    {
        if x.modulus() != 2 {
            return Err(FancyError::UnequalModuli);
        }
        if !b1 && b2 {
            Ok(x.duplicate())
        } else if b1 && !b2 {
            self.negate(x)
        } else if !b1 && !b2 {
            self.constant(0, 2)
        } else {
            self.constant(1, 2)
        }
    }

    /// The wire carried over to another modulus: its value modulo
    /// `to_modulus`.
    fn mod_change(&mut self, x: &Self::Item, to_modulus: u16) -> (r: Result<
        Self::Item,
        FancyError,
    >)
        requires
            x@.wf(),
        ensures
            final(self).outputs() == old(self).outputs(),
            match r {
                Ok(w) => 2 <= to_modulus && carries(
                    w@,
                    to_modulus as nat,
                    (x@.value % (to_modulus as nat)) as int,
                    Self::evaluates(),
                ),
                Err(e) => failed(
                    e,
                    2 <= to_modulus,
                    FancyError::InvalidTruthTable,
                    Self::infallible(),
                ),
            },
    {
        if to_modulus < 2 {
            return Err(FancyError::InvalidTruthTable);
        }
        let from = x.modulus();
        if from == to_modulus {
            proof {
                lemma_small_mod(x@.value, to_modulus as nat);
            }
            return Ok(x.duplicate());
        }
        let mut tt: Vec<u16> = Vec::new();
        let mut i: u16 = 0;
        while i < from
            invariant
                i <= from,
                2 <= to_modulus,
                tt@.len() == i,
                forall|j: int| 0 <= j < tt@.len() ==> tt@[j] == j % (to_modulus as int),
            decreases from - i,
        {
            tt.push(i % to_modulus);
            i += 1;
        }
        self.proj(x, to_modulus, tt.as_slice())
    }

    /// The bit that says whether two wires of one modulus hold the same
    /// value.
    fn eq(&mut self, x: &Self::Item, y: &Self::Item) -> (r: Result<Self::Item, FancyError>)
        requires
            x@.wf(),
            y@.wf(),
        ensures
            final(self).outputs() == old(self).outputs(),
            match r {
                Ok(w) => x@.modulus == y@.modulus && carries(
                    w@,
                    2,
                    if x@.value == y@.value { 1int } else { 0int },
                    Self::evaluates(),
                ),
                Err(e) => failed(
                    e,
                    x@.modulus == y@.modulus,
                    FancyError::UnequalModuli,
                    Self::infallible(),
                ),
            },
    {
        let p = x.modulus();
        if p != y.modulus() {
            return Err(FancyError::UnequalModuli);
        }
        let z = self.sub(x, y)?;
        let mut tt: Vec<u16> = Vec::new();
        tt.push(1);
        let mut i: u16 = 1;
        while i < p
            invariant
                1 <= i <= p,
                tt@.len() == i,
                tt@[0] == 1,
                forall|j: int| 1 <= j < tt@.len() ==> tt@[j] == 0,
            decreases p - i,
        {
            tt.push(0);
            i += 1;
        }
        let w = self.proj(&z, 2, tt.as_slice())?;
        proof {
            if Self::evaluates() {
                let d = x@.value - y@.value;
                if d == 0 {
                    lemma_small_mod(0, p as nat);
                } else if d > 0 {
                    lemma_small_mod(d as nat, p as nat);
                } else {
                    lemma_mod_add_multiples_vanish(d, p as int);
                    lemma_small_mod((p + d) as nat, p as nat);
                }
            }
        }
        Ok(w)
    }

    /// Declares every wire an output, in order. On a failure the wires up to
    /// the failing one have been declared.
    fn outputs_many(&mut self, xs: &[Self::Item]) -> (r: Result<(), FancyError>)
        requires
            all_wf(views(xs@)),
        ensures
            match r {
                Ok(_) => final(self).outputs() == old(self).outputs() + views(xs@),
                Err(e) => backend_failure(e, Self::infallible()) && exists|
                    k: int,
                |
                    0 <= k < xs@.len() && final(self).outputs() == old(self).outputs() + (
                    #[trigger] views(xs@).take(k)),
            },
    {
        let n = xs.len();
        let ghost s = views(xs@);
        let mut i: usize = 0;
        assert(s.take(0) =~= Seq::<Residue>::empty());
        assert(old(self).outputs() + s.take(0) =~= old(self).outputs());
        while i < n
            invariant
                i <= n,
                n == xs@.len(),
                s == views(xs@),
                all_wf(s),
                self.outputs() == old(self).outputs() + s.take(i as int),
            decreases n - i,
        {
            assert(s[i as int].wf());
            let step = self.output(&xs[i]);
            match step {
                Ok(_) => {
                    assert(s.take(i + 1) =~= s.take(i as int).push(s[i as int]));
                    assert(old(self).outputs() + s.take(i + 1) =~= (old(self).outputs() + s.take(
                        i as int,
                    )).push(s[i as int]));
                },
                Err(e) => {
                    return Err(e);
                },
            }
            i += 1;
        }
        assert(s.take(n as int) =~= s);
        Ok(())
    }
}

/// The wires handed to an adder are bits.
pub open spec fn adder_ok<W: HasModulus>(x: Residue, y: Residue, carry_in: Option<&W>) -> bool {
    &&& x.modulus == 2
    &&& y.modulus == 2
    &&& carry_in matches Some(c) ==> c@.modulus == 2
}

/// The value of an optional carry; none counts as 0.
pub open spec fn carry_value<W: HasModulus>(carry_in: Option<&W>) -> nat {
    match carry_in {
        Some(c) => c@.value,
        None => 0,
    }
}

} // verus!
