//! A backend that computes in the clear: the ground truth that the other
//! backends are held against.

use vstd::prelude::*;
use vstd::slice::slice_to_vec;
use vstd::arithmetic::div_mod::lemma_mod_add_multiples_vanish;
use crate::error::FancyError;
use crate::wire::{HasModulus, Residue};
use crate::fancy::Fancy;

verus! {

/// A wire of the plaintext backend: a value below its modulus.
#[derive(Clone, Copy, Debug)]
pub struct DummyVal {
    val: u16,
    modulus: u16,
}

impl DummyVal {
    /// The value that the wire holds.
    pub fn val(&self) -> (v: u16)
        ensures
            v == self@.value,
    {
        self.val
    }
}

impl HasModulus for DummyVal {
    closed spec fn view(&self) -> Residue {
        Residue { modulus: self.modulus as nat, value: self.val as nat }
    }

    fn modulus(&self) -> (m: u16) {
        self.modulus
    }

    fn duplicate(&self) -> (w: Self) {
        DummyVal { val: self.val, modulus: self.modulus }
    }
}

/// What a plaintext backend holds: the inputs not yet consumed, per party
/// and in order, and the wires declared as outputs.
pub struct DummyState {
    pub garbler_inputs: Seq<u16>,
    pub evaluator_inputs: Seq<u16>,
    pub outputs: Seq<Residue>,
}

/// The input that the next input wire modulo `modulus` would take from
/// `pending` is there and fits.
pub open spec fn input_ok(pending: Seq<u16>, modulus: u16) -> bool {
    &&& 2 <= modulus
    &&& pending.len() > 0
    &&& pending[0] < modulus
}

/// The plaintext backend. It is seeded with the inputs of both parties;
/// each input wire consumes the next one of its party.
pub struct Dummy {
    garbler_inputs: Vec<u16>,
    evaluator_inputs: Vec<u16>,
    garbler_used: usize,
    evaluator_used: usize,
    outputs: Vec<DummyVal>,
}

/// What is left of `all` once `used` items are consumed.
pub open spec fn remaining(all: Seq<u16>, used: nat) -> Seq<u16> {
    if used <= all.len() {
        all.skip(used as int)
    } else {
        Seq::empty()
    }
}

impl Dummy {
    /// The inputs still to be handed out, and the outputs so far.
    pub closed spec fn view(&self) -> DummyState {
        DummyState {
            garbler_inputs: remaining(self.garbler_inputs@, self.garbler_used as nat),
            evaluator_inputs: remaining(self.evaluator_inputs@, self.evaluator_used as nat),
            outputs: Seq::new(self.outputs@.len(), |i: int| self.outputs@[i]@),
        }
    }

    /// A backend that will hand out the given inputs and has no outputs yet.
    pub fn new(garbler_inputs: &[u16], evaluator_inputs: &[u16]) -> (d: Dummy)
        ensures
            d@ == (DummyState {
                garbler_inputs: garbler_inputs@,
                evaluator_inputs: evaluator_inputs@,
                outputs: Seq::empty(),
            }),
    {
        let d = Dummy {
            garbler_inputs: slice_to_vec(garbler_inputs),
            evaluator_inputs: slice_to_vec(evaluator_inputs),
            garbler_used: 0,
            evaluator_used: 0,
            outputs: Vec::new(),
        };
        assert(d@.garbler_inputs =~= garbler_inputs@);
        assert(d@.evaluator_inputs =~= evaluator_inputs@);
        assert(d@.outputs =~= Seq::empty());
        d
    }

    /// The values of the output wires, in the order in which they were
    /// declared.
    pub fn get_output(&self) -> (out: Vec<u16>)
        ensures
            out@.len() == self@.outputs.len(),
            forall|i: int| 0 <= i < out@.len() ==> out@[i] == self@.outputs[i].value,
    {
        let mut out: Vec<u16> = Vec::new();
        let mut i: usize = 0;
        while i < self.outputs.len()
            invariant
                i <= self.outputs@.len(),
                out@.len() == i,
                forall|j: int| 0 <= j < i ==> out@[j] == self.outputs@[j].val,
            decreases self.outputs@.len() - i,
        {
            out.push(self.outputs[i].val);
            i += 1;
        }
        out
    }

    /// The next input of one party, if there is one and it fits the modulus.
    fn take_input(pending: &Vec<u16>, used: usize, modulus: u16) -> (r: Option<DummyVal>)
        ensures
            match r {
                Some(w) => input_ok(remaining(pending@, used as nat), modulus) && w@ == (Residue {
                    modulus: modulus as nat,
                    value: remaining(pending@, used as nat)[0] as nat,
                }) && used < usize::MAX && remaining(pending@, (used + 1) as nat)
                    == remaining(pending@, used as nat).skip(1),
                None => !input_ok(remaining(pending@, used as nat), modulus),
            },
    {
        if modulus < 2 || used >= pending.len() {
            return None;
        }
        let v = pending[used];
        if v >= modulus {
            return None;
        }
        assert(remaining(pending@, (used + 1) as nat) =~= remaining(pending@, used as nat).skip(
            1,
        ));
        Some(DummyVal { val: v, modulus })
    }
}

impl Fancy for Dummy {
    type Item = DummyVal;

    open spec fn infallible() -> bool {
        true
    }

    open spec fn evaluates() -> bool {
        true
    }

    open spec fn outputs(&self) -> Seq<Residue> {
        self@.outputs
    }

    /// The next input of the garbler; `InvalidInput` where none is left or
    /// it does not fit the modulus, and then nothing is consumed.
    fn garbler_input(&mut self, modulus: u16) -> (r: Result<DummyVal, FancyError>)
        ensures
            match r {
                Ok(w) => {
                    &&& input_ok(old(self)@.garbler_inputs, modulus)
                    &&& w@.value == old(self)@.garbler_inputs[0]
                    &&& final(self)@ == (DummyState {
                        garbler_inputs: old(self)@.garbler_inputs.skip(1),
                        ..old(self)@
                    })
                },
                Err(e) => !input_ok(old(self)@.garbler_inputs, modulus) && final(self)@ == old(
                    self,
                )@,
            },
    {
        let next = Self::take_input(&self.garbler_inputs, self.garbler_used, modulus);
        match next {
            Some(w) => {
                self.garbler_used = self.garbler_used + 1;
                Ok(w)
            },
            None => Err(FancyError::InvalidInput),
        }
    }

    /// The next input of the evaluator, on the same terms.
    fn evaluator_input(&mut self, modulus: u16) -> (r: Result<DummyVal, FancyError>)
        ensures
            match r {
                Ok(w) => {
                    &&& input_ok(old(self)@.evaluator_inputs, modulus)
                    &&& w@.value == old(self)@.evaluator_inputs[0]
                    &&& final(self)@ == (DummyState {
                        evaluator_inputs: old(self)@.evaluator_inputs.skip(1),
                        ..old(self)@
                    })
                },
                Err(e) => !input_ok(old(self)@.evaluator_inputs, modulus) && final(self)@ == old(
                    self,
                )@,
            },
    {
        let next = Self::take_input(&self.evaluator_inputs, self.evaluator_used, modulus);
        match next {
            Some(w) => {
                self.evaluator_used = self.evaluator_used + 1;
                Ok(w)
            },
            None => Err(FancyError::InvalidInput),
        }
    }

    fn constant(&mut self, val: u16, modulus: u16) -> (r: Result<DummyVal, FancyError>)
        ensures
            final(self)@ == old(self)@,
    {
        if modulus < 2 || val >= modulus {
            return Err(FancyError::InvalidInput);
        }
        Ok(DummyVal { val, modulus })
    }

    fn add(&mut self, x: &DummyVal, y: &DummyVal) -> (r: Result<DummyVal, FancyError>)
        ensures
            final(self)@ == old(self)@,
    {
        if x.modulus != y.modulus {
            return Err(FancyError::UnequalModuli);
        }
        let s: u32 = (x.val as u32 + y.val as u32) % (x.modulus as u32);
        Ok(DummyVal { val: s as u16, modulus: x.modulus })
    }

    fn sub(&mut self, x: &DummyVal, y: &DummyVal) -> (r: Result<DummyVal, FancyError>)
        ensures
            final(self)@ == old(self)@,
    {
        if x.modulus != y.modulus {
            return Err(FancyError::UnequalModuli);
        }
        let s: u32 = (x.val as u32 + x.modulus as u32 - y.val as u32) % (x.modulus as u32);
        proof {
            lemma_mod_add_multiples_vanish(x.val as int - y.val as int, x.modulus as int);
        }
        Ok(DummyVal { val: s as u16, modulus: x.modulus })
    }

    fn cmul(&mut self, x: &DummyVal, c: u16) -> (r: Result<DummyVal, FancyError>)
        ensures
            final(self)@ == old(self)@,
    {
        assert(x.val as int * c as int <= 0xffff * 0xffff) by (nonlinear_arith)
            requires
                x.val <= 0xffff,
                c <= 0xffff,
        ;
        let s: u32 = (x.val as u32 * c as u32) % (x.modulus as u32);
        Ok(DummyVal { val: s as u16, modulus: x.modulus })
    }

    fn mul(&mut self, x: &DummyVal, y: &DummyVal) -> (r: Result<DummyVal, FancyError>)
        ensures
            final(self)@ == old(self)@,
    {
        let q: u16 = if x.modulus < y.modulus {
            y.modulus
        } else {
            x.modulus
        };
        assert(x.val as int * y.val as int <= 0xffff * 0xffff) by (nonlinear_arith)
            requires
                x.val <= 0xffff,
                y.val <= 0xffff,
        ;
        let s: u32 = (x.val as u32 * y.val as u32) % (q as u32);
        Ok(DummyVal { val: s as u16, modulus: q })
    }

    fn proj(&mut self, x: &DummyVal, modulus: u16, tt: &[u16]) -> (r: Result<
        DummyVal,
        FancyError,
    >)
        ensures
            final(self)@ == old(self)@,
    {
        if modulus < 2 || tt.len() != x.modulus as usize {
            return Err(FancyError::InvalidTruthTable);
        }
        let mut i: usize = 0;
        while i < tt.len()
            invariant
                i <= tt@.len(),
                forall|j: int| 0 <= j < i ==> tt@[j] < modulus,
            decreases tt@.len() - i,
        {
            if tt[i] >= modulus {
                return Err(FancyError::InvalidTruthTable);
            }
            i += 1;
        }
        Ok(DummyVal { val: tt[x.val as usize], modulus })
    }

    fn output(&mut self, x: &DummyVal) -> (r: Result<(), FancyError>)
        ensures
            r is Ok,
            final(self)@ == (DummyState {
                outputs: old(self)@.outputs.push(x@),
                ..old(self)@
            }),
    {
        self.outputs.push(*x);
        assert(self@.outputs =~= old(self)@.outputs.push(x@));
        Ok(())
    }
}

} // verus!
