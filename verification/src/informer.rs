//! A backend that computes nothing and counts everything: inputs, constants,
//! outputs, gates of each kind, and the ciphertexts that a garbled
//! realisation of the circuit would cost.

use vstd::prelude::*;
use std::collections::HashSet;
use crate::error::FancyError;
use crate::wire::{HasModulus, Residue};
use crate::fancy::{Fancy, table_ok};

verus! {

/// A wire of the informer: nothing but its modulus.
#[derive(Default, Debug)]
pub struct InformerVal(u16);

impl Clone for InformerVal {
    fn clone(&self) -> (w: Self)
        ensures
            w == *self,
    {
        InformerVal(self.0)
    }
}

impl HasModulus for InformerVal {
    closed spec fn view(&self) -> Residue {
        Residue { modulus: self.0 as nat, value: 0 }
    }

    fn modulus(&self) -> (m: u16) {
        self.0
    }

    fn duplicate(&self) -> (w: Self) {
        InformerVal(self.0)
    }
}

/// The ciphertexts of a projection from a wire modulo `px`.
pub open spec fn proj_cost(px: nat) -> nat {
    (px - 1) as nat
}

/// The ciphertexts of a product of wires modulo `px` and `py`: one less than
/// each modulus, and one more where the moduli differ.
pub open spec fn mul_cost(px: nat, py: nat) -> nat {
    (px + py - 2 + if px != py { 1int } else { 0int }) as nat
}

/// A gate, as far as the informer's counters can tell gates apart.
pub enum Gate {
    Add,
    Sub,
    Cmul,
    Mul { px: nat, py: nat },
    Proj { px: nat },
}

impl Gate {
    /// The ciphertexts that one such gate costs. Sums, differences and
    /// scalar multiples are free.
    pub open spec fn ciphertexts(self) -> nat {
        match self {
            Gate::Add => 0,
            Gate::Sub => 0,
            Gate::Cmul => 0,
            Gate::Mul { px, py } => mul_cost(px, py),
            Gate::Proj { px } => proj_cost(px),
        }
    }
}

/// The sum of a list of moduli.
pub open spec fn sum_moduli(s: Seq<u16>) -> nat
    decreases s.len(),
{
    if s.len() == 0 {
        0
    } else {
        sum_moduli(s.drop_last()) + s.last() as nat
    }
}

/// What the informer has seen of a circuit.
pub struct Tally {
    /// The moduli of the garbler's inputs, in order.
    pub garbler_inputs: Seq<u16>,
    /// The moduli of the evaluator's inputs, in order.
    pub evaluator_inputs: Seq<u16>,
    /// The constants, each as value and modulus, each once.
    pub constants: Set<(u16, u16)>,
    /// The moduli of the outputs, in order.
    pub outputs: Seq<u16>,
    pub adds: nat,
    pub subs: nat,
    pub cmuls: nat,
    pub muls: nat,
    pub projs: nat,
    pub ciphertexts: nat,
}

impl Tally {
    /// Nothing seen yet.
    pub open spec fn empty() -> Tally {
        Tally {
            garbler_inputs: Seq::empty(),
            evaluator_inputs: Seq::empty(),
            constants: Set::empty(),
            outputs: Seq::empty(),
            adds: 0,
            subs: 0,
            cmuls: 0,
            muls: 0,
            projs: 0,
            ciphertexts: 0,
        }
    }

    /// The tally after one more gate.
    pub open spec fn apply(self, g: Gate) -> Tally {
        let t = Tally { ciphertexts: self.ciphertexts + g.ciphertexts(), ..self };
        match g {
            Gate::Add => Tally { adds: self.adds + 1, ..t },
            Gate::Sub => Tally { subs: self.subs + 1, ..t },
            Gate::Cmul => Tally { cmuls: self.cmuls + 1, ..t },
            Gate::Mul { .. } => Tally { muls: self.muls + 1, ..t },
            Gate::Proj { .. } => Tally { projs: self.projs + 1, ..t },
        }
    }

    /// The tally after `n` gates of one kind.
    pub open spec fn repeat(self, g: Gate, n: nat) -> Tally
        decreases n,
    {
        if n == 0 {
            self
        } else {
            self.repeat(g, (n - 1) as nat).apply(g)
        }
    }

    /// Every counter fits a machine word.
    pub open spec fn fits(self) -> bool {
        &&& self.adds <= usize::MAX
        &&& self.subs <= usize::MAX
        &&& self.cmuls <= usize::MAX
        &&& self.muls <= usize::MAX
        &&& self.projs <= usize::MAX
        &&& self.ciphertexts <= usize::MAX
    }

    /// The ciphertexts that revealing the outputs costs: one for each unit
    /// of each output's modulus.
    pub open spec fn output_ciphertexts(self) -> nat {
        sum_moduli(self.outputs)
    }

    /// The bits that the two parties exchange: 128 for each input of the
    /// garbler, 256 for each input of the evaluator, and 128 for each
    /// constant, each ciphertext and each output ciphertext.
    pub open spec fn comms_bits(self) -> nat {
        128 * self.garbler_inputs.len() + 256 * self.evaluator_inputs.len() + 128
            * self.constants.len() + 128 * self.ciphertexts + 128 * self.output_ciphertexts()
    }
}

/// A product costs the same whichever operand comes first.
pub proof fn lemma_mul_cost_symmetric(px: nat, py: nat)
    ensures
        mul_cost(px, py) == mul_cost(py, px),
        (Gate::Mul { px, py }).ciphertexts() == (Gate::Mul { px: py, py: px }).ciphertexts(),
{
}

/// `n` gates of one kind move the counter of that kind by `n` and the
/// ciphertext counter by `n` times the cost of one gate, and leave the rest
/// as it was.
pub proof fn lemma_repeat(t: Tally, g: Gate, n: nat)
    ensures
        t.repeat(g, n).ciphertexts == t.ciphertexts + n * g.ciphertexts(),
        t.repeat(g, n).adds == t.adds + if g is Add { n } else { 0 },
        t.repeat(g, n).subs == t.subs + if g is Sub { n } else { 0 },
        t.repeat(g, n).cmuls == t.cmuls + if g is Cmul { n } else { 0 },
        t.repeat(g, n).muls == t.muls + if g is Mul { n } else { 0 },
        t.repeat(g, n).projs == t.projs + if g is Proj { n } else { 0 },
        t.repeat(g, n).garbler_inputs == t.garbler_inputs,
        t.repeat(g, n).evaluator_inputs == t.evaluator_inputs,
        t.repeat(g, n).constants == t.constants,
        t.repeat(g, n).outputs == t.outputs,
    decreases n,
{
    if n > 0 {
        lemma_repeat(t, g, (n - 1) as nat);
        assert(n * g.ciphertexts() == (n - 1) * g.ciphertexts() + g.ciphertexts())
            by (nonlinear_arith)
            requires
                n > 0,
        ;
    }
}

/// One more modulus adds itself to the sum.
pub proof fn lemma_sum_moduli_push(s: Seq<u16>, m: u16)
    ensures
        sum_moduli(s.push(m)) == sum_moduli(s) + m,
{
    assert(s.push(m).drop_last() =~= s);
}

/// The key under which a constant is kept: its value in the high sixteen
/// bits, its modulus in the low ones.
pub open spec fn constant_key(val: u16, modulus: u16) -> u32 {
    (val * 65536 + modulus) as u32
}

/// The constant that is kept under a key.
pub open spec fn key_constant(k: u32) -> (u16, u16) {
    ((k / 65536) as u16, (k % 65536) as u16)
}

/// From keys to constants.
pub open spec fn constant_of_key() -> spec_fn(u32) -> (u16, u16) {
    |k: u32| key_constant(k)
}

/// The constants seen so far, each once: a hash set of their keys.
struct ConstantSet {
    items: HashSet<u32>,
}

impl ConstantSet {
    #[verifier::type_invariant]
    spec fn inv(self) -> bool {
        self.items@.finite()
    }

    spec fn view(&self) -> Set<(u16, u16)> {
        self.items@.map(constant_of_key())
    }

    fn new() -> (s: ConstantSet)
        ensures
            s@ == Set::<(u16, u16)>::empty(),
    {
        let s = ConstantSet { items: HashSet::new() };
        assert(s@ =~= Set::<(u16, u16)>::empty());
        s
    }

    fn len(&self) -> (n: usize)
        ensures
            n == self@.len(),
            self@.finite(),
    {
        proof {
            use_type_invariant(self);
            broadcast use vstd::std_specs::hash::group_hash_axioms;

            assert(vstd::relations::injective_on(constant_of_key(), self.items@)) by {
                assert forall|a: u32, b: u32| key_constant(a) == key_constant(b) implies a == b by {
                    assert(a == (a / 65536) * 65536 + a % 65536);
                    assert(b == (b / 65536) * 65536 + b % 65536);
                }
            }
            vstd::set_lib::lemma_map_size(self.items@, self@, constant_of_key());
        }
        self.items.len()
    }

    fn insert(&mut self, val: u16, modulus: u16)
        ensures
            final(self)@ == old(self)@.insert((val, modulus)),
    {
        proof {
            use_type_invariant(&*self);
            broadcast use vstd::std_specs::hash::group_hash_axioms;

        }
        let k: u32 = (val as u32) * 65536 + (modulus as u32);
        let mut items: HashSet<u32> = HashSet::new();
        core::mem::swap(&mut items, &mut self.items);
        items.insert(k);
        proof {
            assert(key_constant(k) == (val, modulus));
            assert(items@.map(constant_of_key()) =~= old(self).items@.map(
                constant_of_key(),
            ).insert((val, modulus))) by {
                let f = constant_of_key();
                let before = old(self).items@;
                let after = items@;
                assert(after == before.insert(k));
                assert forall|c: (u16, u16)| after.map(f).contains(c) == before.map(f).insert(
                    (val, modulus),
                ).contains(c) by {
                    if after.map(f).contains(c) {
                        let x = choose|x: u32| after.contains(x) && f(x) == c;
                        if x != k {
                            assert(before.contains(x));
                        }
                    }
                    if before.map(f).contains(c) {
                        let x = choose|x: u32| before.contains(x) && f(x) == c;
                        assert(after.contains(x));
                    }
                    if c == (val, modulus) {
                        assert(after.contains(k) && f(k) == c);
                    }
                }
            }
        }
        self.items = items;
    }
}

/// The moduli of the outputs, with their sum kept beside them.
struct OutputLog {
    moduli: Vec<u16>,
    total: usize,
}

impl OutputLog {
    #[verifier::type_invariant]
    spec fn inv(self) -> bool {
        self.total == sum_moduli(self.moduli@)
    }

    spec fn view(&self) -> Seq<u16> {
        self.moduli@
    }

    fn new() -> (s: OutputLog)
        ensures
            s@ == Seq::<u16>::empty(),
    {
        OutputLog { moduli: Vec::new(), total: 0 }
    }

    fn len(&self) -> (n: usize)
        ensures
            n == self@.len(),
    {
        self.moduli.len()
    }

    fn total(&self) -> (n: usize)
        ensures
            n == sum_moduli(self@),
    {
        proof {
            use_type_invariant(self);
        }
        self.total
    }

    /// The log with one more modulus, unless the sum would no longer fit.
    fn push(self, m: u16) -> (r: Result<OutputLog, OutputLog>)
        ensures
            match r {
                Ok(s) => s@ == self@.push(m) && sum_moduli(self@) + m <= usize::MAX,
                Err(s) => s@ == self@ && sum_moduli(self@) + m > usize::MAX,
            },
    {
        proof {
            use_type_invariant(&self);
            lemma_sum_moduli_push(self.moduli@, m);
        }
        match self.total.checked_add(m as usize) {
            Some(total) => {
                let mut moduli = self.moduli;
                moduli.push(m);
                Ok(OutputLog { moduli, total })
            },
            None => Err(self),
        }
    }
}

/// The informer. It implements the circuit vocabulary by counting.
pub struct Informer {
    garbler_input_moduli: Vec<u16>,
    evaluator_input_moduli: Vec<u16>,
    constants: ConstantSet,
    outputs: OutputLog,
    nadds: usize,
    nsubs: usize,
    ncmuls: usize,
    nmuls: usize,
    nprojs: usize,
    nciphertexts: usize,
}

impl Informer {
    /// What the informer has seen so far.
    pub closed spec fn view(&self) -> Tally {
        Tally {
            garbler_inputs: self.garbler_input_moduli@,
            evaluator_inputs: self.evaluator_input_moduli@,
            constants: self.constants@,
            outputs: self.outputs@,
            adds: self.nadds as nat,
            subs: self.nsubs as nat,
            cmuls: self.ncmuls as nat,
            muls: self.nmuls as nat,
            projs: self.nprojs as nat,
            ciphertexts: self.nciphertexts as nat,
        }
    }

    /// An informer that has seen nothing.
    pub fn new() -> (inf: Informer)
        ensures
            inf@ == Tally::empty(),
    {
        Informer {
            garbler_input_moduli: Vec::new(),
            evaluator_input_moduli: Vec::new(),
            constants: ConstantSet::new(),
            outputs: OutputLog::new(),
            nadds: 0,
            nsubs: 0,
            ncmuls: 0,
            nmuls: 0,
            nprojs: 0,
            nciphertexts: 0,
        }
    }

    /// Number of garbler inputs in the computation.
    pub fn num_garbler_inputs(&self) -> (n: usize)
        ensures
            n == self@.garbler_inputs.len(),
    {
        self.garbler_input_moduli.len()
    }

    /// Moduli of the garbler inputs, in order.
    pub fn garbler_input_moduli(&self) -> (ms: Vec<u16>)
        ensures
            ms@ == self@.garbler_inputs,
    {
        let ms = self.garbler_input_moduli.clone();
        assert(ms@ =~= self.garbler_input_moduli@);
        ms
    }

    /// Number of evaluator inputs in the computation.
    pub fn num_evaluator_inputs(&self) -> (n: usize)
        ensures
            n == self@.evaluator_inputs.len(),
    {
        self.evaluator_input_moduli.len()
    }

    /// Moduli of the evaluator inputs, in order.
    pub fn evaluator_input_moduli(&self) -> (ms: Vec<u16>)
        ensures
            ms@ == self@.evaluator_inputs,
    {
        let ms = self.evaluator_input_moduli.clone();
        assert(ms@ =~= self.evaluator_input_moduli@);
        ms
    }

    /// Number of distinct constants in the computation.
    pub fn num_consts(&self) -> (n: usize)
        ensures
            n == self@.constants.len(),
            self@.constants.finite(),
    {
        self.constants.len()
    }

    /// Number of outputs in the computation.
    pub fn num_outputs(&self) -> (n: usize)
        ensures
            n == self@.outputs.len(),
    {
        self.outputs.len()
    }

    /// Number of output ciphertexts: the sum of the outputs' moduli.
    pub fn num_output_ciphertexts(&self) -> (n: usize)
        ensures
            n == self@.output_ciphertexts(),
    {
        self.outputs.total()
    }

    /// Number of additions in the computation.
    pub fn num_adds(&self) -> (n: usize)
        ensures
            n == self@.adds,
    {
        self.nadds
    }

    /// Number of subtractions in the computation.
    pub fn num_subs(&self) -> (n: usize)
        ensures
            n == self@.subs,
    {
        self.nsubs
    }

    /// Number of scalar multiplications in the computation.
    pub fn num_cmuls(&self) -> (n: usize)
        ensures
            n == self@.cmuls,
    {
        self.ncmuls
    }

    /// Number of multiplications in the computation.
    pub fn num_muls(&self) -> (n: usize)
        ensures
            n == self@.muls,
    {
        self.nmuls
    }

    /// Number of projections in the computation.
    pub fn num_projs(&self) -> (n: usize)
        ensures
            n == self@.projs,
    {
        self.nprojs
    }

    /// Number of ciphertexts in the computation.
    pub fn num_ciphertexts(&self) -> (n: usize)
        ensures
            n == self@.ciphertexts,
    {
        self.nciphertexts
    }
}

/// The residues that the trait sees for a list of output moduli.
pub open spec fn output_residues(ms: Seq<u16>) -> Seq<Residue> {
    Seq::new(ms.len(), |i: int| Residue { modulus: ms[i] as nat, value: 0 })
}

impl Fancy for Informer {
    type Item = InformerVal;

    /// A counter that is full makes the operation fail.
    open spec fn infallible() -> bool {
        false
    }

    open spec fn evaluates() -> bool {
        false
    }

    open spec fn outputs(&self) -> Seq<Residue> {
        output_residues(self@.outputs)
    }

    /// Records the modulus among the garbler's inputs.
    fn garbler_input(&mut self, modulus: u16) -> (r: Result<InformerVal, FancyError>)
        ensures
            match r {
                Ok(w) => 2 <= modulus && final(self)@ == (Tally {
                    garbler_inputs: old(self)@.garbler_inputs.push(modulus),
                    ..old(self)@
                }),
                Err(e) => modulus < 2 && e == FancyError::InvalidInput && final(self)@ == old(
                    self,
                )@,
            },
    {
        if modulus < 2 {
            return Err(FancyError::InvalidInput);
        }
        self.garbler_input_moduli.push(modulus);
        Ok(InformerVal(modulus))
    }

    /// Records the modulus among the evaluator's inputs.
    fn evaluator_input(&mut self, modulus: u16) -> (r: Result<InformerVal, FancyError>)
        ensures
            match r {
                Ok(w) => 2 <= modulus && final(self)@ == (Tally {
                    evaluator_inputs: old(self)@.evaluator_inputs.push(modulus),
                    ..old(self)@
                }),
                Err(e) => modulus < 2 && e == FancyError::InvalidInput && final(self)@ == old(
                    self,
                )@,
            },
    {
        if modulus < 2 {
            return Err(FancyError::InvalidInput);
        }
        self.evaluator_input_moduli.push(modulus);
        Ok(InformerVal(modulus))
    }

    /// Records the constant, once however often it is asked for.
    fn constant(&mut self, val: u16, modulus: u16) -> (r: Result<InformerVal, FancyError>)
        ensures
            match r {
                Ok(w) => final(self)@ == (Tally {
                    constants: old(self)@.constants.insert((val, modulus)),
                    ..old(self)@
                }),
                Err(e) => e == FancyError::InvalidInput && final(self)@ == old(self)@,
            },
    {
        if modulus < 2 || val >= modulus {
            return Err(FancyError::InvalidInput);
        }
        self.constants.insert(val, modulus);
        Ok(InformerVal(modulus))
    }

    /// Counts an addition. It fails only where the counter is full.
    fn add(&mut self, x: &InformerVal, y: &InformerVal) -> (r: Result<InformerVal, FancyError>)
        ensures
            match r {
                Ok(w) => final(self)@ == old(self)@.apply(Gate::Add),
                Err(e) => final(self)@ == old(self)@,
            },
            r is Ok <==> x@.modulus == y@.modulus && old(self)@.apply(Gate::Add).fits(),
    {
        if x.0 != y.0 {
            return Err(FancyError::UnequalModuli);
        }
        match self.nadds.checked_add(1) {
            Some(n) => {
                self.nadds = n;
                Ok(InformerVal(x.0))
            },
            None => Err(FancyError::BackendError),
        }
    }

    /// Counts a subtraction. It fails only where the counter is full.
    fn sub(&mut self, x: &InformerVal, y: &InformerVal) -> (r: Result<InformerVal, FancyError>)
        ensures
            match r {
                Ok(w) => final(self)@ == old(self)@.apply(Gate::Sub),
                Err(e) => final(self)@ == old(self)@,
            },
            r is Ok <==> x@.modulus == y@.modulus && old(self)@.apply(Gate::Sub).fits(),
    {
        if x.0 != y.0 {
            return Err(FancyError::UnequalModuli);
        }
        match self.nsubs.checked_add(1) {
            Some(n) => {
                self.nsubs = n;
                Ok(InformerVal(x.0))
            },
            None => Err(FancyError::BackendError),
        }
    }

    /// Counts a scalar multiplication. It fails only where the counter is
    /// full.
    fn cmul(&mut self, x: &InformerVal, c: u16) -> (r: Result<InformerVal, FancyError>)
        ensures
            match r {
                Ok(w) => final(self)@ == old(self)@.apply(Gate::Cmul),
                Err(e) => final(self)@ == old(self)@,
            },
            r is Ok <==> old(self)@.apply(Gate::Cmul).fits(),
    {
        match self.ncmuls.checked_add(1) {
            Some(n) => {
                self.ncmuls = n;
                Ok(InformerVal(x.0))
            },
            None => Err(FancyError::BackendError),
        }
    }

    /// Counts a multiplication and its ciphertexts. The larger modulus is
    /// taken first, so that the order of the operands does not matter. It
    /// fails only where a counter would overflow.
    fn mul(&mut self, x: &InformerVal, y: &InformerVal) -> (r: Result<InformerVal, FancyError>)
        ensures
            match r {
                Ok(w) => final(self)@ == old(self)@.apply(
                    Gate::Mul { px: x@.modulus, py: y@.modulus },
                ),
                Err(e) => final(self)@ == old(self)@,
            },
            r is Ok <==> old(self)@.apply(Gate::Mul { px: x@.modulus, py: y@.modulus }).fits(),
    {
        let (hi, lo) = if x.0 < y.0 {
            (y.0, x.0)
        } else {
            (x.0, y.0)
        };
        let mut cost: usize = hi as usize + lo as usize - 2;
        if hi != lo {
            cost = cost + 1;
        }
        let muls = self.nmuls.checked_add(1);
        let ciphertexts = self.nciphertexts.checked_add(cost);
        match (muls, ciphertexts) {
            (Some(m), Some(c)) => {
                self.nmuls = m;
                self.nciphertexts = c;
                Ok(InformerVal(hi))
            },
            _ => Err(FancyError::BackendError),
        }
    }

    /// Counts a projection and its ciphertexts. It fails on a table that
    /// does not fit, and where a counter would overflow.
    fn proj(&mut self, x: &InformerVal, modulus: u16, tt: &[u16]) -> (r: Result<
        InformerVal,
        FancyError,
    >)
        ensures
            match r {
                Ok(w) => final(self)@ == old(self)@.apply(Gate::Proj { px: x@.modulus }),
                Err(e) => final(self)@ == old(self)@,
            },
            r is Ok <==> table_ok(x@.modulus, modulus as nat, tt@) && old(self)@.apply(
                Gate::Proj { px: x@.modulus },
            ).fits(),
    {
        if modulus < 2 || tt.len() != x.0 as usize {
            return Err(FancyError::InvalidTruthTable);
        }
        let mut i: usize = 0;
        while i < tt.len()
            invariant
                i <= tt@.len(),
                forall|j: int| 0 <= j < i ==> tt@[j] < modulus,
            decreases tt@.len() - i,
        {
            if tt[i] >= modulus {
                return Err(FancyError::InvalidTruthTable);
            }
            i += 1;
        }
        let projs = self.nprojs.checked_add(1);
        let ciphertexts = self.nciphertexts.checked_add(x.0 as usize - 1);
        match (projs, ciphertexts) {
            (Some(p), Some(c)) => {
                self.nprojs = p;
                self.nciphertexts = c;
                Ok(InformerVal(modulus))
            },
            _ => Err(FancyError::BackendError),
        }
    }

    /// Records the modulus among the outputs. It fails only where the sum
    /// of the outputs' moduli would no longer fit a machine word.
    fn output(&mut self, x: &InformerVal) -> (r: Result<(), FancyError>)
        ensures
            match r {
                Ok(_) => final(self)@ == (Tally {
                    outputs: old(self)@.outputs.push(x@.modulus as u16),
                    ..old(self)@
                }),
                Err(e) => final(self)@ == old(self)@,
            },
            r is Ok <==> old(self)@.output_ciphertexts() + x@.modulus <= usize::MAX,
    {
        let mut log = OutputLog::new();
        core::mem::swap(&mut log, &mut self.outputs);
        match log.push(x.0) {
            Ok(log) => {
                self.outputs = log;
                assert(output_residues(self@.outputs) =~= output_residues(old(self)@.outputs).push(
                    x@,
                ));
                Ok(())
            },
            Err(log) => {
                self.outputs = log;
                Err(FancyError::BackendError)
            },
        }
    }
}

/// The figures of the cost report: what the informer counted, and what
/// each kind of item costs in communication.
#[derive(Clone, Copy, Debug, PartialEq, Eq, Structural)]
pub struct CostReport {
    pub garbler_inputs: usize,
    pub evaluator_inputs: usize,
    pub outputs: usize,
    pub output_ciphertexts: usize,
    pub constants: usize,
    pub additions: usize,
    pub subtractions: usize,
    pub cmuls: usize,
    pub projections: usize,
    pub multiplications: usize,
    pub ciphertexts: usize,
    /// 128 bits for each input of the garbler.
    pub garbler_input_bits: u128,
    /// 256 bits for each input of the evaluator.
    pub evaluator_input_bits: u128,
    /// 128 bits for each output ciphertext.
    pub output_bits: u128,
    /// 128 bits for each constant.
    pub constant_bits: u128,
    /// 128 bits for each ciphertext.
    pub ciphertext_bits: u128,
    /// The sum of the five.
    pub total_bits: u128,
}

/// Whole kilobytes in a number of bits.
pub fn kilobytes(bits: u128) -> (kb: u128)
    ensures
        kb == bits / 8 / 1024,
{
    bits / 8 / 1024
}

impl Tally {
    /// The report on a tally whose counters fit a machine word.
    pub open spec fn report(self) -> CostReport {
        CostReport {
            garbler_inputs: self.garbler_inputs.len() as usize,
            evaluator_inputs: self.evaluator_inputs.len() as usize,
            outputs: self.outputs.len() as usize,
            output_ciphertexts: self.output_ciphertexts() as usize,
            constants: self.constants.len() as usize,
            additions: self.adds as usize,
            subtractions: self.subs as usize,
            cmuls: self.cmuls as usize,
            projections: self.projs as usize,
            multiplications: self.muls as usize,
            ciphertexts: self.ciphertexts as usize,
            garbler_input_bits: (128 * self.garbler_inputs.len()) as u128,
            evaluator_input_bits: (256 * self.evaluator_inputs.len()) as u128,
            output_bits: (128 * self.output_ciphertexts()) as u128,
            constant_bits: (128 * self.constants.len()) as u128,
            ciphertext_bits: (128 * self.ciphertexts) as u128,
            total_bits: self.comms_bits() as u128,
        }
    }
}

impl Informer {
    /// The figures of the cost report. Every count is what the informer has
    /// seen; the total is the sum of the costs of the five kinds of item.
    pub fn report(&self) -> (r: CostReport)
        ensures
            r == self@.report(),
            r.total_bits == self@.comms_bits(),
            r.total_bits == r.garbler_input_bits + r.evaluator_input_bits + r.constant_bits
                + r.ciphertext_bits + r.output_bits,
    {
        let g = self.num_garbler_inputs();
        let e = self.num_evaluator_inputs();
        let k = self.num_consts();
        let c = self.num_ciphertexts();
        let o = self.num_output_ciphertexts();
        let garbler_input_bits: u128 = 128 * (g as u128);
        let evaluator_input_bits: u128 = 256 * (e as u128);
        let constant_bits: u128 = 128 * (k as u128);
        let ciphertext_bits: u128 = 128 * (c as u128);
        let output_bits: u128 = 128 * (o as u128);
        CostReport {
            garbler_inputs: g,
            evaluator_inputs: e,
            outputs: self.num_outputs(),
            output_ciphertexts: o,
            constants: k,
            additions: self.num_adds(),
            subtractions: self.num_subs(),
            cmuls: self.num_cmuls(),
            projections: self.num_projs(),
            multiplications: self.num_muls(),
            ciphertexts: c,
            garbler_input_bits,
            evaluator_input_bits,
            output_bits,
            constant_bits,
            ciphertext_bits,
            total_bits: garbler_input_bits + evaluator_input_bits + constant_bits
                + ciphertext_bits + output_bits,
        }
    }
}

impl CostReport {
    /// The lines of the report, each a label and a count, in the order in
    /// which the report is printed. The last line is the total
    /// communication cost, in bits.
    pub fn rows(&self) -> (rows: Vec<(&'static str, u128)>)
        ensures
            rows@.len() == 12,
            rows@[0] == ("garbler inputs", self.garbler_inputs as u128),
            rows@[1] == ("evaluator inputs", self.evaluator_inputs as u128),
            rows@[2] == ("outputs", self.outputs as u128),
            rows@[3] == ("output ciphertexts", self.output_ciphertexts as u128),
            rows@[4] == ("constants", self.constants as u128),
            rows@[5] == ("additions", self.additions as u128),
            rows@[6] == ("subtractions", self.subtractions as u128),
            rows@[7] == ("cmuls", self.cmuls as u128),
            rows@[8] == ("projections", self.projections as u128),
            rows@[9] == ("multiplications", self.multiplications as u128),
            rows@[10] == ("ciphertexts", self.ciphertexts as u128),
            rows@[11] == ("total comms cost", self.total_bits),
    {
        let mut rows: Vec<(&'static str, u128)> = Vec::new();
        rows.push(("garbler inputs", self.garbler_inputs as u128));
        rows.push(("evaluator inputs", self.evaluator_inputs as u128));
        rows.push(("outputs", self.outputs as u128));
        rows.push(("output ciphertexts", self.output_ciphertexts as u128));
        rows.push(("constants", self.constants as u128));
        rows.push(("additions", self.additions as u128));
        rows.push(("subtractions", self.subtractions as u128));
        rows.push(("cmuls", self.cmuls as u128));
        rows.push(("projections", self.projections as u128));
        rows.push(("multiplications", self.multiplications as u128));
        rows.push(("ciphertexts", self.ciphertexts as u128));
        rows.push(("total comms cost", self.total_bits));
        rows
    }
}

} // verus!
