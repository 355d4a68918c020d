use fancy_garbling::informer::kilobytes;
use fancy_garbling::{BinaryBundle, BinaryGadgets, Fancy, FancyError, HasModulus, Informer, InformerVal};

#[test]
fn a_new_informer_has_seen_nothing() {
    let inf = Informer::new();
    assert_eq!(inf.num_garbler_inputs(), 0);
    assert_eq!(inf.num_evaluator_inputs(), 0);
    assert_eq!(inf.num_consts(), 0);
    assert_eq!(inf.num_outputs(), 0);
    assert_eq!(inf.num_output_ciphertexts(), 0);
    assert_eq!(inf.num_adds(), 0);
    assert_eq!(inf.num_subs(), 0);
    assert_eq!(inf.num_cmuls(), 0);
    assert_eq!(inf.num_muls(), 0);
    assert_eq!(inf.num_projs(), 0);
    assert_eq!(inf.num_ciphertexts(), 0);
    assert_eq!(inf.garbler_input_moduli(), Vec::<u16>::new());
    assert_eq!(inf.evaluator_input_moduli(), Vec::<u16>::new());
}

#[test]
fn informer_records_inputs_constants_and_outputs() {
    let mut inf = Informer::new();
    let a = inf.garbler_input(3).unwrap();
    let b = inf.garbler_input(5).unwrap();
    let c = inf.evaluator_input(7).unwrap();
    assert_eq!(a.modulus(), 3);
    assert_eq!(inf.garbler_input_moduli(), vec![3, 5]);
    assert_eq!(inf.evaluator_input_moduli(), vec![7]);
    assert_eq!(inf.num_garbler_inputs(), 2);
    assert_eq!(inf.num_evaluator_inputs(), 1);
    inf.constant(1, 2).unwrap();
    inf.constant(1, 2).unwrap();
    inf.constant(0, 2).unwrap();
    inf.constant(1, 3).unwrap();
    assert_eq!(inf.num_consts(), 3);
    inf.output(&b).unwrap();
    inf.output(&c).unwrap();
    assert_eq!(inf.num_outputs(), 2);
    assert_eq!(inf.num_output_ciphertexts(), 12);
    assert_eq!(inf.garbler_input(1).err(), Some(FancyError::InvalidInput));
    assert_eq!(inf.constant(2, 2).err(), Some(FancyError::InvalidInput));
    assert_eq!(inf.num_garbler_inputs(), 2);
    assert_eq!(inf.num_consts(), 3);
}

#[test]
fn free_gates_cost_no_ciphertexts() {
    let mut inf = Informer::new();
    let a = inf.garbler_input(5).unwrap();
    let b = inf.garbler_input(5).unwrap();
    inf.add(&a, &b).unwrap();
    inf.sub(&a, &b).unwrap();
    inf.sub(&a, &b).unwrap();
    inf.cmul(&a, 3).unwrap();
    inf.constant(4, 5).unwrap();
    inf.output(&a).unwrap();
    assert_eq!(inf.num_adds(), 1);
    assert_eq!(inf.num_subs(), 2);
    assert_eq!(inf.num_cmuls(), 1);
    assert_eq!(inf.num_ciphertexts(), 0);
}

#[test]
fn a_product_costs_the_same_either_way_round() {
    let mut one = Informer::new();
    let a = one.garbler_input(7).unwrap();
    let b = one.garbler_input(3).unwrap();
    let z = one.mul(&a, &b).unwrap();
    assert_eq!(z.modulus(), 7);
    assert_eq!(one.num_ciphertexts(), 7 + 3 - 2 + 1);
    let mut other = Informer::new();
    let a = other.garbler_input(7).unwrap();
    let b = other.garbler_input(3).unwrap();
    let z = other.mul(&b, &a).unwrap();
    assert_eq!(z.modulus(), 7);
    assert_eq!(other.num_ciphertexts(), one.num_ciphertexts());
    assert_eq!(other.num_muls(), 1);
}

#[test]
fn informer_rejects_what_the_gates_reject() {
    let mut inf = Informer::new();
    let a = inf.garbler_input(5).unwrap();
    let b = inf.garbler_input(3).unwrap();
    assert_eq!(inf.add(&a, &b).err(), Some(FancyError::UnequalModuli));
    assert_eq!(inf.sub(&a, &b).err(), Some(FancyError::UnequalModuli));
    assert_eq!(inf.proj(&a, 2, &[0, 1, 0]).err(), Some(FancyError::InvalidTruthTable));
    assert_eq!(inf.proj(&a, 2, &[0, 1, 0, 1, 2]).err(), Some(FancyError::InvalidTruthTable));
    assert_eq!(inf.num_adds(), 0);
    assert_eq!(inf.num_subs(), 0);
    assert_eq!(inf.num_projs(), 0);
    assert_eq!(inf.num_ciphertexts(), 0);
}

#[test]
fn a_million_gates_cost_a_million_times_one() {
    let n = 1_000_000usize;
    let mut inf = Informer::new();
    let a = inf.garbler_input(7).unwrap();
    let b = inf.garbler_input(5).unwrap();
    let tt = [0u16, 1, 2, 0, 1, 2, 0];
    for _ in 0..n {
        inf.add(&a, &a).unwrap();
        inf.sub(&b, &b).unwrap();
        inf.cmul(&a, 2).unwrap();
        inf.mul(&a, &b).unwrap();
        inf.proj(&a, 3, &tt).unwrap();
    }
    assert_eq!(inf.num_adds(), n);
    assert_eq!(inf.num_subs(), n);
    assert_eq!(inf.num_cmuls(), n);
    assert_eq!(inf.num_muls(), n);
    assert_eq!(inf.num_projs(), n);
    assert_eq!(inf.num_ciphertexts(), n * (7 + 5 - 2 + 1) + n * (7 - 1));
}

#[test]
fn the_report_adds_up_the_costs() {
    let mut inf = Informer::new();
    let a = inf.garbler_input(7).unwrap();
    let b = inf.garbler_input(7).unwrap();
    let c = inf.evaluator_input(7).unwrap();
    inf.constant(1, 7).unwrap();
    let z = inf.mul(&a, &b).unwrap();
    let z = inf.add(&z, &c).unwrap();
    inf.output(&z).unwrap();
    let r = inf.report();
    assert_eq!(r.garbler_inputs, 2);
    assert_eq!(r.evaluator_inputs, 1);
    assert_eq!(r.constants, 1);
    assert_eq!(r.outputs, 1);
    assert_eq!(r.output_ciphertexts, 7);
    assert_eq!(r.multiplications, 1);
    assert_eq!(r.additions, 1);
    assert_eq!(r.ciphertexts, 12);
    assert_eq!(r.garbler_input_bits, 256);
    assert_eq!(r.evaluator_input_bits, 256);
    assert_eq!(r.constant_bits, 128);
    assert_eq!(r.ciphertext_bits, 12 * 128);
    assert_eq!(r.output_bits, 7 * 128);
    assert_eq!(r.total_bits, 256 + 256 + 128 + 12 * 128 + 7 * 128);
    let rows = r.rows();
    let labels: Vec<&str> = rows.iter().map(|row| row.0).collect();
    assert_eq!(
        labels,
        vec![
            "garbler inputs",
            "evaluator inputs",
            "outputs",
            "output ciphertexts",
            "constants",
            "additions",
            "subtractions",
            "cmuls",
            "projections",
            "multiplications",
            "ciphertexts",
            "total comms cost",
        ]
    );
    assert_eq!(rows[10].1, 12);
    assert_eq!(rows[11].1, r.total_bits);
    assert_eq!(kilobytes(345600 * 128), 5400);
    assert_eq!(kilobytes(8191), 0);
}

#[test]
fn gadgets_run_on_the_informer() {
    let mut inf = Informer::new();
    let mut xs = Vec::new();
    let mut ys = Vec::new();
    for _ in 0..8 {
        xs.push(inf.garbler_input(2).unwrap());
        ys.push(inf.evaluator_input(2).unwrap());
    }
    let x: BinaryBundle<InformerVal> = BinaryBundle::new(xs);
    let y = BinaryBundle::new(ys);
    let (z, c) = inf.bin_addition(&x, &y).unwrap();
    assert_eq!(z.size(), 8);
    assert_eq!(c.modulus(), 2);
    // one and gate for each adder, two ciphertexts for each and gate
    assert_eq!(inf.num_muls(), 8);
    assert_eq!(inf.num_ciphertexts(), 16);
    let w = InformerVal::default();
    assert_eq!(w.modulus(), 0);
}
