use fancy_garbling::bundle::MAX_EQ_WIDTH;
use fancy_garbling::{Bundle, BundleGadgets, Dummy, DummyVal, Fancy, FancyError, HasModulus};

fn wire(d: &mut Dummy, v: u16, p: u16) -> DummyVal {
    d.constant(v, p).unwrap()
}

#[test]
fn dummy_primitives_compute_modulo() {
    let mut d = Dummy::new(&[], &[]);
    let x = wire(&mut d, 5, 7);
    let y = wire(&mut d, 4, 7);
    assert_eq!(d.add(&x, &y).unwrap().val(), 2);
    assert_eq!(d.sub(&x, &y).unwrap().val(), 1);
    assert_eq!(d.sub(&y, &x).unwrap().val(), 6);
    assert_eq!(d.cmul(&x, 3).unwrap().val(), 1);
    assert_eq!(d.cmul(&x, 65535).unwrap().val() as u32, (5u32 * 65535) % 7);
    assert_eq!(d.mul(&x, &y).unwrap().val(), 6);
    let tt = [0u16, 1, 2, 0, 1, 2, 0];
    let z = d.proj(&x, 3, &tt).unwrap();
    assert_eq!(z.val(), 2);
    assert_eq!(z.modulus(), 3);
}

#[test]
fn result_moduli_follow_the_operands() {
    let mut d = Dummy::new(&[1, 2], &[3]);
    let a = d.garbler_input(5).unwrap();
    let b = d.garbler_input(5).unwrap();
    let c = d.evaluator_input(11).unwrap();
    assert_eq!(a.modulus(), 5);
    assert_eq!(c.modulus(), 11);
    assert_eq!(d.constant(2, 3).unwrap().modulus(), 3);
    assert_eq!(d.add(&a, &b).unwrap().modulus(), 5);
    assert_eq!(d.sub(&a, &b).unwrap().modulus(), 5);
    assert_eq!(d.cmul(&a, 9).unwrap().modulus(), 5);
    assert_eq!(d.mul(&a, &c).unwrap().modulus(), 11);
    assert_eq!(d.mul(&c, &a).unwrap().modulus(), 11);
    assert_eq!(d.mul(&a, &c).unwrap().val(), (1 * 3) % 11);
    let tt = [4u16, 3, 2, 1, 0];
    assert_eq!(d.proj(&a, 6, &tt).unwrap().modulus(), 6);
}

#[test]
fn dummy_reports_errors() {
    let mut d = Dummy::new(&[], &[]);
    let x = wire(&mut d, 1, 3);
    let y = wire(&mut d, 1, 5);
    assert_eq!(d.add(&x, &y).err(), Some(FancyError::UnequalModuli));
    assert_eq!(d.sub(&x, &y).err(), Some(FancyError::UnequalModuli));
    assert_eq!(d.constant(3, 3).err(), Some(FancyError::InvalidInput));
    assert_eq!(d.constant(0, 1).err(), Some(FancyError::InvalidInput));
    assert_eq!(d.proj(&x, 2, &[0, 1]).err(), Some(FancyError::InvalidTruthTable));
    assert_eq!(d.proj(&x, 2, &[0, 1, 2]).err(), Some(FancyError::InvalidTruthTable));
    assert_eq!(d.proj(&x, 1, &[0, 0, 0]).err(), Some(FancyError::InvalidTruthTable));
    assert_eq!(d.xor(&x, &x).err(), Some(FancyError::UnequalModuli));
    assert_eq!(d.negate(&x).err(), Some(FancyError::UnequalModuli));
    assert_eq!(d.mod_change(&x, 1).err(), Some(FancyError::InvalidTruthTable));
    let none: Vec<DummyVal> = Vec::new();
    assert_eq!(d.add_many(&none).err(), Some(FancyError::InvalidArgNum { got: 0, needed: 1 }));
    assert_eq!(d.add_many(&[x, y]).err(), Some(FancyError::UnequalModuli));
}

#[test]
fn dummy_hands_out_inputs_in_order() {
    let mut d = Dummy::new(&[3, 1], &[2]);
    assert_eq!(d.garbler_input(5).unwrap().val(), 3);
    assert_eq!(d.evaluator_input(3).unwrap().val(), 2);
    // the next input does not fit modulo 1, nor a modulus below 2
    assert_eq!(d.garbler_input(1).err(), Some(FancyError::InvalidInput));
    assert_eq!(d.garbler_input(0).err(), Some(FancyError::InvalidInput));
    // it is still there
    assert_eq!(d.garbler_input(2).unwrap().val(), 1);
    assert_eq!(d.garbler_input(2).err(), Some(FancyError::InvalidInput));
    assert_eq!(d.evaluator_input(2).err(), Some(FancyError::InvalidInput));
}

#[test]
fn dummy_outputs_keep_their_order() {
    let mut d = Dummy::new(&[], &[]);
    let x = wire(&mut d, 4, 5);
    let y = wire(&mut d, 1, 2);
    d.output(&x).unwrap();
    d.output(&y).unwrap();
    d.outputs_many(&[y, x]).unwrap();
    assert_eq!(d.get_output(), vec![4, 1, 1, 4]);
}

#[test]
fn bit_gates() {
    let mut d = Dummy::new(&[], &[]);
    for a in 0..2u16 {
        for b in 0..2u16 {
            let x = wire(&mut d, a, 2);
            let y = wire(&mut d, b, 2);
            assert_eq!(d.xor(&x, &y).unwrap().val(), a ^ b);
            assert_eq!(d.and(&x, &y).unwrap().val(), a & b);
            assert_eq!(d.or(&x, &y).unwrap().val(), a | b);
            assert_eq!(d.negate(&x).unwrap().val(), 1 - a);
            let (s, c) = d.adder(&x, &y, None).unwrap();
            assert_eq!(s.val() + 2 * c.val(), a + b);
            for cin in 0..2u16 {
                let z = wire(&mut d, cin, 2);
                let (s, c) = d.adder(&x, &y, Some(&z)).unwrap();
                assert_eq!(s.val() + 2 * c.val(), a + b + cin);
            }
            for c1 in [false, true] {
                for c2 in [false, true] {
                    let w = d.mux_constant_bits(&x, c1, c2).unwrap();
                    assert_eq!(w.val() == 1, if a == 0 { c1 } else { c2 });
                }
            }
        }
    }
}

#[test]
fn mux_selects_between_wires_of_any_modulus() {
    let mut d = Dummy::new(&[], &[]);
    let x = wire(&mut d, 3, 7);
    let y = wire(&mut d, 5, 7);
    let zero = wire(&mut d, 0, 2);
    let one = wire(&mut d, 1, 2);
    assert_eq!(d.mux(&zero, &x, &y).unwrap().val(), 3);
    assert_eq!(d.mux(&one, &x, &y).unwrap().val(), 5);
    assert_eq!(d.mux(&one, &x, &y).unwrap().modulus(), 7);
    assert_eq!(d.mux(&x, &x, &y).err(), Some(FancyError::UnequalModuli));
    assert_eq!(d.mux(&one, &x, &one).err(), Some(FancyError::UnequalModuli));
}

#[test]
fn eq_and_mod_change() {
    let mut d = Dummy::new(&[], &[]);
    for a in 0..5u16 {
        for b in 0..5u16 {
            let x = wire(&mut d, a, 5);
            let y = wire(&mut d, b, 5);
            let e = d.eq(&x, &y).unwrap();
            assert_eq!(e.modulus(), 2);
            assert_eq!(e.val() == 1, a == b);
        }
        let x = wire(&mut d, a, 5);
        let m = d.mod_change(&x, 3).unwrap();
        assert_eq!(m.modulus(), 3);
        assert_eq!(m.val(), a % 3);
        let same = d.mod_change(&x, 5).unwrap();
        assert_eq!(same.val(), a);
        let up = d.mod_change(&x, 9).unwrap();
        assert_eq!(up.val(), a);
        assert_eq!(up.modulus(), 9);
    }
}

#[test]
fn sums_and_disjunctions_of_many() {
    let mut d = Dummy::new(&[], &[]);
    let xs: Vec<DummyVal> = [4u16, 6, 5, 3].iter().map(|&v| d.constant(v, 7).unwrap()).collect();
    assert_eq!(d.add_many(&xs).unwrap().val(), (4 + 6 + 5 + 3) % 7);
    assert_eq!(d.add_many(&xs[..1]).unwrap().val(), 4);
    let zeros: Vec<DummyVal> = (0..4).map(|_| d.constant(0, 2).unwrap()).collect();
    assert_eq!(d.or_many(&zeros).unwrap().val(), 0);
    let mut some = zeros.clone();
    some[2] = d.constant(1, 2).unwrap();
    assert_eq!(d.or_many(&some).unwrap().val(), 1);
    let none: Vec<DummyVal> = Vec::new();
    assert_eq!(d.or_many(&none).unwrap().val(), 0);
    assert_eq!(d.or_many(&xs).err(), Some(FancyError::UnequalModuli));
}

fn bundle(d: &mut Dummy, vals: &[u16], ps: &[u16]) -> Bundle<DummyVal> {
    d.constant_bundle(vals, ps).unwrap()
}

fn vals(b: &Bundle<DummyVal>) -> Vec<u16> {
    b.wires().iter().map(|w| w.val()).collect()
}

#[test]
fn bundles_are_treated_wire_by_wire() {
    let mut d = Dummy::new(&[], &[]);
    let ps = [2u16, 3, 5, 7];
    let x = bundle(&mut d, &[1, 2, 4, 6], &ps);
    let y = bundle(&mut d, &[1, 2, 3, 5], &ps);
    assert_eq!(x.moduli(), ps.to_vec());
    assert_eq!(x.size(), 4);
    assert_eq!(vals(&d.add_bundles(&x, &y).unwrap()), vec![0, 1, 2, 4]);
    assert_eq!(vals(&d.sub_bundles(&y, &x).unwrap()), vec![0, 0, 4, 6]);
    assert_eq!(vals(&d.mul_bundles(&x, &y).unwrap()), vec![1, 1, 2, 2]);
    let short = bundle(&mut d, &[1, 2], &[2, 3]);
    assert_eq!(d.add_bundles(&x, &short).err(), Some(FancyError::UnequalModuli));
    let other = bundle(&mut d, &[1, 2, 4, 6], &[2, 3, 5, 11]);
    assert_eq!(d.mul_bundles(&x, &other).err(), Some(FancyError::UnequalModuli));
    assert_eq!(d.eq_bundles(&x, &other).err(), Some(FancyError::UnequalModuli));
}

#[test]
fn constant_bundle_checks_its_values() {
    let mut d = Dummy::new(&[], &[]);
    assert_eq!(d.constant_bundle(&[1, 3], &[2, 3]).err(), Some(FancyError::InvalidInput));
    assert_eq!(d.constant_bundle(&[1], &[2, 3]).err(), Some(FancyError::InvalidInput));
    assert_eq!(d.constant_bundle(&[], &[]).unwrap().size(), 0);
}

#[test]
fn eq_bundles_compares_all_places() {
    let mut d = Dummy::new(&[], &[]);
    let ps = [3u16, 5, 7];
    let x = bundle(&mut d, &[2, 4, 6], &ps);
    let same = bundle(&mut d, &[2, 4, 6], &ps);
    let other = bundle(&mut d, &[2, 3, 6], &ps);
    assert_eq!(d.eq_bundles(&x, &same).unwrap().val(), 1);
    assert_eq!(d.eq_bundles(&x, &other).unwrap().val(), 0);
    let one = bundle(&mut d, &[4], &[5]);
    let one_too = bundle(&mut d, &[4], &[5]);
    assert_eq!(d.eq_bundles(&one, &one_too).unwrap().val(), 1);
    let empty = bundle(&mut d, &[], &[]);
    assert_eq!(d.eq_bundles(&empty, &empty).unwrap().val(), 1);
    assert_eq!(MAX_EQ_WIDTH, 65534);
}

#[test]
fn multiplex_and_shift() {
    let mut d = Dummy::new(&[], &[]);
    let ps = [3u16, 5, 7];
    let x = bundle(&mut d, &[2, 4, 6], &ps);
    let y = bundle(&mut d, &[1, 0, 3], &ps);
    let zero = d.constant(0, 2).unwrap();
    let one = d.constant(1, 2).unwrap();
    assert_eq!(vals(&d.multiplex(&zero, &x, &y).unwrap()), vec![2, 4, 6]);
    assert_eq!(vals(&d.multiplex(&one, &x, &y).unwrap()), vec![1, 0, 3]);
    let bits = bundle(&mut d, &[1, 1, 0, 1], &[2, 2, 2, 2]);
    assert_eq!(vals(&d.shift(&bits, 1).unwrap()), vec![0, 1, 1, 0]);
    assert_eq!(vals(&d.shift(&bits, 0).unwrap()), vec![1, 1, 0, 1]);
    assert_eq!(vals(&d.shift(&bits, 9).unwrap()), vec![0, 0, 0, 0]);
    let empty = bundle(&mut d, &[], &[]);
    assert_eq!(d.shift(&empty, 3).unwrap().size(), 0);
}

#[test]
fn input_and_output_bundles() {
    let mut d = Dummy::new(&[1, 2, 4], &[0, 6]);
    let g = d.garbler_input_bundle(&[2, 3, 5]).unwrap();
    let e = d.evaluator_input_bundle(&[2, 7]).unwrap();
    assert_eq!(vals(&g), vec![1, 2, 4]);
    assert_eq!(vals(&e), vec![0, 6]);
    d.output_bundle(&e).unwrap();
    d.output_bundle(&g).unwrap();
    assert_eq!(d.get_output(), vec![0, 6, 1, 2, 4]);
    assert_eq!(d.garbler_input_bundle(&[2]).err(), Some(FancyError::InvalidInput));
    let copy = g.duplicate();
    assert_eq!(vals(&copy), vec![1, 2, 4]);
    assert_eq!(g.into_wires().len(), 3);
}

#[test]
fn no_inputs_asked_for_none_taken() {
    let mut d = Dummy::new(&[], &[]);
    assert_eq!(d.garbler_input_bundle(&[]).unwrap().size(), 0);
    assert_eq!(d.evaluator_input_bundle(&[]).unwrap().size(), 0);
}
