use fancy_garbling::dinn::{
    argmax, build_circuit, forward, from_mod_q, rows_from, to_mod_q, to_mod_q_all, SIGN_RADIX,
    TOPOLOGY,
};
use fancy_garbling::util::{crt_factor, crt_inv_factor, modulus_with_width};
use fancy_garbling::{CrtGadgets, Dummy, FancyError, Informer};

#[test]
fn numbers_modulo_q_and_back() {
    let q = 2310u128;
    assert_eq!(to_mod_q(q, 5), 5);
    assert_eq!(to_mod_q(q, -1), 2309);
    assert_eq!(to_mod_q(q, -2310), 0);
    assert_eq!(to_mod_q(q, -2311), 2309);
    assert_eq!(to_mod_q(q, i16::MIN), (q - (32768 % q)) % q);
    assert_eq!(to_mod_q(q, i16::MAX), 32767 % q);
    assert_eq!(to_mod_q(7, -8), 6);
    assert_eq!(from_mod_q(q, 5), 5);
    assert_eq!(from_mod_q(q, 2309), -1);
    assert_eq!(from_mod_q(q, 1154), 1154);
    assert_eq!(from_mod_q(q, 1155), -1155);
    assert_eq!(from_mod_q(q, 0), 0);
    for x in -1155i16..1155 {
        assert_eq!(from_mod_q(q, to_mod_q(q, x)), x as i32);
    }
    assert_eq!(to_mod_q_all(q, &[1, -1, 0]), vec![1, 2309, 0]);
}

#[test]
fn the_first_largest_wins() {
    assert_eq!(argmax(&[1, 5, 3, 5]), 1);
    assert_eq!(argmax(&[7]), 0);
    assert_eq!(argmax(&[]), 0);
    assert_eq!(argmax(&[i32::MIN, i32::MIN]), 0);
    assert_eq!(argmax(&[-3, -2, -9]), 1);
}

#[test]
fn rows_cut_from_a_flat_list() {
    let flat: Vec<u128> = (0..12).collect();
    assert_eq!(rows_from(&flat, 0, 2, 3), Some(vec![vec![0, 1, 2], vec![3, 4, 5]]));
    assert_eq!(rows_from(&flat, 6, 3, 2), Some(vec![vec![6, 7], vec![8, 9], vec![10, 11]]));
    assert_eq!(rows_from(&flat, 6, 3, 3), None);
    assert_eq!(rows_from(&flat, 12, 0, 5), Some(vec![]));
    assert_eq!(rows_from(&flat, 1, usize::MAX, 2), None);
    assert_eq!(rows_from(&flat, 0, 2, 0), Some(vec![vec![], vec![]]));
}

fn weight(layer: usize, i: usize, j: usize) -> i16 {
    (((layer * 31 + i * 7 + j * 13) % 5) as i16) - 2
}

fn rounded_half_sign(x: u128, q: u128) -> bool {
    // the sign as the circuit finds it with the single radix 128
    let ps = [2u128, 3, 5, 7, 11];
    let big = SIGN_RADIX as u128;
    let mut total = 0u128;
    for p in ps {
        let a = (q / p) % p;
        let c = (1..p).find(|u| (a * u) % p == 1).unwrap();
        total += ((2 * big * (x % p) * c + p) / (2 * p)) % big;
    }
    total % big >= big / 2
}

#[test]
fn forward_pass_matches_a_plain_computation() {
    let q = modulus_with_width(10).unwrap();
    let mut weights: Vec<Vec<Vec<u128>>> = Vec::new();
    for layer in 0..2 {
        let mut m = Vec::new();
        for i in 0..TOPOLOGY[layer] {
            m.push((0..TOPOLOGY[layer + 1]).map(|j| to_mod_q(q, weight(layer, i, j))).collect());
        }
        weights.push(m);
    }
    let biases0: Vec<i16> = (0..30).map(|j| (j % 7) as i16 - 3).collect();
    let biases1: Vec<i16> = (0..10).map(|j| (j % 4) as i16 - 1).collect();
    let image: Vec<i16> = (0..256).map(|i| if (i * i + 3 * i) % 5 < 2 { 1 } else { -1 }).collect();

    let mut ins: Vec<u16> = Vec::new();
    for &v in biases0.iter().chain(biases1.iter()).chain(image.iter()) {
        ins.extend(crt_factor(to_mod_q(q, v), q).unwrap());
    }
    let mut d = Dummy::new(&ins, &[]);
    let c = build_circuit(&mut d, q, &weights).unwrap();
    assert_eq!(c.inputs.len(), 256);
    assert_eq!(c.hidden.len(), 30);
    assert_eq!(c.outputs.len(), 10);

    // the same computation on plain numbers
    let qi = q as i128;
    let mut hidden = Vec::new();
    for j in 0..30 {
        let mut x = biases0[j] as i128;
        for i in 0..256 {
            x += image[i] as i128 * weight(0, i, j) as i128;
        }
        let r = x.rem_euclid(qi) as u128;
        hidden.push(if rounded_half_sign(r, q) { -1i128 } else { 1 });
    }
    let mut expected = Vec::new();
    for j in 0..10 {
        let mut x = biases1[j] as i128;
        for i in 0..30 {
            x += hidden[i] * weight(1, i, j) as i128;
        }
        expected.push(x.rem_euclid(qi) as u128);
    }
    let out = d.get_output();
    assert_eq!(out.len(), 50);
    let decoded: Vec<u128> = out.chunks(5).map(|rs| crt_inv_factor(rs, q).unwrap()).collect();
    assert_eq!(decoded, expected);
    let signed: Vec<i32> = decoded.iter().map(|&x| from_mod_q(q, x)).collect();
    let plain: Vec<i32> = expected.iter().map(|&x| from_mod_q(q, x)).collect();
    assert_eq!(argmax(&signed), argmax(&plain));
}

#[test]
fn the_network_rejects_what_does_not_fit() {
    let q = 2310u128;
    let mut d = Dummy::new(&[], &[]);
    let none: Vec<Vec<Vec<u128>>> = Vec::new();
    assert_eq!(build_circuit(&mut d, q, &none).err(), Some(FancyError::InvalidInput));
    let small = vec![vec![vec![1u128; 30]; 256], vec![vec![1u128; 10]; 29]];
    assert_eq!(build_circuit(&mut d, q, &small).err(), Some(FancyError::InvalidInput));
    let good = vec![vec![vec![1u128; 30]; 256], vec![vec![1u128; 10]; 30]];
    // no inputs are there to be taken
    assert_eq!(build_circuit(&mut d, q, &good).err(), Some(FancyError::InvalidInput));
    let mut inf = Informer::new();
    assert_eq!(build_circuit(&mut inf, 12, &good).err(), Some(FancyError::InvalidInput));
}

#[test]
fn the_cost_of_the_network() {
    let q = 2310u128;
    let weights = vec![vec![vec![1u128; 30]; 256], vec![vec![1u128; 10]; 30]];
    let mut inf = Informer::new();
    build_circuit(&mut inf, q, &weights).unwrap();
    assert_eq!(inf.num_garbler_inputs(), (30 + 10 + 256) * 5);
    assert_eq!(inf.num_evaluator_inputs(), 0);
    assert_eq!(inf.num_cmuls(), (256 * 30 + 30 * 10) * 5);
    assert_eq!(inf.num_outputs(), 50);
    assert_eq!(inf.num_output_ciphertexts(), 10 * (2 + 3 + 5 + 7 + 11));
    assert_eq!(inf.num_muls(), 0);
    // for each hidden neuron: one projection of each residue to the digit,
    // one of the digit to the sign, and one of the sign to each residue
    assert_eq!(inf.num_projs(), 30 * (5 + 1 + 5));
    assert_eq!(inf.num_ciphertexts(), 30 * ((1 + 2 + 4 + 6 + 10) + 127 + 5));
}

#[test]
fn the_network_on_inputs_that_are_there() {
    let q = 2310u128;
    let weights = vec![vec![vec![1u128; 30]; 256], vec![vec![2u128; 10]; 30]];
    let mut d = Dummy::new(&[], &[]);
    let zero = |d: &mut Dummy| d.crt_constant_bundle(0, q).unwrap();
    let one = |d: &mut Dummy| d.crt_constant_bundle(1, q).unwrap();
    let biases0 = (0..30).map(|_| zero(&mut d)).collect();
    let biases1 = (0..10).map(|_| one(&mut d)).collect();
    let inputs = (0..256).map(|_| one(&mut d)).collect();
    let c = forward(&mut d, q, &weights, biases0, biases1, inputs).unwrap();
    assert_eq!(c.hidden.len(), 30);
    // every hidden neuron sums to 256, in the lower half: it passes on 1
    let out: Vec<u128> =
        d.get_output().chunks(5).map(|rs| crt_inv_factor(rs, q).unwrap()).collect();
    assert_eq!(out, vec![1 + 30 * 2; 10]);
}

#[test]
fn the_network_needs_a_modulus_with_a_sign() {
    // with no prime at all there is nothing to find a sign of
    let weights = vec![vec![vec![1u128; 30]; 256], vec![vec![2u128; 10]; 30]];
    let mut d = Dummy::new(&[], &[]);
    assert_eq!(build_circuit(&mut d, 1, &weights).err(), Some(FancyError::InvalidInput));
    assert_eq!(d.get_output(), Vec::<u16>::new());
    let mut inf = Informer::new();
    assert_eq!(build_circuit(&mut inf, 1, &weights).err(), Some(FancyError::InvalidInput));
    assert_eq!(inf.num_garbler_inputs(), 0);
    assert_eq!(inf.num_consts(), 0);
}
