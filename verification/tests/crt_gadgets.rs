use fancy_garbling::crt::{frac_check, schedule, Accuracy};
use fancy_garbling::util::{crt_factor, crt_inv_factor, modulus_with_nprimes, modulus_with_width};
use fancy_garbling::{Bundle, CrtBundle, CrtGadgets, Dummy, DummyVal, Fancy, FancyError, HasModulus};

fn decode(b: &CrtBundle<DummyVal>, q: u128) -> u128 {
    let rs: Vec<u16> = b.wires().iter().map(|w| w.val()).collect();
    crt_inv_factor(&rs, q).unwrap()
}

fn with_inputs(xs: &[u128], q: u128) -> (Dummy, Vec<CrtBundle<DummyVal>>) {
    let mut ins = Vec::new();
    for &x in xs {
        ins.extend(crt_factor(x, q).unwrap());
    }
    let mut d = Dummy::new(&ins, &[]);
    let mut bs = Vec::new();
    for _ in xs {
        bs.push(d.crt_garbler_input_bundle(q).unwrap());
    }
    (d, bs)
}

#[test]
fn modular_sum() {
    let q = modulus_with_width(10).unwrap();
    let (mut d, bs) = with_inputs(&[500, 600], q);
    let z = d.crt_add(&bs[0], &bs[1]).unwrap();
    d.crt_output(&z).unwrap();
    assert_eq!(crt_inv_factor(&d.get_output(), q), Ok(1100 % q));
    assert_eq!(decode(&z, q), 1100);
}

#[test]
fn crt_arithmetic_is_arithmetic_modulo_q() {
    let q = 2310u128;
    let samples = [0u128, 1, 2, 3, 500, 600, 1154, 1155, 1156, 2000, 2308, 2309];
    for &x in &samples {
        for &y in &samples {
            let (mut d, bs) = with_inputs(&[x, y], q);
            assert_eq!(decode(&d.crt_add(&bs[0], &bs[1]).unwrap(), q), (x + y) % q);
            assert_eq!(decode(&d.crt_sub(&bs[0], &bs[1]).unwrap(), q), (q + x - y) % q);
            assert_eq!(decode(&d.crt_mul(&bs[0], &bs[1]).unwrap(), q), (x * y) % q);
            assert_eq!(decode(&d.crt_cmul(&bs[0], y).unwrap(), q), (x * y) % q);
        }
    }
    let (mut d, bs) = with_inputs(&[7], q);
    assert_eq!(decode(&d.crt_cmul(&bs[0], u128::MAX).unwrap(), q), (7 * (u128::MAX % q)) % q);
}

#[test]
fn crt_constants_and_inputs() {
    let q = 2310u128;
    let mut d = Dummy::new(&[1, 2, 3, 4, 5], &[1, 0, 0, 0, 0]);
    let c = d.crt_constant_bundle(1234, q).unwrap();
    assert_eq!(decode(&c, q), 1234);
    assert_eq!(c.size(), 5);
    let g = d.crt_garbler_input_bundle(q).unwrap();
    let moduli: Vec<u16> = g.wires().iter().map(|w| w.modulus()).collect();
    assert_eq!(moduli, vec![2, 3, 5, 7, 11]);
    let e = d.crt_evaluator_input_bundle(q).unwrap();
    assert_eq!(decode(&e, q), crt_inv_factor(&[1, 0, 0, 0, 0], q).unwrap());
    assert_eq!(d.crt_constant_bundle(q, q).err(), Some(FancyError::InvalidInput));
    assert_eq!(d.crt_constant_bundle(1, 12).err(), Some(FancyError::InvalidInput));
    assert_eq!(d.crt_garbler_input_bundle(12).err(), Some(FancyError::InvalidInput));
    assert_eq!(d.crt_garbler_input_bundle(q).err(), Some(FancyError::InvalidInput));
    let other = d.crt_constant_bundle(3, 30).unwrap();
    assert_eq!(d.crt_add(&c, &other).err(), Some(FancyError::UnequalModuli));
    let copy = c.duplicate();
    assert_eq!(decode(&copy, q), 1234);
    assert_eq!(c.extract().size(), 5);
}

#[test]
fn one_or_minus_one_from_a_bit() {
    let q = 2310u128;
    let mut d = Dummy::new(&[], &[]);
    let zero = d.constant(0, 2).unwrap();
    let one = d.constant(1, 2).unwrap();
    let three = d.constant(1, 3).unwrap();
    assert_eq!(decode(&d.zero_one_to_one_negative_one(&zero, q).unwrap(), q), 1);
    assert_eq!(decode(&d.zero_one_to_one_negative_one(&one, q).unwrap(), q), q - 1);
    assert_eq!(d.zero_one_to_one_negative_one(&three, q).err(), Some(FancyError::UnequalModuli));
    assert_eq!(d.zero_one_to_one_negative_one(&one, 12).err(), Some(FancyError::InvalidInput));
}

#[test]
fn sign_with_an_exact_schedule() {
    let q = modulus_with_width(10).unwrap();
    let ms = schedule(5, Accuracy::Exact).unwrap();
    assert_eq!(ms, vec![3, 4, 54]);
    let (mut d, bs) = with_inputs(&[3, q - 1, q / 2, q / 2 - 1, 0], q);
    assert_eq!(d.sgn(&bs[0], &ms).unwrap().val(), 0);
    assert_eq!(d.sgn(&bs[1], &ms).unwrap().val(), 1);
    assert_eq!(d.sgn(&bs[2], &ms).unwrap().val(), 1);
    assert_eq!(d.sgn(&bs[3], &ms).unwrap().val(), 0);
    assert_eq!(d.sgn(&bs[4], &ms).unwrap().val(), 0);
}

#[test]
fn sign_is_exact_on_every_number_with_the_exact_schedules() {
    for nprimes in 3..=5usize {
        let q = modulus_with_nprimes(nprimes).unwrap();
        let ms = schedule(nprimes, Accuracy::Exact).unwrap();
        for x in 0..q {
            let (mut d, bs) = with_inputs(&[x], q);
            let s = d.sgn(&bs[0], &ms).unwrap();
            assert_eq!(s.modulus(), 2);
            assert_eq!(s.val() == 1, x >= q / 2);
        }
    }
}

#[test]
fn sign_with_one_radix_is_approximate() {
    // the share of each residue, rounded: 3 and 2309 both come out in the lower half
    let q = 2310u128;
    let (mut d, bs) = with_inputs(&[3, q - 1, 1000, 1500], q);
    assert_eq!(d.sgn(&bs[0], &[128]).unwrap().val(), 0);
    assert_eq!(d.sgn(&bs[1], &[128]).unwrap().val(), 0);
    assert_eq!(d.sgn(&bs[2], &[128]).unwrap().val(), 0);
    assert_eq!(d.sgn(&bs[3], &[128]).unwrap().val(), 1);
    let digit = d.crt_fractional_mixed_radix(&bs[3], &[128]).unwrap();
    assert_eq!(digit.modulus(), 128);
    assert_eq!(digit.val(), 84);
}

#[test]
fn sign_rejects_radices_that_do_not_work() {
    let q = 2310u128;
    let (mut d, bs) = with_inputs(&[3], q);
    assert_eq!(d.sgn(&bs[0], &[]).err(), Some(FancyError::InvalidInput));
    assert_eq!(d.sgn(&bs[0], &[1, 5]).err(), Some(FancyError::InvalidInput));
    assert_eq!(d.sgn(&bs[0], &[65535, 65535, 65535, 65535, 65535]).err(), Some(FancyError::InvalidInput));
    assert_eq!(d.sgn(&bs[0], &[20000, 3]).err(), Some(FancyError::InvalidInput));
    let empty: CrtBundle<DummyVal> = CrtBundle::new(Vec::new());
    assert_eq!(d.sgn(&empty, &[3, 4]).err(), Some(FancyError::InvalidInput));
    let w = d.constant(1, 4).unwrap();
    let v = d.constant(1, 6).unwrap();
    let shared = CrtBundle::new(vec![w, v]);
    assert_eq!(d.sgn(&shared, &[3, 4]).err(), Some(FancyError::InvalidInput));
}

#[test]
fn relu_exact() {
    let q = modulus_with_nprimes(5).unwrap();
    for x in 0..q {
        let (mut d, bs) = with_inputs(&[x], q);
        let z = d.relu(&bs[0], "100%").unwrap();
        assert_eq!(decode(&z, q), if x < q / 2 { x } else { 0 });
    }
}

#[test]
fn relu_approximate() {
    let q = modulus_with_nprimes(5).unwrap();
    let mut wrong_999 = 0;
    let mut wrong_99 = 0;
    for x in 0..q {
        let (mut d, bs) = with_inputs(&[x], q);
        let exact = if x < q / 2 { x } else { 0 };
        if decode(&d.relu(&bs[0], "99.9%").unwrap(), q) != exact {
            wrong_999 += 1;
        }
        if decode(&d.relu(&bs[0], "99%").unwrap(), q) != exact {
            wrong_99 += 1;
        }
    }
    assert!(wrong_999 * 1000 < q);
    assert!(wrong_99 * 100 < q);
    assert_eq!(wrong_999, 2);
}

#[test]
fn relu_rejects_unknown_accuracies_and_sizes() {
    let q = 2310u128;
    let (mut d, bs) = with_inputs(&[3], q);
    assert_eq!(d.relu(&bs[0], "50%").err(), Some(FancyError::InvalidInput));
    assert_eq!(d.relu(&bs[0], "").err(), Some(FancyError::InvalidInput));
    assert_eq!(d.relu(&bs[0], "100% ").err(), Some(FancyError::InvalidInput));
    let (mut d, bs) = with_inputs(&[3], 6);
    assert_eq!(d.relu(&bs[0], "100%").err(), Some(FancyError::InvalidInput));
    assert_eq!(Accuracy::from_name("100%"), Some(Accuracy::Exact));
    assert_eq!(Accuracy::from_name("99.9%"), Some(Accuracy::ThreeNines));
    assert_eq!(Accuracy::from_name("99%"), Some(Accuracy::TwoNines));
    assert_eq!(Accuracy::from_name("99.99%"), None);
    assert_eq!(schedule(2, Accuracy::Exact), None);
    assert_eq!(schedule(8, Accuracy::TwoNines), Some(vec![126]));
    assert_eq!(schedule(6, Accuracy::ThreeNines), Some(vec![4, 5, 48]));
}

#[test]
fn digit_wise_addition_gives_the_top_digit() {
    // 17 + 23 + 9 = 49 with the radices 3, 4, 5: 49 = 1 + 3 * (0 + 4 * 4)
    let mut d = Dummy::new(&[], &[]);
    let ps = [3u16, 4, 5];
    let digits = |x: u16| [x % 3, (x / 3) % 4, (x / 12) % 5];
    let mut xs: Vec<Bundle<DummyVal>> = Vec::new();
    for x in [17u16, 23, 9] {
        let ws: Vec<DummyVal> =
            digits(x).iter().zip(ps.iter()).map(|(&v, &p)| d.constant(v, p).unwrap()).collect();
        xs.push(Bundle::new(ws));
    }
    let top = d.mixed_radix_addition_msb_only(&xs).unwrap();
    assert_eq!(top.modulus(), 5);
    assert_eq!(top.val(), 4);
    let none: Vec<Bundle<DummyVal>> = Vec::new();
    assert_eq!(
        d.mixed_radix_addition_msb_only(&none).err(),
        Some(FancyError::InvalidArgNum { got: 0, needed: 1 })
    );
    let w = d.constant(1, 7).unwrap();
    xs.push(Bundle::new(vec![w]));
    assert_eq!(d.mixed_radix_addition_msb_only(&xs).err(), Some(FancyError::UnequalModuli));
}

#[test]
fn sign_is_exact_on_a_sample_of_six_primes() {
    let q = modulus_with_nprimes(6).unwrap();
    let ms = schedule(6, Accuracy::Exact).unwrap();
    let mut xs: Vec<u128> = (0..q).step_by(31).collect();
    xs.extend([q / 2 - 1, q / 2, q / 2 + 1, q - 1]);
    for x in xs {
        let (mut d, bs) = with_inputs(&[x], q);
        assert_eq!(d.sgn(&bs[0], &ms).unwrap().val() == 1, x >= q / 2);
    }
}

#[test]
fn which_radices_find_a_sign() {
    assert!(frac_check(&[2, 3, 5, 7, 11], &[128]));
    assert!(frac_check(&[2, 3, 5, 7, 11], &[3, 4, 54]));
    assert!(!frac_check(&[], &[128]));
    assert!(!frac_check(&[2, 3], &[]));
    assert!(!frac_check(&[2, 3], &[1, 4]));
    assert!(!frac_check(&[4, 6], &[3, 4]));
    assert!(!frac_check(&[0, 3], &[3, 4]));
    assert!(frac_check(&[2, 3], &[20000, 3]));
    assert!(!frac_check(&[2, 3], &[40000, 3]));
    assert!(!frac_check(&[2, 3, 5, 7, 11], &[20000, 3]));
    assert!(!frac_check(&[2, 3], &[65535, 65535, 65535, 65535, 65535]));
}

#[test]
fn a_failed_sign_makes_no_gate() {
    let q = 2310u128;
    let mut inf = fancy_garbling::Informer::new();
    let b = inf.crt_garbler_input_bundle(q).unwrap();
    assert_eq!(inf.sgn(&b, &[1, 5]).err(), Some(FancyError::InvalidInput));
    assert_eq!(inf.relu(&b, "50%").err(), Some(FancyError::InvalidInput));
    assert_eq!(inf.num_projs(), 0);
    assert_eq!(inf.num_consts(), 0);
    assert_eq!(inf.num_ciphertexts(), 0);
}

#[test]
fn clones_of_bundles() {
    let q = 2310u128;
    let mut d = Dummy::new(&[], &[]);
    let c = d.crt_constant_bundle(1234, q).unwrap();
    let again = c.clone();
    assert_eq!(decode(&again, q), 1234);
    let inner: Bundle<DummyVal> = c.extract();
    assert_eq!(inner.clone().size(), 5);
}

/// Whether the number keeps the distance from the ends of its half of the
/// range that makes its sign sure.
fn sure(q: u128, big: u128, half: u128, n: u128, v: u128) -> bool {
    (n * q <= 2 * big * v && 2 * big * v + n * q < 2 * q * half)
        || (2 * q * half + n * q <= 2 * big * v && 2 * big * v + n * q < 2 * q * big && 2 * v >= q)
}

#[test]
fn the_sign_is_sure_away_from_the_ends() {
    let q = 2310u128;
    // with the one radix 128: 128 units, 64 of them to the lower half
    let mut covered = 0;
    for v in 0..q {
        if sure(q, 128, 64, 5, v) {
            covered += 1;
            let (mut d, bs) = with_inputs(&[v], q);
            assert_eq!(d.sgn(&bs[0], &[128]).unwrap().val() == 1, v >= q / 2);
        }
    }
    assert_eq!(covered, (1109 - 46 + 1) + (2264 - 1201 + 1));
    assert!(!sure(q, 128, 64, 5, 1154));
    // with the radices 3 and 18 on four primes: 54 units, 27 to the lower half
    let q = 210u128;
    for v in 0..q {
        if sure(q, 54, 3 * 9, 4, v) {
            let (mut d, bs) = with_inputs(&[v], q);
            assert_eq!(d.sgn(&bs[0], &[3, 18]).unwrap().val() == 1, v >= q / 2);
        }
    }
}
