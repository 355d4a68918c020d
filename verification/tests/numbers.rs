use fancy_garbling::util::{
    as_base_q, as_mixed_radix, crt, crt_factor, crt_inv, crt_inv_factor, factor, inverse,
    modulus_with_nprimes, modulus_with_width, product_of, u128_to_bits, NPRIMES, PRIMES,
};
use fancy_garbling::FancyError;

#[test]
fn bits_of_a_number() {
    assert_eq!(u128_to_bits(0b1011, 4), vec![1, 1, 0, 1]);
    assert_eq!(u128_to_bits(0b1011, 2), vec![1, 1]);
    assert_eq!(u128_to_bits(5, 6), vec![1, 0, 1, 0, 0, 0]);
    assert_eq!(u128_to_bits(7, 0), Vec::<u16>::new());
    let all = u128_to_bits(u128::MAX, 130);
    assert_eq!(all.len(), 130);
    assert_eq!(all[127], 1);
    assert_eq!(all[128], 0);
}

#[test]
fn the_table_of_primes() {
    assert_eq!(NPRIMES, 29);
    assert_eq!(PRIMES.len(), 29);
    assert_eq!(PRIMES[0], 2);
    assert_eq!(PRIMES[28], 109);
    for (i, &p) in PRIMES.iter().enumerate() {
        assert!((2..p).all(|d| p % d != 0));
        if i > 0 {
            assert!(PRIMES[i - 1] < p);
        }
    }
}

#[test]
fn moduli_by_width_and_by_number_of_primes() {
    assert_eq!(modulus_with_width(10), Some(2310));
    assert_eq!(modulus_with_width(0), Some(2));
    assert_eq!(modulus_with_width(1), Some(2));
    assert_eq!(modulus_with_width(2), Some(6));
    assert_eq!(modulus_with_width(5), Some(210));
    assert_eq!(modulus_with_width(200), None);
    assert_eq!(modulus_with_nprimes(0), Some(1));
    assert_eq!(modulus_with_nprimes(1), Some(2));
    assert_eq!(modulus_with_nprimes(5), Some(2310));
    assert_eq!(modulus_with_nprimes(8), Some(9699690));
    assert_eq!(modulus_with_nprimes(30), None);
    assert_eq!(modulus_with_nprimes(29), None);
    let q = modulus_with_width(100).unwrap();
    assert!(q >= 1u128 << 100);
}

#[test]
fn factoring_a_product_of_table_primes() {
    assert_eq!(factor(2310), Some(vec![2, 3, 5, 7, 11]));
    assert_eq!(factor(3 * 7 * 109), Some(vec![3, 7, 109]));
    assert_eq!(factor(1), Some(vec![]));
    assert_eq!(factor(4), None);
    assert_eq!(factor(0), None);
    assert_eq!(factor(2 * 113), None);
    assert_eq!(factor(127), None);
}

#[test]
fn products_and_inverses() {
    assert_eq!(product_of(&[2, 3, 5]), Some(30));
    assert_eq!(product_of(&[]), Some(1));
    assert_eq!(product_of(&[7, 0, 9]), Some(0));
    assert_eq!(product_of(&[65535; 9]), None);
    assert_eq!(product_of(&[65535, 65535, 65535, 65535, 65535, 65535, 65535, 65535, 65535, 0]), Some(0));
    assert_eq!(inverse(3, 7), Some(5));
    assert_eq!(inverse(1, 2), Some(1));
    assert_eq!(inverse(2, 4), None);
    assert_eq!(inverse(0, 5), None);
    assert_eq!(inverse(10, 7), Some(5));
}

#[test]
fn residues_and_back() {
    let q = 2310u128;
    for x in 0..q {
        let rs = crt_factor(x, q).unwrap();
        assert_eq!(rs.len(), 5);
        assert_eq!(rs[4] as u128, x % 11);
        assert_eq!(crt_inv_factor(&rs, q), Ok(x));
    }
    let big = modulus_with_nprimes(20).unwrap();
    for x in [0, 1, big / 2, big - 1, 123456789012345678901234567u128 % big] {
        let rs = crt_factor(x, big).unwrap();
        assert_eq!(crt_inv_factor(&rs, big), Ok(x));
    }
}

#[test]
fn residues_with_moduli_of_choice() {
    assert_eq!(crt(100, &[3, 7, 10]), vec![1, 2, 0]);
    assert_eq!(crt_inv(&[1, 2, 0], &[3, 7, 10]), Some(100));
    assert_eq!(crt_inv(&[1, 2], &[4, 6]), None);
    assert_eq!(crt_inv(&[3], &[3]), None);
    assert_eq!(crt_inv(&[1, 2], &[3]), None);
    assert_eq!(crt_inv(&[], &[]), Some(0));
}

#[test]
fn residue_errors() {
    assert_eq!(crt_factor(2310, 2310), Err(FancyError::InvalidInput));
    assert_eq!(crt_factor(1, 12), Err(FancyError::InvalidInput));
    assert_eq!(crt_inv_factor(&[0, 0], 2310), Err(FancyError::InvalidInput));
    assert_eq!(crt_inv_factor(&[2, 0, 0, 0, 0], 2310), Err(FancyError::InvalidInput));
    assert_eq!(crt_inv_factor(&[0, 0], 12), Err(FancyError::InvalidInput));
}

#[test]
fn digits_in_mixed_radix() {
    assert_eq!(as_mixed_radix(0, &[3, 4, 54]), vec![0, 0, 0]);
    assert_eq!(as_mixed_radix(5, &[3, 4, 54]), vec![2, 1, 0]);
    assert_eq!(as_mixed_radix(3 * 4 * 7 + 11, &[3, 4, 54]), vec![2, 3, 7]);
    assert_eq!(as_mixed_radix(3 * 4 * 54 + 1, &[3, 4, 54]), vec![1, 0, 0]);
}

#[test]
fn digits_in_one_base() {
    assert_eq!(as_base_q(0, 3, 4), vec![0, 0, 0, 0]);
    assert_eq!(as_base_q(5, 3, 4), vec![2, 1, 0, 0]);
    assert_eq!(as_base_q(80, 3, 4), vec![2, 2, 2, 2]);
    assert_eq!(as_base_q(81, 3, 4), vec![0, 0, 0, 0]);
    assert_eq!(as_base_q(0b1011, 2, 4), u128_to_bits(0b1011, 4));
    assert_eq!(as_base_q(u128::MAX, 65535, 9).len(), 9);
    assert_eq!(as_base_q(u128::MAX, 65535, 9)[8], 1);
    assert_eq!(as_base_q(u128::MAX, 65535, 10)[9], 0);
    assert_eq!(as_base_q(7, 10, 0), Vec::<u16>::new());
}

#[test]
fn errors_have_names() {
    assert_eq!(FancyError::UnequalModuli.kind(), "unequal moduli");
    assert_eq!(FancyError::InvalidArgNum { got: 1, needed: 2 }.kind(), "invalid number of arguments");
    assert_eq!(FancyError::InvalidTruthTable.kind(), "invalid truth table");
    assert_eq!(FancyError::InvalidInput.kind(), "invalid input");
    assert_eq!(FancyError::BackendError.kind(), "backend error");
    assert_ne!(FancyError::InvalidArgNum { got: 1, needed: 2 }, FancyError::InvalidArgNum { got: 0, needed: 2 });
}
