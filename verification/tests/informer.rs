use fancy_garbling::fancy::Fancy;
use fancy_garbling::informer::Informer;
use fancy_garbling::wire::HasModulus;

fn check_send(_: impl Send) {}

fn check_sync(_: impl Sync) {}

#[test]
fn informer_has_send_and_sync() {
    check_send(Informer::new());
    check_sync(Informer::new());
}

#[test]
fn informer_counts_proj_and_mul() {
    let mut inf = Informer::new();
    let x = inf.garbler_input(7).unwrap();
    let a = inf.garbler_input(5).unwrap();
    let b = inf.evaluator_input(5).unwrap();
    let tt = vec![0u16, 1, 0, 1, 0, 1, 0];
    let y = inf.proj(&x, 2, &tt).unwrap();
    assert_eq!(y.modulus(), 2);
    let z = inf.mul(&a, &b).unwrap();
    assert_eq!(z.modulus(), 5);
    assert_eq!(inf.num_projs(), 1);
    assert_eq!(inf.num_muls(), 1);
    assert_eq!(inf.num_ciphertexts(), 14);
}
