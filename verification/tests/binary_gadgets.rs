use fancy_garbling::{
    BinaryBundle, BinaryGadgets, Bundle, Dummy, DummyVal, Fancy, FancyError, HasModulus,
};

fn bits_of(x: u128, n: usize) -> Vec<u16> {
    (0..n).map(|i| ((x >> i) & 1) as u16).collect()
}

fn value_of(b: &BinaryBundle<DummyVal>) -> u128 {
    let mut v = 0u128;
    for (i, w) in b.wires().iter().enumerate() {
        assert_eq!(w.modulus(), 2);
        v += (w.val() as u128) << i;
    }
    v
}

fn input(d: &mut Dummy, n: usize) -> BinaryBundle<DummyVal> {
    let mut ws = Vec::new();
    for _ in 0..n {
        ws.push(d.garbler_input(2).unwrap());
    }
    BinaryBundle::new(ws)
}

fn two(x: u128, y: u128, n: usize) -> (Dummy, BinaryBundle<DummyVal>, BinaryBundle<DummyVal>) {
    let mut ins = bits_of(x, n);
    ins.extend(bits_of(y, n));
    let mut d = Dummy::new(&ins, &[]);
    let a = input(&mut d, n);
    let b = input(&mut d, n);
    (d, a, b)
}

fn one(x: u128, n: usize) -> (Dummy, BinaryBundle<DummyVal>) {
    let mut d = Dummy::new(&bits_of(x, n), &[]);
    let a = input(&mut d, n);
    (d, a)
}

#[test]
fn bin_addition_is_exact_on_four_bits() {
    for x in 0..16u128 {
        for y in 0..16u128 {
            let (mut d, a, b) = two(x, y, 4);
            let (z, c) = d.bin_addition(&a, &b).unwrap();
            assert_eq!(value_of(&z), (x + y) % 16);
            assert_eq!(c.val() as u128, (x + y) / 16);
            assert_eq!(z.size(), 4);
        }
    }
}

#[test]
fn bin_addition_of_wide_numbers() {
    let x = 0xdead_beef_0123_4567u128;
    let y = 0xffff_ffff_ffff_ffffu128;
    let (mut d, a, b) = two(x, y, 64);
    let (z, c) = d.bin_addition(&a, &b).unwrap();
    assert_eq!(value_of(&z), (x + y) % (1 << 64));
    assert_eq!(c.val(), 1);
}

#[test]
fn bin_addition_of_empty_bundles() {
    let (mut d, a, b) = two(0, 0, 0);
    let (z, c) = d.bin_addition(&a, &b).unwrap();
    assert_eq!(z.size(), 0);
    assert_eq!(c.val(), 0);
    assert_eq!(c.modulus(), 2);
}

#[test]
fn bin_addition_rejects_unequal_widths() {
    let mut d = Dummy::new(&[1, 0, 1], &[]);
    let a = input(&mut d, 2);
    let b = input(&mut d, 1);
    assert_eq!(d.bin_addition(&a, &b).err(), Some(FancyError::UnequalModuli));
    assert_eq!(d.bin_addition_no_carry(&a, &b).err(), Some(FancyError::UnequalModuli));
    assert_eq!(d.bin_subtraction(&a, &b).err(), Some(FancyError::UnequalModuli));
    assert_eq!(d.bin_lt(&a, &b).err(), Some(FancyError::UnequalModuli));
    assert_eq!(d.bin_xor(&a, &b).err(), Some(FancyError::UnequalModuli));
}

#[test]
fn binary_gadgets_reject_other_moduli() {
    let mut d = Dummy::new(&[1, 2], &[]);
    let w0 = d.garbler_input(2).unwrap();
    let w1 = d.garbler_input(3).unwrap();
    let a = BinaryBundle::new(vec![w0, w1]);
    let b = a.duplicate();
    assert_eq!(d.bin_addition(&a, &b).err(), Some(FancyError::UnequalModuli));
    assert_eq!(d.bin_and(&a, &b).err(), Some(FancyError::UnequalModuli));
    assert_eq!(d.bin_or(&a, &b).err(), Some(FancyError::UnequalModuli));
    assert_eq!(d.bin_twos_complement(&a).err(), Some(FancyError::UnequalModuli));
    assert_eq!(d.bin_abs(&a).err(), Some(FancyError::UnequalModuli));
    assert_eq!(d.bin_lshr_constant(&a, 1).err(), Some(FancyError::UnequalModuli));
    assert_eq!(d.bin_cmul(&a, 3, 2).err(), Some(FancyError::UnequalModuli));
    assert_eq!(d.bin_multiplication_lower_half(&a, &b).err(), Some(FancyError::UnequalModuli));
}

#[test]
fn bin_addition_no_carry_is_exact_on_small_widths() {
    for n in 0..5usize {
        let m = 1u128 << n;
        for x in 0..m {
            for y in 0..m {
                let (mut d, a, b) = two(x, y, n);
                let z = d.bin_addition_no_carry(&a, &b).unwrap();
                assert_eq!(z.size(), n);
                assert_eq!(value_of(&z), (x + y) % m);
            }
        }
    }
}

#[test]
fn bin_multiplication_lower_half_is_exact_on_four_bits() {
    for x in 0..16u128 {
        for y in 0..16u128 {
            let (mut d, a, b) = two(x, y, 4);
            let z = d.bin_multiplication_lower_half(&a, &b).unwrap();
            assert_eq!(value_of(&z), (x * y) % 16);
        }
    }
}

#[test]
fn bin_twos_complement_negates() {
    for x in 0..32u128 {
        let (mut d, a) = one(x, 5);
        let z = d.bin_twos_complement(&a).unwrap();
        assert_eq!(value_of(&z), (32 - x) % 32);
    }
}

#[test]
fn bin_subtraction_gives_difference_and_borrow() {
    for x in 0..16u128 {
        for y in 0..16u128 {
            let (mut d, a, b) = two(x, y, 4);
            let (z, c) = d.bin_subtraction(&a, &b).unwrap();
            assert_eq!(value_of(&z), (16 + x - y) % 16);
            assert_eq!(c.val() == 1, y != 0 && x >= y);
        }
    }
}

#[test]
fn bin_abs_of_twos_complement_is_bin_abs() {
    for x in 0..16u128 {
        let (mut d, a) = one(x, 4);
        let direct = d.bin_abs(&a).unwrap();
        let negated = d.bin_twos_complement(&a).unwrap();
        let via = d.bin_abs(&negated).unwrap();
        assert_eq!(value_of(&direct), value_of(&via));
        let expected = if x < 8 { x } else { 16 - x };
        assert_eq!(value_of(&direct), expected);
    }
}

#[test]
fn bin_lt_compares_plain_numbers() {
    for x in 0..16u128 {
        for y in 0..16u128 {
            let (mut d, a, b) = two(x, y, 4);
            let lt = d.bin_lt(&a, &b).unwrap();
            let geq = d.bin_geq(&a, &b).unwrap();
            assert_eq!(lt.val() == 1, x < y);
            assert_eq!(geq.val() == 1, x >= y);
        }
    }
}

#[test]
fn bin_lt_agrees_with_signed_order_on_one_sign() {
    for x in 0..16i64 {
        for y in 0..16i64 {
            if (x < 8) != (y < 8) {
                continue;
            }
            let sx = if x < 8 { x } else { x - 16 };
            let sy = if y < 8 { y } else { y - 16 };
            let (mut d, a, b) = two(x as u128, y as u128, 4);
            let lt = d.bin_lt(&a, &b).unwrap();
            assert_eq!(lt.val() == 1, sx < sy);
        }
    }
}

#[test]
fn bin_max_of_three() {
    // 0101, 1100, 0011: as plain numbers 5, 12 and 3
    let mut ins = bits_of(0b0101, 4);
    ins.extend(bits_of(0b1100, 4));
    ins.extend(bits_of(0b0011, 4));
    let mut d = Dummy::new(&ins, &[]);
    let xs = vec![input(&mut d, 4), input(&mut d, 4), input(&mut d, 4)];
    let m = d.bin_max(&xs).unwrap();
    assert_eq!(value_of(&m), 0b1100);
}

#[test]
fn bin_max_of_non_negative_numbers() {
    // 0101, 0100, 0011: 5, 4 and 3 whichever way they are read
    let mut ins = bits_of(0b0101, 4);
    ins.extend(bits_of(0b0100, 4));
    ins.extend(bits_of(0b0011, 4));
    let mut d = Dummy::new(&ins, &[]);
    let xs = vec![input(&mut d, 4), input(&mut d, 4), input(&mut d, 4)];
    let m = d.bin_max(&xs).unwrap();
    assert_eq!(value_of(&m), 0b0101);
}

#[test]
fn bin_max_needs_two_bundles() {
    let mut d = Dummy::new(&[1, 0], &[]);
    let xs = vec![input(&mut d, 2)];
    assert_eq!(d.bin_max(&xs).err(), Some(FancyError::InvalidArgNum { got: 1, needed: 2 }));
    let none: Vec<BinaryBundle<DummyVal>> = Vec::new();
    assert_eq!(d.bin_max(&none).err(), Some(FancyError::InvalidArgNum { got: 0, needed: 2 }));
}

#[test]
fn bin_lshr_constant_shifts_down() {
    for x in 0..32u128 {
        for c in 0..8usize {
            let (mut d, a) = one(x, 5);
            let z = d.bin_lshr_constant(&a, c).unwrap();
            assert_eq!(z.size(), 5);
            assert_eq!(value_of(&z), x >> c);
        }
    }
}

#[test]
fn bin_logical_shr_shifts_by_a_bundle() {
    for x in 0..32u128 {
        for y in 0..8u128 {
            let mut ins = bits_of(x, 5);
            ins.extend(bits_of(y, 3));
            let mut d = Dummy::new(&ins, &[]);
            let a = input(&mut d, 5);
            let b = input(&mut d, 3);
            let z = d.bin_logical_shr(&a, &b).unwrap();
            assert_eq!(value_of(&z), x >> y);
        }
    }
}

#[test]
fn bin_cmul_multiplies_by_a_constant() {
    for x in 0..16u128 {
        for c in 0..20u128 {
            let (mut d, a) = one(x, 4);
            let z = d.bin_cmul(&a, c, 4).unwrap();
            assert_eq!(value_of(&z), (x * c) % 16);
        }
    }
    let (mut d, a) = one(3, 4);
    assert_eq!(d.bin_cmul(&a, 7, 5).err(), Some(FancyError::UnequalModuli));
}

#[test]
fn bin_constant_bundle_spells_the_constant() {
    let mut d = Dummy::new(&[], &[]);
    let b = d.bin_constant_bundle(0b1011_0110, 6).unwrap();
    assert_eq!(b.size(), 6);
    assert_eq!(value_of(&b), 0b11_0110);
    let wide = d.bin_constant_bundle(5, 130).unwrap();
    assert_eq!(wide.size(), 130);
    assert_eq!(wide.wires()[0].val(), 1);
    assert_eq!(wide.wires()[2].val(), 1);
    assert_eq!(wide.wires()[129].val(), 0);
}

#[test]
fn bin_multiplex_constant_bits_selects() {
    for s in 0..2u16 {
        let mut d = Dummy::new(&[s], &[]);
        let x = d.garbler_input(2).unwrap();
        let z = d.bin_multiplex_constant_bits(&x, 0b1010, 0b0111, 4).unwrap();
        assert_eq!(value_of(&z), if s == 0 { 0b1010 } else { 0b0111 });
    }
}

#[test]
fn bin_bitwise_gadgets() {
    for x in 0..8u128 {
        for y in 0..8u128 {
            let (mut d, a, b) = two(x, y, 3);
            assert_eq!(value_of(&d.bin_xor(&a, &b).unwrap()), x ^ y);
            assert_eq!(value_of(&d.bin_and(&a, &b).unwrap()), x & y);
            assert_eq!(value_of(&d.bin_or(&a, &b).unwrap()), x | y);
        }
    }
}

#[test]
fn bin_mux_many_picks_the_indexed_wire() {
    let table = [1u16, 0, 0, 1, 1, 0];
    for ix in 0..8u128 {
        let mut ins = bits_of(ix, 3);
        ins.extend(table.iter());
        let mut d = Dummy::new(&ins, &[]);
        let index = input(&mut d, 3);
        let xs = input(&mut d, table.len());
        let w = d.bin_mux_many(&index, xs.wires()).unwrap();
        let expected = if (ix as usize) < table.len() { table[ix as usize] } else { 0 };
        assert_eq!(w.val(), expected);
    }
}

#[test]
fn binary_bundle_keeps_its_wires() {
    let (_, a) = one(0b101, 3);
    let b = a.duplicate();
    let inner = a.extract();
    assert_eq!(inner.size(), 3);
    assert_eq!(inner.moduli(), vec![2, 2, 2]);
    assert_eq!(value_of(&b), 0b101);
}

#[test]
fn a_bundle_becomes_a_binary_bundle() {
    let mut d = Dummy::new(&[1, 0, 1], &[]);
    let ws: Vec<DummyVal> = (0..3).map(|_| d.garbler_input(2).unwrap()).collect();
    let b: BinaryBundle<DummyVal> = BinaryBundle::from(Bundle::new(ws));
    assert_eq!(value_of(&b), 0b101);
    // the methods of the bundle are at hand
    assert_eq!(b.moduli(), vec![2, 2, 2]);
    let inner: &Bundle<DummyVal> = &b;
    assert_eq!(inner.size(), 3);
    assert_eq!(b.as_bundle().size(), 3);
}

#[test]
fn a_binary_bundle_clones() {
    let (_, a) = one(0b110, 3);
    let b = a.clone();
    assert_eq!(value_of(&b), 0b110);
    assert_eq!(value_of(&a), 0b110);
}

#[test]
fn rejected_operands_make_no_gate() {
    let mut inf = fancy_garbling::Informer::new();
    let ws: Vec<fancy_garbling::InformerVal> = (0..3).map(|_| inf.garbler_input(2).unwrap()).collect();
    let a = BinaryBundle::new(ws);
    let vs: Vec<fancy_garbling::InformerVal> = (0..2).map(|_| inf.garbler_input(2).unwrap()).collect();
    let b = BinaryBundle::new(vs);
    assert_eq!(inf.bin_addition(&a, &b).err(), Some(FancyError::UnequalModuli));
    assert_eq!(inf.bin_addition_no_carry(&a, &b).err(), Some(FancyError::UnequalModuli));
    assert_eq!(inf.bin_multiplication_lower_half(&a, &b).err(), Some(FancyError::UnequalModuli));
    assert_eq!(inf.bin_max(&[a]).err(), Some(FancyError::InvalidArgNum { got: 1, needed: 2 }));
    assert_eq!(inf.num_adds(), 0);
    assert_eq!(inf.num_muls(), 0);
    assert_eq!(inf.num_consts(), 0);
    assert_eq!(inf.num_ciphertexts(), 0);
}
