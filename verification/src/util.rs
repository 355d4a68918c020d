//! Numeric helpers: bit decomposition of integers.

use vstd::prelude::*;
use vstd::arithmetic::power2::{
    pow2,
    lemma_pow2_pos,
    lemma_pow2_unfold,
    lemma_pow2_strictly_increases,
};
use vstd::arithmetic::div_mod::lemma_div_denominator;
use crate::bits::bit_of;
use vstd::arithmetic::div_mod::{
    lemma_small_mod,
    lemma_mul_mod_noop_left,
    lemma_mul_mod_noop_right,
    lemma_mod_multiples_vanish,
    lemma_add_mod_noop,
    lemma_sub_mod_noop,
    lemma_fundamental_div_mod,
    lemma_mod_add_multiples_vanish,
};
use crate::error::FancyError;
use crate::mixed_radix::{weight, digit_of};
use crate::number_theory::{
    nats,
    is_prime,
    is_inverse,
    invertible,
    product,
    distinct_primes,
    has_residues,
    lemma_small_prime,
    lemma_product_take,
    lemma_product_divisible,
    lemma_product_positive,
    lemma_prime_not_in_product,
    lemma_prime_invertible,
    lemma_crt_unique,
};

verus! {

/// The `n` low bits of `x`, least significant first. Bits beyond the width of
/// `x` are zero.
pub fn u128_to_bits(x: u128, n: usize) -> (bits: Vec<u16>)
    ensures
        bits@.len() == n,
        forall|i: int| 0 <= i < n ==> (#[trigger] bits@[i]) == bit_of(x as nat, i as nat),
{
    let mut bits: Vec<u16> = Vec::new();
    let mut y: u128 = x;
    let mut k: usize = 0;
    proof {
        assert(pow2(0) == 1) by {
            vstd::arithmetic::power2::lemma2_to64();
        }
    }
    while k < n
        invariant
            k <= n,
            bits@.len() == k,
            y == x as nat / pow2(k as nat),
            forall|i: int| 0 <= i < k ==> (#[trigger] bits@[i]) == bit_of(x as nat, i as nat),
        decreases n - k,
    {
        let b: u128 = y % 2;
        bits.push(b as u16);
        proof {
            lemma_pow2_pos(k as nat);
            lemma_pow2_unfold((k + 1) as nat);
            lemma_div_denominator(x as int, pow2(k as nat) as int, 2);
            assert(pow2(k as nat) * 2 == 2 * pow2(k as nat));
        }
        y = y / 2;
        k += 1;
    }
    bits
}

} // verus!

verus! {

/// The number of primes in the table.
pub const NPRIMES: usize = 29;

/// The table of primes: the first 29.
pub const PRIMES: [u16; 29] = [
    2, 3, 5, 7, 11, 13, 17, 19, 23, 29, 31, 37, 41, 43, 47, 53, 59, 61, 67, 71, 73, 79, 83, 89, 97,
    101, 103, 107, 109,
];

/// The table of primes, as numbers.
pub open spec fn primes_table() -> Seq<nat> {
    nats(PRIMES@)
}

/// The table holds primes in ascending order.
pub proof fn lemma_primes_table()
    ensures
        primes_table().len() == 29,
        forall|i: int| 0 <= i < 29 ==> is_prime(#[trigger] primes_table()[i]),
        forall|i: int, j: int|
            0 <= i < j < 29 ==> #[trigger] primes_table()[i] < #[trigger] primes_table()[j],
{
    let t = primes_table();
    assert(t.len() == 29);
    assert forall|i: int| 0 <= i < 29 implies is_prime(#[trigger] t[i]) by {
        lemma_small_prime(t[i]);
    }
}

} // verus!

verus! {

/// The product of the first `k` primes of the table.
pub open spec fn primorial(k: nat) -> nat {
    product(primes_table().take(k as int))
}

/// The primes of `table` that divide `q`, in the order of the table.
pub open spec fn divisors_among(q: nat, table: Seq<nat>) -> Seq<nat>
    decreases table.len(),
{
    if table.len() == 0 {
        Seq::empty()
    } else {
        let rest = divisors_among(q, table.drop_last());
        if q % table.last() == 0 {
            rest.push(table.last())
        } else {
            rest
        }
    }
}

/// The primes of the table that divide `q`, in ascending order.
pub open spec fn table_divisors(q: nat) -> Seq<nat> {
    divisors_among(q, primes_table())
}

/// `q` is the product of distinct primes of the table: a modulus that a
/// residue representation can have.
pub open spec fn factorable(q: nat) -> bool {
    product(table_divisors(q)) == q
}

/// The residues can be turned back into a number: one residue for each
/// modulus and below it, the product of the moduli fits, and each modulus
/// has an inverse of the product of those before it.
pub open spec fn crt_inv_ok(xs: Seq<nat>, ps: Seq<nat>) -> bool {
    &&& xs.len() == ps.len()
    &&& product(ps) <= u128::MAX
    &&& forall|i: int| 0 <= i < ps.len() ==> #[trigger] xs[i] < ps[i]
    &&& forall|i: int| 0 <= i < ps.len() ==> invertible(product(ps.take(i)), #[trigger] ps[i])
}

/// The primes among an ascending list of primes that divide `q` are
/// themselves an ascending list of primes, none above the last of the list.
pub proof fn lemma_divisors_among(q: nat, table: Seq<nat>)
    requires
        forall|i: int| 0 <= i < table.len() ==> is_prime(#[trigger] table[i]),
        forall|i: int, j: int| 0 <= i < j < table.len() ==> #[trigger] table[i] < #[trigger] table[j],
    ensures
        distinct_primes(divisors_among(q, table)),
        forall|i: int, j: int|
            0 <= i < j < divisors_among(q, table).len() ==> #[trigger] divisors_among(q, table)[i]
                < #[trigger] divisors_among(q, table)[j],
        forall|i: int|
            0 <= i < divisors_among(q, table).len() ==> table.len() > 0 && #[trigger] divisors_among(
                q,
                table,
            )[i] <= table.last(),
    decreases table.len(),
{
    if table.len() > 0 {
        let head = table.drop_last();
        let last = table[table.len() - 1];
        assert forall|i: int| 0 <= i < head.len() implies is_prime(#[trigger] head[i]) by {
            assert(head[i] == table[i]);
        }
        assert forall|i: int, j: int| 0 <= i < j < head.len() implies #[trigger] head[i]
            < #[trigger] head[j] by {
            assert(head[i] == table[i] && head[j] == table[j]);
        }
        lemma_divisors_among(q, head);
        let rest = divisors_among(q, head);
        let all = divisors_among(q, table);
        assert(is_prime(last));
        assert forall|i: int| 0 <= i < rest.len() implies #[trigger] rest[i] < last by {
            assert(rest[i] <= head.last());
            assert(head[head.len() - 1] == table[head.len() - 1]);
            assert(table[head.len() - 1] < table[table.len() - 1]);
        }
        assert forall|i: int| 0 <= i < all.len() implies is_prime(#[trigger] all[i]) by {
            if i < rest.len() {
                assert(all[i] == rest[i]);
                assert(is_prime(rest[i]));
            }
        }
        assert forall|i: int, j: int| 0 <= i < j < all.len() implies #[trigger] all[i]
            < #[trigger] all[j] by {
            assert(all[i] == rest[i]);
            if j < rest.len() {
                assert(all[j] == rest[j]);
            }
        }
    }
}

/// The primes of the table that divide a number are distinct primes.
pub proof fn lemma_table_divisors(q: nat)
    ensures
        distinct_primes(table_divisors(q)),
{
    lemma_primes_table();
    lemma_divisors_among(q, primes_table());
}

/// Distinct primes whose product fits can carry a residue representation:
/// whatever the residues, as long as each lies below its prime, they can be
/// turned back into a number.
pub proof fn lemma_crt_inv_ok(xs: Seq<nat>, ps: Seq<nat>)
    requires
        distinct_primes(ps),
        xs.len() == ps.len(),
        product(ps) <= u128::MAX,
        forall|i: int| 0 <= i < ps.len() ==> #[trigger] xs[i] < ps[i],
    ensures
        crt_inv_ok(xs, ps),
{
    assert forall|i: int| 0 <= i < ps.len() implies invertible(
        product(ps.take(i)),
        #[trigger] ps[i],
    ) by {
        let head = ps.take(i);
        let p = ps[i];
        assert(is_prime(p));
        assert forall|j: int| 0 <= j < head.len() implies is_prime(#[trigger] head[j]) && head[j]
            != p by {
            assert(head[j] == ps[j]);
            assert(is_prime(ps[j]));
        }
        lemma_prime_not_in_product(p, head);
        lemma_prime_invertible(p, product(head));
    }
}

/// The product of the numbers, or `None` where it does not fit.
pub fn product_of(ps: &[u16]) -> (r: Option<u128>)
    ensures
        match r {
            Some(q) => q == product(nats(ps@)),
            None => product(nats(ps@)) > u128::MAX,
        },
{
    let ghost s = nats(ps@);
    let mut acc: Option<u128> = Some(1);
    let mut i: usize = 0;
    while i < ps.len()
        invariant
            i <= ps@.len(),
            s == nats(ps@),
            match acc {
                Some(q) => q == product(s.take(i as int)),
                None => product(s.take(i as int)) > u128::MAX && forall|j: int|
                    i <= j < s.len() ==> #[trigger] s[j] > 0,
            },
        decreases ps@.len() - i,
    {
        proof {
            lemma_product_take(s, i as int);
        }
        let p = ps[i];
        let ghost before = product(s.take(i as int));
        if p == 0 {
            // a zero among the factors decides the product
            proof {
                lemma_product_zero(s, i as int);
            }
            return Some(0);
        }
        acc = match acc {
            Some(q) => q.checked_mul(p as u128),
            None => None,
        };
        proof {
            if acc is None {
                assert(before * p > u128::MAX) by (nonlinear_arith)
                    requires
                        before > u128::MAX || before * p > u128::MAX,
                        p >= 1,
                        before >= 0,
                ;
            }
        }
        if acc.is_none() {
            // no later factor can bring the product back, unless it is zero
            let mut j: usize = i + 1;
            while j < ps.len()
                invariant
                    i < j <= ps@.len(),
                    s == nats(ps@),
                    forall|k: int| i < k < j ==> #[trigger] s[k] > 0,
                decreases ps@.len() - j,
            {
                if ps[j] == 0 {
                    proof {
                        lemma_product_zero(s, j as int);
                    }
                    return Some(0);
                }
                j += 1;
            }
            proof {
                assert(s[i as int] > 0);
                lemma_product_grows(s, i + 1);
            }
            return None;
        }
        i += 1;
    }
    proof {
        assert(s.take(ps@.len() as int) =~= s);
    }
    acc
}

/// A product with a zero among its factors is zero.
pub proof fn lemma_product_zero(s: Seq<nat>, i: int)
    requires
        0 <= i < s.len(),
        s[i] == 0,
    ensures
        product(s) == 0,
    decreases s.len(),
{
    let rest = product(s.drop_last());
    if i == s.len() - 1 {
        assert(rest * 0 == 0);
    } else {
        lemma_product_zero(s.drop_last(), i);
        assert(0 * s.last() == 0);
    }
}

/// Positive factors after the first `k` do not make the product smaller.
pub proof fn lemma_product_grows(s: Seq<nat>, k: int)
    requires
        0 <= k <= s.len(),
        forall|j: int| k <= j < s.len() ==> #[trigger] s[j] > 0,
    ensures
        product(s.take(k)) <= product(s),
    decreases s.len() - k,
{
    if k == s.len() {
        assert(s.take(k) =~= s);
    } else {
        lemma_product_take(s, k);
        lemma_product_grows(s, k + 1);
        let a = product(s.take(k));
        let b = s[k];
        assert(a <= a * b) by (nonlinear_arith)
            requires
                b >= 1,
                a >= 0,
        ;
    }
}

/// The residues of `x` modulo each of `ps`.
pub fn crt(x: u128, ps: &[u16]) -> (rs: Vec<u16>)
    requires
        forall|i: int| 0 <= i < ps@.len() ==> ps@[i] > 0,
    ensures
        has_residues(x as nat, nats(rs@), nats(ps@)),
{
    let mut rs: Vec<u16> = Vec::new();
    let mut i: usize = 0;
    while i < ps.len()
        invariant
            i <= ps@.len(),
            forall|j: int| 0 <= j < ps@.len() ==> ps@[j] > 0,
            rs@.len() == i,
            forall|j: int| 0 <= j < i ==> #[trigger] rs@[j] == x as nat % (ps@[j] as nat),
        decreases ps@.len() - i,
    {
        let r = x % (ps[i] as u128);
        rs.push(r as u16);
        i += 1;
    }
    assert forall|j: int| 0 <= j < nats(ps@).len() implies #[trigger] nats(rs@)[j] == x as nat % nats(
        ps@,
    )[j] by {
        assert(rs@[j] == x as nat % (ps@[j] as nat));
    }
    rs
}

/// The inverse of `a` modulo `p`, if it has one.
pub fn inverse(a: u16, p: u16) -> (r: Option<u16>)
    ensures
        match r {
            Some(u) => is_inverse(a as nat, u as nat, p as nat),
            None => !invertible(a as nat, p as nat),
        },
{
    let mut u: u16 = 1;
    while u < p
        invariant
            1 <= u,
            forall|v: nat| 0 < v < u ==> !#[trigger] is_inverse(a as nat, v, p as nat),
        decreases (if u < p { p - u } else { 0 }),
    {
        assert(a as int * u as int <= 0xffff * 0xffff) by (nonlinear_arith)
            requires
                a <= 0xffff,
                u <= 0xffff,
        ;
        if (a as u32 * u as u32) % (p as u32) == 1 {
            return Some(u);
        }
        u += 1;
    }
    None
}

/// One step of the reconstruction: where `acc` has the wanted residues
/// modulo the primes so far, whose product is `m`, and `t` is the wanted
/// distance to the residue `a` modulo `p`, times the inverse `inv` of `m`,
/// then `acc + t * m` has the residue `a` modulo `p`.
proof fn lemma_garner_step(acc: nat, m: nat, p: nat, a: nat, inv: nat, t: nat)
    requires
        p > 0,
        a < p,
        is_inverse(m % p, inv, p),
        t == (((a + p - acc % p) % (p as int)) * inv) % (p as int),
    ensures
        (acc + t * m) % p == a,
{
    let pi = p as int;
    let d = (a + p - acc % p) % (p as int);
    // m * inv is 1 modulo p
    lemma_mul_mod_noop_left(m as int, inv as int, pi);
    assert((m * inv) % p == 1);
    // t * m is d modulo p
    lemma_mul_mod_noop_left(d * inv, m as int, pi);
    assert((t * m) % p == ((d * inv) * m) % pi);
    assert((d * inv) * m == d * (m * inv)) by (nonlinear_arith);
    lemma_mul_mod_noop_right(d, (m * inv) as int, pi);
    assert(d * 1 == d);
    lemma_small_mod(d as nat, p);
    assert((t * m) % p == d);
    // d is a - acc modulo p
    lemma_mod_add_multiples_vanish(a - acc % p, pi);
    assert(d == (a - acc % p) % pi);
    lemma_add_mod_noop(acc as int, (t * m) as int, pi);
    lemma_sub_mod_noop(a as int, (acc % p) as int, pi);
    lemma_add_mod_noop((acc % p) as int, a - acc % p, pi);
    lemma_small_mod(a, p);
    lemma_small_mod(acc % p, p);
}

/// The number below the product of `ps` whose residues are `xs`, built up
/// one modulus at a time. `None` where there is not one residue for each
/// modulus, a residue does not lie below its modulus, the product does not
/// fit, or a modulus shares a factor with one before it.
pub fn crt_inv(xs: &[u16], ps: &[u16]) -> (r: Option<u128>)
    ensures
        match r {
            Some(x) => {
                &&& crt_inv_ok(nats(xs@), nats(ps@))
                &&& x < product(nats(ps@))
                &&& has_residues(x as nat, nats(xs@), nats(ps@))
            },
            None => !crt_inv_ok(nats(xs@), nats(ps@)),
        },
        forall|x: nat|
            distinct_primes(nats(ps@)) && product(nats(ps@)) <= u128::MAX && x < product(
                nats(ps@),
            ) && #[trigger] has_residues(x, nats(xs@), nats(ps@)) ==> r == Some(x as u128),
{
    let r = garner(xs, ps);
    proof {
        let rs = nats(xs@);
        let qs = nats(ps@);
        assert forall|x: nat|
            distinct_primes(qs) && product(qs) <= u128::MAX && x < product(qs)
                && #[trigger] has_residues(x, rs, qs) implies r == Some(x as u128) by {
            assert forall|j: int| 0 <= j < qs.len() implies #[trigger] rs[j] < qs[j] by {
                assert(is_prime(qs[j]));
                assert(rs[j] == x % qs[j]);
            }
            lemma_crt_inv_ok(rs, qs);
            let y = r->Some_0;
            assert forall|j: int| 0 <= j < qs.len() implies x % #[trigger] qs[j] == y as nat
                % qs[j] by {
                assert(rs[j] == x % qs[j]);
                assert(rs[j] == y as nat % qs[j]);
            }
            lemma_crt_unique(x, y as nat, qs);
        }
    }
    r
}

/// Adding a multiple of `m` changes no residue modulo a divisor of `m`.
proof fn lemma_garner_keeps(acc: nat, m: nat, t: nat, pj: nat)
    requires
        pj > 0,
        m % pj == 0,
    ensures
        (acc + t * m) % pj == acc % pj,
{
    let c = m / pj;
    lemma_fundamental_div_mod(m as int, pj as int);
    assert(t * m == pj * (t * c)) by (nonlinear_arith)
        requires
            m == pj * c,
    ;
    lemma_mod_multiples_vanish((t * c) as int, acc as int, pj as int);
}

/// The bounds that one round of the reconstruction keeps.
proof fn lemma_garner_bounds(acc: nat, m: nat, p: nat, t: nat)
    by (nonlinear_arith)
    requires
        acc < m,
        t < p,
        m >= 1,
    ensures
        acc + t * m < m * p,
        t * m >= 0,
        m * p >= 1,
{
}

/// What one round of the reconstruction keeps and gains.
#[verifier::rlimit(50)]
#[verifier::spinoff_prover]
proof fn lemma_garner_extend(rs: Seq<nat>, qs: Seq<nat>, i: int, acc: nat, m: nat, inv: nat, t: nat)
    requires
        0 <= i < qs.len(),
        rs.len() == qs.len(),
        m == product(qs.take(i)),
        m >= 1,
        acc < m,
        rs[i] < qs[i],
        is_inverse(m % qs[i], inv, qs[i]),
        t == (((rs[i] + qs[i] - acc % qs[i]) % (qs[i] as int)) * inv) % (qs[i] as int),
        forall|j: int| 0 <= j < i ==> #[trigger] rs[j] < qs[j],
        forall|j: int| 0 <= j < i ==> invertible(product(qs.take(j)), #[trigger] qs[j]),
        forall|j: int| 0 <= j < i ==> #[trigger] rs[j] == acc % qs[j],
    ensures
        m * qs[i] == product(qs.take(i + 1)),
        m * qs[i] >= 1,
        t * m >= 0,
        acc + t * m < m * qs[i],
        forall|j: int| 0 <= j < i + 1 ==> #[trigger] rs[j] < qs[j],
        forall|j: int| 0 <= j < i + 1 ==> invertible(product(qs.take(j)), #[trigger] qs[j]),
        forall|j: int| 0 <= j < i + 1 ==> #[trigger] rs[j] == (acc + t * m) % qs[j],
{
    let p = qs[i];
    let next = acc + t * m;
    assert(m * p == product(qs.take(i + 1))) by {
        lemma_product_take(qs, i);
    }
    assert(next % p == rs[i]) by {
        lemma_garner_step(acc, m, p, rs[i], inv, t);
    }
    assert(t < p);
    lemma_garner_bounds(acc, m, p, t);
    assert(is_inverse(m, inv, p)) by {
        lemma_mul_mod_noop_left(m as int, inv as int, p as int);
    }
    assert(invertible(product(qs.take(i)), qs[i]));
    assert forall|j: int| 0 <= j < i + 1 implies #[trigger] rs[j] == next % qs[j] by {
        if j < i {
            let pj = qs[j];
            assert(rs[j] < pj);
            assert(rs[j] == acc % pj);
            assert(m % pj == 0) by {
                assert(qs.take(i)[j] == pj);
                lemma_product_divisible(qs.take(i), j);
            }
            lemma_garner_keeps(acc, m, t, pj);
        }
    }
    assert forall|j: int| 0 <= j < i + 1 implies invertible(
        product(qs.take(j)),
        #[trigger] qs[j],
    ) by {
        if j == i {
            assert(invertible(product(qs.take(i)), qs[i]));
        }
    }
}

/// The reconstruction itself.
#[verifier::rlimit(40)]
fn garner(xs: &[u16], ps: &[u16]) -> (r: Option<u128>)
    ensures
        match r {
            Some(x) => {
                &&& crt_inv_ok(nats(xs@), nats(ps@))
                &&& x < product(nats(ps@))
                &&& has_residues(x as nat, nats(xs@), nats(ps@))
            },
            None => !crt_inv_ok(nats(xs@), nats(ps@)),
        },
{
    let ghost rs = nats(xs@);
    let ghost qs = nats(ps@);
    if xs.len() != ps.len() {
        return None;
    }
    let n = ps.len();
    let mut acc: u128 = 0;
    let mut m: u128 = 1;
    let mut i: usize = 0;
    while i < n
        invariant
            i <= n,
            n == ps@.len(),
            n == xs@.len(),
            rs == nats(xs@),
            qs == nats(ps@),
            m == product(qs.take(i as int)),
            m >= 1,
            acc < m,
            forall|j: int| 0 <= j < i ==> #[trigger] rs[j] < qs[j],
            forall|j: int| 0 <= j < i ==> invertible(product(qs.take(j)), #[trigger] qs[j]),
            forall|j: int| 0 <= j < i ==> #[trigger] rs[j] == acc as nat % qs[j],
        decreases n - i,
    {
        let p = ps[i];
        let a = xs[i];
        proof {
            lemma_product_take(qs, i as int);
            assert(qs[i as int] == p && rs[i as int] == a);
        }
        if a >= p {
            return None;
        }
        let mp: u16 = (m % (p as u128)) as u16;
        let inv = match inverse(mp, p) {
            Some(u) => u,
            None => {
                proof {
                    if invertible(m as nat, p as nat) {
                        let u = choose|u: nat| is_inverse(m as nat, u, p as nat);
                        lemma_mul_mod_noop_left(m as int, u as int, p as int);
                        assert(is_inverse(mp as nat, u, p as nat));
                    }
                    assert(!invertible(product(qs.take(i as int)), qs[i as int]));
                }
                return None;
            },
        };
        let next = match m.checked_mul(p as u128) {
            Some(v) => v,
            None => {
                proof {
                    if crt_inv_ok(rs, qs) {
                        assert forall|j: int| i + 1 <= j < qs.len() implies #[trigger] qs[j]
                            > 0 by {
                            assert(rs[j] < qs[j]);
                        }
                        lemma_product_grows(qs, i + 1);
                    }
                }
                return None;
            },
        };
        let d: u32 = (a as u32 + p as u32 - (acc % (p as u128)) as u32) % (p as u32);
        assert(d as int * inv as int <= 0xffff * 0xffff) by (nonlinear_arith)
            requires
                d <= 0xffff,
                inv <= 0xffff,
        ;
        let t: u32 = (d * inv as u32) % (p as u32);
        proof {
            lemma_garner_extend(rs, qs, i as int, acc as nat, m as nat, inv as nat, t as nat);
        }
        acc = acc + (t as u128) * m;
        m = next;
        i += 1;
    }
    proof {
        assert(qs.take(n as int) =~= qs);
    }
    Some(acc)
}

} // verus!

verus! {

/// The primes of the table that divide `q`, in ascending order, where `q` is
/// their product; `None` for every other number.
pub fn factor(q: u128) -> (r: Option<Vec<u16>>)
    ensures
        match r {
            Some(ps) => factorable(q as nat) && nats(ps@) == table_divisors(q as nat),
            None => !factorable(q as nat),
        },
{
    let ghost t = primes_table();
    let mut out: Vec<u16> = Vec::new();
    let mut prod: Option<u128> = Some(1);
    let mut i: usize = 0;
    proof {
        lemma_primes_table();
        assert(nats(out@) =~= divisors_among(q as nat, t.take(0)));
    }
    while i < NPRIMES
        invariant
            i <= 29,
            t == primes_table(),
            t.len() == 29,
            forall|j: int| 0 <= j < 29 ==> is_prime(#[trigger] t[j]),
            nats(out@) == divisors_among(q as nat, t.take(i as int)),
            match prod {
                Some(v) => v == product(nats(out@)),
                None => product(nats(out@)) > u128::MAX,
            },
        decreases 29 - i,
    {
        let p = PRIMES[i];
        proof {
            assert(t.take(i + 1).drop_last() =~= t.take(i as int));
            assert(t.take(i + 1).last() == p);
            assert(is_prime(t[i as int]));
        }
        if q % (p as u128) == 0 {
            let ghost before = nats(out@);
            out.push(p);
            proof {
                assert(nats(out@) =~= before.push(p as nat));
                assert(nats(out@).drop_last() =~= before);
            }
            prod = match prod {
                Some(v) => v.checked_mul(p as u128),
                None => None,
            };
            proof {
                if prod is None {
                    let b = product(before);
                    assert(b * p > u128::MAX) by (nonlinear_arith)
                        requires
                            b > u128::MAX || b * p > u128::MAX,
                            p >= 1,
                            b >= 0,
                    ;
                }
            }
        }
        i += 1;
    }
    proof {
        assert(t.take(29) =~= t);
    }
    match prod {
        Some(v) => {
            if v == q {
                Some(out)
            } else {
                None
            }
        },
        None => None,
    }
}

/// The residues of `x` modulo the prime factors of `q`, in ascending order
/// of the primes. `InvalidInput` where `q` is not a product of distinct
/// primes of the table, or `x` does not lie below it.
pub fn crt_factor(x: u128, q: u128) -> (r: Result<Vec<u16>, FancyError>)
    ensures
        match r {
            Ok(rs) => factorable(q as nat) && x < q && has_residues(
                x as nat,
                nats(rs@),
                table_divisors(q as nat),
            ),
            Err(e) => e == FancyError::InvalidInput && !(factorable(q as nat) && x < q),
        },
{
    match factor(q) {
        Some(ps) => {
            if x >= q {
                return Err(FancyError::InvalidInput);
            }
            proof {
                lemma_table_divisors(q as nat);
                assert forall|i: int| 0 <= i < ps@.len() implies ps@[i] > 0 by {
                    assert(is_prime(nats(ps@)[i]));
                }
            }
            Ok(crt(x, ps.as_slice()))
        },
        None => Err(FancyError::InvalidInput),
    }
}

/// The residues fit the prime factors of `q`: one for each, and below it.
pub open spec fn residues_fit(xs: Seq<nat>, q: nat) -> bool {
    &&& xs.len() == table_divisors(q).len()
    &&& forall|i: int| 0 <= i < xs.len() ==> #[trigger] xs[i] < table_divisors(q)[i]
}

/// The number below `q` whose residues modulo the prime factors of `q` are
/// `xs`. `InvalidInput` where `q` is not a product of distinct primes of the
/// table or the residues do not fit its factors.
///
/// Taking the residues of a number below `q` and turning them back gives
/// the number.
pub fn crt_inv_factor(xs: &[u16], q: u128) -> (r: Result<u128, FancyError>)
    ensures
        match r {
            Ok(x) => factorable(q as nat) && x < q && has_residues(
                x as nat,
                nats(xs@),
                table_divisors(q as nat),
            ),
            Err(e) => e == FancyError::InvalidInput && !(factorable(q as nat) && residues_fit(
                nats(xs@),
                q as nat,
            )),
        },
        forall|x: nat|
            factorable(q as nat) && x < q && #[trigger] has_residues(
                x,
                nats(xs@),
                table_divisors(q as nat),
            ) ==> r == Ok::<u128, FancyError>(x as u128),
{
    proof {
        lemma_table_divisors(q as nat);
    }
    match factor(q) {
        Some(ps) => {
            let r = crt_inv(xs, ps.as_slice());
            proof {
                let rs = nats(xs@);
                let qs = nats(ps@);
                if residues_fit(rs, q as nat) {
                    lemma_crt_inv_ok(rs, qs);
                }
            }
            match r {
                Some(x) => Ok(x),
                None => Err(FancyError::InvalidInput),
            }
        },
        None => Err(FancyError::InvalidInput),
    }
}

/// The first primorials do not exceed the later ones.
pub proof fn lemma_primorial_grows(j: nat, k: nat)
    requires
        j <= k <= 29,
    ensures
        primorial(j) <= primorial(k),
        primorial(j) >= 1,
{
    lemma_primes_table();
    let t = primes_table();
    let s = t.take(k as int);
    assert forall|i: int| 0 <= i < s.len() implies #[trigger] s[i] > 0 by {
        assert(s[i] == t[i]);
        assert(is_prime(t[i]));
    }
    lemma_product_grows(s, j as int);
    assert(s.take(j as int) =~= t.take(j as int));
    let h = t.take(j as int);
    assert forall|i: int| 0 <= i < h.len() implies #[trigger] h[i] > 0 by {
        assert(h[i] == t[i]);
        assert(is_prime(t[i]));
    }
    lemma_product_positive(h);
}

/// The product of the first `n` primes of the table; `None` where the table
/// has fewer or the product does not fit.
pub fn modulus_with_nprimes(n: usize) -> (r: Option<u128>)
    ensures
        match r {
            Some(q) => n <= 29 && q == primorial(n as nat),
            None => n > 29 || primorial(n as nat) > u128::MAX,
        },
{
    if n > NPRIMES {
        return None;
    }
    let ghost t = primes_table();
    let mut q: u128 = 1;
    let mut i: usize = 0;
    proof {
        lemma_primes_table();
    }
    while i < n
        invariant
            i <= n <= 29,
            t == primes_table(),
            q == primorial(i as nat),
        decreases n - i,
    {
        proof {
            lemma_product_take(t, i as int);
            lemma_primorial_grows((i + 1) as nat, n as nat);
        }
        q = match q.checked_mul(PRIMES[i] as u128) {
            Some(v) => v,
            None => {
                return None;
            },
        };
        i += 1;
    }
    Some(q)
}

/// `2^n`, or `None` where it does not fit.
fn pow2_u128(n: u32) -> (r: Option<u128>)
    ensures
        match r {
            Some(v) => v == pow2(n as nat),
            None => pow2(n as nat) > u128::MAX,
        },
{
    let mut v: u128 = 1;
    let mut i: u32 = 0;
    proof {
        vstd::arithmetic::power2::lemma2_to64();
    }
    while i < n
        invariant
            i <= n,
            v == pow2(i as nat),
        decreases n - i,
    {
        proof {
            lemma_pow2_unfold((i + 1) as nat);
            if i + 1 < n {
                lemma_pow2_strictly_increases((i + 1) as nat, n as nat);
            }
        }
        v = match v.checked_mul(2) {
            Some(w) => w,
            None => {
                return None;
            },
        };
        i += 1;
    }
    Some(v)
}

/// `q` is the smallest product of one or more leading primes of the table
/// that reaches `2^nbits`.
pub open spec fn is_modulus_with_width(q: nat, nbits: nat) -> bool {
    exists|k: nat|
        1 <= k <= 29 && q == #[trigger] primorial(k) && q >= pow2(nbits) && (k == 1 || primorial(
            (k - 1) as nat,
        ) < pow2(nbits))
}

/// The smallest product of one or more leading primes of the table that
/// reaches `2^nbits`; `None` where none that fits does.
pub fn modulus_with_width(nbits: u32) -> (r: Option<u128>)
    ensures
        match r {
            Some(q) => is_modulus_with_width(q as nat, nbits as nat),
            None => forall|k: nat|
                1 <= k <= 29 && #[trigger] primorial(k) <= u128::MAX ==> primorial(k) < pow2(
                    nbits as nat,
                ),
        },
{
    let bound = match pow2_u128(nbits) {
        Some(b) => b,
        None => {
            return None;
        },
    };
    let ghost t = primes_table();
    let mut q: u128 = 1;
    let mut i: usize = 0;
    proof {
        lemma_primes_table();
    }
    while i < NPRIMES
        invariant
            i <= 29,
            t == primes_table(),
            q == primorial(i as nat),
            bound == pow2(nbits as nat),
            forall|k: nat| 1 <= k <= i ==> #[trigger] primorial(k) < bound,
        decreases 29 - i,
    {
        proof {
            lemma_product_take(t, i as int);
        }
        q = match q.checked_mul(PRIMES[i] as u128) {
            Some(v) => v,
            None => {
                proof {
                    assert forall|k: nat|
                        1 <= k <= 29 && #[trigger] primorial(k) <= u128::MAX implies primorial(k)
                        < bound by {
                        if k > i {
                            lemma_primorial_grows((i + 1) as nat, k);
                        }
                    }
                }
                return None;
            },
        };
        i += 1;
        if q >= bound {
            proof {
                let k = i as nat;
                assert(1 <= k <= 29 && q == primorial(k) && q >= pow2(nbits as nat));
                if k > 1 {
                    assert(primorial((k - 1) as nat) < bound);
                }
            }
            return Some(q);
        }
    }
    None
}

} // verus!

verus! {

/// The digits of `x` written with the radices `ms`, the least significant
/// first. What of `x` lies above the product of the radices is dropped.
pub fn as_mixed_radix(x: u128, ms: &[u16]) -> (ds: Vec<u16>)
    requires
        forall|i: int| 0 <= i < ms@.len() ==> ms@[i] > 0,
    ensures
        ds@.len() == ms@.len(),
        forall|j: int| 0 <= j < ds@.len() ==> #[trigger] ds@[j] == digit_of(x as nat, nats(ms@), j),
{
    let ghost msn = nats(ms@);
    let mut ds: Vec<u16> = Vec::new();
    let mut y: u128 = x;
    let mut j: usize = 0;
    proof {
        assert(msn.take(0) =~= Seq::<nat>::empty());
    }
    while j < ms.len()
        invariant
            j <= ms@.len(),
            msn == nats(ms@),
            forall|i: int| 0 <= i < ms@.len() ==> ms@[i] > 0,
            weight(msn, j as int) > 0,
            y == x as nat / weight(msn, j as int),
            ds@.len() == j,
            forall|i: int| 0 <= i < j ==> #[trigger] ds@[i] == digit_of(x as nat, msn, i),
        decreases ms@.len() - j,
    {
        let m = ms[j];
        proof {
            assert(msn[j as int] == m);
            lemma_product_take(msn, j as int);
            lemma_div_denominator(x as int, weight(msn, j as int) as int, m as int);
        }
        ds.push((y % (m as u128)) as u16);
        y = y / (m as u128);
        j += 1;
    }
    ds
}

} // verus!

verus! {

/// The `n` low digits of `x` in base `q`, least significant first.
pub fn as_base_q(x: u128, q: u16, n: usize) -> (ds: Vec<u16>)
    requires
        q >= 2,
    ensures
        ds@.len() == n,
        forall|i: int|
            0 <= i < n ==> #[trigger] ds@[i] == (x as nat / vstd::arithmetic::power::pow(
                q as int,
                i as nat,
            ) as nat) % (q as nat),
{
    let mut ds: Vec<u16> = Vec::new();
    let mut y: u128 = x;
    let mut i: usize = 0;
    proof {
        vstd::arithmetic::power::lemma_pow0(q as int);
    }
    while i < n
        invariant
            i <= n,
            q >= 2,
            ds@.len() == i,
            vstd::arithmetic::power::pow(q as int, i as nat) > 0,
            y == x as nat / vstd::arithmetic::power::pow(q as int, i as nat) as nat,
            forall|j: int|
                0 <= j < i ==> #[trigger] ds@[j] == (x as nat / vstd::arithmetic::power::pow(
                    q as int,
                    j as nat,
                ) as nat) % (q as nat),
        decreases n - i,
    {
        proof {
            let w = vstd::arithmetic::power::pow(q as int, i as nat);
            vstd::arithmetic::power::lemma_pow_positive(q as int, (i + 1) as nat);
            assert(vstd::arithmetic::power::pow(q as int, (i + 1) as nat) == q * w) by {
                vstd::arithmetic::power::lemma_pow1(q as int);
                vstd::arithmetic::power::lemma_pow_adds(q as int, 1, i as nat);
            }
            lemma_div_denominator(x as int, w, q as int);
            assert(w * q == q * w) by (nonlinear_arith);
        }
        ds.push((y % (q as u128)) as u16);
        y = y / (q as u128);
        i += 1;
    }
    ds
}

} // verus!
