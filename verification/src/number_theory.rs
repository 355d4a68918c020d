//! The arithmetic behind residue representations: primes, inverses modulo a
//! prime, and the uniqueness half of the Chinese remainder theorem.

use vstd::prelude::*;
use vstd::arithmetic::div_mod::{
    lemma_fundamental_div_mod,
    lemma_small_mod,
    lemma_mod_multiples_vanish,
    lemma_mod_multiples_basic,
    lemma_mul_mod_noop_left,
    lemma_mul_mod_noop_right,
    lemma_mod_equivalence,
    lemma_mod_mod,
};

verus! {

/// `d` divides `n`.
pub open spec fn divides(d: nat, n: nat) -> bool {
    d > 0 && n % d == 0
}

/// `p` is at least 2 and nothing strictly between 1 and `p` divides it.
pub open spec fn is_prime(p: nat) -> bool {
    p >= 2 && forall|d: nat| 1 < d < p ==> !#[trigger] divides(d, p)
}

/// `u` is the inverse of `a` modulo `p`.
pub open spec fn is_inverse(a: nat, u: nat, p: nat) -> bool {
    0 < u < p && (a * u) % p == 1
}

/// `a` has an inverse modulo `p`.
pub open spec fn invertible(a: nat, p: nat) -> bool {
    exists|u: nat| is_inverse(a, u, p)
}

/// The product of the numbers; of none, 1.
pub open spec fn product(s: Seq<nat>) -> nat
    decreases s.len(),
{
    if s.len() == 0 {
        1
    } else {
        product(s.drop_last()) * s.last()
    }
}

/// Primes, no two of them equal.
pub open spec fn distinct_primes(s: Seq<nat>) -> bool {
    &&& forall|i: int| 0 <= i < s.len() ==> is_prime(#[trigger] s[i])
    &&& forall|i: int, j: int| 0 <= i < j < s.len() ==> #[trigger] s[i] != #[trigger] s[j]
}

/// `x` has the residue `rs[i]` modulo `ps[i]`, for every `i`.
pub open spec fn has_residues(x: nat, rs: Seq<nat>, ps: Seq<nat>) -> bool {
    &&& rs.len() == ps.len()
    &&& forall|i: int| 0 <= i < ps.len() ==> #[trigger] rs[i] == x % ps[i]
}

/// The numbers of a list of sixteen-bit numbers.
pub open spec fn nats(s: Seq<u16>) -> Seq<nat> {
    Seq::new(s.len(), |i: int| s[i] as nat)
}

/// A number below 121 that none of 2, 3, 5 and 7 divides properly is prime.
pub proof fn lemma_small_prime(n: nat)
    requires
        2 <= n < 121,
        n % 2 != 0 || n == 2,
        n % 3 != 0 || n == 3,
        n % 5 != 0 || n == 5,
        n % 7 != 0 || n == 7,
    ensures
        is_prime(n),
{
    assert forall|d: nat| 1 < d < n implies !#[trigger] divides(d, n) by {
        if divides(d, n) {
            let e = n / d;
            lemma_fundamental_div_mod(n as int, d as int);
            assert(n == d * e);
            assert(e >= 2) by (nonlinear_arith)
                requires
                    n == d * e,
                    1 < d < n,
                    e >= 0,
            ;
            assert(d <= 10 || e <= 10) by (nonlinear_arith)
                requires
                    n == d * e,
                    n < 121,
                    d > 1,
                    e > 1,
            ;
            let m = if d <= 10 { d } else { e };
            assert(n % m == 0) by {
                if d <= 10 {
                } else {
                    lemma_mod_multiples_basic(d as int, e as int);
                }
            }
            assert(m < n) by (nonlinear_arith)
                requires
                    n == d * e,
                    d > 1,
                    e > 1,
                    m == d || m == e,
            ;
            let r = n % m;
            assert(r == 0);
            if m == 2 {
                assert(n % 2 == r);
            } else if m == 3 {
                assert(n % 3 == r);
            } else if m == 4 {
                assert(n % 4 == r);
            } else if m == 5 {
                assert(n % 5 == r);
            } else if m == 6 {
                assert(n % 6 == r);
            } else if m == 7 {
                assert(n % 7 == r);
            } else if m == 8 {
                assert(n % 8 == r);
            } else if m == 9 {
                assert(n % 9 == r);
            } else {
                assert(m == 10);
                assert(n % 10 == r);
            }
            assert(false);
        }
    }
}

/// Modulo a prime, every number strictly between 0 and the prime has an
/// inverse.
pub proof fn lemma_prime_inverse(p: nat, a: nat)
    requires
        is_prime(p),
        0 < a < p,
    ensures
        invertible(a, p),
    decreases a,
{
    if a == 1 {
        lemma_small_mod(1, p);
        assert(is_inverse(1, 1, p));
    } else {
        let k = p / a;
        let r = p % a;
        lemma_fundamental_div_mod(p as int, a as int);
        assert(!divides(a, p));
        lemma_prime_inverse(p, r);
        let ur = choose|u: nat| is_inverse(r, u, p);
        let big = -(k * ur);
        assert(a * big == p * (-(ur as int)) + r * ur) by (nonlinear_arith)
            requires
                p == a * k + r,
                big == -(k * ur),
        ;
        lemma_mod_multiples_vanish(-(ur as int), (r * ur) as int, p as int);
        lemma_mul_mod_noop_right(a as int, big, p as int);
        let u = (big % (p as int)) as nat;
        if u == 0 {
            assert(a * 0 == 0);
            lemma_small_mod(0, p);
        }
        assert(is_inverse(a, u, p));
    }
}

/// Modulo a prime, every number that the prime does not divide has an
/// inverse.
pub proof fn lemma_prime_invertible(p: nat, a: nat)
    requires
        is_prime(p),
        a % p != 0,
    ensures
        invertible(a, p),
{
    let r = a % p;
    lemma_prime_inverse(p, r);
    let u = choose|u: nat| is_inverse(r, u, p);
    lemma_mul_mod_noop_left(a as int, u as int, p as int);
    assert(is_inverse(a, u, p));
}

/// A prime that divides a product divides one of the factors.
pub proof fn lemma_prime_divides_product(p: nat, x: nat, y: nat)
    requires
        is_prime(p),
        (x * y) % p == 0,
    ensures
        x % p == 0 || y % p == 0,
{
    if x % p != 0 {
        lemma_prime_invertible(p, x);
        let u = choose|u: nat| is_inverse(x, u, p);
        // y = y * 1 = y * (x * u) = (x * y) * u = 0, all modulo p
        lemma_mul_mod_noop_right(y as int, (x * u) as int, p as int);
        assert(y * 1 == y);
        assert(y * (x * u) == (x * y) * u) by (nonlinear_arith);
        lemma_mul_mod_noop_left((x * y) as int, u as int, p as int);
        assert(0 * u == 0);
        lemma_small_mod(0, p);
    }
}

/// A prime that divides a prime is that prime.
pub proof fn lemma_prime_divides_prime(p: nat, q: nat)
    requires
        is_prime(p),
        is_prime(q),
        q % p == 0,
    ensures
        p == q,
{
    if p < q {
        assert(divides(p, q));
    } else if p > q {
        lemma_small_mod(q, p);
    }
}

/// A product of positive numbers is positive.
pub proof fn lemma_product_positive(s: Seq<nat>)
    requires
        forall|i: int| 0 <= i < s.len() ==> #[trigger] s[i] > 0,
    ensures
        product(s) > 0,
    decreases s.len(),
{
    if s.len() > 0 {
        lemma_product_positive(s.drop_last());
        let a = product(s.drop_last());
        let b = s.last();
        assert(s[s.len() - 1] > 0);
        assert(a * b > 0) by (nonlinear_arith)
            requires
                a > 0,
                b > 0,
        ;
    }
}

/// One more factor multiplies the product.
pub proof fn lemma_product_take(s: Seq<nat>, i: int)
    requires
        0 <= i < s.len(),
    ensures
        product(s.take(i + 1)) == product(s.take(i)) * s[i],
{
    assert(s.take(i + 1).drop_last() =~= s.take(i));
}

/// Every positive factor divides the product.
pub proof fn lemma_product_divisible(s: Seq<nat>, i: int)
    requires
        0 <= i < s.len(),
        s[i] > 0,
    ensures
        product(s) % s[i] == 0,
    decreases s.len(),
{
    let rest = product(s.drop_last());
    let last = s.last();
    let m = s[i];
    if i == s.len() - 1 {
        lemma_mod_multiples_basic(rest as int, m as int);
    } else {
        lemma_product_divisible(s.drop_last(), i);
        assert(s.drop_last()[i] == m);
        lemma_mul_mod_noop_left(rest as int, last as int, m as int);
        assert(0 * last == 0);
        lemma_small_mod(0, m);
    }
}

/// A prime divides no product of primes other than itself.
pub proof fn lemma_prime_not_in_product(p: nat, s: Seq<nat>)
    requires
        is_prime(p),
        forall|i: int| 0 <= i < s.len() ==> is_prime(#[trigger] s[i]) && s[i] != p,
    ensures
        product(s) % p != 0,
    decreases s.len(),
{
    if s.len() == 0 {
        lemma_small_mod(1, p);
    } else {
        let rest = s.drop_last();
        assert forall|i: int| 0 <= i < rest.len() implies is_prime(#[trigger] rest[i]) && rest[i]
            != p by {
            assert(rest[i] == s[i]);
        }
        lemma_prime_not_in_product(p, rest);
        let last = s[s.len() - 1];
        assert(is_prime(last) && last != p);
        if product(s) % p == 0 {
            lemma_prime_divides_product(p, product(rest), last);
            lemma_prime_divides_prime(p, last);
        }
    }
}

/// Two numbers below the product of distinct primes that agree modulo each
/// of the primes are one number: a residue representation stands for one
/// number only.
pub proof fn lemma_crt_unique(x: nat, y: nat, ps: Seq<nat>)
    requires
        distinct_primes(ps),
        x < product(ps),
        y < product(ps),
        forall|i: int| 0 <= i < ps.len() ==> x % #[trigger] ps[i] == y % ps[i],
    ensures
        x == y,
    decreases ps.len(),
{
    if ps.len() > 0 {
        let rest = ps.drop_last();
        let p = ps[ps.len() - 1];
        let m = product(rest);
        assert(is_prime(p));
        assert forall|i: int| 0 <= i < rest.len() implies is_prime(#[trigger] rest[i]) && rest[i]
            != p by {
            assert(rest[i] == ps[i]);
        }
        assert(distinct_primes(rest)) by {
            assert forall|i: int, j: int| 0 <= i < j < rest.len() implies #[trigger] rest[i]
                != #[trigger] rest[j] by {
                assert(rest[i] == ps[i] && rest[j] == ps[j]);
            }
        }
        assert forall|i: int| 0 <= i < rest.len() implies #[trigger] rest[i] > 0 by {
            assert(is_prime(rest[i]));
        }
        lemma_product_positive(rest);
        let x0 = x % m;
        let y0 = y % m;
        assert forall|i: int| 0 <= i < rest.len() implies x0 % #[trigger] rest[i] == y0
            % rest[i] by {
            let q = rest[i];
            assert(is_prime(q));
            lemma_product_divisible(rest, i);
            let c = m / q;
            lemma_fundamental_div_mod(m as int, q as int);
            assert(c > 0) by (nonlinear_arith)
                requires
                    m == q * c,
                    m > 0,
                    q > 0,
                    c >= 0,
            ;
            lemma_mod_mod(x as int, q as int, c as int);
            lemma_mod_mod(y as int, q as int, c as int);
            assert(ps[i] == q);
        }
        lemma_crt_unique(x0, y0, rest);
        let hi = if x >= y { x } else { y };
        let lo = if x >= y { y } else { x };
        let kh = hi / m;
        let kl = lo / m;
        lemma_fundamental_div_mod(hi as int, m as int);
        lemma_fundamental_div_mod(lo as int, m as int);
        let d = (kh - kl) as int;
        assert(hi - lo == m * d) by (nonlinear_arith)
            requires
                hi == m * kh + hi % m,
                lo == m * kl + lo % m,
                hi % m == lo % m,
                d == kh - kl,
        ;
        assert(0 <= d < p) by (nonlinear_arith)
            requires
                hi - lo == m * d,
                hi >= lo,
                hi < m * p,
                m > 0,
        ;
        lemma_mod_equivalence(hi as int, lo as int, p as int);
        lemma_prime_not_in_product(p, rest);
        lemma_prime_divides_product(p, m, d as nat);
        lemma_small_mod(d as nat, p);
    }
}

/// A number has at most one inverse modulo `p`.
pub proof fn lemma_inverse_unique(a: nat, u: nat, v: nat, p: nat)
    requires
        is_inverse(a, u, p),
        is_inverse(a, v, p),
    ensures
        u == v,
{
    // u = u * (a * v) = (u * a) * v = v, all modulo p
    lemma_mul_mod_noop_right(u as int, (a * v) as int, p as int);
    assert(u * 1 == u);
    lemma_small_mod(u, p);
    assert(u == (u * (a * v)) % p);
    lemma_mul_mod_noop_left((a * u) as int, v as int, p as int);
    assert(1 * v == v);
    lemma_small_mod(v, p);
    assert(v == ((a * u) * v) % p);
    assert(u * (a * v) == (a * u) * v) by (nonlinear_arith);
}

} // verus!
