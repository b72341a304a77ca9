//! Elementary number theory behind the ciphers: divisibility, greatest common
//! divisors, Bézout coefficients, primality, Euclid's lemma, Fermat's little
//! theorem and the correctness of textbook RSA.
use vstd::arithmetic::div_mod::*;
use vstd::arithmetic::mul::*;
use vstd::arithmetic::power::*;
use vstd::prelude::*;
use vstd::relations::injective_on;
use vstd::set_lib::*;

verus! {

/// `d` divides `n` (for `d > 0`).
pub open spec fn divides(d: int, n: int) -> bool {
    n % d == 0
}

/// `n` is a prime number: at least 2, with no divisor strictly between 1 and `n`.
pub open spec fn is_prime(n: int) -> bool {
    &&& n >= 2
    &&& forall|d: int| 2 <= d < n ==> !#[trigger] divides(d, n)
}

/// Greatest common divisor, by Euclid's algorithm.
pub open spec fn gcd(a: nat, b: nat) -> nat
    decreases b,
{
    if b == 0 {
        a
    } else {
        gcd(b, a % b)
    }
}

/// Absolute value.
pub open spec fn abs(a: int) -> int {
    if a < 0 {
        -a
    } else {
        a
    }
}

/// The remainder of Rust's `%` on signed integers: it takes the sign of `a`.
pub open spec fn trunc_rem(a: int, b: int) -> int {
    if a >= 0 {
        a % b
    } else {
        -((-a) % b)
    }
}

/// `|trunc_rem(a, b)| == |a| mod |b|`, and it is smaller than `|b|`.
pub proof fn lemma_trunc_rem(a: int, b: int)
    requires
        b != 0,
    ensures
        abs(trunc_rem(a, b)) == abs(a) % abs(b),
        abs(trunc_rem(a, b)) < abs(b),
        a >= 0 ==> trunc_rem(a, b) >= 0,
        a < 0 ==> trunc_rem(a, b) <= 0,
        abs(a) < abs(b) ==> trunc_rem(a, b) == a,
{
    let m = abs(b);
    lemma_mod_bound(abs(a), m);
    // the Euclidean remainder does not depend on the sign of the divisor
    assert(abs(a) % b == abs(a) % m) by {
        lemma_fundamental_div_mod(abs(a), b);
        let q = abs(a) / b;
        let r = abs(a) % b;
        if b < 0 {
            assert(b * q == m * (-q)) by (nonlinear_arith)
                requires
                    m == -b,
            ;
            assert(abs(a) == m * (-q) + r);
            lemma_fundamental_div_mod_converse(abs(a), m, -q, r);
        }
    }
    if abs(a) < m {
        lemma_small_mod(abs(a) as nat, m as nat);
    }
}

/// The quotient of Rust's `/` on signed integers: rounded toward zero.
pub open spec fn trunc_div(a: int, b: int) -> int {
    if a >= 0 {
        a / b
    } else {
        -((-a) / b)
    }
}

/// For a non-negative dividend the Euclidean quotient by `b` is the quotient
/// by `|b|`, negated when `b` is negative.
proof fn lemma_div_by_signed(x: int, b: int)
    requires
        x >= 0,
        b != 0,
    ensures
        x / b == if b > 0 { x / abs(b) } else { -(x / abs(b)) },
        x % b == x % abs(b),
{
    let m = abs(b);
    lemma_trunc_rem(x, b);
    lemma_fundamental_div_mod(x, b);
    lemma_fundamental_div_mod(x, m);
    lemma_mod_bound(x, m);
    if b < 0 {
        let q1 = x / b;
        let q2 = x / m;
        assert(b * q1 == m * q2);
        assert(q1 == -q2) by (nonlinear_arith)
            requires
                b * q1 == m * q2,
                b == -m,
                m > 0,
        ;
    }
}

/// Rust's signed quotient and remainder recompose the dividend, and on
/// non-negative operands they are the Euclidean ones.
pub proof fn lemma_trunc_div(a: int, b: int)
    requires
        b != 0,
    ensures
        a == b * trunc_div(a, b) + trunc_rem(a, b),
        abs(a) == abs(trunc_div(a, b)) * abs(b) + abs(trunc_rem(a, b)),
        a >= 0 && b > 0 ==> trunc_div(a, b) == a / b && trunc_rem(a, b) == a % b,
        b < 0 ==> trunc_div(a, b) == -trunc_div(a, -b),
{
    lemma_trunc_rem(a, b);
    if b < 0 {
        lemma_div_by_signed(abs(a), b);
        lemma_div_by_signed(abs(a), -b);
    }
    let m = abs(b);
    let aa = abs(a);
    lemma_div_by_signed(aa, b);
    lemma_fundamental_div_mod(aa, m);
    lemma_div_pos_is_pos(aa, m);
    let q = aa / m;
    let r = aa % m;
    assert(aa == m * q + r);
    assert(abs(trunc_div(a, b)) == q);
    assert(abs(trunc_rem(a, b)) == r);
    if a >= 0 {
        let t = trunc_div(a, b);
        assert(b * t == m * q) by (nonlinear_arith)
            requires
                b == m || b == -m,
                b > 0 ==> t == q,
                b < 0 ==> t == -q,
                b != 0,
                m > 0,
        ;
        assert(trunc_rem(a, b) == r);
    } else {
        let t = trunc_div(a, b);
        assert(b * t == -(m * q)) by (nonlinear_arith)
            requires
                b == m || b == -m,
                b > 0 ==> t == -q,
                b < 0 ==> t == q,
                b != 0,
                m > 0,
        ;
        assert(trunc_rem(a, b) == -r);
    }
    assert(abs(trunc_div(a, b)) * abs(b) == m * q) by (nonlinear_arith)
        requires
            abs(trunc_div(a, b)) == q,
            abs(b) == m,
    ;
}

/// The extended Euclidean algorithm with Rust's signed quotient and
/// remainder: `(g, x, y)` with `g == a * x + b * y`.
pub open spec fn ext_gcd(a: int, b: int) -> (int, int, int)
    decreases abs(b),
{
    if b == 0 {
        (a, 1, 0)
    } else {
        proof {
            lemma_trunc_rem(a, b);
        }
        let r = ext_gcd(b, trunc_rem(a, b));
        (r.0, r.2, r.1 - trunc_div(a, b) * r.2)
    }
}

/// The inverse of `a` modulo `m` that the extended Euclidean algorithm yields,
/// brought into `[0, m)`.
pub open spec fn mod_inverse_value(a: int, m: int) -> int {
    ((ext_gcd(a, m).1 % m) + m) % m
}

/// Bézout's identity for the extended Euclidean algorithm, together with the
/// bounds on the coefficients that keep them inside machine integers.
pub proof fn lemma_ext_gcd(a: int, b: int)
    requires
        a >= 0,
        b >= 0,
    ensures
        a * ext_gcd(a, b).1 + b * ext_gcd(a, b).2 == ext_gcd(a, b).0,
        ext_gcd(a, b).0 == gcd(a as nat, b as nat),
        b == 0 ==> ext_gcd(a, b).1 == 1 && ext_gcd(a, b).2 == 0,
        b > 0 ==> -b <= ext_gcd(a, b).1 <= b,
        b > 0 ==> -(if a > 1 { a } else { 1 }) <= ext_gcd(a, b).2 <= (if a > 1 { a } else { 1 }),
    decreases b,
{
    if b > 0 {
        lemma_trunc_div(a, b);
        let q = a / b;
        let r = a % b;
        lemma_fundamental_div_mod(a, b);
        assert(0 <= r < b);
        lemma_ext_gcd(b, r);
        let (g, x1, y1) = ext_gcd(b, r);
        assert(a == b * q + r);
        assert(q >= 0) by {
            lemma_div_pos_is_pos(a, b);
        }
        // Bézout
        assert(a * y1 + b * (x1 - q * y1) == b * x1 + r * y1) by (nonlinear_arith)
            requires
                a == b * q + r,
        ;
        // bounds on the second coefficient
        if r == 0 {
            assert(x1 == 1 && y1 == 0);
            lemma_mul_basics(q);
        } else {
            assert(-r <= x1 <= r);
            assert(-b <= y1 <= b);
            assert(-(q * b) <= q * y1 <= q * b) by (nonlinear_arith)
                requires
                    q >= 0,
                    -b <= y1 <= b,
            ;
            assert(b * q == q * b) by (nonlinear_arith);
        }
    }
}

/// Bézout's identity for the extended Euclidean algorithm, for any signs of
/// the arguments: `a * x + b * y == g`, and `|g|` is the greatest common
/// divisor of `|a|` and `|b|`.
pub proof fn lemma_ext_gcd_signed(a: int, b: int)
    ensures
        a * ext_gcd(a, b).1 + b * ext_gcd(a, b).2 == ext_gcd(a, b).0,
        abs(ext_gcd(a, b).0) == gcd(abs(a) as nat, abs(b) as nat),
    decreases abs(b),
{
    if b != 0 {
        lemma_trunc_rem(a, b);
        lemma_trunc_div(a, b);
        let r = trunc_rem(a, b);
        let q = trunc_div(a, b);
        lemma_ext_gcd_signed(b, r);
        let (g, x1, y1) = ext_gcd(b, r);
        assert(a * y1 + b * (x1 - q * y1) == b * x1 + r * y1) by (nonlinear_arith)
            requires
                a == b * q + r,
        ;
        assert(abs(b) > 0);
        assert(gcd(abs(a) as nat, abs(b) as nat) == gcd(abs(b) as nat, (abs(a) as nat) % (
        abs(b) as nat)));
    }
}

/// The coefficients of the extended Euclidean algorithm, for any signs of
/// the arguments, are bounded by the arguments (so that they, and the
/// product formed on the way, fit wherever the arguments do).
pub proof fn lemma_ext_gcd_bounds(a: int, b: int)
    ensures
        b == 0 ==> ext_gcd(a, b).1 == 1 && ext_gcd(a, b).2 == 0,
        b != 0 ==> abs(ext_gcd(a, b).1) <= abs(b),
        b != 0 ==> abs(ext_gcd(a, b).2) <= (if abs(a) > 1 { abs(a) } else { 1 }),
        b != 0 ==> abs(trunc_div(a, b) * ext_gcd(b, trunc_rem(a, b)).2) <= abs(a),
    decreases abs(b),
{
    if b != 0 {
        lemma_trunc_rem(a, b);
        lemma_trunc_div(a, b);
        let r = trunc_rem(a, b);
        let q = trunc_div(a, b);
        lemma_ext_gcd_bounds(b, r);
        let (g, x1, y1) = ext_gcd(b, r);
        if r == 0 {
            assert(x1 == 1 && y1 == 0);
            assert(q * y1 == 0);
        } else {
            assert(abs(x1) <= abs(r));
            assert(abs(y1) <= abs(b));
            assert(abs(q * y1) <= abs(q) * abs(b)) by (nonlinear_arith)
                requires
                    abs(y1) <= abs(b),
            ;
            assert(abs(x1 - q * y1) <= abs(a));
        }
    }
}

/// The greatest common divisor divides both arguments and is positive unless
/// both are zero.
pub proof fn lemma_gcd_divides(a: nat, b: nat)
    ensures
        a > 0 || b > 0 ==> gcd(a, b) > 0,
        gcd(a, b) > 0 ==> divides(gcd(a, b) as int, a as int) && divides(gcd(a, b) as int, b as int),
    decreases b,
{
    if b > 0 {
        let r = a % b;
        lemma_gcd_divides(b, r);
        let g = gcd(b, r);
        assert(g > 0);
        lemma_fundamental_div_mod(a as int, b as int);
        let q = a / b;
        // a == b * q + r with g | b and g | r
        let kb = b as int / g as int;
        let kr = r as int / g as int;
        lemma_fundamental_div_mod(b as int, g as int);
        lemma_fundamental_div_mod(r as int, g as int);
        assert(a as int == g * (kb * q + kr)) by (nonlinear_arith)
            requires
                a as int == b * q + r,
                b as int == g * kb,
                r as int == g * kr,
        ;
        lemma_mod_multiples_basic(kb * q + kr, g as int);
        lemma_mul_is_commutative(kb * q + kr, g as int);
    } else {
        if a > 0 {
            lemma_mod_self_0(a as int);
        }
    }
}

/// A positive divisor of a positive number is at most that number.
pub proof fn lemma_divisor_le(d: int, n: int)
    requires
        d > 0,
        n > 0,
        divides(d, n),
    ensures
        d <= n,
{
    lemma_fundamental_div_mod(n, d);
    let k = n / d;
    assert(n == d * k);
    if k <= 0 {
        assert(d * k <= 0) by (nonlinear_arith)
            requires
                d > 0,
                k <= 0,
        ;
    } else {
        assert(d * k >= d) by (nonlinear_arith)
            requires
                d > 0,
                k >= 1,
        ;
    }
}

/// A number strictly between 0 and a prime `p` is coprime to `p`.
pub proof fn lemma_gcd_with_prime(a: int, p: int)
    requires
        is_prime(p),
        0 < a < p,
    ensures
        gcd(a as nat, p as nat) == 1,
{
    let g = gcd(a as nat, p as nat) as int;
    lemma_gcd_divides(a as nat, p as nat);
    lemma_divisor_le(g, p);
    lemma_divisor_le(g, a);
    if g != 1 {
        assert(2 <= g < p);
        assert(!divides(g, p));
    }
}

/// Multiples of `m` are divisible by `m`.
pub proof fn lemma_divides_multiple(m: int, k: int)
    requires
        m > 0,
    ensures
        divides(m, m * k),
        divides(m, k * m),
{
    lemma_mod_multiples_basic(k, m);
    lemma_mul_is_commutative(k, m);
}

/// A number divisible by `m` is `m` times its quotient.
pub proof fn lemma_divides_quotient(m: int, n: int)
    requires
        m > 0,
        divides(m, n),
    ensures
        n == m * (n / m),
{
    lemma_fundamental_div_mod(n, m);
}

/// Euclid's lemma: a prime that divides a product divides one of the factors.
pub proof fn lemma_euclid(p: int, a: int, b: int)
    requires
        is_prime(p),
        divides(p, a * b),
    ensures
        divides(p, a) || divides(p, b),
{
    if !divides(p, a) {
        let a1 = a % p;
        lemma_mod_bound(a, p);
        assert(0 < a1 < p);
        lemma_gcd_with_prime(a1, p);
        lemma_ext_gcd(a1, p);
        let (g, x, y) = ext_gcd(a1, p);
        assert(a1 * x + p * y == 1);
        // p divides a1 * b
        lemma_mul_mod_noop_left(a, b, p);
        assert(divides(p, a1 * b));
        let k = (a1 * b) / p;
        lemma_divides_quotient(p, a1 * b);
        assert(b == p * (k * x + b * y)) by (nonlinear_arith)
            requires
                a1 * x + p * y == 1,
                a1 * b == p * k,
        ;
        lemma_divides_multiple(p, k * x + b * y);
    }
}


/// The product `f(1) * f(2) * ... * f(n)`.
pub open spec fn product(f: spec_fn(int) -> int, n: nat) -> int
    decreases n,
{
    if n == 0 {
        1
    } else {
        product(f, (n - 1) as nat) * f(n as int)
    }
}

/// `n!`
pub open spec fn factorial(n: nat) -> int {
    product(|i: int| i, n)
}

/// `f` maps `1..=n` one-to-one into `1..=n`.
pub open spec fn permutes_range(f: spec_fn(int) -> int, n: int) -> bool {
    &&& forall|i: int| 1 <= i <= n ==> 1 <= #[trigger] f(i) <= n
    &&& forall|i: int, j: int|
        1 <= i <= n && 1 <= j <= n && #[trigger] f(i) == #[trigger] f(j) ==> i == j
}

/// Products of functions that agree on `1..=n` are equal.
pub proof fn lemma_product_ext(f: spec_fn(int) -> int, g: spec_fn(int) -> int, n: nat)
    requires
        forall|i: int| 1 <= i <= n ==> #[trigger] f(i) == g(i),
    ensures
        product(f, n) == product(g, n),
    decreases n,
{
    if n > 0 {
        lemma_product_ext(f, g, (n - 1) as nat);
    }
}

/// Changing one factor of a product.
pub proof fn lemma_product_replace_one(
    f: spec_fn(int) -> int,
    g: spec_fn(int) -> int,
    n: nat,
    j: int,
)
    requires
        1 <= j <= n,
        forall|i: int| 1 <= i <= n && i != j ==> #[trigger] f(i) == g(i),
    ensures
        product(g, n) * f(j) == product(f, n) * g(j),
    decreases n,
{
    let m = (n - 1) as nat;
    if j == n {
        lemma_product_ext(f, g, m);
        let p = product(f, m);
        assert(p * g(j) * f(j) == p * f(j) * g(j)) by (nonlinear_arith);
    } else {
        lemma_product_replace_one(f, g, m, j);
        let pf = product(f, m);
        let pg = product(g, m);
        assert(pg * g(n as int) * f(j) == pf * f(n as int) * g(j)) by (nonlinear_arith)
            requires
                pg * f(j) == pf * g(j),
                g(n as int) == f(n as int),
        ;
    }
}

/// Pigeonhole: a one-to-one map of `1..=n` into itself reaches every value.
pub proof fn lemma_permutes_range_onto(f: spec_fn(int) -> int, n: int, v: int)
    requires
        n >= 0,
        permutes_range(f, n),
        1 <= v <= n,
    ensures
        exists|i: int| 1 <= i <= n && #[trigger] f(i) == v,
{
    let x = set_int_range(1, n + 1);
    let y = x.map(f);
    lemma_int_range(1, n + 1);
    assert(injective_on(f, x));
    lemma_map_size(x, y, f);
    assert(y.subset_of(x));
    lemma_subset_equality(y, x);
    assert(x.contains(v));
    assert(y.contains(v));
    let i = choose|i: int| x.contains(i) && v == f(i);
    assert(1 <= i <= n && f(i) == v);
}

/// The product over a permutation of `1..=n` is `n!`.
pub proof fn lemma_product_of_permutation(f: spec_fn(int) -> int, n: nat)
    requires
        permutes_range(f, n as int),
    ensures
        product(f, n) == factorial(n),
    decreases n,
{
    if n > 0 {
        let m = (n - 1) as nat;
        lemma_permutes_range_onto(f, n as int, n as int);
        let j = choose|i: int| 1 <= i <= n && #[trigger] f(i) == n;
        let g = |i: int| if i == j { f(n as int) } else { f(i) };
        assert forall|i: int| 1 <= i <= m implies 1 <= #[trigger] g(i) <= m by {
            if i == j {
                assert(f(n as int) != n);
            } else {
                assert(f(i) != f(j));
            }
        }
        assert forall|i1: int, i2: int|
            1 <= i1 <= m && 1 <= i2 <= m && #[trigger] g(i1) == #[trigger] g(i2) implies i1 == i2 by {
            if i1 == j && i2 != j {
                assert(f(n as int) == f(i2));
            } else if i2 == j && i1 != j {
                assert(f(n as int) == f(i1));
            }
        }
        lemma_product_of_permutation(g, m);
        let id = |i: int| i;
        assert(factorial(n) == factorial(m) * n);
        if j == n {
            lemma_product_ext(f, g, m);
        } else {
            lemma_product_replace_one(f, g, m, j);
            assert(product(g, m) * n == product(f, m) * f(n as int));
        }
    }
}

/// Reducing every factor modulo `p` does not change the product modulo `p`.
pub proof fn lemma_product_mod(f: spec_fn(int) -> int, g: spec_fn(int) -> int, n: nat, p: int)
    requires
        p > 0,
        forall|i: int| 1 <= i <= n ==> #[trigger] f(i) % p == g(i) % p,
    ensures
        product(f, n) % p == product(g, n) % p,
    decreases n,
{
    if n > 0 {
        let m = (n - 1) as nat;
        lemma_product_mod(f, g, m, p);
        lemma_mul_mod_noop_general(product(f, m), f(n as int), p);
        lemma_mul_mod_noop_general(product(g, m), g(n as int), p);
    }
}

/// `a * 1 * a * 2 * ... * a * n == a^n * n!`
pub proof fn lemma_product_of_multiples(a: int, n: nat)
    ensures
        product(|i: int| a * i, n) == pow(a, n) * factorial(n),
    decreases n,
{
    reveal(pow);
    if n > 0 {
        let m = (n - 1) as nat;
        lemma_product_of_multiples(a, m);
        let h = |i: int| a * i;
        let pm = pow(a, m);
        let fm = factorial(m);
        assert(product(h, n) == product(h, m) * (a * n));
        assert(factorial(n) == fm * n);
        assert(pow(a, n) == a * pm);
        assert(pm * fm * (a * n) == (a * pm) * (fm * n)) by (nonlinear_arith);
    }
}

/// A prime does not divide `n!` for `n` below it.
pub proof fn lemma_factorial_not_divisible(p: int, n: nat)
    requires
        is_prime(p),
        n < p,
    ensures
        !divides(p, factorial(n)),
    decreases n,
{
    if n == 0 {
        lemma_small_mod(1, p as nat);
    } else {
        let m = (n - 1) as nat;
        lemma_factorial_not_divisible(p, m);
        assert(factorial(n) == factorial(m) * n);
        lemma_small_mod(n, p as nat);
        if divides(p, factorial(n)) {
            lemma_euclid(p, factorial(m), n as int);
        }
    }
}

/// Fermat's little theorem.
pub proof fn lemma_fermat(a: int, p: int)
    requires
        is_prime(p),
        !divides(p, a),
    ensures
        pow(a, (p - 1) as nat) % p == 1,
{
    let n = (p - 1) as nat;
    let f = |i: int| (a * i) % p;
    let h = |i: int| a * i;
    // the residues of a, 2a, ..., (p-1)a are a permutation of 1..p-1
    assert forall|i: int| 1 <= i <= n implies 1 <= #[trigger] f(i) <= n by {
        lemma_mod_bound(a * i, p);
        if f(i) == 0 {
            lemma_euclid(p, a, i);
            lemma_small_mod(i as nat, p as nat);
        }
    }
    assert forall|i: int, j: int|
        1 <= i <= n && 1 <= j <= n && #[trigger] f(i) == #[trigger] f(j) implies i == j by {
        if i != j {
            let (lo, hi) = if i < j { (i, j) } else { (j, i) };
            assert(f(lo) == f(hi));
            lemma_mul_is_distributive_sub(a, hi, lo);
            lemma_sub_mod_noop(a * hi, a * lo, p);
            lemma_small_mod(0, p as nat);
            assert((a * hi) % p == (a * lo) % p);
            assert((a * hi - a * lo) % p == 0);
            assert(divides(p, a * (hi - lo)));
            lemma_euclid(p, a, hi - lo);
            lemma_small_mod((hi - lo) as nat, p as nat);
        }
    }
    lemma_product_of_permutation(f, n);
    assert forall|i: int| 1 <= i <= n implies #[trigger] h(i) % p == f(i) % p by {
        lemma_mod_twice(a * i, p);
    }
    lemma_product_mod(h, f, n, p);
    lemma_product_of_multiples(a, n);
    let an = pow(a, n);
    let fact = factorial(n);
    // (a^n - 1) * n! is divisible by p
    lemma_mod_twice(fact, p);
    lemma_sub_mod_noop(an * fact, fact, p);
    lemma_small_mod(0, p as nat);
    assert(product(h, n) == an * fact);
    assert(product(f, n) == fact);
    assert((an * fact) % p == fact % p);
    assert((an * fact - fact) % p == 0);
    assert((an - 1) * fact == an * fact - fact) by (nonlinear_arith);
    assert(divides(p, (an - 1) * fact));
    lemma_factorial_not_divisible(p, n);
    lemma_euclid(p, an - 1, fact);
    lemma_fundamental_div_mod(an - 1, p);
    lemma_mod_add_multiples_vanish(1, p);
    let k = (an - 1) / p;
    assert(an == p * k + 1);
    lemma_mod_multiples_vanish(k, 1, p);
    lemma_small_mod(1, p as nat);
}


/// `m^(1 + j(p-1)) ≡ m (mod p)` for a prime `p`.
pub proof fn lemma_fermat_exponent(m: int, p: int, j: nat)
    requires
        is_prime(p),
    ensures
        pow(m, 1 + j * ((p - 1) as nat)) % p == m % p,
{
    let k = (p - 1) as nat;
    let e = (1 + j * k) as nat;
    lemma_mul_nonnegative(j as int, k as int);
    lemma_pow_adds(m, 1, j * k);
    lemma_pow1(m);
    lemma_pow_multiplies(m, k, j);
    lemma_mul_is_commutative(k as int, j as int);
    let t = pow(pow(m, k), j);
    assert(pow(m, e) == m * t);
    if divides(p, m) {
        lemma_mul_mod_noop_left(m, t, p);
        lemma_small_mod(0, p as nat);
        assert(0 * t == 0);
    } else {
        lemma_fermat(m, p);
        lemma_pow_mod_noop(pow(m, k), j, p);
        lemma1_pow(j);
        lemma_small_mod(1, p as nat);
        assert(t % p == 1);
        lemma_mul_mod_noop_right(m, t, p);
    }
}

/// Two distinct primes both dividing a number below their product force it to be zero.
proof fn lemma_two_primes_divide(p: int, q: int, d: int)
    requires
        is_prime(p),
        is_prime(q),
        p != q,
        0 <= d < p * q,
        divides(p, d),
        divides(q, d),
    ensures
        d == 0,
{
    lemma_divides_quotient(p, d);
    let k = d / p;
    lemma_div_pos_is_pos(d, p);
    assert(divides(q, p * k));
    lemma_euclid(q, p, k);
    if divides(q, p) {
        lemma_divisor_le(q, p);
        assert(2 <= q < p);
        assert(!divides(q, p));
    }
    lemma_divides_quotient(q, k);
    let l = k / q;
    lemma_div_pos_is_pos(k, q);
    assert(d == p * q * l) by (nonlinear_arith)
        requires
            d == p * k,
            k == q * l,
    ;
    if l >= 1 {
        assert(p * q * l >= p * q) by (nonlinear_arith)
            requires
                p >= 2,
                q >= 2,
                l >= 1,
        ;
    } else {
        assert(p * q * l == 0) by (nonlinear_arith)
            requires
                l == 0,
        ;
    }
}

/// Chinese remainder theorem for two distinct primes.
pub proof fn lemma_crt(x: int, m: int, p: int, q: int)
    requires
        is_prime(p),
        is_prime(q),
        p != q,
        0 <= m < p * q,
        x % p == m % p,
        x % q == m % q,
    ensures
        x % (p * q) == m,
{
    let n = p * q;
    lemma_mul_strictly_positive(p, q);
    let y = x % n;
    lemma_mod_bound(x, n);
    lemma_mod_mod(x, p, q);
    lemma_mod_mod(x, q, p);
    lemma_mul_is_commutative(p, q);
    assert(y % p == m % p);
    assert(y % q == m % q);
    lemma_small_mod(0, p as nat);
    lemma_small_mod(0, q as nat);
    if y >= m {
        lemma_sub_mod_noop(y, m, p);
        lemma_sub_mod_noop(y, m, q);
        lemma_two_primes_divide(p, q, y - m);
    } else {
        lemma_sub_mod_noop(m, y, p);
        lemma_sub_mod_noop(m, y, q);
        lemma_two_primes_divide(p, q, m - y);
    }
}

/// Correctness of textbook RSA: with `n = p * q` for distinct primes and
/// `e * d ≡ 1 (mod (p-1)(q-1))`, decrypting an encrypted message below `n`
/// gives the message back.
pub proof fn lemma_rsa_round_trip(p: int, q: int, e: nat, d: nat, m: int)
    requires
        is_prime(p),
        is_prime(q),
        p != q,
        ((e * d) as int) % ((p - 1) * (q - 1)) == 1,
        0 <= m < p * q,
    ensures
        pow(pow(m, e) % (p * q), d) % (p * q) == m,
{
    let n = p * q;
    let phi = (p - 1) * (q - 1);
    lemma_mul_strictly_positive(p, q);
    lemma_mul_strictly_positive(p - 1, q - 1);
    lemma_pow_mod_noop(pow(m, e), d, n);
    lemma_pow_multiplies(m, e, d);
    lemma_fundamental_div_mod((e * d) as int, phi);
    let k = ((e * d) as int) / phi;
    lemma_div_pos_is_pos((e * d) as int, phi);
    let x = pow(m, e * d);
    let kq = (k * (q - 1)) as nat;
    let kp = (k * (p - 1)) as nat;
    lemma_mul_nonnegative(k, q - 1);
    lemma_mul_nonnegative(k, p - 1);
    let ed = (e * d) as int;
    assert(ed == phi * k + 1);
    assert(ed == 1 + (k * (q - 1)) * (p - 1)) by (nonlinear_arith)
        requires
            ed == phi * k + 1,
            phi == (p - 1) * (q - 1),
    ;
    assert(ed == 1 + (k * (p - 1)) * (q - 1)) by (nonlinear_arith)
        requires
            ed == phi * k + 1,
            phi == (p - 1) * (q - 1),
    ;
    assert(e * d == 1 + kq * ((p - 1) as nat));
    assert(e * d == 1 + kp * ((q - 1) as nat));
    lemma_fermat_exponent(m, p, kq);
    lemma_fermat_exponent(m, q, kp);
    lemma_crt(x, m, p, q);
}


/// The value computed from the Bézout coefficient is the inverse of `a` modulo `m`.
pub proof fn lemma_mod_inverse_value(a: int, m: int)
    requires
        a >= 0,
        m > 0,
        gcd(a as nat, m as nat) == 1,
    ensures
        0 <= mod_inverse_value(a, m) < m,
        (a * mod_inverse_value(a, m)) % m == 1int % m,
{
    lemma_ext_gcd(a, m);
    let (g, x, y) = ext_gcd(a, m);
    assert(a * x + m * y == 1);
    let v = mod_inverse_value(a, m);
    lemma_mod_bound(x % m + m, m);
    // v ≡ x (mod m)
    lemma_mod_add_multiples_vanish(x % m, m);
    lemma_mod_twice(x, m);
    assert(v % m == x % m) by {
        lemma_small_mod(v as nat, m as nat);
    }
    lemma_mul_mod_noop_right(a, v, m);
    lemma_mul_mod_noop_right(a, x, m);
    // a * x ≡ 1 (mod m)
    assert(a * x == 1 + m * (-y)) by (nonlinear_arith)
        requires
            a * x + m * y == 1,
    ;
    lemma_mod_multiples_vanish(-y, 1, m);
}


/// A common divisor of `a` and `b` divides their greatest common divisor.
pub proof fn lemma_common_divisor(a: nat, b: nat, d: int)
    requires
        d > 0,
        divides(d, a as int),
        divides(d, b as int),
    ensures
        divides(d, gcd(a, b) as int),
    decreases b,
{
    if b > 0 {
        let q = (a / b) as int;
        let r = a % b;
        lemma_fundamental_div_mod(a as int, b as int);
        lemma_divides_quotient(d, a as int);
        lemma_divides_quotient(d, b as int);
        let ka = a as int / d;
        let kb = b as int / d;
        assert(r == d * (ka - kb * q)) by (nonlinear_arith)
            requires
                a == b * q + r,
                a == d * ka,
                b == d * kb,
        ;
        lemma_divides_multiple(d, ka - kb * q);
        lemma_common_divisor(b, r, d);
    }
}

/// The greatest common divisor does not depend on the order of its arguments.
pub proof fn lemma_gcd_commutes(a: nat, b: nat)
    ensures
        gcd(a, b) == gcd(b, a),
{
    lemma_gcd_divides(a, b);
    lemma_gcd_divides(b, a);
    let g1 = gcd(a, b) as int;
    let g2 = gcd(b, a) as int;
    if a > 0 || b > 0 {
        lemma_common_divisor(b, a, g1);
        lemma_common_divisor(a, b, g2);
        lemma_divisor_le(g1, g2);
        lemma_divisor_le(g2, g1);
    } else {
        assert(gcd(0, 0) == 0);
    }
}

} // verus!
