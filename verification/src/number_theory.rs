//! Mathematical model of divisibility, greatest common divisors and primes,
//! with the lemmas the executable number-theory tools rest on.
use vstd::arithmetic::div_mod::*;
use vstd::arithmetic::mul::*;
use vstd::prelude::*;

verus! {

/// `d` divides `x`: some natural multiple of `d` equals `x`
/// (so `0` divides only `0`).
pub open spec fn divides(d: nat, x: nat) -> bool {
    if d == 0 {
        x == 0
    } else {
        x % d == 0
    }
}

/// `g` is a greatest common divisor of `a` and `b`: it divides both, and every
/// common divisor of `a` and `b` divides it.
pub open spec fn is_gcd(a: nat, b: nat, g: nat) -> bool {
    &&& divides(g, a)
    &&& divides(g, b)
    &&& forall|d: nat| divides(d, a) && divides(d, b) ==> #[trigger] divides(d, g)
}

/// The greatest common divisor of `a` and `b` (`gcd(0, 0) == 0`).
pub open spec fn gcd(a: nat, b: nat) -> nat {
    choose|g: nat| is_gcd(a, b, g)
}

/// Absolute value of an integer, as a natural number.
pub open spec fn abs(x: int) -> nat {
    if x < 0 {
        (-x) as nat
    } else {
        x as nat
    }
}

/// Rust's `/` on signed integers: the quotient rounded toward zero.
pub open spec fn trunc_div(x: int, d: int) -> int {
    let q = (abs(x) / abs(d)) as int;
    if (x < 0) == (d < 0) {
        q
    } else {
        -q
    }
}

/// Rust's `%` on signed integers: what remains after the truncated quotient.
pub open spec fn trunc_rem(x: int, d: int) -> int {
    x - d * trunc_div(x, d)
}

/// Truncated division leaves a remainder smaller than the divisor in size and
/// carrying the sign of the dividend.
pub proof fn lemma_trunc_rem_bounds(x: int, d: int)
    requires
        d != 0,
    ensures
        abs(trunc_rem(x, d)) < abs(d),
        trunc_rem(x, d) == 0 || (trunc_rem(x, d) < 0) == (x < 0),
        x == d * trunc_div(x, d) + trunc_rem(x, d),
{
    let ax = abs(x) as int;
    let ad = abs(d) as int;
    lemma_fundamental_div_mod(ax, ad);
    let q = ax / ad;
    let r = ax % ad;
    assert(0 <= r < ad);
    if x >= 0 && d > 0 {
    } else if x >= 0 {
        assert(d * (-q) == ad * q) by (nonlinear_arith)
            requires
                ad == -d,
        ;
    } else if d > 0 {
        assert(d * (-q) == -(ad * q)) by (nonlinear_arith)
            requires
                ad == d,
        ;
    } else {
        assert(d * q == -(ad * q)) by (nonlinear_arith)
            requires
                ad == -d,
        ;
    }
}

/// Truncated division and remainder by cases on the signs, and the bounds
/// that keep them inside the range of `i64` except for `i64::MIN / -1`.
pub proof fn lemma_trunc_cases(x: int, d: int)
    requires
        d != 0,
        i64::MIN <= x <= i64::MAX,
        i64::MIN <= d <= i64::MAX,
        !(x == i64::MIN && d == -1),
    ensures
        trunc_div(x, d) == (if x == 0 {
            0
        } else if x > 0 && d > 0 {
            x / d
        } else if x < 0 && d < 0 {
            (x * -1) / (d * -1)
        } else if x < 0 {
            ((x * -1) / d) * -1
        } else {
            (x / (d * -1)) * -1
        }),
        trunc_rem(x, d) == (if x == 0 {
            0
        } else if x > 0 && d > 0 {
            x % d
        } else if x < 0 && d < 0 {
            ((x * -1) % (d * -1)) * -1
        } else if x < 0 {
            ((x * -1) % d) * -1
        } else {
            x % (d * -1)
        }),
        i64::MIN <= trunc_div(x, d) <= i64::MAX,
        i64::MIN <= trunc_rem(x, d) <= i64::MAX,
{
    let ax = abs(x) as int;
    let ad = abs(d) as int;
    lemma_fundamental_div_mod(ax, ad);
    lemma_div_nonincreasing(ax, ad);
    lemma_mod_pos_bound(ax, ad);
    let q = ax / ad;
    if ad >= 2 {
        lemma_div_is_ordered_by_denominator(ax, 2, ad);
    }
    if x >= 0 && d > 0 {
    } else if x >= 0 {
        assert(d * (-q) == ad * q) by (nonlinear_arith)
            requires
                ad == -d,
        ;
    } else if d > 0 {
        assert(d * (-q) == -(ad * q)) by (nonlinear_arith)
            requires
                ad == d,
        ;
    } else {
        assert(d * q == -(ad * q)) by (nonlinear_arith)
            requires
                ad == -d,
        ;
    }
}

/// `n` is prime: at least 2, with no divisor strictly between 1 and `n`.
pub open spec fn is_prime(n: nat) -> bool {
    n >= 2 && forall|d: nat| 2 <= d < n ==> #[trigger] (n % d) != 0
}

/// Every natural number divides 0, and 1 divides everything.
pub proof fn lemma_divides_trivial(x: nat)
    ensures
        divides(x, 0),
        divides(1, x),
        divides(x, x),
{
    if x > 0 {
        lemma_mod_self_0(x as int);
        lemma_small_mod(0, x);
    }
}

/// A positive multiple bounds its divisors: `d | x` and `x > 0` give `d <= x`.
pub proof fn lemma_divisor_le(d: nat, x: nat)
    requires
        divides(d, x),
        x > 0,
    ensures
        1 <= d <= x,
{
    lemma_fundamental_div_mod(x as int, d as int);
    let q = x / d;
    assert(x == d * q);
    if q == 0 {
        assert(d * 0 == 0) by (nonlinear_arith);
    } else {
        assert(d * q >= d) by (nonlinear_arith)
            requires
                q >= 1,
        ;
    }
}

/// Mutual divisibility forces equality.
pub proof fn lemma_divides_antisymmetric(x: nat, y: nat)
    requires
        divides(x, y),
        divides(y, x),
    ensures
        x == y,
{
    if x == 0 {
    } else if y == 0 {
    } else {
        lemma_divisor_le(x, y);
        lemma_divisor_le(y, x);
    }
}

/// Divisibility is transitive.
pub proof fn lemma_divides_transitive(a: nat, b: nat, c: nat)
    requires
        divides(a, b),
        divides(b, c),
    ensures
        divides(a, c),
{
    if a == 0 {
    } else if b == 0 {
        lemma_small_mod(0, a);
    } else {
        lemma_fundamental_div_mod(b as int, a as int);
        lemma_fundamental_div_mod(c as int, b as int);
        let s = b / a;
        let t = c / b;
        assert(c == a * (s * t)) by {
            lemma_mul_is_associative(a as int, s as int, t as int);
        }
        lemma_mod_multiples_basic((s * t) as int, a as int);
        lemma_mul_is_commutative(a as int, (s * t) as int);
    }
}

/// A divisor of `y` divides `x` exactly when it divides `x % y`.
pub proof fn lemma_divides_mod(d: nat, x: nat, y: nat)
    requires
        y > 0,
        divides(d, y),
    ensures
        divides(d, x) <==> divides(d, x % y),
{
    if d > 0 {
        lemma_fundamental_div_mod(x as int, y as int);
        lemma_fundamental_div_mod(y as int, d as int);
        let q = x / y;
        let t = y / d;
        assert(y * q == d * (t * q)) by {
            lemma_mul_is_associative(d as int, t as int, q as int);
        }
        lemma_mod_multiples_vanish((t * q) as int, (x % y) as int, d as int);
    }
}

/// Euclid's step: the common divisors of `x` and `y` are those of `y` and `x % y`.
pub proof fn lemma_common_divisors_mod(x: nat, y: nat)
    requires
        y > 0,
    ensures
        forall|d: nat|
            #![trigger divides(d, x), divides(d, y)]
            (divides(d, x) && divides(d, y)) <==> (divides(d, y) && divides(d, x % y)),
{
    assert forall|d: nat|
        #![trigger divides(d, x), divides(d, y)]
        (divides(d, x) && divides(d, y)) <==> (divides(d, y) && divides(d, x % y)) by {
        if divides(d, y) {
            lemma_divides_mod(d, x, y);
        }
    }
}

/// A greatest common divisor exists (it is the value Euclid's algorithm reaches).
pub proof fn lemma_gcd_exists(a: nat, b: nat)
    ensures
        is_gcd(a, b, gcd(a, b)),
    decreases b,
{
    if b == 0 {
        lemma_divides_trivial(a);
        assert(is_gcd(a, b, a));
    } else {
        lemma_gcd_exists(b, a % b);
        let g = gcd(b, a % b);
        lemma_common_divisors_mod(a, b);
        lemma_divides_mod(g, a, b);
        assert(is_gcd(a, b, g));
    }
}

/// The greatest common divisor is unique.
pub proof fn lemma_gcd_unique(a: nat, b: nat, g: nat)
    requires
        is_gcd(a, b, g),
    ensures
        g == gcd(a, b),
{
    lemma_gcd_exists(a, b);
    let h = gcd(a, b);
    assert(divides(g, h));
    assert(divides(h, g));
    lemma_divides_antisymmetric(g, h);
}

/// Euclid's step: `gcd(x, y) == gcd(y, x % y)` for `y > 0`.
pub proof fn lemma_gcd_step(x: nat, y: nat)
    requires
        y > 0,
    ensures
        gcd(x, y) == gcd(y, x % y),
{
    lemma_gcd_exists(y, x % y);
    let g = gcd(y, x % y);
    lemma_common_divisors_mod(x, y);
    lemma_divides_mod(g, x, y);
    assert(is_gcd(x, y, g));
    lemma_gcd_unique(x, y, g);
}

/// `gcd(x, 0) == x`.
pub proof fn lemma_gcd_zero(x: nat)
    ensures
        gcd(x, 0) == x,
{
    lemma_divides_trivial(x);
    assert forall|d: nat| divides(d, x) && divides(d, 0) implies #[trigger] divides(d, x) by {}
    assert(is_gcd(x, 0, x));
    lemma_gcd_unique(x, 0, x);
}

/// `gcd(a, b)` is bounded by any positive argument, and is 0 only for `gcd(0, 0)`.
pub proof fn lemma_gcd_bounds(a: nat, b: nat)
    ensures
        a > 0 ==> 1 <= gcd(a, b) <= a,
        b > 0 ==> 1 <= gcd(a, b) <= b,
        gcd(a, b) == 0 <==> (a == 0 && b == 0),
{
    lemma_gcd_exists(a, b);
    let g = gcd(a, b);
    if a > 0 {
        lemma_divisor_le(g, a);
    }
    if b > 0 {
        lemma_divisor_le(g, b);
    }
    if a == 0 && b == 0 {
        lemma_divides_trivial(0);
        assert(divides(0, g));
    }
}

/// A number with a factor strictly between 1 and itself has one no larger than
/// its integer square root `r`.
pub proof fn lemma_factor_below_sqrt(n: nat, d: nat, r: nat) -> (e: nat)
    requires
        2 <= d < n,
        n % d == 0,
        r * r <= n < (r + 1) * (r + 1),
    ensures
        2 <= e <= r,
        n % e == 0,
{
    lemma_fundamental_div_mod(n as int, d as int);
    let q = n / d;
    assert(n == d * q);
    if q <= 1 {
        assert(d * q <= d) by (nonlinear_arith)
            requires
                q <= 1,
        ;
    }
    if d <= r {
        d
    } else {
        if q > r {
            assert(d * q >= (r + 1) * (r + 1)) by (nonlinear_arith)
                requires
                    d >= r + 1,
                    q >= r + 1,
            ;
        }
        assert(n == q * d) by {
            lemma_mul_is_commutative(d as int, q as int);
        }
        lemma_mod_multiples_basic(d as int, q as int);
        q
    }
}

/// A number below `d * d` with a factor strictly between 1 and itself has a
/// factor below `d`.
pub proof fn lemma_factor_below(n: nat, e: nat, d: nat) -> (f: nat)
    requires
        2 <= e < n,
        n % e == 0,
        n < d * d,
    ensures
        2 <= f < d,
        n % f == 0,
{
    lemma_fundamental_div_mod(n as int, e as int);
    let q = n / e;
    assert(n == e * q);
    if q <= 1 {
        assert(e * q <= e) by (nonlinear_arith)
            requires
                q <= 1,
        ;
    }
    if e < d {
        e
    } else {
        if q >= d {
            assert(e * q >= d * d) by (nonlinear_arith)
                requires
                    e >= d,
                    q >= d,
            ;
        }
        assert(n == q * e) by {
            lemma_mul_is_commutative(e as int, q as int);
        }
        lemma_mod_multiples_basic(e as int, q as int);
        q
    }
}

/// Every divisor of `m / d` divides `m`: dividing out a factor loses no
/// divisor.
pub proof fn lemma_divisor_of_quotient(m: nat, d: nat, e: nat)
    requires
        d > 0,
        m % d == 0,
        e > 0,
        (m / d) % e == 0,
    ensures
        m % e == 0,
{
    lemma_fundamental_div_mod(m as int, d as int);
    assert(m == (m / d) * d) by {
        lemma_mul_is_commutative(d as int, (m / d) as int);
    }
    assert(divides(e, m / d));
    let q = m / d;
    assert(m == d * q);
    if q > 0 {
        lemma_mod_multiples_basic(d as int, q as int);
        assert(m % q == 0);
    } else {
        assert(d * 0 == 0);
    }
    assert(divides(q, m));
    lemma_divides_transitive(e, m / d, m);
}

/// An even number never divides an odd one.
pub proof fn lemma_even_never_divides_odd(n: nat, d: nat)
    requires
        n % 2 == 1,
        d % 2 == 0,
        d > 0,
    ensures
        n % d != 0,
{
    if n % d == 0 {
        assert(divides(2, d));
        assert(divides(d, n));
        lemma_divides_transitive(2, d, n);
    }
}

/// A number at least 2 whose only factors in `[2, k)` are none, and of which
/// `k > 1` is a factor, has `k` as a prime factor.
pub proof fn lemma_least_factor_is_prime(m: nat, k: nat)
    requires
        k >= 2,
        m % k == 0,
        forall|e: nat| 2 <= e < k ==> #[trigger] (m % e) != 0,
    ensures
        is_prime(k),
{
    assert forall|e: nat| 2 <= e < k implies #[trigger] (k % e) != 0 by {
        if k % e == 0 {
            assert(divides(e, k));
            assert(divides(k, m));
            lemma_divides_transitive(e, k, m);
        }
    }
}

/// Product of a sequence of factors (1 for the empty sequence).
pub open spec fn product(s: Seq<u64>) -> nat
    decreases s.len(),
{
    if s.len() == 0 {
        1
    } else {
        product(s.drop_last()) * (s.last() as nat)
    }
}

/// Appending a factor multiplies the product by it.
pub proof fn lemma_product_push(s: Seq<u64>, x: u64)
    ensures
        product(s.push(x)) == product(s) * (x as nat),
{
    assert(s.push(x).drop_last() =~= s);
}

/// `d` divides every multiple `d · k`.
pub proof fn lemma_divides_multiple(d: nat, k: nat)
    ensures
        divides(d, d * k),
{
    if d > 0 {
        lemma_mod_multiples_basic(k as int, d as int);
        lemma_mul_is_commutative(d as int, k as int);
    } else {
        assert(0 * k == 0);
    }
}

/// A divisor splits its multiple: `d | x` gives `x == d · (x / d)` for `d > 0`.
pub proof fn lemma_divides_quotient(d: nat, x: nat)
    requires
        d > 0,
        divides(d, x),
    ensures
        x == d * (x / d),
{
    lemma_fundamental_div_mod(x as int, d as int);
}

/// Scaling both arguments scales the remainder: `(c·a) % (c·b) == c · (a % b)`.
pub proof fn lemma_mod_scale(c: nat, a: nat, b: nat)
    requires
        c > 0,
        b > 0,
    ensures
        (c * a) % (c * b) == c * (a % b),
{
    lemma_fundamental_div_mod(a as int, b as int);
    let (q, r) = (a / b, a % b);
    assert(c * a == q * (c * b) + c * r) by (nonlinear_arith)
        requires
            a == b * q + r,
    ;
    assert(0 <= c * r < c * b) by (nonlinear_arith)
        requires
            0 <= r < b,
            c > 0,
    ;
    lemma_fundamental_div_mod_converse_mod((c * a) as int, (c * b) as int, q as int, (c * r) as int);
}

/// Homogeneity: `gcd(c·a, c·b) == c · gcd(a, b)`.
pub proof fn lemma_gcd_scale(c: nat, a: nat, b: nat)
    ensures
        gcd(c * a, c * b) == c * gcd(a, b),
    decreases b,
{
    if c == 0 {
        assert(0 * a == 0 && 0 * b == 0 && 0 * gcd(a, b) == 0);
        lemma_gcd_zero(0);
    } else if b == 0 {
        assert(c * 0 == 0);
        lemma_gcd_zero(c * a);
        lemma_gcd_zero(a);
    } else {
        assert(c * b > 0) by (nonlinear_arith)
            requires
                c > 0,
                b > 0,
        ;
        lemma_gcd_step(c * a, c * b);
        lemma_mod_scale(c, a, b);
        lemma_gcd_scale(c, b, a % b);
        lemma_gcd_step(a, b);
    }
}

/// The greatest common divisor of two numbers is the same in either order.
pub proof fn law_gcd_commutative(a: nat, b: nat)
    ensures
        gcd(a, b) == gcd(b, a),
{
    lemma_gcd_exists(a, b);
    assert(is_gcd(b, a, gcd(a, b)));
    lemma_gcd_unique(b, a, gcd(a, b));
}

/// `|a| / gcd(|a|, |b|) · |b|` is the least common multiple: a common multiple
/// of `a` and `b` that divides every common multiple, and it times the greatest
/// common divisor is `a · b`.
pub proof fn law_lcm_is_least_common_multiple(a: nat, b: nat)
    requires
        a > 0 || b > 0,
    ensures
        ({
            let g = gcd(a, b);
            let l = a / g * b;
            &&& divides(a, l)
            &&& divides(b, l)
            &&& l * g == a * b
            &&& forall|m: nat| divides(a, m) && divides(b, m) ==> #[trigger] divides(l, m)
        }),
{
    lemma_gcd_exists(a, b);
    lemma_gcd_bounds(a, b);
    let g = gcd(a, b);
    let l = a / g * b;
    lemma_divides_quotient(g, a);
    lemma_divides_quotient(g, b);
    let (a1, b1) = (a / g, b / g);
    assert(l == a * b1 && l == a1 * b && l == g * (a1 * b1) && l * g == a * b) by (nonlinear_arith)
        requires
            a == g * a1,
            b == g * b1,
            l == a1 * b,
    ;
    lemma_divides_multiple(a, b1);
    lemma_divides_multiple(b, a1);
    lemma_mul_is_commutative(a1 as int, b as int);
    // The cofactors are coprime.
    lemma_gcd_scale(g, a1, b1);
    assert(g * gcd(a1, b1) == g * 1);
    lemma_mul_equality_converse(g as int, gcd(a1, b1) as int, 1);
    assert forall|m: nat| divides(a, m) && divides(b, m) implies #[trigger] divides(l, m) by {
        if m == 0 {
            lemma_divides_trivial(l);
        } else {
            if a == 0 {
                assert(divides(0, m));
            }
            if b == 0 {
                assert(divides(0, m));
            }
            lemma_divides_quotient(a, m);
            lemma_divides_quotient(b, m);
            let (x, y) = (m / a, m / b);
            // b1 divides a1 · x, and b1 · x, hence their greatest common divisor x.
            assert(g * (a1 * x) == g * (b1 * y)) by (nonlinear_arith)
                requires
                    m == a * x,
                    m == b * y,
                    a == g * a1,
                    b == g * b1,
            ;
            lemma_mul_equality_converse(g as int, (a1 * x) as int, (b1 * y) as int);
            lemma_divides_multiple(b1, y);
            lemma_divides_multiple(b1, x);
            lemma_mul_is_commutative(a1 as int, x as int);
            lemma_mul_is_commutative(b1 as int, x as int);
            lemma_gcd_scale(x, a1, b1);
            lemma_gcd_exists(x * a1, x * b1);
            assert(x * 1 == x);
            assert(divides(b1, x));
            assert(b1 > 0) by (nonlinear_arith)
                requires
                    b == g * b1,
                    b > 0,
            ;
            lemma_divides_quotient(b1, x);
            let z = x / b1;
            assert(m == l * z) by (nonlinear_arith)
                requires
                    m == a * x,
                    x == b1 * z,
                    l == a * b1,
            ;
            lemma_divides_multiple(l, z);
        }
    }
}

} // verus!
