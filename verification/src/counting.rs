//! Mathematical model of the counting functions: factorials, Fibonacci
//! numbers, binomial coefficients, Stirling and Bell numbers, derangements.
use vstd::arithmetic::mul::{lemma_mul_equality_converse, lemma_mul_is_commutative};
use vstd::prelude::*;

verus! {

/// `n! = 1 · 2 · … · n`, with `0! = 1`.
pub open spec fn factorial(n: nat) -> nat
    decreases n,
{
    if n == 0 {
        1
    } else {
        n * factorial((n - 1) as nat)
    }
}

/// The Fibonacci numbers: `F(0) = 0`, `F(1) = 1`, `F(n) = F(n-1) + F(n-2)`.
pub open spec fn fib(n: nat) -> nat
    decreases n,
{
    if n == 0 {
        0
    } else if n == 1 {
        1
    } else {
        fib((n - 1) as nat) + fib((n - 2) as nat)
    }
}

/// The binomial coefficient `C(n, k)`: the number of `k`-element subsets of an
/// `n`-element set, by Pascal's rule (`C(n, k) = 0` for `k > n`).
pub open spec fn binomial(n: nat, k: nat) -> nat
    decreases n,
{
    if k == 0 {
        1
    } else if n == 0 {
        0
    } else {
        binomial((n - 1) as nat, (k - 1) as nat) + binomial((n - 1) as nat, k)
    }
}

/// `C(n, k) == 0` when `k > n`.
pub proof fn lemma_binomial_above(n: nat, k: nat)
    requires
        k > n,
    ensures
        binomial(n, k) == 0,
    decreases n,
{
    if n > 0 {
        lemma_binomial_above((n - 1) as nat, (k - 1) as nat);
        lemma_binomial_above((n - 1) as nat, k);
    }
}

/// `C(n, n) == 1`.
pub proof fn lemma_binomial_diagonal(n: nat)
    ensures
        binomial(n, n) == 1,
    decreases n,
{
    if n > 0 {
        lemma_binomial_diagonal((n - 1) as nat);
        lemma_binomial_above((n - 1) as nat, n);
    }
}

/// The factorial formula: `C(n, k) · k! · (n - k)! == n!` for `k <= n`.
pub proof fn lemma_binomial_factorials(n: nat, k: nat)
    requires
        k <= n,
    ensures
        binomial(n, k) * factorial(k) * factorial((n - k) as nat) == factorial(n),
    decreases n,
{
    if k == 0 {
        assert(factorial(0) == 1);
        assert(binomial(n, 0) == 1);
        assert((n - k) as nat == n);
        assert(1 * 1 * factorial(n) == factorial(n));
    } else if k == n {
        lemma_binomial_diagonal(n);
        assert(factorial(0) == 1);
        assert((n - k) as nat == 0);
        assert(1 * factorial(n) * 1 == factorial(n));
    } else {
        let n1 = (n - 1) as nat;
        let k1 = (k - 1) as nat;
        lemma_binomial_factorials(n1, k1);
        lemma_binomial_factorials(n1, k);
        let a = binomial(n1, k1);
        let b = binomial(n1, k);
        let fk1 = factorial(k1);
        let fr1 = factorial((n - k - 1) as nat);
        let big = factorial(n1);
        assert((n1 - k1) as nat == (n - k) as nat);
        assert(factorial(k) == k * fk1);
        assert(factorial((n - k) as nat) == (n - k) * fr1);
        assert(factorial(n) == n * big);
        assert(a * fk1 * ((n - k) * fr1) == big);
        assert(b * (k * fk1) * fr1 == big);
        assert((a + b) * (k * fk1) * ((n - k) * fr1) == n * big) by (nonlinear_arith)
            requires
                a * fk1 * ((n - k) * fr1) == big,
                b * (k * fk1) * fr1 == big,
                k < n,
        ;
        assert(binomial(n, k) == a + b);
    }
}

/// Cancel a positive factor: `x · p == y · p` with `p > 0` gives `x == y`.
proof fn lemma_cancel(x: nat, y: nat, p: nat)
    requires
        p > 0,
        x * p == y * p,
    ensures
        x == y,
{
    lemma_mul_is_commutative(x as int, p as int);
    lemma_mul_is_commutative(y as int, p as int);
    lemma_mul_equality_converse(p as int, x as int, y as int);
}

/// Symmetry: `C(n, k) == C(n, n - k)` for `k <= n`.
pub proof fn lemma_binomial_symmetric(n: nat, k: nat)
    requires
        k <= n,
    ensures
        binomial(n, k) == binomial(n, (n - k) as nat),
{
    let j = (n - k) as nat;
    lemma_binomial_factorials(n, k);
    lemma_binomial_factorials(n, j);
    assert((n - j) as nat == k);
    lemma_factorial_monotone(0, k);
    lemma_factorial_monotone(0, j);
    let p = factorial(k) * factorial(j);
    assert(p > 0) by (nonlinear_arith)
        requires
            factorial(k) >= 1,
            factorial(j) >= 1,
            p == factorial(k) * factorial(j),
    ;
    assert(binomial(n, k) * p == binomial(n, j) * p) by (nonlinear_arith)
        requires
            binomial(n, k) * factorial(k) * factorial(j) == factorial(n),
            binomial(n, j) * factorial(j) * factorial(k) == factorial(n),
            p == factorial(k) * factorial(j),
    ;
    lemma_cancel(binomial(n, k), binomial(n, j), p);
}

/// Absorption: `j · C(k, j) == k · C(k - 1, j - 1)` for `j >= 1`.
pub proof fn lemma_binomial_absorption(k: nat, j: nat)
    requires
        j >= 1,
        k >= 1,
    ensures
        j * binomial(k, j) == k * binomial((k - 1) as nat, (j - 1) as nat),
{
    let k1 = (k - 1) as nat;
    let j1 = (j - 1) as nat;
    if j > k {
        lemma_binomial_above(k, j);
        lemma_binomial_above(k1, j1);
    } else {
        lemma_binomial_factorials(k, j);
        lemma_binomial_factorials(k1, j1);
        assert((k1 - j1) as nat == (k - j) as nat);
        let fj1 = factorial(j1);
        let fr = factorial((k - j) as nat);
        lemma_factorial_monotone(0, j1);
        lemma_factorial_monotone(0, (k - j) as nat);
        assert(factorial(j) == j * fj1);
        assert(factorial(k) == k * factorial(k1));
        let p = fj1 * fr;
        assert(p > 0) by (nonlinear_arith)
            requires
                fj1 >= 1,
                fr >= 1,
                p == fj1 * fr,
        ;
        assert((j * binomial(k, j)) * p == (k * binomial(k1, j1)) * p) by (nonlinear_arith)
            requires
                binomial(k, j) * (j * fj1) * fr == k * factorial(k1),
                binomial(k1, j1) * fj1 * fr == factorial(k1),
                p == fj1 * fr,
        ;
        lemma_cancel(j * binomial(k, j), k * binomial(k1, j1), p);
    }
}

/// One step of the multiplicative formula:
/// `C(n, i) · (n - i) == C(n, i + 1) · (i + 1)` for `i < n`.
pub proof fn lemma_binomial_step(n: nat, i: nat)
    requires
        i < n,
    ensures
        binomial(n, i) * (n - i) == binomial(n, i + 1) * (i + 1),
{
    let n1 = (n - 1) as nat;
    lemma_binomial_absorption(n, i + 1);
    lemma_binomial_symmetric(n, i);
    lemma_binomial_absorption(n, (n - i) as nat);
    lemma_binomial_symmetric(n1, i);
    assert((n1 - i) as nat == (n - i - 1) as nat);
    lemma_mul_is_commutative(binomial(n, i) as int, (n - i) as int);
    lemma_mul_is_commutative(binomial(n, i + 1) as int, (i + 1) as int);
}

/// `j · C(n, j)` grows with `j` while `j <= n - j`.
pub proof fn lemma_binomial_weighted_monotone(n: nat, a: nat, b: nat)
    requires
        1 <= a <= b,
        b <= n - b,
    ensures
        binomial(n, a) * a <= binomial(n, b) * b,
    decreases b - a,
{
    if a < b {
        let c = (b - 1) as nat;
        lemma_binomial_weighted_monotone(n, a, c);
        lemma_binomial_step(n, c);
        assert(binomial(n, c) * c <= binomial(n, c) * (n - c)) by (nonlinear_arith)
            requires
                c <= n - c,
        ;
    }
}

/// The falling factorial `n · (n - 1) · … · (n - k + 1)`: the number of
/// ordered selections of `k` out of `n` (0 when `k > n`).
pub open spec fn falling(n: nat, k: nat) -> nat
    decreases k,
{
    if k == 0 {
        1
    } else if k <= n {
        falling(n, (k - 1) as nat) * ((n - k + 1) as nat)
    } else {
        0
    }
}

/// The falling factorial grows with `k` while `k <= n`.
pub proof fn lemma_falling_monotone(n: nat, i: nat, j: nat)
    requires
        i <= j <= n,
    ensures
        1 <= falling(n, i) <= falling(n, j),
    decreases j,
{
    if j > 0 {
        if i < j {
            lemma_falling_monotone(n, i, (j - 1) as nat);
        } else {
            lemma_falling_monotone(n, (j - 1) as nat, (j - 1) as nat);
        }
        let f = falling(n, (j - 1) as nat);
        assert(f * ((n - j + 1) as nat) >= f) by (nonlinear_arith)
            requires
                f >= 1,
                j <= n,
        ;
    }
}

/// `n! / (n - k)!`: `falling(n, k) · (n - k)! == n!` for `k <= n`.
pub proof fn lemma_falling_factorials(n: nat, k: nat)
    requires
        k <= n,
    ensures
        falling(n, k) * factorial((n - k) as nat) == factorial(n),
    decreases k,
{
    if k == 0 {
        assert(1 * factorial(n) == factorial(n));
    } else {
        lemma_falling_factorials(n, (k - 1) as nat);
        let m = (n - k) as nat;
        assert((n - (k - 1)) as nat == m + 1);
        assert(factorial(m + 1) == (m + 1) * factorial(m));
        let f = falling(n, (k - 1) as nat);
        assert(f * ((m + 1) as nat) * factorial(m) == factorial(n)) by (nonlinear_arith)
            requires
                f * ((m + 1) * factorial(m)) == factorial(n),
        ;
    }
}

/// `34!` is the largest factorial that fits a `u128`.
pub proof fn lemma_factorial_34()
    ensures
        factorial(34) == 295232799039604140847618609643520000000,
        factorial(34) <= u128::MAX,
        factorial(35) > u128::MAX,
{
    assert(factorial(0) == 1);
    assert(factorial(1) == 1);
    assert(factorial(2) == 2);
    assert(factorial(3) == 6);
    assert(factorial(4) == 24);
    assert(factorial(5) == 120);
    assert(factorial(6) == 720);
    assert(factorial(7) == 5040);
    assert(factorial(8) == 40320);
    assert(factorial(9) == 362880);
    assert(factorial(10) == 3628800);
    assert(factorial(11) == 39916800);
    assert(factorial(12) == 479001600);
    assert(factorial(13) == 6227020800);
    assert(factorial(14) == 87178291200);
    assert(factorial(15) == 1307674368000);
    assert(factorial(16) == 20922789888000);
    assert(factorial(17) == 355687428096000);
    assert(factorial(18) == 6402373705728000);
    assert(factorial(19) == 121645100408832000);
    assert(factorial(20) == 2432902008176640000);
    assert(factorial(21) == 51090942171709440000);
    assert(factorial(22) == 1124000727777607680000);
    assert(factorial(23) == 25852016738884976640000);
    assert(factorial(24) == 620448401733239439360000);
    assert(factorial(25) == 15511210043330985984000000);
    assert(factorial(26) == 403291461126605635584000000);
    assert(factorial(27) == 10888869450418352160768000000);
    assert(factorial(28) == 304888344611713860501504000000);
    assert(factorial(29) == 8841761993739701954543616000000);
    assert(factorial(30) == 265252859812191058636308480000000);
    assert(factorial(31) == 8222838654177922817725562880000000);
    assert(factorial(32) == 263130836933693530167218012160000000);
    assert(factorial(33) == 8683317618811886495518194401280000000);
    assert(factorial(34) == 295232799039604140847618609643520000000);
    assert(factorial(35) == 10333147966386144929666651337523200000000);
}

/// `C(n, k) <= 2^n`.
pub proof fn lemma_binomial_bound(n: nat, k: nat)
    ensures
        binomial(n, k) <= vstd::arithmetic::power2::pow2(n),
    decreases n,
{
    if n == 0 {
        vstd::arithmetic::power2::lemma2_to64();
        if k > 0 {
            lemma_binomial_above(0, k);
        }
    } else if k > 0 {
        vstd::arithmetic::power2::lemma_pow2_unfold(n);
        lemma_binomial_bound((n - 1) as nat, (k - 1) as nat);
        lemma_binomial_bound((n - 1) as nat, k);
    } else {
        vstd::arithmetic::power2::lemma_pow2_pos(n);
    }
}

/// `b^e` on natural numbers (`0^0 == 1`).
pub open spec fn power(b: nat, e: nat) -> nat
    decreases e,
{
    if e == 0 {
        1
    } else {
        b * power(b, (e - 1) as nat)
    }
}

/// `(-1)^m` for any integer `m`.
pub open spec fn sign(m: int) -> int {
    if m % 2 == 0 {
        1
    } else {
        -1
    }
}

/// `f(0) + f(1) + … + f(m - 1)`.
pub open spec fn sum(f: spec_fn(nat) -> int, m: nat) -> int
    decreases m,
{
    if m == 0 {
        0
    } else {
        sum(f, (m - 1) as nat) + f((m - 1) as nat)
    }
}

/// Stirling numbers of the second kind `S(n, k)`: the number of partitions of
/// an `n`-element set into `k` non-empty blocks.
pub open spec fn stirling2(n: nat, k: nat) -> nat
    decreases n,
{
    if n == 0 {
        if k == 0 {
            1
        } else {
            0
        }
    } else if k == 0 {
        0
    } else {
        k * stirling2((n - 1) as nat, k) + stirling2((n - 1) as nat, (k - 1) as nat)
    }
}

/// Term `j` of the alternating sum `Σ_j (-1)^(k-j) · C(k, j) · j^n`.
pub open spec fn alternating_term(n: nat, k: nat, j: nat) -> int {
    sign(k - j) * binomial(k, j) * power(j, n)
}

/// The first `m` terms of the alternating sum for `(n, k)`.
pub open spec fn alternating_partial(n: nat, k: nat, m: nat) -> int {
    sum(|j: nat| alternating_term(n, k, j), m)
}

/// `Σ_{j=0}^{k} (-1)^(k-j) · C(k, j) · j^n`, which equals `k! · S(n, k)`.
pub open spec fn alternating_sum(n: nat, k: nat) -> int {
    alternating_partial(n, k, k + 1)
}

/// A term of the alternating sum is `± C(k, j) · j^n`.
pub proof fn lemma_alternating_term_magnitude(n: nat, k: nat, j: nat)
    ensures
        sign(k - j) == 1 || sign(k - j) == -1,
        sign(k - j) == 1 ==> alternating_term(n, k, j) == binomial(k, j) * power(j, n),
        sign(k - j) == -1 ==> alternating_term(n, k, j) == -(binomial(k, j) * power(j, n)),
{
    let (s, c, q) = (sign(k - j), binomial(k, j), power(j, n));
    assert(s == 1 ==> s * c * q == c * q) by (nonlinear_arith);
    assert(s == -1 ==> s * c * q == -(c * q)) by (nonlinear_arith);
}

/// Sums of functions that agree on `[0, m)` agree.
pub proof fn lemma_sum_ext(f: spec_fn(nat) -> int, g: spec_fn(nat) -> int, m: nat)
    requires
        forall|j: nat| j < m ==> #[trigger] f(j) == g(j),
    ensures
        sum(f, m) == sum(g, m),
    decreases m,
{
    if m > 0 {
        lemma_sum_ext(f, g, (m - 1) as nat);
    }
}

/// `Σ c · (f + g) == c · (Σ f + Σ g)`.
pub proof fn lemma_sum_linear(
    h: spec_fn(nat) -> int,
    f: spec_fn(nat) -> int,
    g: spec_fn(nat) -> int,
    c: int,
    m: nat,
)
    requires
        forall|j: nat| j < m ==> #[trigger] h(j) == c * (f(j) + g(j)),
    ensures
        sum(h, m) == c * (sum(f, m) + sum(g, m)),
    decreases m,
{
    if m > 0 {
        let m1 = (m - 1) as nat;
        lemma_sum_linear(h, f, g, c, m1);
        let (sf, sg, a, b) = (sum(f, m1), sum(g, m1), f(m1), g(m1));
        assert(h(m1) == c * (a + b));
        assert(sum(h, m) == sum(h, m1) + h(m1));
        assert(sum(f, m) == sf + a);
        assert(sum(g, m) == sg + b);
        assert(c * (sf + sg) + c * (a + b) == c * ((sf + a) + (sg + b))) by (nonlinear_arith);
    } else {
        assert(c * (0 + 0) == 0) by (nonlinear_arith);
    }
}

/// A telescoping sum: `Σ_{j<m} (w(j) - w(j + 1)) == w(0) - w(m)`.
pub proof fn lemma_sum_telescope(h: spec_fn(nat) -> int, w: spec_fn(nat) -> int, m: nat)
    requires
        forall|j: nat| j < m ==> #[trigger] h(j) == w(j) - w(j + 1),
    ensures
        sum(h, m) == w(0) - w(m),
    decreases m,
{
    if m > 0 {
        lemma_sum_telescope(h, w, (m - 1) as nat);
    }
}

/// `(-1)^(m-1) == -(-1)^m`.
pub proof fn lemma_sign_step(m: int)
    ensures
        sign(m - 1) == -sign(m),
{
}

/// `0^n == 0` for `n >= 1`, and `j^n == j · j^(n-1)`.
pub proof fn lemma_power_unfold(j: nat, n: nat)
    requires
        n >= 1,
    ensures
        power(j, n) == j * power(j, (n - 1) as nat),
        power(0, n) == 0,
{
}

/// Pascal's rule for `k, j >= 1`.
pub proof fn lemma_pascal(k: nat, j: nat)
    requires
        k >= 1,
        j >= 1,
    ensures
        binomial(k, j) == binomial((k - 1) as nat, (j - 1) as nat) + binomial((k - 1) as nat, j),
{
}

/// The alternating binomial sum vanishes: `Σ_j (-1)^(k-j) C(k, j) == 0` for `k >= 1`.
pub proof fn lemma_alternating_sum_base(k: nat)
    requires
        k >= 1,
    ensures
        alternating_sum(0, k) == 0,
{
    let k1 = (k - 1) as nat;
    let u = |j: nat| alternating_term(0, k, j);
    let w = |j: nat|
        if j == 0 {
            0int
        } else {
            sign(k - j) * binomial(k1, (j - 1) as nat)
        };
    assert forall|j: nat| j < k + 1 implies #[trigger] u(j) == w(j) - w(j + 1) by {
        let sg = sign(k - j);
        lemma_sign_step(k - j);
        assert(sign(k - (j + 1)) == -sg);
        assert(power(j, 0) == 1);
        let b = binomial(k1, j);
        assert(w(j + 1) == (-sg) * b);
        if j == 0 {
            assert(binomial(k, 0) == 1);
            assert(u(j) == sg * 1 * 1);
            assert(binomial(k1, 0) == 1);
            assert(w(j) == 0);
            assert(sg * 1 * 1 == 0 - (-sg) * 1) by (nonlinear_arith);
            assert(u(j) == w(j) - w(j + 1));
        } else {
            lemma_pascal(k, j);
            let a = binomial(k1, (j - 1) as nat);
            assert(u(j) == sg * (a + b) * 1);
            assert(w(j) == sg * a);
            assert(sg * (a + b) * 1 == sg * a - (-sg) * b) by (nonlinear_arith);
            assert(u(j) == w(j) - w(j + 1));
        }
    }
    lemma_sum_telescope(u, w, k + 1);
    lemma_binomial_above(k1, k);
    let sl = sign(k - (k + 1));
    assert(w(k + 1) == sl * binomial(k1, k));
    assert(sl * 0 == 0) by (nonlinear_arith);
    assert(w(k + 1) == 0);
    assert(w(0) == 0);
    assert(sum(u, k + 1) == 0);
}

/// The recurrence step: for `n, k >= 1`,
/// `A(n, k) == k · (A(n - 1, k) + A(n - 1, k - 1))` for the alternating sums `A`.
pub proof fn lemma_alternating_sum_step(n: nat, k: nat)
    requires
        n >= 1,
        k >= 1,
    ensures
        alternating_sum(n, k) == k * (alternating_sum((n - 1) as nat, k) + alternating_sum(
            (n - 1) as nat,
            (k - 1) as nat,
        )),
{
    let n1 = (n - 1) as nat;
    let k1 = (k - 1) as nat;
    let u = |j: nat| alternating_term(n, k, j);
    let v = |j: nat| alternating_term(n1, k, j);
    let w = |j: nat| alternating_term(n1, k1, j);
    assert forall|j: nat| j < k + 1 implies #[trigger] u(j) == k * (v(j) + w(j)) by {
        let sg = sign(k - j);
        lemma_sign_step(k - j);
        assert(sign(k1 - j) == -sg);
        lemma_power_unfold(j, n);
        let p = power(j, n1);
        let c = binomial(k, j);
        let b0 = binomial(k1, j);
        assert(u(j) == sg * c * (j * p));
        assert(v(j) == sg * c * p);
        assert(w(j) == (-sg) * b0 * p);
        if j == 0 {
            assert(c == 1);
            assert(b0 == 1);
            assert(u(j) == 0) by (nonlinear_arith)
                requires
                    u(j) == sg * c * (j * p),
                    j == 0,
            ;
            assert(v(j) + w(j) == 0) by (nonlinear_arith)
                requires
                    v(j) == sg * 1 * p,
                    w(j) == (-sg) * 1 * p,
            ;
        } else {
            lemma_pascal(k, j);
            lemma_binomial_absorption(k, j);
            let b1 = binomial(k1, (j - 1) as nat);
            assert(c == b1 + b0);
            assert(j * c == k * b1);
            assert(sg * c * (j * p) == k * (sg * c * p + (-sg) * b0 * p)) by (nonlinear_arith)
                requires
                    c == b1 + b0,
                    j * c == k * b1,
            ;
        }
    }
    lemma_sum_linear(u, v, w, k as int, k + 1);
    lemma_binomial_above(k1, k);
    assert(binomial(k1, k) == 0);
    assert(w(k) == sign(k1 - k) * 0 * power(k, n1));
    assert(w(k) == 0);
    assert(sum(w, k + 1) == sum(w, k) + w(k));
    lemma_sum_ext(w, |j: nat| alternating_term(n1, k1, j), k);
}

/// The explicit formula for Stirling numbers of the second kind:
/// `Σ_{j=0}^{k} (-1)^(k-j) · C(k, j) · j^n == k! · S(n, k)`.
pub proof fn lemma_alternating_sum_stirling(n: nat, k: nat)
    ensures
        alternating_sum(n, k) == factorial(k) * stirling2(n, k),
    decreases n,
{
    if n == 0 {
        if k == 0 {
            assert(sum(|j: nat| alternating_term(0, 0, j), 0) == 0);
            assert(alternating_sum(0, 0) == alternating_term(0, 0, 0));
            assert(alternating_term(0, 0, 0) == 1);
            assert(factorial(0) * stirling2(0, 0) == 1);
        } else {
            lemma_alternating_sum_base(k);
            let f = factorial(k);
            assert(stirling2(0, k) == 0);
            assert(f * 0 == 0) by (nonlinear_arith);
        }
    } else if k == 0 {
        assert(sum(|j: nat| alternating_term(n, 0, j), 0) == 0);
        assert(alternating_sum(n, 0) == alternating_term(n, 0, 0));
        lemma_power_unfold(0, n);
        assert(sign(0) == 1);
        assert(binomial(0, 0) == 1);
        assert(power(0, n) == 0);
        let (x, y, z) = (sign(0), binomial(0, 0), power(0, n));
        assert(x * y * z == 0) by (nonlinear_arith)
            requires
                z == 0,
        ;
        assert(alternating_term(n, 0, 0) == 0);
        assert(factorial(0) * stirling2(n, 0) == 0);
    } else {
        let n1 = (n - 1) as nat;
        let k1 = (k - 1) as nat;
        lemma_alternating_sum_step(n, k);
        lemma_alternating_sum_stirling(n1, k);
        lemma_alternating_sum_stirling(n1, k1);
        assert(factorial(k) == k * factorial(k1));
        assert(k * (factorial(k) * stirling2(n1, k) + factorial(k1) * stirling2(n1, k1)) == factorial(
            k,
        ) * (k * stirling2(n1, k) + stirling2(n1, k1))) by (nonlinear_arith)
            requires
                factorial(k) == k * factorial(k1),
        ;
        assert(stirling2(n, k) == k * stirling2(n1, k) + stirling2(n1, k1));
        assert(alternating_sum(n, k) == k * (factorial(k) * stirling2(n1, k) + factorial(k1)
            * stirling2(n1, k1)));
    }
}

/// `S(n, k) == 0` for `k > n`.
pub proof fn lemma_stirling2_above(n: nat, k: nat)
    requires
        k > n,
    ensures
        stirling2(n, k) == 0,
    decreases n,
{
    if n > 0 {
        lemma_stirling2_above((n - 1) as nat, k);
        lemma_stirling2_above((n - 1) as nat, (k - 1) as nat);
        assert(k * 0 == 0);
    }
}

/// `S(n, k) >= 1` for `1 <= k <= n`.
pub proof fn lemma_stirling2_positive(n: nat, k: nat)
    requires
        1 <= k <= n,
    ensures
        stirling2(n, k) >= 1,
    decreases n,
{
    let n1 = (n - 1) as nat;
    let k1 = (k - 1) as nat;
    assert(stirling2(n, k) == k * stirling2(n1, k) + stirling2(n1, k1));
    if k1 >= 1 {
        lemma_stirling2_positive(n1, k1);
    } else if n1 == 0 {
        assert(stirling2(0, 0) == 1);
    } else {
        lemma_stirling2_positive(n1, k);
        assert(k * stirling2(n1, k) >= 1) by (nonlinear_arith)
            requires
                k == 1,
                stirling2(n1, k) >= 1,
        ;
    }
}

/// `C(k, j) >= 1` for `j <= k`.
pub proof fn lemma_binomial_positive(k: nat, j: nat)
    requires
        j <= k,
    ensures
        binomial(k, j) >= 1,
{
    lemma_binomial_factorials(k, j);
    lemma_factorial_monotone(0, k);
    let (c, a, b) = (binomial(k, j), factorial(j), factorial((k - j) as nat));
    if c == 0 {
        assert(c * a * b == 0) by (nonlinear_arith)
            requires
                c == 0,
        ;
    }
}

/// Powers of a base of at least 1 grow with the exponent; `b^e >= b` for `e >= 1`.
pub proof fn lemma_power_monotone(b: nat, e1: nat, e2: nat)
    requires
        b >= 1,
        e1 <= e2,
    ensures
        1 <= power(b, e1) <= power(b, e2),
        e2 >= 1 ==> b <= power(b, e2),
    decreases e2,
{
    if e2 > 0 {
        let e = (e2 - 1) as nat;
        if e1 < e2 {
            lemma_power_monotone(b, e1, e);
        } else {
            lemma_power_monotone(b, e, e);
        }
        let q = power(b, e);
        assert(b * q >= q && b * q >= b) by (nonlinear_arith)
            requires
                b >= 1,
                q >= 1,
        ;
    }
}

/// `1^e == 1`.
pub proof fn lemma_power_one(e: nat)
    ensures
        power(1, e) == 1,
    decreases e,
{
    if e > 0 {
        lemma_power_one((e - 1) as nat);
    }
}

/// The number of derangements `D(n)`: permutations of `n` elements with no
/// fixed point, by `D(0) = 1`, `D(1) = 0`, `D(n) = (n - 1) · (D(n-1) + D(n-2))`.
pub open spec fn derangement_count(n: nat) -> nat
    decreases n,
{
    if n == 0 {
        1
    } else if n == 1 {
        0
    } else {
        ((n - 1) as nat) * (derangement_count((n - 1) as nat) + derangement_count((n - 2) as nat))
    }
}

/// The Bell number `B(n)`: the number of partitions of an `n`-element set,
/// `Σ_{k=0}^{n} S(n, k)`.
pub open spec fn bell_number(n: nat) -> nat {
    sum(|k: nat| stirling2(n, k) as int, n + 1) as nat
}

/// `D(i) <= D(j)` for `1 <= i <= j`.
pub proof fn lemma_derangement_monotone(i: nat, j: nat)
    requires
        1 <= i <= j,
    ensures
        derangement_count(i) <= derangement_count(j),
    decreases j,
{
    if i < j {
        let j1 = (j - 1) as nat;
        lemma_derangement_monotone(i, j1);
        let (a, b) = (derangement_count(j1), derangement_count((j - 2) as nat));
        assert(j1 * (a + b) >= a) by (nonlinear_arith)
            requires
                j1 >= 1,
        ;
    }
}

/// `D(34)` is the largest derangement count that fits a `u128`.
pub proof fn lemma_derangement_34()
    ensures
        derangement_count(34) <= u128::MAX,
        derangement_count(35) > u128::MAX,
{
    assert(derangement_count(0) == 1);
    assert(derangement_count(1) == 0);
    assert(derangement_count(2) == 1 * (0 + 1));
    assert(derangement_count(3) == 2 * (1 + 0));
    assert(derangement_count(4) == 3 * (2 + 1));
    assert(derangement_count(5) == 4 * (9 + 2));
    assert(derangement_count(6) == 5 * (44 + 9));
    assert(derangement_count(7) == 6 * (265 + 44));
    assert(derangement_count(8) == 7 * (1854 + 265));
    assert(derangement_count(9) == 8 * (14833 + 1854));
    assert(derangement_count(10) == 9 * (133496 + 14833));
    assert(derangement_count(11) == 10 * (1334961 + 133496));
    assert(derangement_count(12) == 11 * (14684570 + 1334961));
    assert(derangement_count(13) == 12 * (176214841 + 14684570));
    assert(derangement_count(14) == 13 * (2290792932 + 176214841));
    assert(derangement_count(15) == 14 * (32071101049 + 2290792932));
    assert(derangement_count(16) == 15 * (481066515734 + 32071101049));
    assert(derangement_count(17) == 16 * (7697064251745 + 481066515734));
    assert(derangement_count(18) == 17 * (130850092279664 + 7697064251745));
    assert(derangement_count(19) == 18 * (2355301661033953 + 130850092279664));
    assert(derangement_count(20) == 19 * (44750731559645106 + 2355301661033953));
    assert(derangement_count(21) == 20 * (895014631192902121 + 44750731559645106));
    assert(derangement_count(22) == 21 * (18795307255050944540 + 895014631192902121));
    assert(derangement_count(23) == 22 * (413496759611120779881 + 18795307255050944540));
    assert(derangement_count(24) == 23 * (9510425471055777937262 + 413496759611120779881));
    assert(derangement_count(25) == 24 * (228250211305338670494289 + 9510425471055777937262));
    assert(derangement_count(26) == 25 * (5706255282633466762357224 + 228250211305338670494289));
    assert(derangement_count(27) == 26 * (148362637348470135821287825 + 5706255282633466762357224));
    assert(derangement_count(28) == 27 * (4005791208408693667174771274 + 148362637348470135821287825));
    assert(derangement_count(29) == 28 * (112162153835443422680893595673 + 4005791208408693667174771274));
    assert(derangement_count(30) == 29 * (3252702461227859257745914274516 + 112162153835443422680893595673));
    assert(derangement_count(31) == 30 * (97581073836835777732377428235481 + 3252702461227859257745914274516));
    assert(derangement_count(32) == 31 * (3025013288941909109703700275299910 + 97581073836835777732377428235481));
    assert(derangement_count(33) == 32 * (96800425246141091510518408809597121 + 3025013288941909109703700275299910));
    assert(derangement_count(34) == 33 * (3194414033122656019847107490716704992 + 96800425246141091510518408809597121));
    assert(derangement_count(35) == 34 * (108610077126170304674801654684367969729 + 3194414033122656019847107490716704992));
}

/// `S(n, k) <= n!`.
pub proof fn lemma_stirling2_le_factorial(n: nat, k: nat)
    ensures
        stirling2(n, k) <= factorial(n),
    decreases n,
{
    if n > 0 && k > 0 {
        let n1 = (n - 1) as nat;
        let k1 = (k - 1) as nat;
        lemma_stirling2_le_factorial(n1, k);
        lemma_stirling2_le_factorial(n1, k1);
        let f = factorial(n1);
        if k > n {
            lemma_stirling2_above(n, k);
        } else if k == n {
            lemma_stirling2_above(n1, k);
            lemma_factorial_monotone(n1, n);
            assert(k * 0 == 0);
        } else {
            let (a, b) = (stirling2(n1, k), stirling2(n1, k1));
            assert(k * a + b <= n * f) by (nonlinear_arith)
                requires
                    a <= f,
                    b <= f,
                    k < n,
            ;
        }
    }
}

/// `k_1 + k_2 + …` of a list of part sizes.
pub open spec fn seq_sum(s: Seq<u64>) -> nat
    decreases s.len(),
{
    if s.len() == 0 {
        0
    } else {
        seq_sum(s.drop_last()) + (s.last() as nat)
    }
}

/// `k_1! · k_2! · …` of a list of part sizes.
pub open spec fn factorial_product(s: Seq<u64>) -> nat
    decreases s.len(),
{
    if s.len() == 0 {
        1
    } else {
        factorial_product(s.drop_last()) * factorial(s.last() as nat)
    }
}

/// The multinomial coefficient `(k_1 + k_2 + …)! / (k_1! · k_2! · …)`.
pub open spec fn multinomial(s: Seq<u64>) -> nat {
    factorial(seq_sum(s)) / factorial_product(s)
}

/// `a! · b! <= (a + b)!`.
pub proof fn lemma_factorial_product_le(a: nat, b: nat)
    ensures
        factorial(a) * factorial(b) <= factorial(a + b),
        factorial(a) * factorial(b) >= 1,
{
    lemma_binomial_factorials(a + b, a);
    assert((a + b - a) as nat == b);
    lemma_binomial_positive(a + b, a);
    lemma_factorial_monotone(0, a);
    lemma_factorial_monotone(0, b);
    let (c, fa, fb) = (binomial(a + b, a), factorial(a), factorial(b));
    assert(fa * fb <= c * fa * fb && fa * fb >= 1) by (nonlinear_arith)
        requires
            c >= 1,
            fa >= 1,
            fb >= 1,
    ;
}

/// Prefix sums and prefix products of factorials, one part at a time; the
/// product of the factorials of the parts is at most the factorial of their sum.
pub proof fn lemma_prefix_step(s: Seq<u64>, i: int)
    requires
        0 <= i < s.len(),
    ensures
        seq_sum(s.take(i + 1)) == seq_sum(s.take(i)) + s[i],
        factorial_product(s.take(i + 1)) == factorial_product(s.take(i)) * factorial(s[i] as nat),
{
    assert(s.take(i + 1).drop_last() =~= s.take(i));
}

/// `k_1! · k_2! · … <= (k_1 + k_2 + …)!`, and the product is positive.
pub proof fn lemma_factorial_product_bound(s: Seq<u64>)
    ensures
        1 <= factorial_product(s) <= factorial(seq_sum(s)),
    decreases s.len(),
{
    if s.len() > 0 {
        let t = s.drop_last();
        lemma_factorial_product_bound(t);
        let (p, x) = (factorial_product(t), s.last() as nat);
        lemma_factorial_product_le(seq_sum(t), x);
        let (f, g) = (factorial(seq_sum(t)), factorial(x));
        lemma_factorial_monotone(0, x);
        assert(p * g <= f * g && p * g >= 1) by (nonlinear_arith)
            requires
                1 <= p <= f,
                g >= 1,
        ;
    }
}

/// `(k_1 + k_2 + …)! == m · (k_1! · k_2! · …)` for the returned `m`.
proof fn lemma_factorial_product_divides(s: Seq<u64>) -> (m: nat)
    ensures
        factorial(seq_sum(s)) == m * factorial_product(s),
    decreases s.len(),
{
    if s.len() == 0 {
        1
    } else {
        let t = s.drop_last();
        let m0 = lemma_factorial_product_divides(t);
        let (a, x) = (seq_sum(t), s.last() as nat);
        lemma_binomial_factorials(a + x, x);
        assert((a + x - x) as nat == a);
        let (c, p, fx, fa) = (binomial(a + x, x), factorial_product(t), factorial(x), factorial(a));
        assert(c * fx * fa == (c * m0) * (p * fx)) by (nonlinear_arith)
            requires
                fa == m0 * p,
        ;
        c * m0
    }
}

/// Multinomial coefficients are whole numbers: `k_1! · k_2! · …` divides
/// `(k_1 + k_2 + …)!`, so the quotient loses nothing.
pub proof fn law_multinomial_integral(s: Seq<u64>)
    ensures
        factorial(seq_sum(s)) % factorial_product(s) == 0,
        multinomial(s) * factorial_product(s) == factorial(seq_sum(s)),
{
    let m = lemma_factorial_product_divides(s);
    lemma_factorial_product_bound(s);
    let p = factorial_product(s);
    vstd::arithmetic::div_mod::lemma_mod_multiples_basic(m as int, p as int);
    vstd::arithmetic::div_mod::lemma_div_multiples_vanish(m as int, p as int);
    lemma_mul_is_commutative(m as int, p as int);
}

/// Prefix sums grow.
pub proof fn lemma_seq_sum_prefix(s: Seq<u64>, i: int)
    requires
        0 <= i <= s.len(),
    ensures
        seq_sum(s.take(i)) <= seq_sum(s),
    decreases s.len() - i,
{
    if i < s.len() {
        lemma_prefix_step(s, i);
        lemma_seq_sum_prefix(s, i + 1);
    } else {
        assert(s.take(i) =~= s);
    }
}

/// `D(n) == n · D(n - 1) + (-1)^n` for `n >= 1`.
pub proof fn law_derangement_count_closed_recurrence(n: nat)
    requires
        n >= 1,
    ensures
        derangement_count(n) == n * derangement_count((n - 1) as nat) + sign(n as int),
    decreases n,
{
    if n == 1 {
        assert(derangement_count(1) == 0);
        assert(derangement_count(0) == 1);
        assert(sign(1) == -1);
    } else {
        let n1 = (n - 1) as nat;
        assert(derangement_count(n) == n1 * (derangement_count(n1) + derangement_count(
            (n - 2) as nat,
        )));
        assert((n1 - 1) as nat == (n - 2) as nat);
        law_derangement_count_closed_recurrence(n1);
        lemma_sign_step(n as int);
        let (d1, d2) = (derangement_count(n1), derangement_count((n - 2) as nat));
        assert(n1 * (d1 + d2) == n * d1 + sign(n as int)) by (nonlinear_arith)
            requires
                d1 == n1 * d2 + sign(n1 as int),
                sign(n1 as int) == -sign(n as int),
                n1 + 1 == n,
        ;
    }
}

/// Catalan numbers are integers: `(n + 1)` divides `C(2n, n)`, so
/// `C(2n, n) / (n + 1) · (n + 1) == C(2n, n)`.
pub proof fn law_catalan_integral(n: nat)
    ensures
        binomial(2 * n, n) % (n + 1) == 0,
        binomial(2 * n, n) / (n + 1) * (n + 1) == binomial(2 * n, n),
{
    let c = binomial(2 * n, n);
    if n == 0 {
        assert(c == 1);
        assert(c % 1 == 0 && c / 1 * 1 == c) by (nonlinear_arith)
            requires
                c == 1,
        ;
    } else {
        lemma_binomial_step(2 * n, n);
        let d = binomial(2 * n, n + 1);
        assert(c == (c - d) * (n + 1)) by (nonlinear_arith)
            requires
                c * n == d * (n + 1),
        ;
        assert(c - d >= 0) by (nonlinear_arith)
            requires
                c * n == d * (n + 1),
                n >= 1,
        ;
        vstd::arithmetic::div_mod::lemma_mod_multiples_basic(c - d, (n + 1) as int);
        vstd::arithmetic::div_mod::lemma_div_multiples_vanish(c - d, (n + 1) as int);
        lemma_mul_is_commutative(c - d, (n + 1) as int);
        assert(c / (n + 1) == c - d);
    }
}

/// Term `j` of the inclusion–exclusion count of surjections,
/// `(-1)^j · C(k, j) · (k - j)^n`.
pub open spec fn surjection_term(n: nat, k: nat, j: nat) -> int {
    sign(j as int) * binomial(k, j) * power((k - j) as nat, n)
}

/// `f(0) + f(1) + … + f(m) == f(0) + (f(1) + … + f(m))`.
pub proof fn lemma_sum_front(f: spec_fn(nat) -> int, m: nat)
    ensures
        sum(f, m + 1) == f(0) + sum(|j: nat| f(j + 1), m),
    decreases m,
{
    let g = |j: nat| f(j + 1);
    assert(sum(f, 0) == 0);
    assert(sum(g, 0) == 0);
    if m > 0 {
        let m1 = (m - 1) as nat;
        lemma_sum_front(f, m1);
        assert(sum(f, m + 1) == sum(f, m) + f(m));
        assert(sum(g, m) == sum(g, m1) + g(m1));
    } else {
        assert(sum(f, 1) == sum(f, 0) + f(0));
    }
}

/// A sum taken backwards is the same sum.
pub proof fn lemma_sum_reverse(f: spec_fn(nat) -> int, m: nat)
    ensures
        sum(|j: nat| f((m - 1 - j) as nat), m) == sum(f, m),
    decreases m,
{
    if m > 0 {
        let m1 = (m - 1) as nat;
        let h = |i: nat| f(i + 1);
        let g = |j: nat| f((m - 1 - j) as nat);
        lemma_sum_reverse(h, m1);
        lemma_sum_ext(|j: nat| h((m1 - 1 - j) as nat), g, m1);
        lemma_sum_front(f, m1);
        assert(sum(g, m) == sum(g, m1) + g(m1));
    }
}

/// Inclusion–exclusion counts the surjections from an `n`-set onto a `k`-set:
/// `Σ_{j=0}^{k} (-1)^j · C(k, j) · (k - j)^n == k! · S(n, k)`.
pub proof fn law_surjection_formula(n: nat, k: nat)
    ensures
        sum(|j: nat| surjection_term(n, k, j), k + 1) == factorial(k) * stirling2(n, k),
{
    let f = |j: nat| alternating_term(n, k, j);
    lemma_sum_reverse(f, k + 1);
    assert forall|j: nat| j < k + 1 implies #[trigger] surjection_term(n, k, j) == f(
        (k + 1 - 1 - j) as nat,
    ) by {
        lemma_binomial_symmetric(k, j);
        assert((k - (k - j)) == j);
    }
    lemma_sum_ext(|j: nat| surjection_term(n, k, j), |j: nat| f((k + 1 - 1 - j) as nat), k + 1);
    lemma_alternating_sum_stirling(n, k);
}

/// Ordered selections are unordered ones arranged in every order:
/// `P(n, k) == C(n, k) · k!` for `k <= n`.
pub proof fn law_permutations_are_arranged_combinations(n: nat, k: nat)
    requires
        k <= n,
    ensures
        falling(n, k) == binomial(n, k) * factorial(k),
{
    lemma_falling_factorials(n, k);
    lemma_binomial_factorials(n, k);
    lemma_factorial_monotone(0, (n - k) as nat);
    let (p, c, f, r) = (falling(n, k), binomial(n, k), factorial(k), factorial((n - k) as nat));
    assert(p == c * f) by (nonlinear_arith)
        requires
            p * r == c * f * r,
            r >= 1,
    ;
}

/// Factorials are positive and grow with their argument.
pub proof fn lemma_factorial_monotone(i: nat, j: nat)
    requires
        i <= j,
    ensures
        1 <= factorial(i) <= factorial(j),
    decreases j,
{
    if j > 0 {
        let k = (j - 1) as nat;
        if i < j {
            lemma_factorial_monotone(i, k);
        } else {
            lemma_factorial_monotone(k, k);
        }
        let f = factorial(k);
        assert(j * f >= f) by (nonlinear_arith)
            requires
                j >= 1,
                f >= 1,
        ;
    }
}

/// Fibonacci numbers do not decrease.
pub proof fn lemma_fib_monotone(i: nat, j: nat)
    requires
        i <= j,
    ensures
        fib(i) <= fib(j),
    decreases j,
{
    if i < j {
        lemma_fib_monotone(i, (j - 1) as nat);
    }
}

/// `20!` is the largest factorial that fits a `u64`.
pub proof fn lemma_factorial_20()
    ensures
        factorial(20) == 2432902008176640000,
        factorial(21) > u64::MAX,
{
    assert(factorial(0) == 1);
    assert(factorial(1) == 1);
    assert(factorial(2) == 2);
    assert(factorial(3) == 6);
    assert(factorial(4) == 24);
    assert(factorial(5) == 120);
    assert(factorial(6) == 720);
    assert(factorial(7) == 5040);
    assert(factorial(8) == 40320);
    assert(factorial(9) == 362880);
    assert(factorial(10) == 3628800);
    assert(factorial(11) == 39916800);
    assert(factorial(12) == 479001600);
    assert(factorial(13) == 6227020800);
    assert(factorial(14) == 87178291200);
    assert(factorial(15) == 1307674368000);
    assert(factorial(16) == 20922789888000);
    assert(factorial(17) == 355687428096000);
    assert(factorial(18) == 6402373705728000);
    assert(factorial(19) == 121645100408832000);
    assert(factorial(20) == 2432902008176640000);
    assert(factorial(21) == 51090942171709440000);
}

/// `F(93)` is the largest Fibonacci number that fits a `u64`.
pub proof fn lemma_fib_93()
    ensures
        fib(93) == 12200160415121876738,
        fib(94) > u64::MAX,
{
    assert(fib(0) == 0);
    assert(fib(1) == 1);
    assert(fib(2) == 1);
    assert(fib(3) == 2);
    assert(fib(4) == 3);
    assert(fib(5) == 5);
    assert(fib(6) == 8);
    assert(fib(7) == 13);
    assert(fib(8) == 21);
    assert(fib(9) == 34);
    assert(fib(10) == 55);
    assert(fib(11) == 89);
    assert(fib(12) == 144);
    assert(fib(13) == 233);
    assert(fib(14) == 377);
    assert(fib(15) == 610);
    assert(fib(16) == 987);
    assert(fib(17) == 1597);
    assert(fib(18) == 2584);
    assert(fib(19) == 4181);
    assert(fib(20) == 6765);
    assert(fib(21) == 10946);
    assert(fib(22) == 17711);
    assert(fib(23) == 28657);
    assert(fib(24) == 46368);
    assert(fib(25) == 75025);
    assert(fib(26) == 121393);
    assert(fib(27) == 196418);
    assert(fib(28) == 317811);
    assert(fib(29) == 514229);
    assert(fib(30) == 832040);
    assert(fib(31) == 1346269);
    assert(fib(32) == 2178309);
    assert(fib(33) == 3524578);
    assert(fib(34) == 5702887);
    assert(fib(35) == 9227465);
    assert(fib(36) == 14930352);
    assert(fib(37) == 24157817);
    assert(fib(38) == 39088169);
    assert(fib(39) == 63245986);
    assert(fib(40) == 102334155);
    assert(fib(41) == 165580141);
    assert(fib(42) == 267914296);
    assert(fib(43) == 433494437);
    assert(fib(44) == 701408733);
    assert(fib(45) == 1134903170);
    assert(fib(46) == 1836311903);
    assert(fib(47) == 2971215073);
    assert(fib(48) == 4807526976);
    assert(fib(49) == 7778742049);
    assert(fib(50) == 12586269025);
    assert(fib(51) == 20365011074);
    assert(fib(52) == 32951280099);
    assert(fib(53) == 53316291173);
    assert(fib(54) == 86267571272);
    assert(fib(55) == 139583862445);
    assert(fib(56) == 225851433717);
    assert(fib(57) == 365435296162);
    assert(fib(58) == 591286729879);
    assert(fib(59) == 956722026041);
    assert(fib(60) == 1548008755920);
    assert(fib(61) == 2504730781961);
    assert(fib(62) == 4052739537881);
    assert(fib(63) == 6557470319842);
    assert(fib(64) == 10610209857723);
    assert(fib(65) == 17167680177565);
    assert(fib(66) == 27777890035288);
    assert(fib(67) == 44945570212853);
    assert(fib(68) == 72723460248141);
    assert(fib(69) == 117669030460994);
    assert(fib(70) == 190392490709135);
    assert(fib(71) == 308061521170129);
    assert(fib(72) == 498454011879264);
    assert(fib(73) == 806515533049393);
    assert(fib(74) == 1304969544928657);
    assert(fib(75) == 2111485077978050);
    assert(fib(76) == 3416454622906707);
    assert(fib(77) == 5527939700884757);
    assert(fib(78) == 8944394323791464);
    assert(fib(79) == 14472334024676221);
    assert(fib(80) == 23416728348467685);
    assert(fib(81) == 37889062373143906);
    assert(fib(82) == 61305790721611591);
    assert(fib(83) == 99194853094755497);
    assert(fib(84) == 160500643816367088);
    assert(fib(85) == 259695496911122585);
    assert(fib(86) == 420196140727489673);
    assert(fib(87) == 679891637638612258);
    assert(fib(88) == 1100087778366101931);
    assert(fib(89) == 1779979416004714189);
    assert(fib(90) == 2880067194370816120);
    assert(fib(91) == 4660046610375530309);
    assert(fib(92) == 7540113804746346429);
    assert(fib(93) == 12200160415121876738);
    assert(fib(94) == 19740274219868223167);
}

} // verus!
