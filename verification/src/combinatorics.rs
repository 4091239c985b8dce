//! Combinatorial counting tools.
use crate::counting::{
    alternating_partial, alternating_sum, alternating_term, bell_number, binomial,
    derangement_count, factorial, factorial_product, falling, lemma_factorial_product_bound,
    lemma_prefix_step, lemma_seq_sum_prefix, multinomial, seq_sum, lemma_binomial_bound, lemma_derangement_34,
    lemma_derangement_monotone, lemma_factorial_20, lemma_stirling2_le_factorial,
    lemma_alternating_sum_stirling, lemma_alternating_term_magnitude, lemma_binomial_above, lemma_binomial_positive,
    lemma_binomial_step, lemma_binomial_symmetric, lemma_binomial_weighted_monotone,
    lemma_factorial_34, lemma_factorial_monotone, lemma_falling_monotone, lemma_power_monotone,
    lemma_power_one, lemma_power_unfold, lemma_stirling2_above, lemma_stirling2_positive, power,
    stirling2, sum,
};
use crate::error::ToolError;
use crate::server::MathServer;
use vstd::prelude::*;

verus! {

/// The parameters `n` and `k` of a counting problem.
pub struct NkParams {
    pub n: u64,
    pub k: u64,
}

/// One unsigned integer parameter.
pub struct OneUInt {
    pub n: u64,
}

/// The part sizes of a multinomial coefficient.
pub struct MultinomialParams {
    pub ks: Vec<u64>,
}

/// `n!` as a `u128`, which holds it exactly for `n <= 34`.
pub fn factorial_big(n: u64) -> (r: Option<u128>)
    ensures
        n > 34 ==> r == None::<u128>,
        n <= 34 ==> r == Some(factorial(n as nat) as u128),
{
    if n > 34 {
        return None;
    }
    proof {
        lemma_factorial_34();
    }
    let mut acc: u128 = 1;
    let mut i: u64 = 0;
    while i < n
        invariant
            i <= n <= 34,
            acc == factorial(i as nat),
            factorial(34) <= u128::MAX,
        decreases n - i,
    {
        i = i + 1;
        proof {
            lemma_factorial_monotone(i as nat, 34);
            let f = factorial((i - 1) as nat);
            assert(factorial(i as nat) == i * f);
            assert(acc * i == factorial(i as nat)) by (nonlinear_arith)
                requires
                    acc == f,
                    factorial(i as nat) == i * f,
            ;
        }
        acc = acc * (i as u128);
    }
    Some(acc)
}

/// Whether the multiplicative formula for `C(n, k)` (`k <= n`), run on the
/// smaller of `k` and `n - k`, passes a product above `u128::MAX`; its largest
/// intermediate product is `C(n, j) · j` for that smaller `j`.
pub open spec fn binom_overflows(n: nat, k: nat) -> bool {
    let j = if k <= n - k {
        k
    } else {
        (n - k) as nat
    };
    j > 0 && binomial(n, j) * j > u128::MAX
}

/// `C(n, k)` by the multiplicative formula for arguments up to `u128`, or
/// `None` when an intermediate product leaves `u128`.
fn binom_wide(n: u128, k: u128) -> (r: Option<u128>)
    ensures
        k > n ==> r == Some(0u128),
        k <= n && binom_overflows(n as nat, k as nat) ==> r == None::<u128>,
        k <= n && !binom_overflows(n as nat, k as nat) ==> r == Some(
            binomial(n as nat, k as nat) as u128,
        ) && binomial(n as nat, k as nat) <= u128::MAX,
{
    if k > n {
        proof {
            lemma_binomial_above(n as nat, k as nat);
        }
        return Some(0);
    }
    let j = if k <= n - k {
        k
    } else {
        n - k
    };
    proof {
        lemma_binomial_symmetric(n as nat, k as nat);
    }
    let mut r: u128 = 1;
    let mut i: u128 = 0;
    while i < j
        invariant
            i <= j <= n - j,
            k <= n,
            j == (if k <= n - k {
                k as int
            } else {
                n - k
            }),
            r == binomial(n as nat, i as nat),
            i > 0 ==> binomial(n as nat, i as nat) * i <= u128::MAX,
        decreases j - i,
    {
        proof {
            lemma_binomial_step(n as nat, i as nat);
            lemma_binomial_weighted_monotone(n as nat, (i + 1) as nat, j as nat);
        }
        match r.checked_mul(n - i) {
            Some(t) => {
                r = t / (i + 1);
                proof {
                    let b = binomial(n as nat, (i + 1) as nat);
                    assert(t == b * (i + 1));
                    vstd::arithmetic::div_mod::lemma_div_multiples_vanish(b as int, (i + 1) as int);
                    lemma_mul_commute(b, (i + 1) as nat);
                    assert(b * (i + 1) <= u128::MAX);
                }
                i = i + 1;
            },
            None => {
                return None;
            },
        }
    }
    Some(r)
}

/// `C(n, k)` by the multiplicative formula, or `None` when an intermediate
/// product leaves `u128`.
pub fn binom(n: u64, k: u64) -> (r: Option<u128>)
    ensures
        k > n ==> r == Some(0u128),
        k <= n && binom_overflows(n as nat, k as nat) ==> r == None::<u128>,
        k <= n && !binom_overflows(n as nat, k as nat) ==> r == Some(
            binomial(n as nat, k as nat) as u128,
        ) && binomial(n as nat, k as nat) <= u128::MAX,
{
    binom_wide(n as u128, k as u128)
}

/// `b^e` as a `u128`, or `None` when it does not fit.
pub fn power_u128(b: u64, e: u64) -> (r: Option<u128>)
    ensures
        power(b as nat, e as nat) <= u128::MAX ==> r == Some(power(b as nat, e as nat) as u128),
        power(b as nat, e as nat) > u128::MAX ==> r == None::<u128>,
{
    if b == 0 {
        if e == 0 {
            return Some(1);
        } else {
            proof {
                lemma_power_unfold(0, e as nat);
            }
            return Some(0);
        }
    }
    if b == 1 {
        proof {
            lemma_power_one(e as nat);
        }
        return Some(1);
    }
    let mut acc: u128 = 1;
    let mut i: u64 = 0;
    while i < e
        invariant
            i <= e,
            b >= 2,
            acc == power(b as nat, i as nat),
        decreases e - i,
    {
        proof {
            lemma_power_monotone(b as nat, (i + 1) as nat, e as nat);
            assert(power(b as nat, (i + 1) as nat) == b * acc);
            lemma_mul_commute(b as nat, acc as nat);
        }
        match acc.checked_mul(b as u128) {
            Some(t) => {
                acc = t;
            },
            None => {
                return None;
            },
        }
        i = i + 1;
    }
    Some(acc)
}

/// `x` fits an `i128`.
pub open spec fn in_i128(x: int) -> bool {
    i128::MIN <= x <= i128::MAX
}

/// At term `j`, the alternating sum for `(n, k)` has a term or a running total
/// outside `i128`.
pub open spec fn alternating_step_overflows(n: nat, k: nat, j: nat) -> bool {
    !in_i128(alternating_term(n, k, j)) || !in_i128(alternating_partial(n, k, j + 1))
}

/// Some term or running total of the alternating sum for `(n, k)` leaves `i128`.
pub open spec fn alternating_overflows(n: nat, k: nat) -> bool {
    exists|j: nat| j <= k && #[trigger] alternating_step_overflows(n, k, j)
}

/// Adding term `j` to the first `j` terms gives the first `j + 1`.
proof fn lemma_partial_step(n: nat, k: nat, j: nat)
    ensures
        alternating_partial(n, k, j + 1) == alternating_partial(n, k, j) + alternating_term(n, k, j),
{
    let f = |i: nat| alternating_term(n, k, i);
    assert(sum(f, j + 1) == sum(f, j) + f(j));
}

/// `Σ_{j=0}^{k} (-1)^(k-j) · C(k, j) · j^n` in `i128`, or `None` when a term or
/// a running total leaves `i128`. For `k > n` the sum is `k! · S(n, k) == 0`,
/// answered without summing.
pub fn alternating_sum_i128(n: u64, k: u64) -> (r: Option<i128>)
    ensures
        k > n ==> r == Some(0i128) && alternating_sum(n as nat, k as nat) == 0,
        k <= n && alternating_overflows(n as nat, k as nat) ==> r == None::<i128>,
        k <= n && !alternating_overflows(n as nat, k as nat) ==> r == Some(
            alternating_sum(n as nat, k as nat) as i128,
        ),
{
    if k > n {
        proof {
            lemma_alternating_sum_stirling(n as nat, k as nat);
            lemma_stirling2_above(n as nat, k as nat);
        }
        return Some(0);
    }
    let ghost (nn, kk) = (n as nat, k as nat);
    let mut total: i128 = 0;
    let mut c: u128 = 1;
    let mut j: u64 = 0;
    assert(alternating_partial(nn, kk, 0) == 0);
    loop
        invariant
            j <= k <= n,
            nn == n,
            kk == k,
            c == binomial(kk, j as nat),
            total == alternating_partial(nn, kk, j as nat),
            forall|i: nat| i < j ==> !#[trigger] alternating_step_overflows(nn, kk, i),
        decreases k - j,
    {
        let ghost jj = j as nat;
        proof {
            lemma_binomial_positive(kk, jj);
            lemma_partial_step(nn, kk, jj);
            lemma_alternating_term_magnitude(nn, kk, jj);
        }
        let pw = match power_u128(j, n) {
            Some(x) => x,
            None => {
                proof {
                    let q = power(jj, nn);
                    assert(c * q >= q) by (nonlinear_arith)
                        requires
                            c >= 1,
                    ;
                    assert(alternating_step_overflows(nn, kk, jj));
                }
                return None;
            },
        };
        let mag = match c.checked_mul(pw) {
            Some(x) => x,
            None => {
                proof {
                    assert(alternating_step_overflows(nn, kk, jj));
                }
                return None;
            },
        };
        let term: i128;
        if (k - j) % 2 == 0 {
            if mag > 0x7fff_ffff_ffff_ffff_ffff_ffff_ffff_ffffu128 {
                proof {
                    assert(alternating_step_overflows(nn, kk, jj));
                }
                return None;
            }
            term = mag as i128;
        } else {
            if mag > 0x8000_0000_0000_0000_0000_0000_0000_0000u128 {
                proof {
                    assert(alternating_step_overflows(nn, kk, jj));
                }
                return None;
            }
            if mag == 0x8000_0000_0000_0000_0000_0000_0000_0000u128 {
                term = i128::MIN;
            } else {
                term = -(mag as i128);
            }
        }
        assert(term == alternating_term(nn, kk, jj));
        total = match total.checked_add(term) {
            Some(t) => t,
            None => {
                proof {
                    assert(alternating_step_overflows(nn, kk, jj));
                }
                return None;
            },
        };
        assert(!alternating_step_overflows(nn, kk, jj));
        if j == k {
            proof {
                assert forall|i: nat| i <= kk implies !#[trigger] alternating_step_overflows(
                    nn,
                    kk,
                    i,
                ) by {
                    if i < jj {
                    }
                }
            }
            return Some(total);
        }
        proof {
            lemma_binomial_step(kk, jj);
        }
        match c.checked_mul((k - j) as u128) {
            Some(t) => {
                proof {
                    let b = binomial(kk, jj + 1);
                    assert(t == b * (jj + 1));
                    vstd::arithmetic::div_mod::lemma_div_multiples_vanish(b as int, (jj + 1) as int);
                    lemma_mul_commute(b, jj + 1);
                }
                c = t / ((j + 1) as u128);
            },
            None => {
                proof {
                    let b = binomial(kk, jj + 1);
                    let q = power(jj + 1, nn);
                    lemma_power_monotone(jj + 1, 1, nn);
                    lemma_binomial_positive(kk, jj + 1);
                    assert(b * q >= b * (jj + 1)) by (nonlinear_arith)
                        requires
                            q >= jj + 1,
                    ;
                    lemma_alternating_term_magnitude(nn, kk, jj + 1);
                    assert(alternating_step_overflows(nn, kk, jj + 1));
                }
                return None;
            },
        }
        j = j + 1;
    }
}

proof fn lemma_mul_commute(a: nat, b: nat)
    ensures
        a * b == b * a,
{
}

impl MathServer {
    /// Binomial coefficient `C(n, k) = n! / (k! · (n - k)!)`.
    pub fn combinations(&self, p: NkParams) -> (r: Result<u128, ToolError>)
        ensures
            p.k > p.n ==> r == Ok::<u128, ToolError>(0),
            p.k <= p.n && binom_overflows(p.n as nat, p.k as nat) ==> r == Err::<u128, ToolError>(
                ToolError::Overflow,
            ),
            p.k <= p.n && !binom_overflows(p.n as nat, p.k as nat) ==> r == Ok::<u128, ToolError>(
                binomial(p.n as nat, p.k as nat) as u128,
            ),
    {
        match binom(p.n, p.k) {
            Some(v) => Ok(v),
            None => Err(ToolError::Overflow),
        }
    }

    /// Permutations `P(n, k) = n! / (n - k)!`, the number of ordered selections.
    pub fn permutations(&self, p: NkParams) -> (r: Result<u128, ToolError>)
        ensures
            p.k > p.n ==> r == Ok::<u128, ToolError>(0),
            p.k <= p.n && falling(p.n as nat, p.k as nat) > u128::MAX ==> r == Err::<
                u128,
                ToolError,
            >(ToolError::Overflow),
            p.k <= p.n && falling(p.n as nat, p.k as nat) <= u128::MAX ==> r == Ok::<
                u128,
                ToolError,
            >(falling(p.n as nat, p.k as nat) as u128),
    {
        let n = p.n;
        let k = p.k;
        if k > n {
            return Ok(0);
        }
        let mut r: u128 = 1;
        let mut i: u64 = 0;
        while i < k
            invariant
                i <= k <= n,
                k == p.k,
                n == p.n,
                r == falling(n as nat, i as nat),
            decreases k - i,
        {
            proof {
                lemma_falling_monotone(n as nat, (i + 1) as nat, k as nat);
                assert(falling(n as nat, (i + 1) as nat) == r * ((n - i) as nat));
            }
            match r.checked_mul((n - i) as u128) {
                Some(t) => {
                    r = t;
                },
                None => {
                    return Err(ToolError::Overflow);
                },
            }
            i = i + 1;
        }
        Ok(r)
    }

    /// Stirling number of the second kind `S(n, k)`: partitions of `n` elements
    /// into `k` non-empty subsets, from `k! · S(n, k) = Σ_j (-1)^(k-j) C(k, j) j^n`;
    /// `Overflow` where a term or running total of that sum leaves `i128`.
    pub fn stirling_second(&self, p: NkParams) -> (r: Result<i128, ToolError>)
        ensures
            1 <= p.k <= p.n && alternating_overflows(p.n as nat, p.k as nat) ==> r == Err::<
                i128,
                ToolError,
            >(ToolError::Overflow),
            !(1 <= p.k <= p.n && alternating_overflows(p.n as nat, p.k as nat)) ==> r == Ok::<
                i128,
                ToolError,
            >(stirling2(p.n as nat, p.k as nat) as i128),
    {
        let n = p.n;
        let k = p.k;
        if k == 0 {
            if n == 0 {
                return Ok(1);
            } else {
                return Ok(0);
            }
        }
        if n == 0 || k > n {
            proof {
                lemma_stirling2_above(n as nat, k as nat);
            }
            return Ok(0);
        }
        let total = match alternating_sum_i128(n, k) {
            Some(t) => t,
            None => {
                return Err(ToolError::Overflow);
            },
        };
        proof {
            assert(!alternating_step_overflows(n as nat, k as nat, k as nat));
            assert(total as int == alternating_sum(n as nat, k as nat));
            lemma_alternating_sum_stirling(n as nat, k as nat);
            lemma_stirling2_positive(n as nat, k as nat);
            lemma_factorial_34();
            let f = factorial(k as nat);
            let st = stirling2(n as nat, k as nat);
            lemma_factorial_monotone(0, k as nat);
            assert(f * st >= f && f * st >= st) by (nonlinear_arith)
                requires
                    st >= 1,
                    f >= 1,
            ;
            if k > 34 {
                lemma_factorial_monotone(35, k as nat);
            }
            assert(k <= 34);
        }
        let kf = match factorial_big(k) {
            Some(f) => f,
            None => {
                return Err(ToolError::Overflow);
            },
        };
        let q = (total as u128) / kf;
        proof {
            let st = stirling2(n as nat, k as nat);
            assert(total == kf * st);
            vstd::arithmetic::div_mod::lemma_div_multiples_vanish(st as int, kf as int);
        }
        Ok(q as i128)
    }

    /// Number of surjections (onto functions) from an `n`-set to a `k`-set,
    /// `k! · S(n, k)`; `Overflow` where a term or running total of the
    /// alternating sum leaves `i128`.
    pub fn surjections(&self, p: NkParams) -> (r: Result<i128, ToolError>)
        ensures
            p.k > p.n ==> r == Ok::<i128, ToolError>(0),
            p.k <= p.n && alternating_overflows(p.n as nat, p.k as nat) ==> r == Err::<
                i128,
                ToolError,
            >(ToolError::Overflow),
            p.k <= p.n && !alternating_overflows(p.n as nat, p.k as nat) ==> r == Ok::<
                i128,
                ToolError,
            >((factorial(p.k as nat) * stirling2(p.n as nat, p.k as nat)) as i128),
    {
        let n = p.n;
        let k = p.k;
        if k > n {
            return Ok(0);
        }
        proof {
            lemma_alternating_sum_stirling(n as nat, k as nat);
        }
        match alternating_sum_i128(n, k) {
            Some(t) => Ok(t),
            None => Err(ToolError::Overflow),
        }
    }

    /// Multiset coefficient (combinations with repetition) `C(n + k - 1, k)`:
    /// 1 for `k == 0` (the empty multiset), else computed as `binom` does, on
    /// `n + k - 1` in `u128`.
    pub fn multiset_coefficient(&self, p: NkParams) -> (r: Result<u128, ToolError>)
        ensures
            p.k == 0 ==> r == Ok::<u128, ToolError>(1),
            ({
                let top = (p.n + p.k - 1) as nat;
                p.k > 0 ==> r == (if p.k > top {
                    Ok::<u128, ToolError>(0)
                } else if binom_overflows(top, p.k as nat) {
                    Err(ToolError::Overflow)
                } else {
                    Ok(binomial(top, p.k as nat) as u128)
                })
            }),
    {
        if p.k == 0 {
            return Ok(1);
        }
        match binom_wide(p.n as u128 + (p.k - 1) as u128, p.k as u128) {
            Some(v) => Ok(v),
            None => Err(ToolError::Overflow),
        }
    }

    /// Catalan number `C_n = C(2n, n) / (n + 1)`.
    pub fn catalan(&self, p: OneUInt) -> (r: Result<u128, ToolError>)
        ensures
            binom_overflows(2 * p.n as nat, p.n as nat) ==> r == Err::<u128, ToolError>(
                ToolError::Overflow,
            ),
            !binom_overflows(2 * p.n as nat, p.n as nat) ==> r == Ok::<u128, ToolError>(
                (binomial(2 * p.n as nat, p.n as nat) / (p.n as nat + 1)) as u128,
            ),
    {
        let n = p.n as u128;
        match binom_wide(2 * n, n) {
            Some(v) => Ok(v / (n + 1)),
            None => Err(ToolError::Overflow),
        }
    }

    /// Bell number `B(n)`, the number of partitions of an `n`-element set, for
    /// `n <= 15`.
    pub fn bell(&self, p: OneUInt) -> (r: Result<u128, ToolError>)
        ensures
            p.n > 15 ==> r == Err::<u128, ToolError>(ToolError::ArgumentTooLarge(15)),
            p.n <= 15 ==> r == Ok::<u128, ToolError>(bell_number(p.n as nat) as u128),
    {
        if p.n > 15 {
            return Err(ToolError::ArgumentTooLarge(15));
        }
        let m = p.n as usize;
        proof {
            lemma_factorial_20();
        }
        let mut row: Vec<u128> = Vec::new();
        row.push(1);
        while row.len() <= m
            invariant
                1 <= row.len() <= m + 1,
                m <= 15,
                forall|t: int| 0 <= t < row.len() ==> #[trigger] row@[t] == stirling2(0, t as nat),
            decreases m + 1 - row.len(),
        {
            row.push(0);
        }
        let mut i: usize = 0;
        while i < m
            invariant
                i <= m <= 15,
                row.len() == m + 1,
                forall|t: int| 0 <= t <= m ==> #[trigger] row@[t] == stirling2(i as nat, t as nat),
                factorial(20) == 2432902008176640000,
            decreases m - i,
        {
            let mut next: Vec<u128> = Vec::new();
            next.push(0);
            let mut j: usize = 1;
            while j <= m
                invariant
                    i < m <= 15,
                    1 <= j <= m + 1,
                    next.len() == j,
                    row.len() == m + 1,
                    forall|t: int| 0 <= t <= m ==> #[trigger] row@[t] == stirling2(i as nat, t as nat),
                    forall|t: int| 0 <= t < j ==> #[trigger] next@[t] == stirling2((i + 1) as nat, t as nat),
                    factorial(20) == 2432902008176640000,
                decreases m + 1 - j,
            {
                proof {
                    let (a, b) = (stirling2(i as nat, j as nat), stirling2(i as nat, (j - 1) as nat));
                    lemma_stirling2_le_factorial((i + 1) as nat, j as nat);
                    lemma_stirling2_le_factorial(i as nat, j as nat);
                    lemma_factorial_monotone((i + 1) as nat, 20);
                    lemma_factorial_monotone(i as nat, 20);
                    assert(stirling2((i + 1) as nat, j as nat) == j * a + b);
                    assert(j * a <= 15 * 2432902008176640000) by (nonlinear_arith)
                        requires
                            j <= 15,
                            a <= 2432902008176640000,
                    ;
                }
                let v = (j as u128) * row[j] + row[j - 1];
                next.push(v);
                j = j + 1;
            }
            row = next;
            i = i + 1;
        }
        let mut total: u128 = 0;
        let mut t: usize = 0;
        let ghost f = |k: nat| stirling2(m as nat, k) as int;
        while t <= m
            invariant
                t <= m + 1,
                m <= 15,
                row.len() == m + 1,
                forall|x: int| 0 <= x <= m ==> #[trigger] row@[x] == stirling2(m as nat, x as nat),
                total == crate::counting::sum(f, t as nat),
                total <= t * 2432902008176640000,
                f == (|k: nat| stirling2(m as nat, k) as int),
                factorial(20) == 2432902008176640000,
            decreases m + 1 - t,
        {
            proof {
                lemma_stirling2_le_factorial(m as nat, t as nat);
                lemma_factorial_monotone(m as nat, 20);
            }
            total = total + row[t];
            t = t + 1;
        }
        Ok(total)
    }

    /// Number of derangements `D(n)` (permutations with no fixed point), or
    /// `Overflow` where it leaves `u128`, which it does from `n == 35` on.
    pub fn derangements(&self, p: OneUInt) -> (r: Result<u128, ToolError>)
        ensures
            derangement_count(p.n as nat) > u128::MAX ==> r == Err::<u128, ToolError>(
                ToolError::Overflow,
            ),
            derangement_count(p.n as nat) <= u128::MAX ==> r == Ok::<u128, ToolError>(
                derangement_count(p.n as nat) as u128,
            ),
    {
        let n = p.n;
        proof {
            lemma_derangement_34();
            if n > 34 {
                lemma_derangement_monotone(35, n as nat);
            }
        }
        if n > 34 {
            return Err(ToolError::Overflow);
        }
        if n == 0 {
            return Ok(1);
        }
        proof {
            lemma_derangement_34();
        }
        let mut a: u128 = 1;
        let mut b: u128 = 0;
        let mut i: u64 = 1;
        while i < n
            invariant
                1 <= i <= n <= 34,
                a == derangement_count((i - 1) as nat),
                b == derangement_count(i as nat),
                derangement_count(34) <= u128::MAX,
            decreases n - i,
        {
            proof {
                lemma_derangement_monotone((i + 1) as nat, 34);
                let d = derangement_count((i + 1) as nat);
                assert(d == i * (b + a));
                assert(b + a <= d) by (nonlinear_arith)
                    requires
                        d == i * (b + a),
                        i >= 1,
                ;
            }
            let next = (i as u128) * (b + a);
            a = b;
            b = next;
            i = i + 1;
        }
        Ok(b)
    }

    /// Row `n` of Pascal's triangle, `[C(n, 0), …, C(n, n)]`, for `n <= 30`.
    pub fn pascals_row(&self, p: OneUInt) -> (r: Result<Vec<u128>, ToolError>)
        ensures
            p.n > 30 ==> r == Err::<Vec<u128>, ToolError>(ToolError::ArgumentTooLarge(30)),
            p.n <= 30 ==> (r matches Ok(row) && row@.len() == p.n + 1 && forall|k: int|
                0 <= k <= p.n ==> #[trigger] row@[k] == binomial(p.n as nat, k as nat)),
    {
        let n = p.n;
        if n > 30 {
            return Err(ToolError::ArgumentTooLarge(30));
        }
        let mut row: Vec<u128> = Vec::new();
        let mut k: u64 = 0;
        proof {
            vstd::arithmetic::power2::lemma2_to64();
        }
        while k <= n
            invariant
                n <= 30,
                n == p.n,
                k <= n + 1,
                row@.len() == k,
                forall|t: int| 0 <= t < k ==> #[trigger] row@[t] == binomial(n as nat, t as nat),
                vstd::arithmetic::power2::pow2(30) == 0x40000000,
            decreases n + 1 - k,
        {
            proof {
                let j = if k <= n - k {
                    k
                } else {
                    (n - k) as u64
                };
                lemma_binomial_bound(n as nat, j as nat);
                let c = binomial(n as nat, j as nat);
                assert(c <= 0x40000000) by {
                    if n < 30 {
                        vstd::arithmetic::power2::lemma_pow2_strictly_increases(n as nat, 30);
                    }
                }
                assert(c * j <= 0x40000000 * 30) by (nonlinear_arith)
                    requires
                        c <= 0x40000000,
                        j <= 30,
                ;
            }
            let v = match binom(n, k) {
                Some(v) => v,
                None => 0,
            };
            row.push(v);
            k = k + 1;
        }
        Ok(row)
    }

    /// Multinomial coefficient `n! / (k_1! · k_2! · …)` where `n` is the sum of
    /// the `k_i`, for `n <= 34`.
    pub fn multinomial(&self, p: MultinomialParams) -> (r: Result<u128, ToolError>)
        ensures
            seq_sum(p.ks@) > 34 ==> r == Err::<u128, ToolError>(ToolError::TotalTooLarge),
            seq_sum(p.ks@) <= 34 ==> r == Ok::<u128, ToolError>(multinomial(p.ks@) as u128),
    {
        let ks = &p.ks;
        let ghost s = ks@;
        let mut n: u64 = 0;
        let mut i: usize = 0;
        assert(s.take(0) =~= Seq::<u64>::empty());
        while i < ks.len()
            invariant
                s == ks@,
                s == p.ks@,
                i <= ks.len(),
                n == seq_sum(s.take(i as int)),
            decreases ks.len() - i,
        {
            proof {
                lemma_prefix_step(s, i as int);
                lemma_seq_sum_prefix(s, (i + 1) as int);
            }
            n = match n.checked_add(ks[i]) {
                Some(t) => t,
                None => {
                    return Err(ToolError::TotalTooLarge);
                },
            };
            i = i + 1;
        }
        assert(s.take(ks.len() as int) =~= s);
        let num = match factorial_big(n) {
            Some(v) => v,
            None => {
                return Err(ToolError::TotalTooLarge);
            },
        };
        proof {
            lemma_factorial_34();
            lemma_factorial_monotone(n as nat, 34);
        }
        let mut den: u128 = 1;
        let mut j: usize = 0;
        assert(factorial_product(s.take(0)) == 1);
        while j < ks.len()
            invariant
                s == ks@,
                s == p.ks@,
                j <= ks.len(),
                n == seq_sum(s),
                n <= 34,
                factorial(n as nat) <= u128::MAX,
                den == factorial_product(s.take(j as int)),
            decreases ks.len() - j,
        {
            proof {
                lemma_prefix_step(s, j as int);
                lemma_seq_sum_prefix(s, (j + 1) as int);
                lemma_factorial_product_bound(s.take((j + 1) as int));
                lemma_factorial_monotone(seq_sum(s.take((j + 1) as int)), n as nat);
                lemma_seq_sum_prefix(s.take((j + 1) as int), j as int);
                assert(s.take((j + 1) as int).take(j as int) =~= s.take(j as int));
            }
            assert(ks[j as int] <= n);
            let kf = match factorial_big(ks[j]) {
                Some(v) => v,
                None => {
                    return Err(ToolError::Overflow);
                },
            };
            proof {
                assert(s[j as int] <= n);
                lemma_factorial_monotone(ks[j as int] as nat, n as nat);
                assert(kf as nat == factorial(ks[j as int] as nat));
                assert(den * kf == factorial_product(s.take((j + 1) as int)));
            }
            den = match den.checked_mul(kf) {
                Some(v) => v,
                None => {
                    return Err(ToolError::Overflow);
                },
            };
            j = j + 1;
        }
        assert(s.take(ks.len() as int) =~= s);
        proof {
            lemma_factorial_product_bound(s);
        }
        Ok(num / den)
    }
}

} // verus!
