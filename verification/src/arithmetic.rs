//! Integer arithmetic and number-theory tools.
use crate::bits::{
    bit_length, lemma_bit_length_bound, lemma_trailing_zeros_bound, ones, trailing_zeros64,
    unsigned64,
};
use crate::counting::{fib, factorial, lemma_factorial_20, lemma_factorial_monotone, lemma_fib_93, lemma_fib_monotone};
use crate::error::ToolError;
use crate::number_theory::{
    abs, divides, gcd, is_prime, law_lcm_is_least_common_multiple, lemma_divisor_of_quotient, lemma_even_never_divides_odd, lemma_factor_below, lemma_factor_below_sqrt, lemma_gcd_bounds, lemma_gcd_exists,
    lemma_gcd_step, lemma_gcd_zero, lemma_least_factor_is_prime, lemma_product_push, product,
    lemma_trunc_cases, lemma_trunc_rem_bounds, trunc_div, trunc_rem, law_gcd_commutative, lemma_divides_quotient,
};
use crate::server::MathServer;
use vstd::arithmetic::div_mod::lemma_fundamental_div_mod;
use vstd::prelude::*;

verus! {

/// Two signed integer operands.
pub struct TwoInts {
    pub a: i64,
    pub b: i64,
}

/// One signed integer operand.
pub struct OneInt {
    pub n: i64,
}

/// One unsigned integer operand.
pub struct OneUInt {
    pub n: u64,
}

/// Two operands of a bitwise operation.
pub struct BitwiseParams {
    pub a: i64,
    pub b: i64,
}

/// A value and the number of bit positions to shift it by.
pub struct ShiftParams {
    pub value: i64,
    pub shift: u32,
}

/// The 64-bit pattern of a signed integer, read as unsigned.
pub fn as_unsigned(n: i64) -> (x: u64)
    ensures
        x as nat == unsigned64(n as int),
{
    let x = n as u64;
    assert(n < 0 ==> x as int == n as int + 0x1_0000_0000_0000_0000) by (bit_vector)
        requires
            x == n as u64,
    ;
    assert(n >= 0 ==> x as int == n as int) by (bit_vector)
        requires
            x == n as u64,
    ;
    x
}

/// Greatest common divisor of two unsigned integers (Euclid's algorithm);
/// `gcd_u64(0, 0) == 0`.
pub fn gcd_u64(a: u64, b: u64) -> (g: u64)
    ensures
        g == gcd(a as nat, b as nat),
{
    let mut x = a;
    let mut y = b;
    while y != 0
        invariant
            gcd(x as nat, y as nat) == gcd(a as nat, b as nat),
        decreases y,
    {
        proof {
            lemma_gcd_step(x as nat, y as nat);
        }
        let t = y;
        y = x % y;
        x = t;
    }
    proof {
        lemma_gcd_zero(x as nat);
    }
    x
}

/// Integer square root: the largest `r` with `r * r <= n` (binary search).
pub fn isqrt_u64(n: u64) -> (r: u64)
    ensures
        r * r <= n < (r + 1) * (r + 1),
        r < 0x1_0000_0000,
{
    let mut lo: u64 = 0;
    let mut hi: u64 = 0x1_0000_0000;
    assert(n < hi * hi) by (nonlinear_arith)
        requires
            hi == 0x1_0000_0000,
            n <= u64::MAX,
    ;
    while hi - lo > 1
        invariant
            lo < hi <= 0x1_0000_0000,
            lo * lo <= n < hi * hi,
        decreases hi - lo,
    {
        let mid = lo + (hi - lo) / 2;
        assert(mid * mid < 0x1_0000_0000 * 0x1_0000_0000) by (nonlinear_arith)
            requires
                mid < 0x1_0000_0000,
        ;
        if mid * mid <= n {
            lo = mid;
        } else {
            hi = mid;
        }
    }
    lo
}

/// `|x|` of a signed integer, as an unsigned integer (exact for `i64::MIN` too).
pub fn unsigned_abs(x: i64) -> (r: u64)
    ensures
        r as nat == abs(x as int),
{
    if x >= 0 {
        x as u64
    } else if x == i64::MIN {
        0x8000_0000_0000_0000u64
    } else {
        (-x) as u64
    }
}

/// Greatest common divisor of the absolute values of two signed integers, as
/// an unsigned integer (it reaches `2^63` for `i64::MIN` and 0).
pub fn gcd_i64(a: i64, b: i64) -> (g: u64)
    ensures
        g == gcd(abs(a as int), abs(b as int)),
{
    gcd_u64(unsigned_abs(a), unsigned_abs(b))
}

/// The least common multiple of `|a|` and `|b|`: `|a| / gcd(|a|, |b|) * |b|`.
pub open spec fn lcm(a: nat, b: nat) -> nat {
    if gcd(a, b) == 0 {
        0
    } else {
        a / gcd(a, b) * b
    }
}

/// `lcm(a, b)` is the least common multiple of `a` and `b`: where they are
/// not both 0 it is a multiple of each that divides every common multiple,
/// and times `gcd(a, b)` it is `a · b`; `lcm(0, 0) == 0`.
pub proof fn law_lcm_is_least(a: nat, b: nat)
    ensures
        lcm(0, 0) == 0,
        a > 0 || b > 0 ==> {
            &&& divides(a, lcm(a, b))
            &&& divides(b, lcm(a, b))
            &&& lcm(a, b) * gcd(a, b) == a * b
            &&& forall|m: nat| divides(a, m) && divides(b, m) ==> #[trigger] divides(lcm(a, b), m)
        },
{
    lemma_gcd_bounds(0, 0);
    if a > 0 || b > 0 {
        lemma_gcd_bounds(a, b);
        law_lcm_is_least_common_multiple(a, b);
    }
}

/// The gcd tool answers the same for `(a, b)` and `(b, a)`.
pub proof fn law_gcd_tool_symmetric(a: int, b: int)
    ensures
        gcd(abs(a), abs(b)) == gcd(abs(b), abs(a)),
{
    law_gcd_commutative(abs(a), abs(b));
}

/// The least common multiple is the same in either order.
pub proof fn law_lcm_commutative(a: nat, b: nat)
    ensures
        lcm(a, b) == lcm(b, a),
{
    law_gcd_commutative(a, b);
    let g = gcd(a, b);
    if g != 0 {
        lemma_gcd_exists(a, b);
        lemma_divides_quotient(g, a);
        lemma_divides_quotient(g, b);
        let (a1, b1) = (a / g, b / g);
        assert(a1 * b == b1 * a) by (nonlinear_arith)
            requires
                a == g * a1,
                b == g * b1,
        ;
    }
}

impl MathServer {
    /// Greatest common divisor of two integers: `gcd(|a|, |b|)`, never
    /// negative (`2^63` for `i64::MIN` and 0).
    pub fn gcd(&self, p: TwoInts) -> (g: u64)
        ensures
            g == gcd(abs(p.a as int), abs(p.b as int)),
    {
        gcd_i64(p.a, p.b)
    }

    /// Least common multiple of two integers, `lcm(|a|, |b|)` (0 when either
    /// is 0), or `Overflow` when it is above `i64::MAX`.
    pub fn lcm(&self, p: TwoInts) -> (r: Result<i64, ToolError>)
        ensures
            ({
                let l = lcm(abs(p.a as int), abs(p.b as int));
                &&& l <= i64::MAX ==> r == Ok::<i64, ToolError>(l as i64)
                &&& l > i64::MAX ==> r == Err::<i64, ToolError>(ToolError::Overflow)
            }),
    {
        let ua = unsigned_abs(p.a);
        let ub = unsigned_abs(p.b);
        let g = gcd_u64(ua, ub);
        proof {
            lemma_gcd_bounds(ua as nat, ub as nat);
        }
        if g == 0 {
            return Ok(0);
        }
        let q = ua / g;
        match q.checked_mul(ub) {
            Some(v) => {
                if v <= i64::MAX as u64 {
                    Ok(v as i64)
                } else {
                    Err(ToolError::Overflow)
                }
            },
            None => Err(ToolError::Overflow),
        }
    }

    /// `n!` for `n ≤ 20` (the largest factorial that fits a `u64`).
    pub fn factorial(&self, p: OneUInt) -> (r: Result<u64, ToolError>)
        ensures
            p.n > 20 ==> r == Err::<u64, ToolError>(ToolError::ArgumentTooLarge(20)),
            p.n <= 20 ==> r == Ok::<u64, ToolError>(factorial(p.n as nat) as u64),
    {
        let n = p.n;
        if n > 20 {
            return Err(ToolError::ArgumentTooLarge(20));
        }
        proof {
            lemma_factorial_20();
        }
        let mut acc: u64 = 1;
        let mut i: u64 = 0;
        while i < n
            invariant
                i <= n <= 20,
                acc == factorial(i as nat),
                factorial(20) == 2432902008176640000,
            decreases n - i,
        {
            i = i + 1;
            proof {
                lemma_factorial_monotone(i as nat, 20);
                let f = factorial((i - 1) as nat);
                assert(factorial(i as nat) == i * f);
                assert(acc * i == factorial(i as nat)) by (nonlinear_arith)
                    requires
                        acc == f,
                        factorial(i as nat) == i * f,
                ;
            }
            acc = acc * i;
        }
        Ok(acc)
    }

    /// The `n`-th Fibonacci number for `n ≤ 93` (the largest that fits a `u64`).
    pub fn fibonacci(&self, p: OneUInt) -> (r: Result<u64, ToolError>)
        ensures
            p.n > 93 ==> r == Err::<u64, ToolError>(ToolError::ArgumentTooLarge(93)),
            p.n <= 93 ==> r == Ok::<u64, ToolError>(fib(p.n as nat) as u64),
    {
        let n = p.n;
        if n > 93 {
            return Err(ToolError::ArgumentTooLarge(93));
        }
        if n == 0 {
            return Ok(0);
        }
        proof {
            lemma_fib_93();
        }
        let mut a: u64 = 0;
        let mut b: u64 = 1;
        let mut i: u64 = 1;
        while i < n
            invariant
                1 <= i <= n <= 93,
                a == fib((i - 1) as nat),
                b == fib(i as nat),
                fib(93) == 12200160415121876738,
            decreases n - i,
        {
            proof {
                lemma_fib_monotone((i + 1) as nat, 93);
            }
            let next = a + b;
            a = b;
            b = next;
            i = i + 1;
        }
        Ok(b)
    }

    /// Primality test by trial division up to the integer square root.
    pub fn is_prime(&self, p: OneUInt) -> (b: bool)
        ensures
            b == is_prime(p.n as nat),
    {
        let n = p.n;
        if n < 2 {
            return false;
        }
        if n == 2 {
            return true;
        }
        if n % 2 == 0 {
            return false;
        }
        let r = isqrt_u64(n);
        assert(r >= 1) by (nonlinear_arith)
            requires
                n < (r + 1) * (r + 1),
                n >= 3,
        ;
        let limit = r + 1;
        let mut i: u64 = 3;
        while i < limit
            invariant
                3 <= i <= limit + 1,
                i % 2 == 1,
                limit == r + 1,
                r * r <= n < (r + 1) * (r + 1),
                r < 0x1_0000_0000,
                n == p.n,
                n % 2 == 1,
                n > 2,
                forall|d: nat| 2 <= d < i ==> #[trigger] (n as nat % d) != 0,
            decreases limit + 1 - i,
        {
            if n % i == 0 {
                assert(i * i <= n) by (nonlinear_arith)
                    requires
                        i <= r,
                        r * r <= n,
                ;
                assert(i < n) by (nonlinear_arith)
                    requires
                        i >= 3,
                        i * i <= n,
                ;
                let ghost d = i as nat;
                assert(2 <= d < n && (n as nat) % d == 0);
                assert(!is_prime(p.n as nat));
                return false;
            }
            proof {
                lemma_even_never_divides_odd(n as nat, (i + 1) as nat);
            }
            i = i + 2;
        }
        proof {
            assert forall|d: nat| 2 <= d < n implies #[trigger] (n as nat % d) != 0 by {
                if n as nat % d == 0 {
                    let e = lemma_factor_below_sqrt(n as nat, d, r as nat);
                    assert(n as nat % e != 0);
                }
            }
        }
        true
    }

    /// Integer square root: the largest `k` with `k * k <= n`.
    pub fn isqrt(&self, p: OneUInt) -> (r: u64)
        ensures
            r * r <= p.n < (r + 1) * (r + 1),
    {
        isqrt_u64(p.n)
    }

    /// Prime factorization: the prime factors of `n` with multiplicity, in
    /// ascending order (empty for `n < 2`).
    pub fn prime_factors(&self, p: OneUInt) -> (f: Vec<u64>)
        ensures
            p.n < 2 ==> f@.len() == 0,
            p.n >= 2 ==> product(f@) == p.n,
            forall|i: int| 0 <= i < f@.len() ==> is_prime(#[trigger] f@[i] as nat),
            forall|i: int, j: int| 0 <= i <= j < f@.len() ==> f@[i] <= f@[j],
    {
        let n = p.n;
        let mut f: Vec<u64> = Vec::new();
        if n < 2 {
            return f;
        }
        let mut m = n;
        let mut d: u64 = 2;
        assert(product(f@) == 1);
        while d <= m / d
            invariant
                n == p.n,
                n >= 2,
                2 <= d,
                1 <= m <= n,
                product(f@) * m == n,
                forall|i: int| 0 <= i < f@.len() ==> is_prime(#[trigger] f@[i] as nat),
                forall|i: int, j: int| 0 <= i <= j < f@.len() ==> f@[i] <= f@[j],
                forall|i: int| 0 <= i < f@.len() ==> #[trigger] f@[i] < d,
                forall|e: nat| 2 <= e < d ==> #[trigger] (m as nat % e) != 0,
            decreases m + (u64::MAX - d),
        {
            let ghost m_start = m;
            assert(d * d <= m && d < 0x1_0000_0000) by (nonlinear_arith)
                requires
                    d <= m / d,
                    d >= 2,
                    m <= u64::MAX,
            ;
            while m % d == 0
                invariant
                    n == p.n,
                    2 <= d,
                    1 <= m <= n,
                    product(f@) * m == n,
                    forall|i: int| 0 <= i < f@.len() ==> is_prime(#[trigger] f@[i] as nat),
                    forall|i: int, j: int| 0 <= i <= j < f@.len() ==> f@[i] <= f@[j],
                    forall|i: int| 0 <= i < f@.len() ==> #[trigger] f@[i] <= d,
                    forall|e: nat| 2 <= e < d ==> #[trigger] (m as nat % e) != 0,
                    m <= m_start,
                decreases m,
            {
                let ghost old_f = f@;
                let ghost old_m = m as nat;
                proof {
                    lemma_least_factor_is_prime(m as nat, d as nat);
                    lemma_product_push(f@, d);
                }
                f.push(d);
                m = m / d;
                proof {
                    lemma_fundamental_div_mod(old_m as int, d as int);
                    assert(product(f@) * m == n) by (nonlinear_arith)
                        requires
                            product(f@) == product(old_f) * d,
                            product(old_f) * old_m == n,
                            old_m == d * m,
                    ;
                    assert(1 <= m < old_m) by (nonlinear_arith)
                        requires
                            old_m == d * m,
                            old_m >= 1,
                            d >= 2,
                    ;
                    assert forall|e: nat| 2 <= e < d implies #[trigger] (m as nat % e) != 0 by {
                        if m as nat % e == 0 {
                            lemma_divisor_of_quotient(old_m, d as nat, e);
                        }
                    }
                    assert(f@[f@.len() - 1] == d);
                }
            }
            d = d + 1;
        }
        proof {
            lemma_fundamental_div_mod(m as int, d as int);
            assert(m < d * d) by (nonlinear_arith)
                requires
                    m / d < d,
                    m == d * (m / d) + m % d,
                    m % d < d,
            ;
        }
        if m > 1 {
            proof {
                assert forall|e: nat| 2 <= e < m implies #[trigger] (m as nat % e) != 0 by {
                    if m as nat % e == 0 {
                        lemma_factor_below(m as nat, e, d as nat);
                    }
                }
                if m < d {
                    assert(m as nat % (m as nat) == 0) by {
                        vstd::arithmetic::div_mod::lemma_mod_self_0(m as int);
                    }
                }
                lemma_product_push(f@, m);
            }
            f.push(m);
            proof {
                assert(product(f@) == n) by (nonlinear_arith)
                    requires
                        product(f@) == product(f@.drop_last()) * m,
                        product(f@.drop_last()) * m == n,
                ;
            }
        } else {
            proof {
                assert(product(f@) == n) by (nonlinear_arith)
                    requires
                        product(f@) * m == n,
                        m == 1,
                ;
            }
        }
        f
    }

    /// All divisors of `n` in ascending order (empty for `n == 0`).
    pub fn divisors(&self, p: OneUInt) -> (v: Vec<u64>)
        ensures
            p.n == 0 ==> v@.len() == 0,
            forall|i: int| 0 <= i < v@.len() ==> 1 <= #[trigger] v@[i] && p.n % v@[i] == 0,
            forall|i: int, j: int| 0 <= i < j < v@.len() ==> v@[i] < v@[j],
            p.n > 0 ==> forall|d: u64| 1 <= d && p.n % d == 0 ==> #[trigger] v@.contains(d),
    {
        let n = p.n;
        let mut v: Vec<u64> = Vec::new();
        if n == 0 {
            return v;
        }
        let mut i: u64 = 1;
        while i < n
            invariant
                n == p.n,
                1 <= i <= n,
                forall|k: int| 0 <= k < v@.len() ==> 1 <= #[trigger] v@[k] && n % v@[k] == 0,
                forall|k: int| 0 <= k < v@.len() ==> #[trigger] v@[k] < i,
                forall|k: int, j: int| 0 <= k < j < v@.len() ==> v@[k] < v@[j],
                forall|d: u64| 1 <= d < i && n % d == 0 ==> #[trigger] v@.contains(d),
            decreases n - i,
        {
            let ghost old_v = v@;
            if n % i == 0 {
                v.push(i);
            }
            proof {
                assert forall|d: u64| 1 <= d < i + 1 && n % d == 0 implies #[trigger] v@.contains(
                    d,
                ) by {
                    if d == i {
                        assert(v@[v@.len() - 1] == i);
                    } else {
                        assert(old_v.contains(d));
                        let k = choose|k: int| 0 <= k < old_v.len() && old_v[k] == d;
                        assert(v@[k] == d);
                    }
                }
            }
            i = i + 1;
        }
        let ghost old_v = v@;
        v.push(n);
        proof {
            vstd::arithmetic::div_mod::lemma_mod_self_0(n as int);
            assert forall|d: u64| 1 <= d && n % d == 0 implies #[trigger] v@.contains(d) by {
                if d >= n {
                    if d > n {
                        vstd::arithmetic::div_mod::lemma_small_mod(n as nat, d as nat);
                    }
                    assert(v@[v@.len() - 1] == n);
                } else {
                    assert(old_v.contains(d));
                    let k = choose|k: int| 0 <= k < old_v.len() && old_v[k] == d;
                    assert(v@[k] == d);
                }
            }
        }
        v
    }

    /// Integer division: the quotient rounded toward zero and the remainder.
    /// The quotient is an `i128`, which holds `i64::MIN / -1 == 2^63`.
    pub fn div_rem(&self, p: TwoInts) -> (r: Result<(i128, i64), ToolError>)
        ensures
            p.b == 0 ==> r == Err::<(i128, i64), ToolError>(ToolError::DivisionByZero),
            p.b != 0 ==> (r matches Ok((q, m)) && q == trunc_div(p.a as int, p.b as int)
                && m == trunc_rem(p.a as int, p.b as int) && p.a == p.b * q + m && abs(m as int)
                < abs(p.b as int) && (m == 0 || (m < 0) == (p.a < 0))),
    {
        let (a, b) = (p.a, p.b);
        if b == 0 {
            return Err(ToolError::DivisionByZero);
        }
        proof {
            lemma_trunc_rem_bounds(a as int, b as int);
        }
        if a == i64::MIN && b == -1 {
            proof {
                let big: nat = 0x8000_0000_0000_0000;
                assert(abs(a as int) == big && abs(b as int) == 1);
                vstd::arithmetic::div_mod::lemma_div_basics(big as int);
                assert(trunc_div(a as int, b as int) == big);
            }
            return Ok((0x8000_0000_0000_0000i128, 0));
        }
        proof {
            lemma_trunc_cases(a as int, b as int);
        }
        match (a.checked_div(b), a.checked_rem(b)) {
            (Some(q), Some(m)) => Ok((q as i128, m)),
            _ => {
                proof {
                    assert(false);
                }
                Err(ToolError::DivisionByZero)
            },
        }
    }

    /// Bitwise AND.
    pub fn bitwise_and(&self, p: BitwiseParams) -> (r: i64)
        ensures
            r == p.a & p.b,
    {
        p.a & p.b
    }

    /// Bitwise OR.
    pub fn bitwise_or(&self, p: BitwiseParams) -> (r: i64)
        ensures
            r == p.a | p.b,
    {
        p.a | p.b
    }

    /// Bitwise XOR.
    pub fn bitwise_xor(&self, p: BitwiseParams) -> (r: i64)
        ensures
            r == p.a ^ p.b,
    {
        p.a ^ p.b
    }

    /// Bitwise NOT, which on two's-complement integers is `-n - 1`.
    pub fn bitwise_not(&self, p: OneInt) -> (r: i64)
        ensures
            r == !p.n,
            r == -p.n - 1,
    {
        let n = p.n;
        let r = !n;
        assert(r == -n - 1) by (bit_vector)
            requires
                r == !n,
        ;
        r
    }

    /// Left shift by fewer than 64 bits.
    pub fn shl(&self, p: ShiftParams) -> (r: Result<i64, ToolError>)
        ensures
            p.shift >= 64 ==> r == Err::<i64, ToolError>(ToolError::ShiftTooLarge),
            p.shift < 64 ==> r == Ok::<i64, ToolError>(p.value << p.shift),
    {
        if p.shift >= 64 {
            Err(ToolError::ShiftTooLarge)
        } else {
            Ok(p.value << p.shift)
        }
    }

    /// Arithmetic right shift by fewer than 64 bits.
    pub fn shr(&self, p: ShiftParams) -> (r: Result<i64, ToolError>)
        ensures
            p.shift >= 64 ==> r == Err::<i64, ToolError>(ToolError::ShiftTooLarge),
            p.shift < 64 ==> r == Ok::<i64, ToolError>(p.value >> p.shift),
    {
        if p.shift >= 64 {
            Err(ToolError::ShiftTooLarge)
        } else {
            Ok(p.value >> p.shift)
        }
    }

    /// Number of 1 bits in the 64-bit pattern of `n`.
    pub fn popcount(&self, p: OneInt) -> (c: u32)
        ensures
            c == ones(unsigned64(p.n as int)),
    {
        let mut x = as_unsigned(p.n);
        let mut c: u32 = 0;
        proof {
            vstd::arithmetic::power2::lemma2_to64();
            lemma_bit_length_bound(x as nat, 64);
        }
        while x != 0
            invariant
                c + ones(x as nat) == ones(unsigned64(p.n as int)),
                c + bit_length(x as nat) <= 64,
            decreases x,
        {
            c = c + (x % 2) as u32;
            x = x / 2;
        }
        c
    }

    /// Number of leading 0 bits in the 64-bit pattern of `n`.
    pub fn leading_zeros(&self, p: OneInt) -> (z: u32)
        ensures
            z == 64 - bit_length(unsigned64(p.n as int)),
    {
        let mut x = as_unsigned(p.n);
        let mut len: u32 = 0;
        proof {
            vstd::arithmetic::power2::lemma2_to64();
            lemma_bit_length_bound(x as nat, 64);
        }
        while x != 0
            invariant
                len + bit_length(x as nat) == bit_length(unsigned64(p.n as int)),
                bit_length(unsigned64(p.n as int)) <= 64,
            decreases x,
        {
            len = len + 1;
            x = x / 2;
        }
        64 - len
    }

    /// Number of trailing 0 bits in the 64-bit pattern of `n` (64 for 0).
    pub fn trailing_zeros(&self, p: OneInt) -> (z: u32)
        ensures
            z == trailing_zeros64(unsigned64(p.n as int)),
    {
        let mut x = as_unsigned(p.n);
        if x == 0 {
            return 64;
        }
        let mut z: u32 = 0;
        proof {
            vstd::arithmetic::power2::lemma2_to64();
            lemma_trailing_zeros_bound(x as nat, 64);
        }
        while x % 2 == 0
            invariant
                x > 0,
                z + trailing_zeros64(x as nat) == trailing_zeros64(unsigned64(p.n as int)),
                trailing_zeros64(unsigned64(p.n as int)) < 64,
            decreases x,
        {
            z = z + 1;
            x = x / 2;
        }
        z
    }
}

} // verus!
