//! Mathematical model of the 64-bit patterns the bit-counting tools read.
use vstd::arithmetic::div_mod::{lemma_div_multiples_vanish, lemma_fundamental_div_mod};
use vstd::arithmetic::power2::{lemma_pow2_unfold, pow2};
use vstd::prelude::*;

verus! {

/// The value of the 64-bit two's-complement pattern of `n`, read as unsigned.
pub open spec fn unsigned64(n: int) -> nat {
    if n < 0 {
        (n + 0x1_0000_0000_0000_0000) as nat
    } else {
        n as nat
    }
}

/// Number of 1 digits in the binary expansion of `x`.
pub open spec fn ones(x: nat) -> nat
    decreases x,
{
    if x == 0 {
        0
    } else {
        x % 2 + ones(x / 2)
    }
}

/// Number of binary digits of `x` (0 for `x == 0`).
pub open spec fn bit_length(x: nat) -> nat
    decreases x,
{
    if x == 0 {
        0
    } else {
        1 + bit_length(x / 2)
    }
}

/// Number of 0 digits below the lowest 1 digit of a 64-bit pattern (64 for 0).
pub open spec fn trailing_zeros64(x: nat) -> nat
    decreases x,
{
    if x == 0 {
        64
    } else if x % 2 == 1 {
        0
    } else {
        1 + trailing_zeros64(x / 2)
    }
}

/// A number below `2^k` has at most `k` binary digits.
pub proof fn lemma_bit_length_bound(x: nat, k: nat)
    requires
        x < pow2(k),
    ensures
        bit_length(x) <= k,
    decreases k,
{
    if x > 0 {
        if k == 0 {
            vstd::arithmetic::power2::lemma2_to64();
        } else {
            lemma_pow2_unfold(k);
            lemma_bit_length_bound(x / 2, (k - 1) as nat);
        }
    }
}

/// A nonzero 64-bit pattern has fewer than 64 trailing zeros.
pub proof fn lemma_trailing_zeros_bound(x: nat, k: nat)
    requires
        0 < x < pow2(k),
        k <= 64,
    ensures
        trailing_zeros64(x) < k,
    decreases k,
{
    vstd::arithmetic::power2::lemma2_to64();
    if x % 2 == 0 && k > 0 {
        lemma_pow2_unfold(k);
        lemma_trailing_zeros_bound(x / 2, (k - 1) as nat);
    }
}

/// `bit_length(x)` is the number of binary digits of `x`: 0 has none, and a
/// positive `x` with `b` digits lies in `[2^(b-1), 2^b)`.
pub proof fn law_bit_length_is_digit_count(x: nat)
    ensures
        x == 0 <==> bit_length(x) == 0,
        x > 0 ==> pow2((bit_length(x) - 1) as nat) <= x < pow2(bit_length(x)),
    decreases x,
{
    vstd::arithmetic::power2::lemma2_to64();
    if x > 0 {
        let h = x / 2;
        law_bit_length_is_digit_count(h);
        let b = bit_length(x);
        assert(b == 1 + bit_length(h));
        lemma_pow2_unfold(b);
        if h > 0 {
            lemma_pow2_unfold((b - 1) as nat);
        }
    }
}

/// `ones(x)` counts the 1 digits of `x`: 0 has none, appending the binary
/// digit 0 to `x` adds none (`ones(2x) == ones(x)`) and appending 1 adds one
/// (`ones(2x + 1) == ones(x) + 1`); a positive number has at least one and
/// at most as many as it has digits.
pub proof fn law_ones_counts_one_digits(x: nat)
    ensures
        ones(0) == 0,
        ones(2 * x) == ones(x),
        ones(2 * x + 1) == ones(x) + 1,
        x > 0 ==> 1 <= ones(x) <= bit_length(x),
    decreases x,
{
    assert((2 * x) / 2 == x && (2 * x) % 2 == 0);
    assert((2 * x + 1) / 2 == x && (2 * x + 1) % 2 == 1);
    if x > 0 {
        law_ones_counts_one_digits(x / 2);
        if x / 2 == 0 {
            assert(x == 1);
        }
    }
}

/// `2^t · q == x` with `q` odd, for `t = trailing_zeros64(x)` and `x > 0`.
proof fn lemma_trailing_zeros_split(x: nat) -> (q: nat)
    requires
        x > 0,
    ensures
        x == pow2(trailing_zeros64(x)) * q,
        q % 2 == 1,
    decreases x,
{
    vstd::arithmetic::power2::lemma2_to64();
    if x % 2 == 1 {
        assert(trailing_zeros64(x) == 0);
        assert(pow2(0) * x == x);
        x
    } else {
        let h = x / 2;
        let q = lemma_trailing_zeros_split(h);
        let t = trailing_zeros64(x);
        assert(t == 1 + trailing_zeros64(h));
        lemma_pow2_unfold(t);
        lemma_fundamental_div_mod(x as int, 2);
        assert(x == 2 * h);
        assert((t - 1) as nat == trailing_zeros64(h));
        assert(x == pow2(t) * q) by (nonlinear_arith)
            requires
                x == 2 * h,
                h == pow2((t - 1) as nat) * q,
                pow2(t) == 2 * pow2((t - 1) as nat),
        ;
        q
    }
}

/// `trailing_zeros64(x)` is the position of the lowest 1 digit of `x` (64 for
/// 0): `2^t` divides a positive `x` and `x / 2^t` is odd.
pub proof fn law_trailing_zeros_is_lowest_one(x: nat)
    ensures
        trailing_zeros64(0) == 64,
        x > 0 ==> x % pow2(trailing_zeros64(x)) == 0 && (x / pow2(trailing_zeros64(x))) % 2
            == 1,
{
    if x > 0 {
        let q = lemma_trailing_zeros_split(x);
        let p = pow2(trailing_zeros64(x));
        vstd::arithmetic::power2::lemma_pow2_pos(trailing_zeros64(x));
        vstd::arithmetic::mul::lemma_mul_is_commutative(p as int, q as int);
        lemma_div_multiples_vanish(q as int, p as int);
        vstd::arithmetic::div_mod::lemma_mod_multiples_basic(q as int, p as int);
    }
}

} // verus!
