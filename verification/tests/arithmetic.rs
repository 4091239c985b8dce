use mcp_math_operations::arithmetic::{
    gcd_i64, gcd_u64, isqrt_u64, BitwiseParams, OneInt, OneUInt, ShiftParams, TwoInts,
};
use mcp_math_operations::error::ToolError;
use mcp_math_operations::server::MathServer;

fn two(a: i64, b: i64) -> TwoInts {
    TwoInts { a, b }
}

fn one(n: u64) -> OneUInt {
    OneUInt { n }
}

fn signed(n: i64) -> OneInt {
    OneInt { n }
}

#[test]
fn gcd_of_small_integers() {
    let s = MathServer::new();
    assert_eq!(s.gcd(two(12, 18)), 6);
    assert_eq!(s.gcd(two(-12, 18)), 6);
    assert_eq!(s.gcd(two(0, 5)), 5);
    assert_eq!(s.gcd(two(7, 13)), 1);
    assert_eq!(s.gcd(two(0, 0)), 0);
}

#[test]
fn gcd_of_i64_min_is_two_to_the_63() {
    let s = MathServer::new();
    assert_eq!(s.gcd(two(i64::MIN, 0)), 9223372036854775808);
    assert_eq!(s.gcd(two(i64::MIN, i64::MIN)), 1 << 63);
    assert_eq!(gcd_i64(i64::MIN, 0), 1 << 63);
    assert_eq!(gcd_i64(i64::MIN, 6), 2);
    assert_eq!(gcd_u64(1 << 63, 0), 1 << 63);
}

#[test]
fn gcd_is_symmetric_on_examples() {
    assert_eq!(gcd_u64(84, 36), gcd_u64(36, 84));
    assert_eq!(gcd_u64(84, 36), 12);
}

#[test]
fn lcm_values() {
    let s = MathServer::new();
    assert_eq!(s.lcm(two(4, 6)), Ok(12));
    assert_eq!(s.lcm(two(-4, 6)), Ok(12));
    assert_eq!(s.lcm(two(0, 0)), Ok(0));
    assert_eq!(s.lcm(two(0, 5)), Ok(0));
    assert_eq!(s.lcm(two(21, 6)), Ok(42));
}

#[test]
fn gcd_and_lcm_tools_are_symmetric() {
    let s = MathServer::new();
    for (a, b) in [(12i64, 18i64), (-7, 91), (0, 5), (100, -75), (i64::MIN, 6)] {
        assert_eq!(s.gcd(two(a, b)), s.gcd(two(b, a)));
        assert_eq!(s.lcm(two(a, b)), s.lcm(two(b, a)));
    }
}

#[test]
fn lcm_times_gcd_is_product() {
    let s = MathServer::new();
    for (a, b) in [(12i64, 18i64), (7, 13), (100, 75), (-9, 6)] {
        let l = s.lcm(two(a, b)).unwrap();
        let g = s.gcd(two(a, b));
        assert_eq!(l * g as i64, (a * b).abs());
    }
}

#[test]
fn lcm_overflow_errors() {
    let s = MathServer::new();
    assert_eq!(s.lcm(two(i64::MAX, i64::MAX - 1)), Err(ToolError::Overflow));
    assert_eq!(s.lcm(two(i64::MIN, -1)), Err(ToolError::Overflow));
    assert_eq!(s.lcm(two(i64::MIN, 1)), Err(ToolError::Overflow));
    assert_eq!(s.lcm(two(1, i64::MIN)), Err(ToolError::Overflow));
    assert_eq!(s.lcm(two(i64::MIN, 0)), Ok(0));
    assert_eq!(s.lcm(two(i64::MAX, 1)), Ok(i64::MAX));
    assert_eq!(s.lcm(two(i64::MIN, i64::MIN)), Err(ToolError::Overflow));
}

#[test]
fn factorial_values_and_limit() {
    let s = MathServer::new();
    assert_eq!(s.factorial(one(0)), Ok(1));
    assert_eq!(s.factorial(one(5)), Ok(120));
    assert_eq!(s.factorial(one(20)), Ok(2432902008176640000));
    assert_eq!(s.factorial(one(21)), Err(ToolError::ArgumentTooLarge(20)));
}

#[test]
fn fibonacci_values_and_limit() {
    let s = MathServer::new();
    assert_eq!(s.fibonacci(one(0)), Ok(0));
    assert_eq!(s.fibonacci(one(1)), Ok(1));
    assert_eq!(s.fibonacci(one(2)), Ok(1));
    assert_eq!(s.fibonacci(one(10)), Ok(55));
    assert_eq!(s.fibonacci(one(93)), Ok(12200160415121876738));
    assert_eq!(s.fibonacci(one(94)), Err(ToolError::ArgumentTooLarge(93)));
}

#[test]
fn primality() {
    let s = MathServer::new();
    for n in [0u64, 1, 4, 9, 15, 25, 7917, 4293001441, 1_000_000_008] {
        assert!(!s.is_prime(one(n)), "{n} is not prime");
    }
    for n in [2u64, 3, 5, 7, 97, 7919, 65521, 1_000_000_007] {
        assert!(s.is_prime(one(n)), "{n} is prime");
    }
}

#[test]
fn prime_factorization() {
    let s = MathServer::new();
    assert_eq!(s.prime_factors(one(360)), vec![2, 2, 2, 3, 3, 5]);
    assert_eq!(s.prime_factors(one(97)), vec![97]);
    assert_eq!(s.prime_factors(one(1)), Vec::<u64>::new());
    assert_eq!(s.prime_factors(one(0)), Vec::<u64>::new());
    assert_eq!(
        s.prime_factors(one(u64::MAX)),
        vec![3, 5, 17, 257, 641, 65537, 6700417]
    );
    assert_eq!(s.prime_factors(one(4293001441)), vec![65521, 65521]);
}

#[test]
fn divisors_ascending() {
    let s = MathServer::new();
    assert_eq!(s.divisors(one(12)), vec![1, 2, 3, 4, 6, 12]);
    assert_eq!(s.divisors(one(1)), vec![1]);
    assert_eq!(s.divisors(one(13)), vec![1, 13]);
    assert_eq!(s.divisors(one(0)), Vec::<u64>::new());
}

#[test]
fn integer_square_root() {
    let s = MathServer::new();
    assert_eq!(s.isqrt(one(0)), 0);
    assert_eq!(s.isqrt(one(15)), 3);
    assert_eq!(s.isqrt(one(16)), 4);
    assert_eq!(s.isqrt(one(u64::MAX)), 4294967295);
    assert_eq!(isqrt_u64(4293001441), 65521);
    assert_eq!(isqrt_u64(4293001440), 65520);
}

#[test]
fn division_with_remainder() {
    let s = MathServer::new();
    assert_eq!(s.div_rem(two(7, 2)), Ok((3, 1)));
    assert_eq!(s.div_rem(two(-7, 2)), Ok((-3, -1)));
    assert_eq!(s.div_rem(two(7, -2)), Ok((-3, 1)));
    assert_eq!(s.div_rem(two(-7, -2)), Ok((3, -1)));
    assert_eq!(s.div_rem(two(i64::MIN, 2)), Ok(((i64::MIN / 2) as i128, 0)));
    assert_eq!(s.div_rem(two(5, 0)), Err(ToolError::DivisionByZero));
    assert_eq!(s.div_rem(two(i64::MIN, -1)), Ok((9223372036854775808, 0)));
    assert_eq!(s.div_rem(two(i64::MIN, 1)), Ok((i64::MIN as i128, 0)));
}

#[test]
fn bitwise_operations() {
    let s = MathServer::new();
    assert_eq!(s.bitwise_and(BitwiseParams { a: 12, b: 10 }), 8);
    assert_eq!(s.bitwise_or(BitwiseParams { a: 12, b: 10 }), 14);
    assert_eq!(s.bitwise_xor(BitwiseParams { a: 12, b: 10 }), 6);
    assert_eq!(s.bitwise_not(signed(0)), -1);
    assert_eq!(s.bitwise_not(signed(5)), -6);
    assert_eq!(s.bitwise_not(signed(i64::MIN)), i64::MAX);
}

#[test]
fn shifts() {
    let s = MathServer::new();
    assert_eq!(s.shl(ShiftParams { value: 1, shift: 3 }), Ok(8));
    assert_eq!(s.shl(ShiftParams { value: 1, shift: 63 }), Ok(i64::MIN));
    assert_eq!(s.shl(ShiftParams { value: 1, shift: 64 }), Err(ToolError::ShiftTooLarge));
    assert_eq!(s.shr(ShiftParams { value: -16, shift: 2 }), Ok(-4));
    assert_eq!(s.shr(ShiftParams { value: 16, shift: 4 }), Ok(1));
    assert_eq!(s.shr(ShiftParams { value: 16, shift: 100 }), Err(ToolError::ShiftTooLarge));
}

#[test]
fn bit_counts() {
    let s = MathServer::new();
    assert_eq!(s.popcount(signed(0)), 0);
    assert_eq!(s.popcount(signed(7)), 3);
    assert_eq!(s.popcount(signed(-1)), 64);
    assert_eq!(s.popcount(signed(i64::MIN)), 1);
    assert_eq!(s.leading_zeros(signed(0)), 64);
    assert_eq!(s.leading_zeros(signed(1)), 63);
    assert_eq!(s.leading_zeros(signed(-1)), 0);
    assert_eq!(s.trailing_zeros(signed(0)), 64);
    assert_eq!(s.trailing_zeros(signed(8)), 3);
    assert_eq!(s.trailing_zeros(signed(i64::MIN)), 63);
    assert_eq!(s.trailing_zeros(signed(-1)), 0);
}
