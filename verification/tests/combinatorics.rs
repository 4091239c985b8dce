use mcp_math_operations::combinatorics::{
    alternating_sum_i128, binom, factorial_big, MultinomialParams, NkParams, OneUInt,
};
use mcp_math_operations::error::ToolError;
use mcp_math_operations::server::MathServer;

fn nk(n: u64, k: u64) -> NkParams {
    NkParams { n, k }
}

fn one(n: u64) -> OneUInt {
    OneUInt { n }
}

#[test]
fn factorials_in_u128() {
    assert_eq!(factorial_big(0), Some(1));
    assert_eq!(factorial_big(10), Some(3628800));
    assert_eq!(
        factorial_big(34),
        Some(295232799039604140847618609643520000000)
    );
    assert_eq!(factorial_big(35), None);
}

#[test]
fn binomial_coefficients() {
    assert_eq!(binom(5, 2), Some(10));
    assert_eq!(binom(5, 6), Some(0));
    assert_eq!(binom(0, 0), Some(1));
    assert_eq!(binom(10, 3), binom(10, 7));
    assert_eq!(binom(100, 50), Some(100891344545564193334812497256));
    assert_eq!(binom(200, 100), None);
}

#[test]
fn combinations_tool() {
    let s = MathServer::new();
    assert_eq!(s.combinations(nk(5, 2)), Ok(10));
    assert_eq!(s.combinations(nk(52, 5)), Ok(2598960));
    assert_eq!(s.combinations(nk(3, 4)), Ok(0));
    assert_eq!(s.combinations(nk(200, 100)), Err(ToolError::Overflow));
}

#[test]
fn permutations_tool() {
    let s = MathServer::new();
    assert_eq!(s.permutations(nk(5, 2)), Ok(20));
    assert_eq!(s.permutations(nk(5, 0)), Ok(1));
    assert_eq!(s.permutations(nk(5, 6)), Ok(0));
    assert_eq!(
        s.permutations(nk(34, 34)),
        Ok(295232799039604140847618609643520000000)
    );
    assert_eq!(s.permutations(nk(35, 35)), Err(ToolError::Overflow));
}

#[test]
fn multiset_coefficient_tool() {
    let s = MathServer::new();
    assert_eq!(s.multiset_coefficient(nk(3, 2)), Ok(6));
    assert_eq!(s.multiset_coefficient(nk(1, 5)), Ok(1));
    assert_eq!(s.multiset_coefficient(nk(0, 3)), Ok(0));
    assert_eq!(s.multiset_coefficient(nk(0, 0)), Ok(1));
    assert_eq!(s.multiset_coefficient(nk(7, 0)), Ok(1));
    assert_eq!(s.multiset_coefficient(nk(u64::MAX, 1)), Ok(u64::MAX as u128));
    assert_eq!(s.multiset_coefficient(nk(2, u64::MAX)), Ok(1 << 64));
    assert_eq!(
        s.multiset_coefficient(nk(u64::MAX, 2)),
        Ok((1u128 << 127) - (1u128 << 63))
    );
    assert_eq!(s.multiset_coefficient(nk(3, u64::MAX)), Err(ToolError::Overflow));
}

#[test]
fn catalan_tool() {
    let s = MathServer::new();
    assert_eq!(s.catalan(one(0)), Ok(1));
    assert_eq!(s.catalan(one(3)), Ok(5));
    assert_eq!(s.catalan(one(10)), Ok(16796));
    assert_eq!(s.catalan(one(70)), Err(ToolError::Overflow));
    assert_eq!(s.catalan(one(1 << 63)), Err(ToolError::Overflow));
    assert_eq!(s.catalan(one(u64::MAX)), Err(ToolError::Overflow));
}

#[test]
fn catalan_times_successor_is_central_binomial() {
    let s = MathServer::new();
    for n in 0u64..20 {
        let c = s.catalan(one(n)).unwrap();
        assert_eq!(c * (n as u128 + 1), binom(2 * n, n).unwrap());
    }
}

#[test]
fn stirling_numbers_second_kind() {
    let s = MathServer::new();
    assert_eq!(s.stirling_second(nk(0, 0)), Ok(1));
    assert_eq!(s.stirling_second(nk(5, 0)), Ok(0));
    assert_eq!(s.stirling_second(nk(0, 3)), Ok(0));
    assert_eq!(s.stirling_second(nk(3, 5)), Ok(0));
    assert_eq!(s.stirling_second(nk(5, 2)), Ok(15));
    assert_eq!(s.stirling_second(nk(5, 3)), Ok(25));
    assert_eq!(s.stirling_second(nk(10, 4)), Ok(34105));
    assert_eq!(s.stirling_second(nk(7, 7)), Ok(1));
    assert_eq!(s.stirling_second(nk(200, 2)), Err(ToolError::Overflow));
    assert_eq!(s.stirling_second(nk(128, 2)), Err(ToolError::Overflow));
    assert_eq!(s.stirling_second(nk(126, 2)), Ok((1i128 << 125) - 1));
}

#[test]
fn surjections_count() {
    let s = MathServer::new();
    assert_eq!(s.surjections(nk(3, 2)), Ok(6));
    assert_eq!(s.surjections(nk(4, 2)), Ok(14));
    assert_eq!(s.surjections(nk(2, 3)), Ok(0));
    assert_eq!(s.surjections(nk(0, 0)), Ok(1));
    assert_eq!(s.surjections(nk(5, 0)), Ok(0));
    assert_eq!(s.surjections(nk(200, 2)), Err(ToolError::Overflow));
    assert_eq!(s.surjections(nk(126, 2)), Ok((1i128 << 126) - 2));
}

#[test]
fn surjections_are_factorial_times_stirling() {
    let s = MathServer::new();
    for n in 0u64..12 {
        for k in 0u64..=n {
            let st = s.stirling_second(nk(n, k)).unwrap();
            let f = factorial_big(k).unwrap() as i128;
            assert_eq!(s.surjections(nk(n, k)), Ok(f * st));
        }
    }
}

#[test]
fn bell_numbers() {
    let s = MathServer::new();
    let expected: [u128; 8] = [1, 1, 2, 5, 15, 52, 203, 877];
    for (n, b) in expected.iter().enumerate() {
        assert_eq!(s.bell(one(n as u64)), Ok(*b));
    }
    assert_eq!(s.bell(one(15)), Ok(1382958545));
    assert_eq!(s.bell(one(16)), Err(ToolError::ArgumentTooLarge(15)));
}

#[test]
fn bell_is_sum_of_stirling_numbers() {
    let s = MathServer::new();
    for n in 0u64..=12 {
        let total: i128 = (0..=n).map(|k| s.stirling_second(nk(n, k)).unwrap()).sum();
        assert_eq!(s.bell(one(n)), Ok(total as u128));
    }
}

#[test]
fn derangement_counts() {
    let s = MathServer::new();
    let expected: [u128; 7] = [1, 0, 1, 2, 9, 44, 265];
    for (n, d) in expected.iter().enumerate() {
        assert_eq!(s.derangements(one(n as u64)), Ok(*d));
    }
    assert_eq!(s.derangements(one(10)), Ok(1334961));
    assert_eq!(
        s.derangements(one(34)),
        Ok(108610077126170304674801654684367969729)
    );
    assert_eq!(s.derangements(one(35)), Err(ToolError::Overflow));
    assert_eq!(s.derangements(one(u64::MAX)), Err(ToolError::Overflow));
}

#[test]
fn derangement_closed_recurrence_on_examples() {
    let s = MathServer::new();
    for n in 1u64..=30 {
        let d = s.derangements(one(n)).unwrap() as i128;
        let prev = s.derangements(one(n - 1)).unwrap() as i128;
        let sign = if n % 2 == 0 { 1 } else { -1 };
        assert_eq!(d, n as i128 * prev + sign);
    }
}

#[test]
fn pascal_rows() {
    let s = MathServer::new();
    assert_eq!(s.pascals_row(one(0)), Ok(vec![1]));
    assert_eq!(s.pascals_row(one(4)), Ok(vec![1, 4, 6, 4, 1]));
    let row30 = s.pascals_row(one(30)).unwrap();
    assert_eq!(row30.len(), 31);
    assert_eq!(row30[15], 155117520);
    assert_eq!(row30[0], 1);
    assert_eq!(row30[30], 1);
    assert_eq!(s.pascals_row(one(31)), Err(ToolError::ArgumentTooLarge(30)));
}

#[test]
fn multinomial_coefficients() {
    let s = MathServer::new();
    assert_eq!(s.multinomial(MultinomialParams { ks: vec![2, 1, 1] }), Ok(12));
    assert_eq!(s.multinomial(MultinomialParams { ks: vec![] }), Ok(1));
    assert_eq!(s.multinomial(MultinomialParams { ks: vec![3] }), Ok(1));
    assert_eq!(
        s.multinomial(MultinomialParams { ks: vec![10, 10, 10] }),
        Ok(5550996791340)
    );
    assert_eq!(
        s.multinomial(MultinomialParams { ks: vec![35] }),
        Err(ToolError::TotalTooLarge)
    );
    assert_eq!(
        s.multinomial(MultinomialParams { ks: vec![u64::MAX, 1] }),
        Err(ToolError::TotalTooLarge)
    );
}

#[test]
fn permutations_are_arranged_combinations() {
    let s = MathServer::new();
    for n in 0..=20u64 {
        for k in 0..=n {
            let c = s.combinations(nk(n, k)).unwrap();
            let f = factorial_big(k).unwrap();
            assert_eq!(s.permutations(nk(n, k)), Ok(c * f));
        }
    }
}

#[test]
fn pascal_rows_are_palindromes() {
    let s = MathServer::new();
    for n in 0..=30u64 {
        let row = s.pascals_row(one(n)).unwrap();
        let mut reversed = row.clone();
        reversed.reverse();
        assert_eq!(row, reversed);
    }
}

#[test]
fn multinomial_times_part_factorials_is_total_factorial() {
    let s = MathServer::new();
    for ks in [vec![2u64, 3, 4], vec![1, 1, 1, 1], vec![10, 0, 5], vec![6, 6, 6, 6, 6]] {
        let total: u64 = ks.iter().sum();
        let parts: u128 = ks.iter().map(|&k| factorial_big(k).unwrap()).product();
        let m = s.multinomial(MultinomialParams { ks: ks.clone() }).unwrap();
        assert_eq!(m * parts, factorial_big(total).unwrap());
    }
}

#[test]
fn alternating_sums() {
    assert_eq!(alternating_sum_i128(4, 2), Some(14));
    assert_eq!(alternating_sum_i128(0, 0), Some(1));
    assert_eq!(alternating_sum_i128(3, 5), Some(0));
    assert_eq!(alternating_sum_i128(0, u64::MAX), Some(0));
    assert_eq!(alternating_sum_i128(128, 2), None);
}
