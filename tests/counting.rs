use itertools::Itertools;
use map_folding::counting::{brute_force, count_foldings, sawada_li, CountingMethod1d};
use num::bigint::BigUint;
use std::collections::HashSet;

fn count(n: usize) -> BigUint {
    brute_force(n)
}

#[test]
fn brute_force_empty_strip_is_zero() {
    assert_eq!(count(0), BigUint::from(0u32));
}

#[test]
fn brute_force_one() {
    assert_eq!(count(1), BigUint::from(1u32));
}

#[test]
fn brute_force_two() {
    assert_eq!(count(2), BigUint::from(2u32));
}

#[test]
fn brute_force_three() {
    assert_eq!(count(3), BigUint::from(6u32));
}

#[test]
fn brute_force_four() {
    assert_eq!(count(4), BigUint::from(16u32));
}

#[test]
fn brute_force_five() {
    assert_eq!(count(5), BigUint::from(50u32));
}

#[test]
fn brute_force_six() {
    assert_eq!(BigUint::from(144u32), brute_force(6));
}

#[test]
fn brute_force_seven() {
    assert_eq!(count(7), BigUint::from(462u32));
}

#[test]
fn brute_force_eight() {
    assert_eq!(count(8), BigUint::from(1392u32));
}

#[test]
fn brute_force_nine() {
    assert_eq!(count(9), BigUint::from(4536u32));
}

#[test]
fn count_foldings_dispatches_brute_force() {
    assert_eq!(
        count_foldings(5, CountingMethod1d::BruteForce),
        Some(BigUint::from(50u32))
    );
    assert_eq!(
        count_foldings(0, CountingMethod1d::BruteForce),
        Some(BigUint::from(0u32))
    );
}

#[test]
fn sawada_li_reports_no_count_yet() {
    assert_eq!(sawada_li(5), None);
    assert_eq!(count_foldings(5, CountingMethod1d::SawadaLi), None);
}

#[test]
fn strategies_agree_where_both_count() {
    for n in 0..7usize {
        if let Some(c) = count_foldings(n, CountingMethod1d::SawadaLi) {
            assert_eq!(Some(c), count_foldings(n, CountingMethod1d::BruteForce));
        }
    }
}

#[test]
fn permutation_enumeration_is_exhaustive_without_repeats() {
    let mut factorial: usize = 1;
    for n in 0..8usize {
        if n > 0 {
            factorial *= n;
        }
        let all: Vec<Vec<u64>> = (1..n as u64 + 1).permutations(n).collect();
        assert_eq!(all.len(), factorial);
        let distinct: HashSet<Vec<u64>> = all.iter().cloned().collect();
        assert_eq!(distinct.len(), factorial);
        for p in &all {
            let mut sorted = p.clone();
            sorted.sort();
            assert_eq!(sorted, (1..n as u64 + 1).collect::<Vec<u64>>());
        }
    }
}
