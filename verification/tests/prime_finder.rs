use prime_finder::primes::find_primes_trial_division;
use prime_finder::primes::is_prime;
use prime_finder::primes::sieve_of_eratosthenes;
use prime_finder::render::render;

#[test]
fn test_sieve_small_numbers() {
    assert_eq!(sieve_of_eratosthenes(10), vec![2, 3, 5, 7]);
    assert_eq!(sieve_of_eratosthenes(20), vec![2, 3, 5, 7, 11, 13, 17, 19]);
}

#[test]
fn test_is_prime() {
    assert!(!is_prime(1));
    assert!(is_prime(2));
    assert!(is_prime(3));
    assert!(!is_prime(4));
    assert!(is_prime(5));
    assert!(!is_prime(9));
    assert!(is_prime(97));
}

#[test]
fn test_edge_cases() {
    assert_eq!(sieve_of_eratosthenes(0), Vec::<usize>::new());
    assert_eq!(sieve_of_eratosthenes(1), Vec::<usize>::new());
    assert_eq!(sieve_of_eratosthenes(2), vec![2]);
}

#[test]
fn test_both_methods_agree() {
    let sieve_result = sieve_of_eratosthenes(50);
    let trial_result = find_primes_trial_division(50);
    assert_eq!(sieve_result, trial_result);
}

#[test]
fn test_both_methods_agree_below_two() {
    assert_eq!(sieve_of_eratosthenes(0), find_primes_trial_division(0));
    assert_eq!(sieve_of_eratosthenes(1), find_primes_trial_division(1));
    assert_eq!(find_primes_trial_division(0), Vec::<usize>::new());
    assert_eq!(find_primes_trial_division(1), Vec::<usize>::new());
}

#[test]
fn test_sieve_repeat_calls_identical() {
    let first = sieve_of_eratosthenes(30);
    let second = sieve_of_eratosthenes(30);
    assert_eq!(first, second);
}

#[test]
fn test_trial_division_edge_cases() {
    assert_eq!(find_primes_trial_division(2), vec![2]);
    assert_eq!(find_primes_trial_division(10), vec![2, 3, 5, 7]);
}

#[test]
fn test_render_partial_row() {
    let out = render(&vec![2, 3, 5, 7]);
    assert_eq!(out, "  2   3   5   7\n");
}

#[test]
fn test_render_full_row() {
    let primes = sieve_of_eratosthenes(29);
    assert_eq!(primes.len(), 10);
    let out = render(&primes);
    assert_eq!(out, "  2   3   5   7  11  13  17  19  23  29\n");
}

#[test]
fn test_render_empty() {
    let out = render(&Vec::new());
    assert_eq!(out, "");
}

#[test]
fn test_render_hundred_bound_rows() {
    let primes = sieve_of_eratosthenes(100);
    assert_eq!(primes.len(), 25);
    let out = render(&primes);
    assert_eq!(out.chars().filter(|&c| c == '\n').count(), 3);
    assert!(out.ends_with('\n'));
    assert!(!out.ends_with(" \n"));
    let rows: Vec<&str> = out.lines().collect();
    assert_eq!(rows.len(), 3);
    assert_eq!(rows[0].split_whitespace().count(), 10);
    assert_eq!(rows[1].split_whitespace().count(), 10);
    assert_eq!(rows[2].split_whitespace().count(), 5);
}

#[test]
fn test_render_wide_values() {
    let out = render(&vec![101, 103, 1009]);
    assert_eq!(out, "101 103 1009\n");
}

#[test]
fn test_is_prime_larger_values() {
    assert!(is_prime(89));
    assert!(!is_prime(91));
    assert!(!is_prime(0));
    assert!(is_prime(7919));
    assert!(!is_prime(7917));
}
