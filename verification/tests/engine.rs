use ducci::engine::{checking_iteration, is_zero, iterate, run, subtract, Outcome};
use ducci::repr::{get_storage_str, u64_to_string, vec_debug_string};

#[test]
fn step_absolute_differences() {
    let mut v: Vec<u64> = vec![1, 0, 1, 0];
    subtract(&mut v);
    assert_eq!(v, vec![1, 1, 1, 1]);
    subtract(&mut v);
    assert_eq!(v, vec![0, 0, 0, 0]);
}

#[test]
fn step_never_underflows() {
    let mut v: Vec<u64> = vec![0, 10000];
    subtract(&mut v);
    assert_eq!(v, vec![10000, 10000]);
    let mut w: Vec<u64> = vec![3, u64::MAX, 0];
    subtract(&mut w);
    assert_eq!(w, vec![u64::MAX - 3, u64::MAX, 3]);
}

#[test]
fn step_empty_vector() {
    let mut v: Vec<u64> = Vec::new();
    subtract(&mut v);
    assert!(v.is_empty());
    assert!(is_zero(&v));
}

#[test]
fn run_two_iterations_to_terminal() {
    let mut v: Vec<u64> = vec![1, 0, 1, 0];
    let (count, outcome) = run(&mut v);
    assert_eq!(count, 2);
    assert_eq!(outcome, Outcome::Terminal);
    assert_eq!(v, vec![0, 0, 0, 0]);
}

#[test]
fn run_zero_vector_is_vacuously_terminal() {
    let mut v: Vec<u64> = vec![0, 0, 0];
    let (count, outcome) = run(&mut v);
    assert_eq!(count, 0);
    assert_eq!(outcome, Outcome::Terminal);

    let mut empty: Vec<u64> = Vec::new();
    let (count, outcome) = run(&mut empty);
    assert_eq!(count, 0);
    assert_eq!(outcome, Outcome::Terminal);
}

#[test]
fn iterate_reports_line_and_count() {
    let mut v: Vec<u64> = vec![1, 0, 1, 0];
    let (line, count) = iterate(&mut v);
    assert_eq!(count, 2);
    assert_eq!(line, "[1, 0, 1, 0] : 2\n");
}

#[test]
fn length_three_cycle_is_detected() {
    let mut v: Vec<u64> = vec![0, 1, 1];
    let (count, outcome) = run(&mut v);
    assert_eq!(outcome, Outcome::Repeated);
    assert_eq!(count, 3);
    // The run stops when the start state recurs.
    assert_eq!(v, vec![0, 1, 1]);
}

#[test]
fn checking_iteration_marks_repeats() {
    let mut v: Vec<u64> = vec![0, 1, 1];
    let (line, count) = checking_iteration(&mut v);
    assert_eq!(count, 3);
    assert_eq!(line, "<Repeated> [0, 1, 1] : 3\n");
}

#[test]
fn checking_iteration_plain_on_terminal() {
    let mut v: Vec<u64> = vec![1, 0, 1, 0];
    let (line, count) = checking_iteration(&mut v);
    assert_eq!(count, 2);
    assert_eq!(line, "[1, 0, 1, 0] : 2\n");
}

#[test]
fn power_of_two_lengths_reach_zero() {
    for n in [1u64, 2, 4, 8] {
        for i in 0..(1u128 << n) {
            let mut v: Vec<u64> = Vec::new();
            ducci::search::fill_array_binary(&mut v, i, n);
            let (_count, outcome) = run(&mut v);
            assert_eq!(outcome, Outcome::Terminal);
            assert!(is_zero(&v));
        }
    }
}

#[test]
fn is_zero_detects_nonzero() {
    assert!(is_zero(&vec![0, 0, 0]));
    assert!(!is_zero(&vec![0, 0, 5]));
    assert!(is_zero(&Vec::new()));
}

#[test]
fn u64_strings_exact() {
    assert_eq!(u64_to_string(0), "0");
    assert_eq!(u64_to_string(7), "7");
    assert_eq!(u64_to_string(10), "10");
    assert_eq!(u64_to_string(12345), "12345");
    assert_eq!(u64_to_string(u64::MAX), "18446744073709551615");
}

#[test]
fn debug_representation_matches_std() {
    let v: Vec<u64> = vec![1, 0, 23];
    assert_eq!(vec_debug_string(&v), format!("{:?}", v));
    let empty: Vec<u64> = Vec::new();
    assert_eq!(vec_debug_string(&empty), "[]");
}

#[test]
fn storage_keys_are_delimited() {
    let mut a: Vec<u64> = vec![1, 23];
    let mut b: Vec<u64> = vec![12, 3];
    let key_a = get_storage_str(&mut a);
    let key_b = get_storage_str(&mut b);
    assert_eq!(key_a, "1,23");
    assert_eq!(key_b, "12,3");
    // The delimiter keeps distinct states from sharing a key.
    assert_ne!(key_a, key_b);
}
