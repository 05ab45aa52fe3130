use ducci::engine::run;
use ducci::search::{
    evaluate_length, evaluate_vector, fill_array_binary, format_summary, is_power_of_two,
    largest_result,
};

#[test]
fn binary_decode_exact() {
    let mut v: Vec<u64> = Vec::new();
    fill_array_binary(&mut v, 5, 4);
    assert_eq!(v, vec![0, 1, 0, 1]);
    fill_array_binary(&mut v, 0, 3);
    assert_eq!(v, vec![0, 0, 0]);
    fill_array_binary(&mut v, 1, 1);
    assert_eq!(v, vec![1]);
    fill_array_binary(&mut v, 0b1100101, 7);
    assert_eq!(v, vec![1, 1, 0, 0, 1, 0, 1]);
}

#[test]
fn binary_decode_enumerates_without_repeats() {
    for n in 1u64..=10 {
        let total = 1u128 << n;
        let mut all: Vec<Vec<u64>> = Vec::new();
        for i in 0..total {
            let mut v: Vec<u64> = Vec::new();
            fill_array_binary(&mut v, i, n);
            assert_eq!(v.len() as u64, n);
            assert!(v.iter().all(|&d| d <= 1));
            all.push(v);
        }
        all.sort();
        all.dedup();
        assert_eq!(all.len() as u128, total);
    }
}

#[test]
fn power_of_two_recognition() {
    for n in [1u64, 2, 4, 8, 16, 64, 1024] {
        assert!(is_power_of_two(n));
    }
    for n in [0u64, 3, 5, 6, 7, 12, 1023] {
        assert!(!is_power_of_two(n));
    }
}

#[test]
fn largest_keeps_first_on_ties() {
    let results: Vec<(String, u64)> = vec![
        ("first".to_string(), 2),
        ("second".to_string(), 2),
        ("third".to_string(), 1),
    ];
    let best = largest_result(&results);
    assert_eq!(best.0, "first");
    assert_eq!(best.1, 2);
}

#[test]
fn largest_finds_maximum() {
    let results: Vec<(String, u64)> = vec![
        ("a".to_string(), 0),
        ("b".to_string(), 4),
        ("c".to_string(), 3),
        ("d".to_string(), 4),
    ];
    let best = largest_result(&results);
    assert_eq!(best.0, "b");
    assert_eq!(best.1, 4);
}

#[test]
fn length_two_search_dominates_each_candidate() {
    let best = evaluate_length(2);
    for i in 0..4u128 {
        let mut v: Vec<u64> = Vec::new();
        fill_array_binary(&mut v, i, 2);
        let (count, _outcome) = run(&mut v);
        assert!(count <= best.1);
    }
    assert_eq!(best.1, 2);
    assert_eq!(best.0, "[0, 1] : 2\n");
}

#[test]
fn length_three_search_detects_cycles() {
    let best = evaluate_length(3);
    assert_eq!(best.1, 4);
    assert_eq!(best.0, "<Repeated> [0, 0, 1] : 4\n");
}

#[test]
fn length_four_search_terminal() {
    let best = evaluate_length(4);
    for i in 0..16u128 {
        let (_line, count) = evaluate_vector(i, 4);
        assert!(count <= best.1);
    }
}

#[test]
fn summary_line_format() {
    let line = format_summary(3, "<Repeated> [0, 0, 1] : 4\n");
    assert_eq!(line, "Length 3 Largest: <Repeated> [0, 0, 1] : 4\n");
    let line = format_summary(12, "[0, 1] : 2\n");
    assert_eq!(line, "Length 12 Largest: [0, 1] : 2\n");
}
