use bigdecimal::BigDecimal;
use ducci::bigint::{
    generate_trib_exact_big_int, is_zero_big_int, iterate_big_int, subtract_big_int,
};
use ducci::golden::{
    big_decimal_to_big_int, clamp_to_biguint, fill_array_set_trib_big_int,
    generate_trib_golden_ratio_big_int, generate_trib_sequence_big_int, power, GoldenConstants,
    NUM_CHUNKS,
};
use num_bigint::BigUint;

fn big_vec(values: &[u64]) -> Vec<BigUint> {
    values.iter().map(|&v| BigUint::from(v)).collect()
}

#[test]
fn big_step_absolute_differences() {
    let mut v = big_vec(&[1, 0, 1, 0]);
    subtract_big_int(&mut v);
    assert_eq!(v, big_vec(&[1, 1, 1, 1]));
    subtract_big_int(&mut v);
    assert!(is_zero_big_int(&v));
}

#[test]
fn big_step_never_underflows() {
    let mut v = big_vec(&[0, 10000]);
    subtract_big_int(&mut v);
    assert_eq!(v, big_vec(&[10000, 10000]));
}

#[test]
fn big_run_two_iterations() {
    let mut v = big_vec(&[1, 0, 1, 0]);
    let (line, count) = iterate_big_int(&mut v);
    assert_eq!(count, 2);
    assert_eq!(line, "[1, 0, 1, 0] : 2\n");
    assert!(is_zero_big_int(&v));
}

#[test]
fn big_run_stops_on_cycle() {
    let mut v = big_vec(&[0, 1, 1]);
    let (line, count) = iterate_big_int(&mut v);
    assert_eq!(count, 3);
    assert_eq!(line, "[0, 1, 1] : 3\n");
}

#[test]
fn big_exact_window_base_case() {
    assert_eq!(generate_trib_exact_big_int(0), big_vec(&[0, 0, 1, 1]));
    assert_eq!(generate_trib_exact_big_int(2), big_vec(&[1, 1, 2, 4]));
}

#[test]
fn big_exact_window_matches_machine_width() {
    assert_eq!(
        generate_trib_exact_big_int(30),
        big_vec(&[15902591, 29249425, 53798080, 98950096])
    );
}

#[test]
fn big_exact_window_beyond_machine_width() {
    let window = generate_trib_exact_big_int(100);
    let expected: BigUint = "53324762928098149064722658".parse().unwrap();
    assert_eq!(window[0], expected);
}

#[test]
fn power_of_zero_exponent_is_one() {
    let base = BigDecimal::from(3u64) / BigDecimal::from(2u64);
    let result = power(&base, 0, NUM_CHUNKS);
    assert_eq!(result, BigDecimal::from(1u64));
}

#[test]
fn power_chunk_count_does_not_change_result() {
    let base = BigDecimal::from(3u64) / BigDecimal::from(2u64);
    let one_chunk = power(&base, 30, 1);
    let seven_chunks = power(&base, 30, 7);
    let ten_chunks = power(&base, 30, 10);
    assert_eq!(one_chunk, seven_chunks);
    assert_eq!(seven_chunks, ten_chunks);
}

#[test]
fn power_small_exponent_exact() {
    let base = BigDecimal::from(3u64);
    assert_eq!(power(&base, 4, NUM_CHUNKS), BigDecimal::from(81u64));
}

#[test]
fn conversion_rounds_and_clamps() {
    assert_eq!(
        big_decimal_to_big_int(&BigDecimal::from(7u64)),
        BigUint::from(7u64)
    );
    let minus_three = BigDecimal::from(0u64) - BigDecimal::from(3u64);
    assert_eq!(big_decimal_to_big_int(&minus_three), BigUint::from(0u64));
    let two_and_a_quarter = BigDecimal::from(9u64) / BigDecimal::from(4u64);
    assert_eq!(
        big_decimal_to_big_int(&two_and_a_quarter),
        BigUint::from(2u64)
    );
}

#[test]
fn clamp_keeps_integers_and_zeros_negatives() {
    assert_eq!(
        clamp_to_biguint(&BigDecimal::from(12u64)),
        BigUint::from(12u64)
    );
    let minus_one = BigDecimal::from(0u64) - BigDecimal::from(1u64);
    assert_eq!(clamp_to_biguint(&minus_one), BigUint::from(0u64));
}

#[test]
fn closed_form_matches_recurrence_at_thirty() {
    let constants = match GoldenConstants::new() {
        Some(c) => c,
        None => panic!("golden-ratio constants degenerated"),
    };
    let approximate = generate_trib_golden_ratio_big_int(&constants, 30);
    let exact = generate_trib_exact_big_int(30);
    assert_eq!(approximate, exact);
}

#[test]
fn closed_form_base_window() {
    let constants = match GoldenConstants::new() {
        Some(c) => c,
        None => panic!("golden-ratio constants degenerated"),
    };
    let approximate = generate_trib_golden_ratio_big_int(&constants, 0);
    assert_eq!(approximate, generate_trib_exact_big_int(0));
}

#[test]
fn selectable_generator_exact_path() {
    let constants = match GoldenConstants::new() {
        Some(c) => c,
        None => panic!("golden-ratio constants degenerated"),
    };
    let window = generate_trib_sequence_big_int(&constants, 5, false);
    assert_eq!(window, big_vec(&[4, 7, 13, 24]));
}

#[test]
fn set_trib_big_int_appends_window() {
    let constants = match GoldenConstants::new() {
        Some(c) => c,
        None => panic!("golden-ratio constants degenerated"),
    };
    let mut values: Vec<BigUint> = vec![BigUint::from(9u64)];
    fill_array_set_trib_big_int(&mut values, 5, &constants);
    assert_eq!(values.len(), 5);
    assert_eq!(values[0], BigUint::from(9u64));
    // The window obeys the recurrence whichever generator produced it.
    assert_eq!(values[4], &values[1] + &values[2] + &values[3]);
}
