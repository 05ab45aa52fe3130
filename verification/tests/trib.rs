use ducci::trib::{
    fill_array_rand, fill_array_set_trib, fill_array_trib, generate_trib_sequence,
    MAX_TRIB_INDEX,
};

#[test]
fn window_at_zero_is_base_case() {
    let window = generate_trib_sequence(0);
    assert_eq!(window, vec![0, 0, 1, 1]);
}

#[test]
fn window_at_small_indices() {
    assert_eq!(generate_trib_sequence(1), vec![0, 1, 1, 2]);
    assert_eq!(generate_trib_sequence(2), vec![1, 1, 2, 4]);
    assert_eq!(generate_trib_sequence(5), vec![4, 7, 13, 24]);
}

#[test]
fn window_at_index_thirty() {
    assert_eq!(
        generate_trib_sequence(30),
        vec![15902591, 29249425, 53798080, 98950096]
    );
}

#[test]
fn window_at_largest_supported_index() {
    assert_eq!(MAX_TRIB_INDEX, 72);
    assert_eq!(
        generate_trib_sequence(MAX_TRIB_INDEX),
        vec![
            2073693258389777176,
            3814116544533214284,
            7015254043203144209,
            12903063846126135669,
        ]
    );
}

#[test]
fn set_trib_appends_to_existing_values() {
    let mut values: Vec<u64> = vec![9];
    fill_array_set_trib(&mut values, 1);
    assert_eq!(values, vec![9, 0, 1, 1, 2]);
}

#[test]
fn random_trib_window_is_consecutive() {
    let mut values: Vec<u64> = Vec::new();
    fill_array_trib(&mut values);
    assert_eq!(values.len(), 4);
    // A window always obeys the recurrence at its last element.
    assert_eq!(values[3], values[0] + values[1] + values[2]);
}

#[test]
fn random_fill_stays_below_bound() {
    let mut values: Vec<u64> = vec![0; 64];
    fill_array_rand(&mut values);
    assert_eq!(values.len(), 64);
    assert!(values.iter().all(|&v| v < 10000));
}
