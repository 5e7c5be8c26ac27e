use fast_boolean_anf_transform::{
    checked_bool_anf_transform_bool_array, checked_bool_anf_transform_unsigned,
    fast_bool_anf_transform_bool_array, fast_bool_anf_transform_unsigned, AnfError,
};

#[test]
fn test_fast_bool_anf_transform_unsigned() {
    assert_eq!(fast_bool_anf_transform_unsigned(0u64, 2), 0);
    assert_eq!(fast_bool_anf_transform_unsigned(1u64, 2), 15);
    assert_eq!(fast_bool_anf_transform_unsigned(2u64, 2), 10);
    assert_eq!(fast_bool_anf_transform_unsigned(3u64, 2), 5);
    assert_eq!(fast_bool_anf_transform_unsigned(4u64, 2), 12);
    assert_eq!(fast_bool_anf_transform_unsigned(5u64, 2), 3);
    assert_eq!(fast_bool_anf_transform_unsigned(6u64, 2), 6);
    assert_eq!(fast_bool_anf_transform_unsigned(7u64, 2), 9);
    assert_eq!(fast_bool_anf_transform_unsigned(8u64, 2), 8);
    assert_eq!(fast_bool_anf_transform_unsigned(9u64, 2), 7);
    assert_eq!(fast_bool_anf_transform_unsigned(10u64, 2), 2);
    assert_eq!(fast_bool_anf_transform_unsigned(11u64, 2), 13);
    assert_eq!(fast_bool_anf_transform_unsigned(12u64, 2), 4);
    assert_eq!(fast_bool_anf_transform_unsigned(13u64, 2), 11);
    assert_eq!(fast_bool_anf_transform_unsigned(14u64, 2), 14);
    assert_eq!(fast_bool_anf_transform_unsigned(15u64, 2), 1);

    assert_eq!(fast_bool_anf_transform_unsigned(240u64, 3), 16);
    assert_eq!(fast_bool_anf_transform_unsigned(30u64, 3), 30);
}

#[test]
fn test_fast_bool_anf_transform_bool_array() {
    let mut rule_truth_table = vec![false, false, false, false];
    fast_bool_anf_transform_bool_array(&mut rule_truth_table);
    assert_eq!(rule_truth_table, vec![false, false, false, false]);

    rule_truth_table = vec![true, false, false, false];
    fast_bool_anf_transform_bool_array(&mut rule_truth_table);
    assert_eq!(rule_truth_table, vec![true, true, true, true]);

    rule_truth_table = vec![false, true, false, false];
    fast_bool_anf_transform_bool_array(&mut rule_truth_table);
    assert_eq!(rule_truth_table, vec![false, true, false, true]);

    rule_truth_table = vec![true, true, false, false];
    fast_bool_anf_transform_bool_array(&mut rule_truth_table);
    assert_eq!(rule_truth_table, vec![true, false, true, false]);

    let mut rule_truth_table = vec![false, false, true, false];
    fast_bool_anf_transform_bool_array(&mut rule_truth_table);
    assert_eq!(rule_truth_table, vec![false, false, true, true]);

    rule_truth_table = vec![true, false, true, false];
    fast_bool_anf_transform_bool_array(&mut rule_truth_table);
    assert_eq!(rule_truth_table, vec![true, true, false, false]);

    rule_truth_table = vec![false, true, true, false];
    fast_bool_anf_transform_bool_array(&mut rule_truth_table);
    assert_eq!(rule_truth_table, vec![false, true, true, false]);

    rule_truth_table = vec![true, true, true, false];
    fast_bool_anf_transform_bool_array(&mut rule_truth_table);
    assert_eq!(rule_truth_table, vec![true, false, false, true]);

    let mut rule_truth_table = vec![false, false, false, true];
    fast_bool_anf_transform_bool_array(&mut rule_truth_table);
    assert_eq!(rule_truth_table, vec![false, false, false, true]);

    rule_truth_table = vec![true, false, false, true];
    fast_bool_anf_transform_bool_array(&mut rule_truth_table);
    assert_eq!(rule_truth_table, vec![true, true, true, false]);

    rule_truth_table = vec![false, true, false, true];
    fast_bool_anf_transform_bool_array(&mut rule_truth_table);
    assert_eq!(rule_truth_table, vec![false, true, false, false]);

    rule_truth_table = vec![true, true, false, true];
    fast_bool_anf_transform_bool_array(&mut rule_truth_table);
    assert_eq!(rule_truth_table, vec![true, false, true, true]);

    let mut rule_truth_table = vec![false, false, true, true];
    fast_bool_anf_transform_bool_array(&mut rule_truth_table);
    assert_eq!(rule_truth_table, vec![false, false, true, false]);

    rule_truth_table = vec![true, false, true, true];
    fast_bool_anf_transform_bool_array(&mut rule_truth_table);
    assert_eq!(rule_truth_table, vec![true, true, false, true]);

    rule_truth_table = vec![false, true, true, true];
    fast_bool_anf_transform_bool_array(&mut rule_truth_table);
    assert_eq!(rule_truth_table, vec![false, true, true, true]);

    rule_truth_table = vec![true, true, true, true];
    fast_bool_anf_transform_bool_array(&mut rule_truth_table);
    assert_eq!(rule_truth_table, vec![true, false, false, false]);

    let mut rule_truth_table = vec![false, false, false, false, true, true, true, true]; // 240
    fast_bool_anf_transform_bool_array(&mut rule_truth_table);
    assert_eq!(
        rule_truth_table,
        vec![false, false, false, false, true, false, false, false]
    );

    let mut rule_truth_table = vec![false, true, true, true, true, false, false, false]; // 30
    fast_bool_anf_transform_bool_array(&mut rule_truth_table);
    assert_eq!(
        rule_truth_table,
        vec![false, true, true, true, true, false, false, false]
    );
}

#[test]
fn test_checked_unsigned_out_of_domain() {
    // 16 >= 2^(2^2), so two variables cannot have this rule.
    assert_eq!(
        checked_bool_anf_transform_unsigned(16u64, 2),
        Err(AnfError::OutOfDomain)
    );
    assert_eq!(
        checked_bool_anf_transform_unsigned(u64::MAX, 5),
        Err(AnfError::OutOfDomain)
    );
}

#[test]
fn test_checked_unsigned_insufficient_capacity() {
    // 2^7 = 128 bits do not fit in a u64.
    assert_eq!(
        checked_bool_anf_transform_unsigned(16u64, 7),
        Err(AnfError::InsufficientCapacity)
    );
    assert_eq!(
        checked_bool_anf_transform_unsigned(0u64, 100),
        Err(AnfError::InsufficientCapacity)
    );
}

#[test]
fn test_checked_unsigned_accepts_valid_inputs() {
    assert_eq!(checked_bool_anf_transform_unsigned(3u64, 2), Ok(5));
    assert_eq!(checked_bool_anf_transform_unsigned(240u64, 3), Ok(16));
    assert_eq!(checked_bool_anf_transform_unsigned(15u64, 2), Ok(1));
    // At six variables every u64 is a valid table.
    assert!(checked_bool_anf_transform_unsigned(u64::MAX, 6).is_ok());
}

#[test]
fn test_checked_bool_array_invalid_length() {
    let mut rule_truth_table = vec![false, false, false, false, true, true, true];
    let before = rule_truth_table.clone();
    assert_eq!(
        checked_bool_anf_transform_bool_array(&mut rule_truth_table),
        Err(AnfError::InvalidLength)
    );
    // A refused call leaves the table untouched.
    assert_eq!(rule_truth_table, before);

    let mut empty: Vec<bool> = Vec::new();
    assert_eq!(
        checked_bool_anf_transform_bool_array(&mut empty),
        Err(AnfError::InvalidLength)
    );
    assert!(empty.is_empty());
}

#[test]
fn test_checked_bool_array_accepts_valid_lengths() {
    let mut rule_truth_table = vec![false, true, false, false];
    assert_eq!(
        checked_bool_anf_transform_bool_array(&mut rule_truth_table),
        Ok(())
    );
    assert_eq!(rule_truth_table, vec![false, true, false, true]);
}

#[test]
fn test_involution_unsigned() {
    for num_variables in 0..=4usize {
        let bound: u64 = 1u64 << (1u32 << num_variables);
        let step: u64 = if num_variables == 4 { 257 } else { 1 };
        let mut rule: u64 = 0;
        while rule < bound {
            let once = fast_bool_anf_transform_unsigned(rule, num_variables);
            let twice = fast_bool_anf_transform_unsigned(once, num_variables);
            assert_eq!(twice, rule);
            rule += step;
        }
    }
    let rule: u64 = 0xdead_beef_0123_4567;
    let once = fast_bool_anf_transform_unsigned(rule, 6);
    assert_eq!(fast_bool_anf_transform_unsigned(once, 6), rule);
}

#[test]
fn test_involution_bool_array() {
    for rule in 0u64..256 {
        let original: Vec<bool> = (0..8).map(|i| (rule >> i) & 1 == 1).collect();
        let mut table = original.clone();
        fast_bool_anf_transform_bool_array(&mut table);
        fast_bool_anf_transform_bool_array(&mut table);
        assert_eq!(table, original);
    }
}

#[test]
fn test_representation_equivalence() {
    for rule in 0u64..256 {
        let mut table: Vec<bool> = (0..8).map(|i| (rule >> i) & 1 == 1).collect();
        fast_bool_anf_transform_bool_array(&mut table);
        let packed = fast_bool_anf_transform_unsigned(rule, 3);
        for (i, entry) in table.iter().enumerate() {
            assert_eq!(*entry, (packed >> i) & 1 == 1);
        }
    }
}

#[test]
fn test_constant_term() {
    for rule in 0u64..16 {
        let transformed = fast_bool_anf_transform_unsigned(rule, 2);
        assert_eq!(transformed & 1, rule & 1);
    }
    for rule in 0u64..256 {
        let mut table: Vec<bool> = (0..8).map(|i| (rule >> i) & 1 == 1).collect();
        let first = table[0];
        fast_bool_anf_transform_bool_array(&mut table);
        assert_eq!(table[0], first);
    }
}

#[test]
fn test_zero_variables() {
    // A function of no variables is a constant; its only coefficient is
    // the constant term, so the transform is the identity.
    assert_eq!(fast_bool_anf_transform_unsigned(0u64, 0), 0);
    assert_eq!(fast_bool_anf_transform_unsigned(1u64, 0), 1);
    let mut table = vec![true];
    fast_bool_anf_transform_bool_array(&mut table);
    assert_eq!(table, vec![true]);
}
