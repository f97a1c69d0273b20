use updater::version::{compare, Order};

#[test]
fn compare_equal_to_itself() {
    assert_eq!(compare("1.0.0", "1.0.0"), Order::Equal);
    assert_eq!(compare("0", "0"), Order::Equal);
    assert_eq!(compare("10.20.30", "10.20.30"), Order::Equal);
    assert_eq!(compare("007.1", "007.1"), Order::Equal);
}

#[test]
fn compare_missing_trailing_segments_are_zero() {
    assert_eq!(compare("1.2", "1.2.0"), Order::Equal);
    assert_eq!(compare("1.2.0", "1.2"), Order::Equal);
    assert_eq!(compare("1", "1.0.0.0"), Order::Equal);
    assert_eq!(compare("1.2", "1.2.1"), Order::Less);
    assert_eq!(compare("1.2.1", "1.2"), Order::Greater);
}

#[test]
fn compare_is_numeric_not_lexicographic() {
    assert_eq!(compare("1.9.0", "1.10.0"), Order::Less);
    assert_eq!(compare("1.10.0", "1.9.0"), Order::Greater);
    assert_eq!(compare("2", "10"), Order::Less);
}

#[test]
fn compare_ignores_leading_zeros() {
    assert_eq!(compare("01.2", "1.2"), Order::Equal);
    assert_eq!(compare("0010", "10"), Order::Equal);
    assert_eq!(compare("010", "9"), Order::Greater);
    assert_eq!(compare("1.002", "1.2"), Order::Equal);
}

#[test]
fn compare_handles_values_beyond_machine_words() {
    assert_eq!(
        compare("18446744073709551616", "18446744073709551615"),
        Order::Greater
    );
    assert_eq!(
        compare("340282366920938463463374607431768211456.1", "340282366920938463463374607431768211456.1"),
        Order::Equal
    );
}

#[test]
fn compare_malformed_falls_back_to_less() {
    assert_eq!(compare("1.beta", "1.0"), Order::Less);
    assert_eq!(compare("1.0", "1.beta"), Order::Less);
    assert_eq!(compare("", "0"), Order::Less);
    assert_eq!(compare("1..2", "1"), Order::Less);
    assert_eq!(compare("1.beta", "1.beta"), Order::Less);
}
