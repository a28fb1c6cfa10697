use text_tools::digits::biggest_number;

#[test]
fn test_single_digit() {
    assert_eq!(biggest_number(vec!['5']), 5);
}

#[test]
fn test_multiple_unique_digits() {
    assert_eq!(biggest_number(vec!['1', '2', '3']), 321);
    assert_eq!(biggest_number(vec!['9', '0', '8']), 980);
}

#[test]
fn test_repeated_digits() {
    assert_eq!(biggest_number(vec!['1', '1', '1']), 111);
    assert_eq!(biggest_number(vec!['2', '2', '1']), 221);
}

#[test]
fn test_mixed_digits() {
    assert_eq!(biggest_number(vec!['3', '1', '4', '1']), 4311);
    assert_eq!(biggest_number(vec!['0', '0', '9']), 900);
}

#[test]
fn test_all_digits() {
    let digits = vec!['4', '2', '2', '2', '2', '2', '2', '2', '2', '2'];
    assert_eq!(biggest_number(digits), 4222222222);
}

#[test]
fn no_digit_writes_zero() {
    assert_eq!(biggest_number(vec![]), 0);
    assert_eq!(biggest_number(vec!['0', '0']), 0);
}

#[test]
fn largest_value_that_fits() {
    let digits = vec!['4', '2', '9', '4', '9', '6', '7', '2', '9'];
    assert_eq!(biggest_number(digits), 999_764_422);
    let digits = vec!['0', '0', '0', '1', '0', '0', '0', '0', '0', '4'];
    assert_eq!(biggest_number(digits), 4_100_000_000);
}
