use lottery::{compare_numbers, sort_numbers, validate_numbers, LotteryError};

#[test]
fn test_compare_numbers() {
    let number1 = [1, 2, 3, 4, 5, 6];
    let number2 = [1, 2, 3, 4, 5, 6];
    let number3 = [1, 2, 3, 4, 5, 7];
    let number4 = [2, 3, 4, 5, 6, 7];

    assert_eq!(compare_numbers(&number1, &number2), true);
    assert_eq!(compare_numbers(&number1, &number3), false);
    assert_eq!(compare_numbers(&number3, &number4), false);
}

#[test]
fn sort_numbers_orders_ascending() {
    assert_eq!(sort_numbers(&[6, 5, 4, 3, 2, 1]), [1, 2, 3, 4, 5, 6]);
    assert_eq!(sort_numbers(&[3, 3, 1, 55, 0, 2]), [0, 1, 2, 3, 3, 55]);
}

#[test]
fn validate_numbers_accepts_any_order() {
    assert_eq!(validate_numbers(&[6, 5, 4, 3, 2, 1]), Ok([1, 2, 3, 4, 5, 6]));
    assert_eq!(validate_numbers(&[55, 1, 30, 2, 54, 3]), Ok([1, 2, 3, 30, 54, 55]));
}

#[test]
fn validate_numbers_rejects_duplicates() {
    assert_eq!(validate_numbers(&[1, 1, 2, 3, 4, 5]), Err(LotteryError::InvalidNumbers));
}

#[test]
fn validate_numbers_rejects_out_of_range() {
    assert_eq!(validate_numbers(&[0, 1, 2, 3, 4, 5]), Err(LotteryError::InvalidNumbers));
    assert_eq!(validate_numbers(&[1, 2, 3, 4, 5, 56]), Err(LotteryError::InvalidNumbers));
}
