use checkdigits::credit::{verify_credit_card, CreditCardVerificationError};

#[test]
pub fn credit_credit_verification_success() {
    let valid_credit_no_list = [
        "0980108875738176",
        "9761915824794746",
        "3644685256981147",
        "6921 9308 3585 6403",
    ];

    valid_credit_no_list
        .iter()
        .for_each(|&credit_no| assert!(verify_credit_card(&String::from(credit_no)).is_ok()));
}

#[test]
pub fn credit_credit_verification_digit_count() {
    let invalid_no = "692193083585640"; // 15 digits

    assert!(verify_credit_card(&String::from(invalid_no)).is_err());
}

#[test]
pub fn credit_credit_verification_alphanumeric() {
    let invalid_no = "692193083585640A";

    assert!(verify_credit_card(&String::from(invalid_no)).is_err());
}

#[test]
pub fn lib_credit_verification_success() {
    let valid_credit_no_list = [
        "0980108875738176",
        "9761915824794746",
        "3644685256981147",
        "6921 9308 3585 6403",
    ];

    valid_credit_no_list
        .iter()
        .for_each(|&credit_no| assert!(verify_credit_card(&String::from(credit_no)).is_ok()));
}

#[test]
pub fn lib_credit_verification_digit_count() {
    let invalid_no = "692193083585640"; // 15 digits

    assert!(verify_credit_card(&String::from(invalid_no)).is_err());
}

#[test]
pub fn lib_credit_verification_alphanumeric() {
    let invalid_no = "692193083585640A";

    assert!(verify_credit_card(&String::from(invalid_no)).is_err());
}

#[test]
pub fn luhn_error_variants() {
    assert!(matches!(
        verify_credit_card(&String::from("6921930835856402")),
        Err(CreditCardVerificationError::InvalidCreditCard)
    ));
    assert!(matches!(
        verify_credit_card(&String::from("692193083585640")),
        Err(CreditCardVerificationError::InvalidLength)
    ));
    assert!(matches!(
        verify_credit_card(&String::from("692193083585640A")),
        Err(CreditCardVerificationError::InvalidDigitsFound)
    ));
}
