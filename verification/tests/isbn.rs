use checkdigits::isbn::verify_isbn;

#[test]
pub fn isbn_isbn_verification_success() {
    let valid_isbn_list = vec![
        "99921-58-10-7",
        "960-425-059-0",
        "1-84356-028-3",
        "0-943396-04-2",
        "0-2-33-56131-5",
        "0-9752298-0-X",
    ];

    valid_isbn_list
        .iter()
        .for_each(|&isbn| assert!(verify_isbn(&String::from(isbn)).is_ok()));
}

#[test]
pub fn isbn_isbn_verification_failure() {
    let invalid_isbn_list = vec!["0-2-83-56131-5"];

    invalid_isbn_list
        .iter()
        .for_each(|&isbn| assert!(verify_isbn(&String::from(isbn)).is_err()));
}

#[test]
pub fn isbn_isbn_verification_digit_count() {
    let invalid_isbn = "99921-58-10-756";

    assert!(verify_isbn(&String::from(invalid_isbn)).is_err());
}

#[test]
pub fn isbn_isbn_verification_invalid_digits() {
    let invalid_isbn = "9a92b-5c-10-7d6";

    assert!(verify_isbn(&String::from(invalid_isbn)).is_err());
}

#[test]
pub fn lib_isbn_verification_success() {
    let valid_isbn_list = vec![
        "99921-58-10-7",
        "960-425-059-0",
        "1-84356-028-3",
        "0-943396-04-2",
        "0-2-33-56131-5",
        "0-9752298-0-X",
    ];

    valid_isbn_list
        .iter()
        .for_each(|&isbn| assert!(verify_isbn(&String::from(isbn)).is_ok()));
}

#[test]
pub fn lib_isbn_verification_failure() {
    let invalid_isbn_list = vec!["0-2-83-56131-5"];

    invalid_isbn_list
        .iter()
        .for_each(|&isbn| assert!(verify_isbn(&String::from(isbn)).is_err()));
}

#[test]
pub fn lib_isbn_verification_digit_count() {
    let invalid_isbn = "99921-58-10-756";

    assert!(verify_isbn(&String::from(invalid_isbn)).is_err());
}

#[test]
pub fn lib_isbn_verification_invalid_digits() {
    let invalid_isbn = "9a92b-5c-10-7d6";

    assert!(verify_isbn(&String::from(invalid_isbn)).is_err());
}
