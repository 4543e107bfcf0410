use checkdigits::bch::{verify_bch_input, BCHError};

#[test]
pub fn validate_correct_inputs() {
    verify_bch_input("3745195876").unwrap();
}

#[test]
pub fn correct_single_error() {
    let y = verify_bch_input("3945195876").unwrap_err();
    match y {
        BCHError::SingleError(output, pos, mag) => {
            assert_eq!((output, pos, mag), (vec![3, 7, 4, 5, 1, 9, 5, 8, 7, 6], 2, 2))
        }
        err => panic!("Wrong error type returned. Error was: {:?}", err),
    }
}

#[test]
pub fn correct_double_errors() {
    let inputs = vec![
        ("3715195076", vec![3, 7, 4, 5, 1, 9, 5, 8, 7, 6], (8, 3), (3, 8)),
        ("0743195876", vec![3, 7, 4, 5, 1, 9, 5, 8, 7, 6], (4, 1), (9, 8)),
        ("3745195840", vec![3, 7, 4, 5, 1, 9, 5, 8, 7, 6], (10, 9), (5, 8)),
        ("8745105876", vec![3, 7, 4, 5, 1, 9, 5, 8, 7, 6], (6, 1), (2, 5)),
        ("3745102876", vec![3, 7, 4, 5, 1, 9, 5, 8, 7, 6], (6, 7), (2, 8)),
        ("1145195876", vec![3, 7, 4, 5, 1, 9, 5, 8, 7, 6], (1, 2), (9, 5)),
        ("3745191976", vec![3, 7, 4, 5, 1, 9, 5, 8, 7, 6], (8, 7), (1, 7)),
        ("3745190872", vec![3, 7, 4, 5, 1, 9, 5, 8, 7, 6], (7, 10), (6, 7)),
    ];

    inputs.iter().for_each(|row| {
        let result = verify_bch_input(row.0).unwrap_err();
        match result {
            BCHError::DoubleError(output, pos, mag) => {
                assert_eq!(row.1, output);
                assert_eq!(row.2, pos);
                assert_eq!(row.3, mag);
            }
            _ => panic!("Wrong error type returned"),
        }
    });
}

#[test]
pub fn warn_on_triple_error() {
    let inputs = vec![
        "1115195876",
        "2745795878",
        "3742102896",
        "1115195876",
        "3121195876",
        "3121195876",
        "1135694766",
        "0888888074",
        "5614216009",
        "9990909923",
        "1836703776",
        "9885980731",
    ];

    inputs.iter().for_each(|row| {
        let result = verify_bch_input(row).unwrap_err();
        match result {
            BCHError::TripleError(_) => {}
            _ => panic!("Wrong error type returned - {:?}", result),
        }
    });
}
