use checkdigits::coding::{decode_bch, encode_bch, CodingResult};

#[test]
pub fn bch_success() {
    let x = decode_bch("3745195876").unwrap();
    assert_eq!(&x, "3745195876");
}

#[test]
pub fn bch_single_error() {
    let y = decode_bch("3945195876").unwrap_err();
    match y {
        CodingResult::SingleError(output, pos, mag) => {
            assert_eq!((output.as_str(), pos, mag), ("3745195876", 2, 2))
        }
        err => panic!("Wrong error type returned. Error was: {:?}", err),
    }
}

#[test]
pub fn bch_double_error() {
    let inputs = vec![
        ("3715195076", "3745195876", (8, 3), (3, 8)),
        ("0743195876", "3745195876", (4, 1), (9, 8)),
        ("3745195840", "3745195876", (10, 9), (5, 8)),
        ("8745105876", "3745195876", (6, 1), (2, 5)),
        ("3745102876", "3745195876", (6, 7), (2, 8)),
        ("1145195876", "3745195876", (1, 2), (9, 5)),
        ("3745191976", "3745195876", (8, 7), (1, 7)),
        ("3745190872", "3745195876", (7, 10), (6, 7)),
    ];

    inputs.iter().for_each(|row| {
        let result = decode_bch(row.0).unwrap_err();
        match result {
            CodingResult::DoubleError(output, pos, mag) => {
                assert_eq!(row.1, output);
                assert_eq!(row.2, pos);
                assert_eq!(row.3, mag);
            }
            _ => panic!("Wrong error type returned"),
        }
    });
}

#[test]
pub fn bch_triple_error() {
    let inputs = vec![
        "1115195876",
        "2745795878",
        "3742102896",
        "1115195876",
        "3121195876",
        "3121195876",
        "1135694766",
        "0888888074",
        "5614216009",
        "9990909923",
        "1836703776",
        "9885980731",
    ];

    inputs.iter().for_each(|row| {
        let result = decode_bch(row).unwrap_err();
        match result {
            CodingResult::TripleError(_) => {}
            _ => panic!("Wrong error type returned"),
        }
    });
}

#[test]
pub fn encode_produces_codeword() {
    assert_eq!(encode_bch("000011").unwrap(), "0000118435");
    assert_eq!(encode_bch("374519").unwrap(), "3745195876");
}

#[test]
pub fn encode_rejects_bad_payloads() {
    assert!(matches!(encode_bch("00001"), Err(CodingResult::EncodingError(_))));
    assert!(matches!(encode_bch("00a011"), Err(CodingResult::EncodingError(_))));
    assert!(matches!(encode_bch("000003"), Err(CodingResult::EncodingError(_))));
}

#[test]
pub fn decode_rejects_bad_words() {
    assert!(matches!(decode_bch("123"), Err(CodingResult::InputError(_))));
    assert!(matches!(decode_bch("12345678w9"), Err(CodingResult::InputError(_))));
}

#[test]
pub fn encode_then_decode_is_clean() {
    for payload in ["000011", "374519", "000001", "000002", "000010"] {
        let word = encode_bch(payload).unwrap();
        assert_eq!(decode_bch(&word).unwrap(), word);
    }
}
