use checkdigits::bch;
use checkdigits::coding::{decode_bch, encode_bch, CodingResult};
use checkdigits::hamming::{calculate_hamming_check_digits, HammingError};

#[test]
pub fn valid_codeword_decodes_clean() {
    assert_eq!(decode_bch("3745195876").unwrap(), "3745195876");
}

#[test]
pub fn single_error_is_repaired() {
    match decode_bch("3945195876").unwrap_err() {
        CodingResult::SingleError(out, pos, mag) => {
            assert_eq!((out.as_str(), pos, mag), ("3745195876", 2, 2));
        }
        other => panic!("wrong outcome: {:?}", other),
    }
}

#[test]
pub fn double_error_is_repaired() {
    match decode_bch("3715195076").unwrap_err() {
        CodingResult::DoubleError(out, pos, mag) => {
            assert_eq!(out, "3745195876");
            assert_eq!(pos, (8, 3));
            assert_eq!(mag, (3, 8));
        }
        other => panic!("wrong outcome: {:?}", other),
    }
}

#[test]
pub fn heavy_corruption_is_rejected() {
    match decode_bch("1115195876").unwrap_err() {
        CodingResult::TripleError(_) => {}
        other => panic!("wrong outcome: {:?}", other),
    }
}

#[test]
pub fn encode_known_payload() {
    assert_eq!(encode_bch("000011").unwrap(), "0000118435");
    assert_eq!(bch::encode_bch("000011").unwrap(), "0000118435");
}

#[test]
pub fn repaired_words_decode_clean_again() {
    // A single and a double repair, decoded a second time.
    for received in ["3945195876", "3715195076", "0743195876", "1145195876"] {
        let corrected = match decode_bch(received).unwrap_err() {
            CodingResult::SingleError(out, _, _) => out,
            CodingResult::DoubleError(out, _, _) => out,
            other => panic!("wrong outcome: {:?}", other),
        };
        assert_eq!(decode_bch(&corrected).unwrap(), corrected);
    }
}

#[test]
pub fn zero_discriminant_falls_to_the_division_check() {
    // The discriminant of this word is the zero residue, whose square
    // root is zero; the two position divisions then coincide and the
    // magnitude division fails.
    match decode_bch("6083778353").unwrap_err() {
        CodingResult::TripleError(msg) => {
            assert_eq!(
                msg,
                "The RHS value did not satisfy the restraint of having a GCD of 1 with the LHS modulo."
            );
        }
        other => panic!("wrong outcome: {:?}", other),
    }
}

#[test]
pub fn check_digit_generator_error_variants() {
    assert!(matches!(
        calculate_hamming_check_digits("00001"),
        Err(HammingError::InvalidLength(6, 5))
    ));
    assert!(matches!(
        calculate_hamming_check_digits("00a011"),
        Err(HammingError::InvalidDigit)
    ));
    assert!(matches!(
        calculate_hamming_check_digits("000003"),
        Err(HammingError::UnusableNumber)
    ));
}

#[test]
pub fn verify_bch_error_order() {
    // A non-digit is reported before a bad length.
    match bch::verify_bch_input("12a").unwrap_err() {
        bch::BCHError::InvalidInput(HammingError::InvalidDigit) => {}
        other => panic!("wrong outcome: {:?}", other),
    }
    match bch::verify_bch_input("123").unwrap_err() {
        bch::BCHError::InvalidInput(HammingError::InvalidLength(10, 3)) => {}
        other => panic!("wrong outcome: {:?}", other),
    }
}
