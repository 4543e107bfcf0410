use checkdigits::hamming::{calculate_hamming_check_digits, generate_syndromes};

#[test]
pub fn hamming_check_digits_success() {
    let inputs = ["000001", "000002", "000010", "000011"];
    let results = ["7671", "3132", "1974", "8435"];
    for (input, proper) in inputs.iter().zip(results.iter()) {
        let result = calculate_hamming_check_digits(input);
        match result.ok() {
            Some(output) => assert_eq!(output, String::from(*proper)),
            None => panic!(),
        }
    }
}

#[test]
pub fn hamming_check_digits_unusable_number() {
    let result = calculate_hamming_check_digits("000003");
    if result.is_ok() {
        panic!()
    }
}

#[test]
pub fn hamming_check_digits_invalid_characters() {
    let result = calculate_hamming_check_digits("flnefk");
    if result.is_ok() {
        panic!()
    }
}

#[test]
pub fn syndrome_vector_generation_success() {
    let inputs = ["0000118435", "8899880747"];
    let results = [[0, 0, 0, 0], [2, 7, 3, 3]];
    for (input, proper) in inputs.iter().zip(results.iter()) {
        let result = generate_syndromes(input);
        match result.clone().ok() {
            Some(output) => assert_eq!(output, proper),
            None => panic!("{:?}", result),
        }
    }
}
