use checkdigits::hamming::calculate_digits;

fn encode_weights() -> Vec<Vec<u32>> {
    vec![
        vec![4, 10, 9, 2, 1, 7],
        vec![7, 8, 7, 1, 9, 6],
        vec![9, 1, 7, 8, 7, 7],
        vec![1, 2, 9, 10, 4, 1],
    ]
}

fn syndrome_weights() -> Vec<Vec<u32>> {
    vec![
        vec![1, 1, 1, 1, 1, 1, 1, 1, 1, 1],
        vec![1, 2, 3, 4, 5, 6, 7, 8, 9, 10],
        vec![1, 4, 9, 5, 3, 3, 5, 9, 4, 1],
        vec![1, 8, 5, 9, 4, 7, 2, 6, 3, 10],
    ]
}

#[test]
pub fn check_digits_successful() {
    let rows = encode_weights();
    let weights: Vec<&[u32]> = rows.iter().map(|r| r.as_slice()).collect();

    let inputs = vec!["000001", "000002", "000010", "000011"];
    let results = vec!["0000017671", "0000023132", "0000101974", "0000118435"];

    inputs.iter().enumerate().for_each(|(i, _)| {
        assert_eq!(
            &calculate_digits(&weights[..], &String::from(inputs[i]), 6).unwrap(),
            results[i]
        )
    });
}

#[test]
pub fn check_digits_failure() {
    let rows = encode_weights();
    let weights: Vec<&[u32]> = rows.iter().map(|r| r.as_slice()).collect();
    let input = "000003";

    calculate_digits(&weights, &String::from(input), 6).unwrap_err();
}

#[test]
pub fn check_syndrome_generation_success() {
    let rows = syndrome_weights();
    let weights: Vec<&[u32]> = rows.iter().map(|r| r.as_slice()).collect();
    let input = "0000118435";

    let digits = calculate_digits(&weights, &String::from(input), 10).unwrap();

    assert_eq!(digits, String::from("00001184350000"));

    let input = "8899880747";

    let digits = calculate_digits(&weights, &String::from(input), 10).unwrap();

    assert_eq!(digits, String::from("88998807472733"));
}
