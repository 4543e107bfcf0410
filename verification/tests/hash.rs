use checkdigits::hash::sha1;

#[test]
fn sha() {
    let input = "hello";
    let result = sha1(input);
    assert_eq!(result, "aaf4c61ddcc5e8a2dabede0f3b482cd9aea9434d");
}
