use checkdigits::cpu::{crack_bch, crack_single};
use checkdigits::sha_cracker;

#[test]
pub fn cpu_simple_crack() {
    let hash = "c2543fff3bfa6f144c2f06a7de6cd10c0b650cae";
    let password = crack_single(hash).unwrap();
    assert_eq!(password, "this");
}


#[test]
pub fn simple_bch_crack() {
    let hashes = [
        "4586580521292b61185246bbac71853c46fe5b17",
        "902608824fae2a1918d54d569d20819a4288a4e4",
        "5b8f495b7f02b62eb228c5dbece7c2f81b60b9a3",
    ];
    let codes = crack_bch(&hashes).unwrap();
    assert_eq!(codes[0], "000001");
    assert_eq!(codes[1], "000011");
    assert_eq!(codes[2], "888888");
}

#[test]
pub fn sha_cracker_finds_short_password() {
    // SHA-1 of "ab".
    let target = String::from("da23614e02469a0d7c7bd1bdab5c9c474b1904dc");
    let password = sha_cracker::crack(&target, 2).unwrap();
    assert_eq!(password, "ab");
}
