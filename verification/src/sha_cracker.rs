//! A stand-alone brute-force SHA-1 preimage search over the lowercase
//! alphanumeric alphabet, for passwords of a caller-chosen length.

use vstd::prelude::*;

verus! {

use crate::cpu::{_crack, full_alphabet};
use vstd::utf8::encode_utf8;
use crate::hash::sha1_hex_of;

/// Searches every candidate of at most `length` characters, drawn from
/// the lowercase alphanumeric alphabet, for one whose SHA-1 digest, in
/// hexadecimal, is `target`; hands back the password found, or nothing
/// when the alphabet is exhausted.
pub fn crack(target: &String, length: u32) -> (r: Option<String>)
    ensures
        match r {
            Some(s) => sha1_hex_of(encode_utf8(s@)) == target@ && s@.len() <= length && forall|
                i: int,
            |
                0 <= i < s@.len() ==> full_alphabet().contains(#[trigger] s@[i]),
            None => true,
        },
{
    let alphabet: Vec<char> = vec![
        'a', 'b', 'c', 'd', 'e', 'f', 'g', 'h', 'i', 'j', 'k', 'l', 'm', 'n', 'o', 'p', 'q', 'r',
        's', 't', 'u', 'v', 'w', 'x', 'y', 'z', '0', '1', '2', '3', '4', '5', '6', '7', '8', '9',
    ];
    proof {
        assert(alphabet@.len() == 36);
    }
    _crack(target.as_str(), length, &alphabet, false)
}

} // verus!
