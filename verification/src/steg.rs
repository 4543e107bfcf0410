//! Steganography in zero-width characters: a payload is XOR-enciphered
//! with a keystream seeded from the key, each byte is written as eight
//! zero-width characters, and those are woven between the characters of a
//! carrier text.

use vstd::prelude::*;

verus! {

use crate::digits::push_char;
use vstd::string::StringSliceAdditionalSpecFns;
use vstd::utf8::encode_utf8;
use rand_seeder::rand_core::RngCore;

/// The deterministic keystream a key seeds: `n` bytes drawn from a Pcg64
/// generator seeded by a fixed, portable hash of the key.
pub uninterp spec fn keystream_of(key: Seq<u8>, n: int) -> Seq<u8>;

/// Relies on rand_seeder's `Seeder` and rand_pcg's `Pcg64`: the seeding
/// hash is fixed and portable and the generator deterministic, so the
/// bytes drawn are a function of the key and the count alone.
#[verifier::external_body]
fn keystream(key: &[u8], n: usize) -> (r: Vec<u8>)
    ensures
        r@ == keystream_of(key@, n as int),
        r@.len() == n,
{
    let mut rng: rand_pcg::Pcg64 = rand_seeder::Seeder::from(key).make_rng();
    let mut ks = vec![0u8; n];
    rng.fill_bytes(&mut ks);
    ks
}

/// The input XORed against a cyclic keystream.
pub open spec fn xor_stream(input: Seq<u8>, ks: Seq<u8>) -> Seq<u8> {
    Seq::new(input.len(), |i: int| input[i] ^ ks[i % (ks.len() as int)])
}

/// What `xorcise` computes: the input XORed with the keystream its key
/// seeds, one keystream byte per key byte, repeated cyclically.
pub open spec fn xorcised(input: Seq<u8>, key: Seq<u8>) -> Seq<u8> {
    xor_stream(input, keystream_of(key, key.len() as int))
}

/// Enciphers (and deciphers) a byte string against the keystream seeded
/// by `key`: byte `i` is XORed with keystream byte `i` modulo the key
/// length.
#[verifier::loop_isolation(false)]
pub fn xorcise(input: &[u8], key: &[u8]) -> (r: Vec<u8>)
    requires
        input@.len() > 0 ==> key@.len() > 0,
    ensures
        r@ == xorcised(input@, key@),
{
    let ks = keystream(key, key.len());
    let mut out: Vec<u8> = Vec::new();
    let mut i: usize = 0;
    while i < input.len()
        invariant
            0 <= i <= input@.len(),
            out@ == xorcised(input@, key@).take(i as int),
        decreases input@.len() - i,
    {
        out.push(input[i] ^ ks[i % ks.len()]);
        proof {
            assert(out@ =~= xorcised(input@, key@).take(i as int + 1));
        }
        i = i + 1;
    }
    proof {
        assert(xorcised(input@, key@).take(input@.len() as int) =~= xorcised(input@, key@));
    }
    out
}

/// Whether bit `n` (counting from the least significant) of the byte is
/// set; bits past the seventh read as clear.
pub open spec fn spec_bit_at(input: u8, n: u8) -> bool {
    if n < 8 {
        input & (1u8 << n) != 0
    } else {
        false
    }
}

/// Reads one bit of a byte.
fn get_bit_at(input: u8, n: u8) -> (b: bool)
    ensures
        b == spec_bit_at(input, n),
{
    if n < 8 {
        input & (1u8 << n) != 0
    } else {
        false
    }
}

/// The eight zero-width characters that write one byte, most significant
/// bit first: a zero-width space for a set bit, a zero-width non-joiner
/// for a clear one.
pub open spec fn zw_bits(b: u8) -> Seq<char> {
    Seq::new(8, |i: int| if spec_bit_at(b, (7 - i) as u8) {
        '\u{200B}'
    } else {
        '\u{200C}'
    })
}

/// The woven message after the leading carrier character: each payload
/// byte as eight zero-width characters, each followed by the next carrier
/// character, with a zero-width joiner standing in once the carrier runs
/// out; then whatever carrier is left.
pub open spec fn woven(carrier: Seq<char>, payload: Seq<u8>) -> Seq<char>
    decreases payload.len(),
{
    if payload.len() == 0 {
        carrier
    } else {
        zw_bits(payload.first()) + (if carrier.len() > 0 {
            seq![carrier.first()]
        } else {
            seq!['\u{200D}']
        }) + woven(
            if carrier.len() > 0 {
                carrier.skip(1)
            } else {
                carrier
            },
            payload.skip(1),
        )
    }
}

/// What `embed` produces: the first carrier character, then the enciphered
/// payload woven into the rest of the carrier.
pub open spec fn embedded(carrier: Seq<char>, payload: Seq<u8>) -> Seq<char> {
    seq![carrier.first()] + woven(carrier.skip(1), payload)
}

/// Writes one byte as its eight zero-width characters.
#[verifier::loop_isolation(false)]
fn push_zw_bits(out: &mut String, b: u8)
    ensures
        final(out)@ == old(out)@ + zw_bits(b),
{
    let mut n: u8 = 8;
    while n > 0
        invariant
            0 <= n <= 8,
            out@ == old(out)@ + zw_bits(b).take(8 - n),
        decreases n,
    {
        if get_bit_at(b, n - 1) {
            push_char(out, '\u{200B}');
        } else {
            push_char(out, '\u{200C}');
        }
        proof {
            assert(out@ =~= old(out)@ + zw_bits(b).take(8 - (n - 1)));
        }
        n = n - 1;
    }
    proof {
        assert(old(out)@ + zw_bits(b).take(8) =~= old(out)@ + zw_bits(b));
    }
}

/// Hides `payload`, enciphered against `key`, inside `carrier` as runs of
/// zero-width characters between the carrier's characters.
#[verifier::loop_isolation(false)]
pub fn embed(carrier: &str, payload: &str, encryption_key: &str) -> (r: String)
    requires
        carrier@.len() > 0,
        payload.spec_bytes().len() > 0 ==> encryption_key.spec_bytes().len() > 0,
    ensures
        r@ == embedded(carrier@, xorcised(payload.spec_bytes(), encryption_key.spec_bytes())),
{
    let payload_bytes = payload.as_bytes_vec();
    let key_bytes = encryption_key.as_bytes_vec();
    let encrypted = xorcise(payload_bytes.as_slice(), key_bytes.as_slice());
    let ghost enc = xorcised(payload.spec_bytes(), encryption_key.spec_bytes());
    let carrier_len = carrier.unicode_len();
    let mut out = String::new();
    push_char(&mut out, carrier.get_char(0));
    proof {
        assert(enc.skip(0) =~= enc);
        assert(out@ =~= seq![carrier@[0]]);
        assert(carrier@.first() == carrier@[0]);
    }
    let mut ci: usize = 1;
    let mut k: usize = 0;
    while k < encrypted.len()
        invariant
            0 <= k <= enc.len(),
            enc == encrypted@,
            1 <= ci <= carrier_len,
            ci == if k + 1 <= carrier_len {
                k + 1
            } else {
                carrier_len as int
            },
            embedded(carrier@, enc) == out@ + woven(carrier@.skip(ci as int), enc.skip(k as int)),
        decreases enc.len() - k,
    {
        let ghost pre = out@;
        let ghost crest = carrier@.skip(ci as int);
        let ghost prest = enc.skip(k as int);
        push_zw_bits(&mut out, encrypted[k]);
        proof {
            assert(prest.first() == enc[k as int]);
        }
        if ci < carrier_len {
            push_char(&mut out, carrier.get_char(ci));
            proof {
                assert(crest.len() > 0);
                assert(crest.first() == carrier@[ci as int]);
                assert(out@ =~= pre + zw_bits(enc[k as int]) + seq![carrier@[ci as int]]);
                assert(crest.skip(1) =~= carrier@.skip(ci as int + 1));
                assert(prest.skip(1) =~= enc.skip(k as int + 1));
                assert(pre + (zw_bits(prest.first()) + seq![crest.first()] + woven(
                    crest.skip(1),
                    prest.skip(1),
                )) =~= (pre + zw_bits(enc[k as int]) + seq![carrier@[ci as int]]) + woven(
                    carrier@.skip(ci as int + 1),
                    enc.skip(k as int + 1),
                ));
            }
            ci = ci + 1;
        } else {
            push_char(&mut out, '\u{200D}');
            proof {
                assert(crest.len() == 0);
                assert(out@ =~= pre + zw_bits(enc[k as int]) + seq!['\u{200D}']);
                assert(prest.skip(1) =~= enc.skip(k as int + 1));
                assert(pre + (zw_bits(prest.first()) + seq!['\u{200D}'] + woven(
                    crest,
                    prest.skip(1),
                )) =~= (pre + zw_bits(enc[k as int]) + seq!['\u{200D}']) + woven(
                    carrier@.skip(ci as int),
                    enc.skip(k as int + 1),
                ));
            }
        }
        k = k + 1;
    }
    proof {
        assert(enc.skip(enc.len() as int) =~= Seq::<u8>::empty());
    }
    while ci < carrier_len
        invariant
            1 <= ci <= carrier_len,
            embedded(carrier@, enc) == out@ + carrier@.skip(ci as int),
        decreases carrier_len - ci,
    {
        let ghost pre = out@;
        push_char(&mut out, carrier.get_char(ci));
        proof {
            assert(carrier@.skip(ci as int).first() == carrier@[ci as int]);
            assert(pre + carrier@.skip(ci as int) =~= out@ + carrier@.skip(ci as int + 1));
        }
        ci = ci + 1;
    }
    proof {
        assert(carrier@.skip(carrier_len as int) =~= Seq::<char>::empty());
        assert(out@ + Seq::<char>::empty() =~= out@);
    }
    out
}


/// The extractor's running state: carrier text collected so far, payload
/// bytes collected so far, and the byte being assembled bit by bit.
pub struct ExtState {
    pub carr: Seq<char>,
    pub pays: Seq<u8>,
    pub letter: u8,
    pub bit: int,
}

/// The extractor's starting state.
pub open spec fn ext_init() -> ExtState {
    ExtState { carr: Seq::empty(), pays: Seq::empty(), letter: 0, bit: 7 }
}

/// One extractor step.  A zero-width space or non-joiner writes one bit
/// of the byte being assembled, from the most significant down; further
/// zero-width characters in an overlong run are ignored.  Any other
/// character flushes a nonzero assembled byte and joins the carrier,
/// except the zero-width joiner, which is dropped.
pub open spec fn ext_step(st: ExtState, c: char) -> ExtState {
    if c != '\u{200B}' && c != '\u{200C}' {
        ExtState {
            carr: if c == '\u{200D}' {
                st.carr
            } else {
                st.carr.push(c)
            },
            pays: if st.letter != 0 {
                st.pays.push(st.letter)
            } else {
                st.pays
            },
            letter: 0,
            bit: 7,
        }
    } else {
        if 0 <= st.bit < 8 {
            ExtState {
                carr: st.carr,
                pays: st.pays,
                letter: if c == '\u{200B}' {
                    st.letter | (1u8 << (st.bit as u8))
                } else {
                    st.letter & !(1u8 << (st.bit as u8))
                },
                bit: st.bit - 1,
            }
        } else {
            st
        }
    }
}

/// The extractor's state after reading the whole message.
pub open spec fn ext_run(msg: Seq<char>) -> ExtState
    decreases msg.len(),
{
    if msg.len() == 0 {
        ext_init()
    } else {
        ext_step(ext_run(msg.drop_last()), msg.last())
    }
}

/// Relies on std's `String::from_utf8`: it succeeds exactly on valid
/// UTF-8, returning the string whose encoding is the input.
#[verifier::external_body]
fn string_from_utf8(v: Vec<u8>) -> (r: Option<String>)
    ensures
        match r {
            Some(s) => encode_utf8(s@) == v@,
            None => !(exists|s: Seq<char>| #[trigger] encode_utf8(s) == v@),
        },
{
    match String::from_utf8(v) {
        Ok(s) => Some(s),
        Err(_) => None,
    }
}

/// Recovers the carrier text and the hidden payload from a woven message:
/// zero-width runs are read back into bytes, deciphered against the key,
/// and decoded as text; a payload that is not valid text comes back
/// empty.
#[verifier::loop_isolation(false)]
pub fn extract(message: &str, key: &str) -> (r: (String, String))
    requires
        ext_run(message@).pays.len() > 0 ==> key.spec_bytes().len() > 0,
    ensures
        r.0@ == ext_run(message@).carr,
        ({
            let raw = xorcised(ext_run(message@).pays, key.spec_bytes());
            encode_utf8(r.1@) == raw || (r.1@ == Seq::<char>::empty() && !(exists|s: Seq<char>|
                #[trigger] encode_utf8(s) == raw))
        }),
{
    let n = message.unicode_len();
    let mut carr = String::new();
    let mut pays: Vec<u8> = Vec::new();
    let mut letter: u8 = 0;
    let mut bit: i32 = 7;
    let mut i: usize = 0;
    while i < n
        invariant
            0 <= i <= n,
            -1 <= bit <= 7,
            carr@ == ext_run(message@.take(i as int)).carr,
            pays@ == ext_run(message@.take(i as int)).pays,
            letter == ext_run(message@.take(i as int)).letter,
            bit as int == ext_run(message@.take(i as int)).bit,
        decreases n - i,
    {
        let c = message.get_char(i);
        proof {
            assert(message@.take(i as int + 1).drop_last() =~= message@.take(i as int));
            assert(message@.take(i as int + 1).last() == message@[i as int]);
        }
        if c != '\u{200B}' && c != '\u{200C}' {
            if c != '\u{200D}' {
                push_char(&mut carr, c);
            }
            if letter != 0 {
                pays.push(letter);
            }
            letter = 0;
            bit = 7;
        } else {
            if bit >= 0 {
                if c == '\u{200B}' {
                    letter = letter | (1u8 << (bit as u8));
                } else {
                    letter = letter & !(1u8 << (bit as u8));
                }
                bit = bit - 1;
            }
        }
        i = i + 1;
    }
    proof {
        assert(message@.take(n as int) =~= message@);
    }
    let key_bytes = key.as_bytes_vec();
    let unencrypted = xorcise(pays.as_slice(), key_bytes.as_slice());
    match string_from_utf8(unencrypted) {
        Some(s) => (carr, s),
        None => (carr, String::new()),
    }
}

} // verus!
