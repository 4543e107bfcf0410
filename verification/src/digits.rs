//! Digits as characters and as small integers: parsing a decimal string
//! into its digit values, rendering digit values back into text, and the
//! decimal rendering of an arbitrary machine integer.

use vstd::prelude::*;

verus! {

/// The character is one of '0' through '9'.
pub open spec fn is_digit_char(c: char) -> bool {
    48 <= c as int && c as int <= 57
}

/// Every character of the sequence is a decimal digit.
pub open spec fn all_digit_chars(s: Seq<char>) -> bool {
    forall|i: int| 0 <= i < s.len() ==> is_digit_char(s[i])
}

/// The digit values of a sequence of digit characters.
pub open spec fn chars_digits(s: Seq<char>) -> Seq<u32> {
    s.map_values(|c: char| (c as int - 48) as u32)
}

/// The character that writes a single digit value.
pub open spec fn char_of_digit(d: int) -> char {
    if d == 0 {
        '0'
    } else if d == 1 {
        '1'
    } else if d == 2 {
        '2'
    } else if d == 3 {
        '3'
    } else if d == 4 {
        '4'
    } else if d == 5 {
        '5'
    } else if d == 6 {
        '6'
    } else if d == 7 {
        '7'
    } else if d == 8 {
        '8'
    } else {
        '9'
    }
}

/// The text of a sequence of digit values.
pub open spec fn digit_chars(d: Seq<u32>) -> Seq<char> {
    d.map_values(|x: u32| char_of_digit(x as int))
}

/// Digit values widened to mathematical integers.
pub open spec fn ints_of(s: Seq<u32>) -> Seq<int> {
    s.map_values(|x: u32| x as int)
}

/// Every value of the sequence is a single decimal digit.
pub open spec fn is_digit_vals(s: Seq<u32>) -> bool {
    forall|i: int| 0 <= i < s.len() ==> s[i] <= 9
}

/// A word of `n` nines: the largest digit word of that length.
pub open spec fn nines(n: int) -> Seq<int> {
    Seq::new(n as nat, |i: int| 9)
}

/// The decimal writing of a natural number, most significant digit first.
pub open spec fn dec_str(n: nat) -> Seq<char>
    decreases n,
{
    if n < 10 {
        seq![char_of_digit(n as int)]
    } else {
        dec_str(n / 10) + seq![char_of_digit((n % 10) as int)]
    }
}

/// Reads every character of `s` as a decimal digit; fails on the first
/// character that is not one.
#[verifier::loop_isolation(false)]
pub fn parse_digits(s: &str) -> (r: Option<Vec<u32>>)
    ensures
        match r {
            Some(v) => all_digit_chars(s@) && v@ == chars_digits(s@) && v@.len() == s@.len()
                && is_digit_vals(v@),
            None => !all_digit_chars(s@),
        },
{
    let n = s.unicode_len();
    let mut v: Vec<u32> = Vec::new();
    let mut i: usize = 0;
    while i < n
        invariant
            0 <= i <= n,
            forall|j: int| 0 <= j < i ==> is_digit_char(s@[j]),
            v@ == chars_digits(s@.take(i as int)),
            v@.len() == i,
        decreases n - i,
    {
        let c = s.get_char(i);
        let u = c as u32;
        if u < 48 || u > 57 {
            proof {
                assert(!is_digit_char(s@[i as int]));
            }
            return None;
        }
        v.push(u - 48);
        proof {
            assert(v@ =~= chars_digits(s@.take(i as int + 1)));
        }
        i = i + 1;
    }
    proof {
        assert(s@.take(n as int) =~= s@);
        assert(forall|j: int| 0 <= j < v@.len() ==> #[trigger] v@[j] <= 9);
    }
    Some(v)
}

/// The one-character string that writes a single digit value.
pub fn digit_str(d: u32) -> (r: &'static str)
    requires
        d <= 9,
    ensures
        r@ == seq![char_of_digit(d as int)],
{
    proof {
        reveal_strlit("0");
        reveal_strlit("1");
        reveal_strlit("2");
        reveal_strlit("3");
        reveal_strlit("4");
        reveal_strlit("5");
        reveal_strlit("6");
        reveal_strlit("7");
        reveal_strlit("8");
        reveal_strlit("9");
    }
    let r = match d {
        0 => "0",
        1 => "1",
        2 => "2",
        3 => "3",
        4 => "4",
        5 => "5",
        6 => "6",
        7 => "7",
        8 => "8",
        _ => "9",
    };
    proof {
        assert(r@ =~= seq![char_of_digit(d as int)]);
    }
    r
}

/// Writes a sequence of digit values as text.
#[verifier::loop_isolation(false)]
pub fn digits_to_string(d: &Vec<u32>) -> (r: String)
    requires
        is_digit_vals(d@),
    ensures
        r@ == digit_chars(d@),
{
    let mut out = String::new();
    let mut i: usize = 0;
    while i < d.len()
        invariant
            0 <= i <= d@.len(),
            out@ == digit_chars(d@.take(i as int)),
        decreases d@.len() - i,
    {
        out.append(digit_str(d[i]));
        proof {
            assert(out@ =~= digit_chars(d@.take(i as int + 1)));
        }
        i = i + 1;
    }
    proof {
        assert(d@.take(d@.len() as int) =~= d@);
    }
    out
}

/// Writes a machine integer in decimal.
pub fn usize_to_string(n: usize) -> (r: String)
    ensures
        r@ == dec_str(n as nat),
    decreases n,
{
    if n < 10 {
        let s = String::new();
        s.concat(digit_str(n as u32))
    } else {
        proof {
            assert(n / 10 < n) by (nonlinear_arith)
                requires
                    n >= 10,
            ;
        }
        let head = usize_to_string(n / 10);
        let r = head.concat(digit_str((n % 10) as u32));
        proof {
            assert(r@ =~= dec_str(n as nat));
        }
        r
    }
}


/// Relies on std's `String::push`: appends exactly one character.
#[verifier::external_body]
pub fn push_char(s: &mut String, c: char)
    ensures
        final(s)@ == old(s)@.push(c),
{
    s.push(c);
}

/// Character-for-character string equality.
#[verifier::loop_isolation(false)]
pub fn str_eq(a: &str, b: &str) -> (r: bool)
    ensures
        r == (a@ == b@),
{
    let na = a.unicode_len();
    let nb = b.unicode_len();
    if na != nb {
        return false;
    }
    let mut i: usize = 0;
    while i < na
        invariant
            0 <= i <= na,
            forall|j: int| 0 <= j < i ==> a@[j] == b@[j],
        decreases na - i,
    {
        if a.get_char(i) != b.get_char(i) {
            return false;
        }
        i = i + 1;
    }
    proof {
        assert(a@ =~= b@);
    }
    true
}

} // verus!
