//! Character-level text utilities shared by the identifier, timestamp and
//! record codecs.

use vstd::prelude::*;
use vstd::string::StrSliceExecFns;

verus! {

/// Relies on `String::push`: appends exactly the one character to the string.
#[verifier::external_body]
pub fn push_char(s: &mut String, c: char)
    ensures
        final(s)@ == old(s)@.push(c),
{
    s.push(c)
}

/// Copy the characters of a string slice into a vector.
pub fn to_chars(s: &str) -> (r: Vec<char>)
    ensures
        r@ == s@,
{
    let n: usize = s.unicode_len();
    let mut r: Vec<char> = Vec::new();
    let mut i: usize = 0;
    while i < n
        invariant
            0 <= i <= n,
            n == s@.len(),
            r@ == s@.take(i as int),
        decreases n - i,
    {
        let c: char = s.get_char(i);
        r.push(c);
        proof {
            assert(r@ =~= s@.take(i as int + 1));
        }
        i = i + 1;
    }
    proof {
        assert(r@ =~= s@);
    }
    r
}

/// A decimal digit.
pub open spec fn is_digit(c: char) -> bool {
    '0' <= c && c <= '9'
}

/// Decimal digit value of a character, or `None` when it is not a digit.
pub fn digit_of_pub(c: char) -> (r: Option<u8>)
    ensures
        r is Some <==> is_digit(c),
        r matches Some(v) ==> v as int == digit_val(c) && v <= 9,
{
    if '0' <= c && c <= '9' {
        Some(((c as u32) - ('0' as u32)) as u8)
    } else {
        None
    }
}

/// Whether a character is a decimal digit.
pub fn is_digit_char(c: char) -> (b: bool)
    ensures
        b == is_digit(c),
{
    '0' <= c && c <= '9'
}

/// Value of a decimal digit.
pub open spec fn digit_val(c: char) -> int {
    (c as u32) as int - ('0' as u32) as int
}

/// A hexadecimal digit, either case.
pub open spec fn is_hex_digit(c: char) -> bool {
    ||| ('0' <= c && c <= '9')
    ||| ('a' <= c && c <= 'f')
    ||| ('A' <= c && c <= 'F')
}

/// Value of a hexadecimal digit.
pub open spec fn hex_digit_val(c: char) -> int {
    if '0' <= c && c <= '9' {
        (c as u32) as int - ('0' as u32) as int
    } else if 'a' <= c && c <= 'f' {
        (c as u32) as int - ('a' as u32) as int + 10
    } else {
        (c as u32) as int - ('A' as u32) as int + 10
    }
}

/// The lowercase hexadecimal digit character of a value below sixteen.
pub open spec fn hex_char_of(v: int) -> char {
    if v < 10 {
        dec_char_of(v)
    } else if v == 10 {
        'a'
    } else if v == 11 {
        'b'
    } else if v == 12 {
        'c'
    } else if v == 13 {
        'd'
    } else if v == 14 {
        'e'
    } else {
        'f'
    }
}

/// Reading back a rendered hexadecimal digit gives the value.
pub proof fn lemma_hex_char_of(v: int)
    requires
        0 <= v <= 15,
    ensures
        is_hex_digit(hex_char_of(v)),
        hex_digit_val(hex_char_of(v)) == v,
{
}

/// Copy a character vector into a string.
pub fn chars_to_string(cs: &Vec<char>) -> (r: String)
    ensures
        r@ == cs@,
{
    let mut r: String = String::new();
    let mut i: usize = 0;
    while i < cs.len()
        invariant
            0 <= i <= cs@.len(),
            r@ =~= cs@.take(i as int),
        decreases cs@.len() - i,
    {
        push_char(&mut r, cs[i]);
        proof {
            assert(r@ =~= cs@.take(i as int + 1));
        }
        i = i + 1;
    }
    proof {
        assert(cs@.take(cs@.len() as int) =~= cs@);
    }
    r
}

/// Render a value below sixteen as a lowercase hexadecimal digit.
pub fn hex_char(v: u8) -> (c: char)
    requires
        v < 16,
    ensures
        c == hex_char_of(v as int),
        is_hex_digit(c),
        hex_digit_val(c) == v as int,
        c != '"' && c != '\\' && c != '\n',
    {
    match v {
        0 => '0',
        1 => '1',
        2 => '2',
        3 => '3',
        4 => '4',
        5 => '5',
        6 => '6',
        7 => '7',
        8 => '8',
        9 => '9',
        10 => 'a',
        11 => 'b',
        12 => 'c',
        13 => 'd',
        14 => 'e',
        _ => 'f',
    }
}

/// The decimal digit character of a value below ten.
pub open spec fn dec_char_of(v: int) -> char {
    if v == 0 {
        '0'
    } else if v == 1 {
        '1'
    } else if v == 2 {
        '2'
    } else if v == 3 {
        '3'
    } else if v == 4 {
        '4'
    } else if v == 5 {
        '5'
    } else if v == 6 {
        '6'
    } else if v == 7 {
        '7'
    } else if v == 8 {
        '8'
    } else {
        '9'
    }
}

/// Reading back a rendered decimal digit gives the value.
pub proof fn lemma_dec_char_of(v: int)
    requires
        0 <= v <= 9,
    ensures
        is_digit(dec_char_of(v)),
        digit_val(dec_char_of(v)) == v,
{
}

/// Render a value below ten as a decimal digit character.
pub fn dec_char(v: u8) -> (c: char)
    requires
        v < 10,
    ensures
        c == dec_char_of(v as int),
        is_digit(c),
        digit_val(c) == v as int,
        is_hex_digit(c),
        hex_digit_val(c) == v as int,
        c != '"' && c != '\\' && c != '\n',
    {
    match v {
        0 => '0',
        1 => '1',
        2 => '2',
        3 => '3',
        4 => '4',
        5 => '5',
        6 => '6',
        7 => '7',
        8 => '8',
        _ => '9',
    }
}

} // verus!
