//! Opaque 128-bit identifiers and their canonical text form.
//!
//! Identifiers cross the application boundary as the canonical hyphenated
//! hexadecimal rendering (8-4-4-4-12 digits). The parser accepts either digit
//! case; the formatter emits lowercase.

use vstd::prelude::*;
use crate::text::{hex_char, hex_char_of, hex_digit_val, is_hex_digit, lemma_hex_char_of,
    push_char, to_chars};

verus! {

/// An opaque 128-bit unique identifier.
#[derive(Clone, Copy, Debug, PartialEq, Eq, Structural, Hash)]
pub struct Uid {
    pub value: u128,
}

/// Index, in the canonical text form, of the identifier's `j`-th digit
/// (skipping the four hyphens).
pub open spec fn uid_pos(j: int) -> int {
    if j >= 20 {
        j + 4
    } else if j >= 16 {
        j + 3
    } else if j >= 12 {
        j + 2
    } else if j >= 8 {
        j + 1
    } else {
        j
    }
}

/// Which digit stands at a (non-hyphen) index of the canonical text form.
pub open spec fn uid_inv_pos(i: int) -> int {
    if i > 23 {
        i - 4
    } else if i > 18 {
        i - 3
    } else if i > 13 {
        i - 2
    } else if i > 8 {
        i - 1
    } else {
        i
    }
}

/// The text is a canonical identifier rendering: thirty-six characters,
/// hyphens after the eighth, twelfth, sixteenth and twentieth digit, and
/// hexadecimal digits everywhere else.
pub open spec fn uid_text_ok(s: Seq<char>) -> bool {
    &&& s.len() == 36
    &&& s[8] == '-'
    &&& s[13] == '-'
    &&& s[18] == '-'
    &&& s[23] == '-'
    &&& forall|i: int|
        0 <= i < 36 && i != 8 && i != 13 && i != 18 && i != 23 ==> is_hex_digit(#[trigger] s[i])
}

/// Value of the first `j` digits of a canonical rendering, read as one
/// big-endian hexadecimal number.
pub open spec fn uid_prefix_val(s: Seq<char>, j: int) -> int
    decreases j,
{
    if j <= 0 {
        0
    } else {
        uid_prefix_val(s, j - 1) * 16 + hex_digit_val(s[uid_pos(j - 1)])
    }
}

/// The 128-bit value a canonical rendering denotes.
pub open spec fn uid_val(s: Seq<char>) -> int {
    uid_prefix_val(s, 32)
}

/// Sixteen to the `j`-th power.
pub open spec fn pow16(j: int) -> int
    decreases j,
{
    if j <= 0 {
        1
    } else {
        16 * pow16(j - 1)
    }
}

/// The `j`-th hexadecimal digit (most significant first) of a value.
pub open spec fn uid_digit(v: u128, j: int) -> int {
    (v as int / pow16(31 - j)) % 16
}

/// The canonical lowercase rendering of an identifier value.
pub open spec fn uid_canon(v: u128) -> Seq<char> {
    Seq::new(
        36,
        |i: int|
            if i == 8 || i == 13 || i == 18 || i == 23 {
                '-'
            } else {
                hex_char_of(uid_digit(v, uid_inv_pos(i)))
            },
    )
}

/// `pow16(j)` is at most `pow16(32)`, which is the number of 128-bit values.
proof fn lemma_pow16_le_32(j: int)
    requires
        0 <= j <= 32,
    ensures
        pow16(j) <= 0x1_0000_0000_0000_0000_0000_0000_0000_0000,
        pow16(j) >= 1,
    decreases 32 - j,
{
    if j == 32 {
        reveal_with_fuel(pow16, 33);
        assert(pow16(32) == 0x1_0000_0000_0000_0000_0000_0000_0000_0000);
    } else {
        lemma_pow16_le_32(j + 1);
        assert(pow16(j + 1) == 16 * pow16(j));
        assert(pow16(j) >= 1) by (nonlinear_arith)
            requires
                16 * pow16(j) >= 1,
        ;
        assert(pow16(j) <= 16 * pow16(j)) by (nonlinear_arith)
            requires
                pow16(j) >= 1,
        ;
    }
}

/// The first `j` digits of the canonical rendering denote the value's top
/// `j` digits.
proof fn lemma_uid_canon_prefix(v: u128, j: int)
    requires
        0 <= j <= 32,
    ensures
        uid_prefix_val(uid_canon(v), j) == v as int / pow16(32 - j),
    decreases j,
{
    let s = uid_canon(v);
    if j == 0 {
        reveal_with_fuel(pow16, 33);
        assert(pow16(32) == 0x1_0000_0000_0000_0000_0000_0000_0000_0000);
        vstd::arithmetic::div_mod::lemma_basic_div(v as int, pow16(32));
    } else {
        lemma_uid_canon_prefix(v, j - 1);
        let p = uid_pos(j - 1);
        assert(uid_inv_pos(p) == j - 1);
        assert(s[p] == hex_char_of(uid_digit(v, j - 1)));
        lemma_pow16_le_32(32 - j);
        assert(0 <= uid_digit(v, j - 1) < 16);
        lemma_hex_char_of(uid_digit(v, j - 1));
        // v / pow16(33 - j) is (v / pow16(32 - j)) / 16.
        vstd::arithmetic::div_mod::lemma_div_denominator(v as int, pow16(32 - j), 16);
        assert(pow16(32 - j) * 16 == pow16(33 - j)) by {
            assert(pow16(33 - j) == 16 * pow16(32 - j));
        }
        vstd::arithmetic::div_mod::lemma_fundamental_div_mod(v as int / pow16(32 - j), 16);
    }
}

/// The canonical rendering is a canonical text form and denotes the value.
pub proof fn lemma_uid_canon(v: u128)
    ensures
        uid_canon(v).len() == 36,
        uid_text_ok(uid_canon(v)),
        uid_val(uid_canon(v)) == v as int,
{
    let s = uid_canon(v);
    assert forall|i: int|
        0 <= i < 36 && i != 8 && i != 13 && i != 18 && i != 23 implies is_hex_digit(
        #[trigger] s[i],
    ) by {
        lemma_pow16_le_32(31 - uid_inv_pos(i));
        lemma_hex_char_of(uid_digit(v, uid_inv_pos(i)));
    }
    lemma_uid_canon_prefix(v, 32);
    assert(v as int / pow16(0) == v as int / 1);
    assert(v as int / 1 == v as int) by (nonlinear_arith);
}

impl Uid {
    /// Parse the canonical text form; `None` exactly when the text is not a
    /// canonical rendering.
    pub fn parse(s: &str) -> (r: Option<Uid>)
        ensures
            r is Some <==> uid_text_ok(s@),
            r matches Some(u) ==> u.value as int == uid_val(s@),
    {
        let cs: Vec<char> = to_chars(s);
        Uid::parse_chars(&cs)
    }

    /// Parse the canonical text form from a character vector.
    pub fn parse_chars(cs: &Vec<char>) -> (r: Option<Uid>)
        ensures
            r is Some <==> uid_text_ok(cs@),
            r matches Some(u) ==> u.value as int == uid_val(cs@),
    {
        let n: usize = cs.len();
        if n != 36 {
            return None;
        }
        if cs[8] != '-' || cs[13] != '-' || cs[18] != '-' || cs[23] != '-' {
            return None;
        }
        let mut acc: u128 = 0;
        let mut j: usize = 0;
        while j < 32
            invariant
                0 <= j <= 32,
                cs@.len() == 36,
                cs@[8] == '-' && cs@[13] == '-' && cs@[18] == '-' && cs@[23] == '-',
                acc as int == uid_prefix_val(cs@, j as int),
                forall|i: int|
                    0 <= i < uid_pos(j as int) && i != 8 && i != 13 && i != 18 && i != 23
                        ==> is_hex_digit(#[trigger] cs@[i]),
                (acc as int) < pow16(j as int),
            decreases 32 - j,
        {
            let pos: usize = if j >= 20 {
                j + 4
            } else if j >= 16 {
                j + 3
            } else if j >= 12 {
                j + 2
            } else if j >= 8 {
                j + 1
            } else {
                j
            };
            let c: char = cs[pos];
            let v: u8 = if '0' <= c && c <= '9' {
                ((c as u32) - ('0' as u32)) as u8
            } else if 'a' <= c && c <= 'f' {
                ((c as u32) - ('a' as u32) + 10) as u8
            } else if 'A' <= c && c <= 'F' {
                ((c as u32) - ('A' as u32) + 10) as u8
            } else {
                return None;
            };
            proof {
                assert(pow16(j as int + 1) == 16 * pow16(j as int));
                lemma_pow16_le_32(j as int + 1);
                assert(acc as int * 16 + (v as int) < pow16(j as int + 1)) by (nonlinear_arith)
                    requires
                        (acc as int) < pow16(j as int),
                        v < 16,
                        pow16(j as int + 1) == 16 * pow16(j as int),
                ;
            }
            acc = acc * 16 + (v as u128);
            j = j + 1;
        }
        proof {
            assert(forall|i: int|
                0 <= i < 36 && i != 8 && i != 13 && i != 18 && i != 23 ==> is_hex_digit(
                    #[trigger] cs@[i],
                ));
        }
        Some(Uid { value: acc })
    }

    /// Render the identifier in the canonical lowercase text form.
    pub fn to_canonical(&self) -> (r: String)
        ensures
            r@ == uid_canon(self.value),
            uid_text_ok(r@),
            uid_val(r@) == self.value as int,
    {
        let mut out: String = String::new();
        // pow16(31), the place value of the most significant digit.
        let mut pow: u128 = 0x1000_0000_0000_0000_0000_0000_0000_0000;
        proof {
            reveal_with_fuel(pow16, 33);
            assert(pow16(31) == 0x1000_0000_0000_0000_0000_0000_0000_0000);
        }
        let mut j: usize = 0;
        while j < 32
            invariant
                0 <= j <= 32,
                out@.len() == uid_dash_adjusted_len(j as int),
                forall|x: int|
                    0 <= x < out@.len() ==> #[trigger] out@[x] == uid_canon(self.value)[x],
                j < 32 ==> pow as int == pow16(31 - j as int),
            decreases 32 - j,
        {
            if j == 8 || j == 12 || j == 16 || j == 20 {
                push_char(&mut out, '-');
            }
            proof {
                lemma_pow16_le_32(31 - j as int);
                assert(uid_inv_pos(uid_pos(j as int)) == j as int);
            }
            let nib: u8 = ((self.value / pow) % 16) as u8;
            let c: char = hex_char(nib);
            push_char(&mut out, c);
            if j < 31 {
                proof {
                    assert(pow16(31 - j as int) == 16 * pow16(31 - (j as int + 1)));
                    lemma_pow16_le_32(31 - (j as int + 1));
                    vstd::arithmetic::div_mod::lemma_fundamental_div_mod_converse_div(
                        pow as int,
                        16,
                        pow16(31 - (j as int + 1)),
                        0,
                    );
                }
                pow = pow / 16;
            }
            j = j + 1;
        }
        proof {
            assert(out@ =~= uid_canon(self.value));
            lemma_uid_canon(self.value);
        }
        out
    }
}

/// Length of the rendered text at the top of the formatting loop's `j`-th
/// iteration: the hyphen that precedes digit `j` is not yet emitted.
pub open spec fn uid_dash_adjusted_len(j: int) -> int {
    if j == 8 || j == 12 || j == 16 || j == 20 {
        uid_pos(j) - 1
    } else {
        uid_pos(j)
    }
}

} // verus!
