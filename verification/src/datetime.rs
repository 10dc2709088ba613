//! Calendar timestamps and their text form.
//!
//! A timestamp is a calendar date and time of day with an explicit UTC
//! offset, plus optional fractional-second digits. The text form is
//! `YYYY-MM-DDThh:mm:ss[.digits](Z|+hh:mm|-hh:mm)`. Parsing and rendering
//! are exact inverses, so persisted timestamps survive a round trip
//! unchanged, fraction and offset included.

use vstd::prelude::*;
use crate::text::{dec_char, dec_char_of, digit_val, is_digit, lemma_dec_char_of, push_char, to_chars};

verus! {

/// A UTC offset: the literal `Z`, or a signed hour/minute displacement.
/// `Z` and `+00:00` are distinct spellings and are kept distinct.
#[derive(Clone, Copy, Debug, PartialEq, Eq, Structural)]
pub enum UtcOffset {
    Z,
    Plus { hours: u8, minutes: u8 },
    Minus { hours: u8, minutes: u8 },
}

impl UtcOffset {
    /// Hours below twenty-four, minutes below sixty.
    pub open spec fn wf(self) -> bool {
        match self {
            UtcOffset::Z => true,
            UtcOffset::Plus { hours, minutes } => hours <= 23 && minutes <= 59,
            UtcOffset::Minus { hours, minutes } => hours <= 23 && minutes <= 59,
        }
    }
}

/// Ghost mirror of a [`Timestamp`], with the fraction as a sequence.
pub ghost struct TimestampV {
    pub year: u16,
    pub month: u8,
    pub day: u8,
    pub hour: u8,
    pub minute: u8,
    pub second: u8,
    pub frac: Seq<u8>,
    pub offset: UtcOffset,
}

/// A calendar timestamp. The fraction holds the fractional-second digits
/// (each below ten), most significant first; empty means none were written.
#[derive(Clone, Debug, PartialEq)]
pub struct Timestamp {
    pub year: u16,
    pub month: u8,
    pub day: u8,
    pub hour: u8,
    pub minute: u8,
    pub second: u8,
    pub frac: Vec<u8>,
    pub offset: UtcOffset,
}

impl View for Timestamp {
    type V = TimestampV;

    open spec fn view(&self) -> TimestampV {
        TimestampV {
            year: self.year,
            month: self.month,
            day: self.day,
            hour: self.hour,
            minute: self.minute,
            second: self.second,
            frac: self.frac@,
            offset: self.offset,
        }
    }
}

/// A leap year by the Gregorian rule.
pub open spec fn is_leap_year(year: int) -> bool {
    year % 4 == 0 && (year % 100 != 0 || year % 400 == 0)
}

/// Days in a month of the Gregorian calendar.
pub open spec fn days_in_month(year: int, month: int) -> int {
    if month == 2 {
        if is_leap_year(year) {
            29
        } else {
            28
        }
    } else if month == 4 || month == 6 || month == 9 || month == 11 {
        30
    } else {
        31
    }
}

impl TimestampV {
    /// The timestamp denotes a real calendar date and time.
    pub open spec fn wf(self) -> bool {
        &&& self.year <= 9999
        &&& 1 <= self.month <= 12
        &&& 1 <= self.day <= days_in_month(self.year as int, self.month as int)
        &&& self.hour <= 23
        &&& self.minute <= 59
        &&& self.second <= 59
        &&& self.frac.len() <= 9
        &&& forall|i: int| 0 <= i < self.frac.len() ==> self.frac[i] < 10
        &&& self.offset.wf()
    }
}

impl Timestamp {
    /// The timestamp denotes a real calendar date and time.
    pub open spec fn wf(self) -> bool {
        self@.wf()
    }
}

/// A value below one hundred as two decimal digit characters.
pub open spec fn two_digits(v: int) -> Seq<char> {
    seq![dec_char_of(v / 10), dec_char_of(v % 10)]
}

/// A value below ten thousand as four decimal digit characters.
pub open spec fn four_digits(v: int) -> Seq<char> {
    two_digits(v / 100) + two_digits(v % 100)
}

/// Two digit characters of the text, starting at `i`, read as a number.
pub open spec fn num2(s: Seq<char>, i: int) -> int {
    digit_val(s[i]) * 10 + digit_val(s[i + 1])
}

/// Four digit characters of the text, starting at `i`, read as a number.
pub open spec fn num4(s: Seq<char>, i: int) -> int {
    num2(s, i) * 100 + num2(s, i + 2)
}

/// Both characters of a two-digit field are digits.
pub open spec fn digits2(s: Seq<char>, i: int) -> bool {
    is_digit(s[i]) && is_digit(s[i + 1])
}

/// All four characters of a four-digit field are digits.
pub open spec fn digits4(s: Seq<char>, i: int) -> bool {
    is_digit(s[i]) && is_digit(s[i + 1]) && is_digit(s[i + 2]) && is_digit(s[i + 3])
}

/// The text form of the fractional part: empty, or a point and the digits.
pub open spec fn frac_text(frac: Seq<u8>) -> Seq<char>
    decreases frac.len(),
{
    if frac.len() == 0 {
        Seq::empty()
    } else {
        frac_text(frac.drop_last()).push(dec_char_of(frac.last() as int))
    }
}

/// The text form of a UTC offset.
pub open spec fn offset_text(o: UtcOffset) -> Seq<char> {
    match o {
        UtcOffset::Z => seq!['Z'],
        UtcOffset::Plus { hours, minutes } => seq!['+'] + two_digits(hours as int) + seq![':']
            + two_digits(minutes as int),
        UtcOffset::Minus { hours, minutes } => seq!['-'] + two_digits(hours as int) + seq![':']
            + two_digits(minutes as int),
    }
}

/// The first nineteen characters of the text form: `YYYY-MM-DDThh:mm:ss`.
pub open spec fn ts_prefix_text(t: TimestampV) -> Seq<char> {
    four_digits(t.year as int) + seq!['-'] + two_digits(t.month as int) + seq!['-'] + two_digits(
        t.day as int,
    ) + seq!['T'] + two_digits(t.hour as int) + seq![':'] + two_digits(t.minute as int) + seq![':']
        + two_digits(t.second as int)
}

/// The canonical text form of a timestamp.
pub open spec fn ts_text(t: TimestampV) -> Seq<char> {
    ts_prefix_text(t) + (if t.frac.len() == 0 {
        Seq::<char>::empty()
    } else {
        seq!['.'] + frac_text(t.frac)
    }) + offset_text(t.offset)
}

/// Number of consecutive digit characters starting at `i`.
pub open spec fn digit_run(s: Seq<char>, i: int) -> int
    decreases s.len() - i,
{
    if i < 0 || i >= s.len() || !is_digit(s[i]) {
        0
    } else {
        1 + digit_run(s, i + 1)
    }
}

/// The date-and-time prefix `YYYY-MM-DDThh:mm:ss` is present.
pub open spec fn ts_prefix_ok(s: Seq<char>) -> bool {
    &&& s.len() >= 20
    &&& digits4(s, 0)
    &&& s[4] == '-'
    &&& digits2(s, 5)
    &&& s[7] == '-'
    &&& digits2(s, 8)
    &&& s[10] == 'T'
    &&& digits2(s, 11)
    &&& s[13] == ':'
    &&& digits2(s, 14)
    &&& s[16] == ':'
    &&& digits2(s, 17)
}

/// Where the offset starts: after the seconds, skipping a fraction if one
/// is present.
pub open spec fn ts_offset_index(s: Seq<char>) -> int {
    if s.len() > 19 && s[19] == '.' {
        20 + digit_run(s, 20)
    } else {
        19
    }
}

/// The fractional digits of the text, as digit values.
pub open spec fn ts_frac_of(s: Seq<char>) -> Seq<u8> {
    if s.len() > 19 && s[19] == '.' {
        Seq::new(digit_run(s, 20) as nat, |k: int| digit_val(s[20 + k]) as u8)
    } else {
        Seq::empty()
    }
}

/// The offset part of the text, starting at `i`, if it is well formed.
pub open spec fn ts_offset_of(s: Seq<char>, i: int) -> Option<UtcOffset> {
    if i == s.len() - 1 && s[i] == 'Z' {
        Some(UtcOffset::Z)
    } else if i == s.len() - 6 && (s[i] == '+' || s[i] == '-') && digits2(s, i + 1) && s[i + 3]
        == ':' && digits2(s, i + 4) {
        let hours = num2(s, i + 1);
        let minutes = num2(s, i + 4);
        if s[i] == '+' {
            Some(UtcOffset::Plus { hours: hours as u8, minutes: minutes as u8 })
        } else {
            Some(UtcOffset::Minus { hours: hours as u8, minutes: minutes as u8 })
        }
    } else {
        None
    }
}

/// Specification-level parser for the timestamp text form: the timestamp
/// denoted, or `None` exactly when the text is not the canonical form of a
/// well-formed timestamp.
pub open spec fn ts_parse(s: Seq<char>) -> Option<TimestampV> {
    if !ts_prefix_ok(s) {
        None
    } else if s.len() > 19 && s[19] == '.' && (digit_run(s, 20) == 0 || digit_run(s, 20) > 9) {
        None
    } else {
        match ts_offset_of(s, ts_offset_index(s)) {
            None => None,
            Some(off) => {
                let t = TimestampV {
                    year: num4(s, 0) as u16,
                    month: num2(s, 5) as u8,
                    day: num2(s, 8) as u8,
                    hour: num2(s, 11) as u8,
                    minute: num2(s, 14) as u8,
                    second: num2(s, 17) as u8,
                    frac: ts_frac_of(s),
                    offset: off,
                };
                if t.wf() {
                    Some(t)
                } else {
                    None
                }
            },
        }
    }
}

/// Quotient and remainder of a value below one hundred by ten are digits.
pub proof fn lemma_split10(v: int)
    requires
        0 <= v <= 99,
    ensures
        0 <= v / 10 <= 9,
        0 <= v % 10 <= 9,
        (v / 10) * 10 + v % 10 == v,
{
    vstd::arithmetic::div_mod::lemma_fundamental_div_mod(v, 10);
    vstd::arithmetic::div_mod::lemma_div_pos_is_pos(v, 10);
    if v / 10 > 9 {
        assert(10 * (v / 10) >= 100) by (nonlinear_arith)
            requires
                v / 10 >= 10,
        ;
    }
}

/// Quotient and remainder of a value below ten thousand by one hundred are
/// below one hundred.
proof fn lemma_split100(v: int)
    requires
        0 <= v <= 9999,
    ensures
        0 <= v / 100 <= 99,
        0 <= v % 100 <= 99,
        (v / 100) * 100 + v % 100 == v,
{
    vstd::arithmetic::div_mod::lemma_fundamental_div_mod(v, 100);
    vstd::arithmetic::div_mod::lemma_div_pos_is_pos(v, 100);
    if v / 100 > 99 {
        assert(100 * (v / 100) >= 10000) by (nonlinear_arith)
            requires
                v / 100 >= 100,
        ;
    }
}

/// A two-digit rendering at offset `i` of a text reads back as its value.
pub proof fn lemma_two_at(s: Seq<char>, i: int, v: int)
    requires
        0 <= v <= 99,
        0 <= i,
        i + 2 <= s.len(),
        s[i] == dec_char_of(v / 10),
        s[i + 1] == dec_char_of(v % 10),
    ensures
        digits2(s, i),
        num2(s, i) == v,
{
    lemma_split10(v);
    lemma_dec_char_of(v / 10);
    lemma_dec_char_of(v % 10);
}

/// The rendered fraction has one digit character per digit.
proof fn lemma_frac_text(f: Seq<u8>)
    requires
        forall|i: int| 0 <= i < f.len() ==> f[i] < 10,
    ensures
        frac_text(f).len() == f.len(),
        forall|k: int|
            0 <= k < f.len() ==> frac_text(f)[k] == dec_char_of(f[k] as int) && is_digit(
                #[trigger] frac_text(f)[k],
            ),
    decreases f.len(),
{
    if f.len() > 0 {
        lemma_frac_text(f.drop_last());
        assert forall|k: int| 0 <= k < f.len() implies frac_text(f)[k] == dec_char_of(f[k] as int)
            && is_digit(#[trigger] frac_text(f)[k]) by {
            if k < f.len() - 1 {
                assert(frac_text(f)[k] == frac_text(f.drop_last())[k]);
                assert(f.drop_last()[k] == f[k]);
            } else {
                lemma_dec_char_of(f[k] as int);
            }
            lemma_dec_char_of(f[k] as int);
        }
    }
}

/// A run of exactly `k` digits bounded by a non-digit has length `k`.
proof fn lemma_digit_run_exact(s: Seq<char>, i: int, k: int)
    requires
        0 <= i,
        0 <= k,
        i + k < s.len(),
        forall|j: int| i <= j < i + k ==> is_digit(#[trigger] s[j]),
        !is_digit(s[i + k]),
    ensures
        digit_run(s, i) == k,
    decreases k,
{
    if k == 0 {
    } else {
        lemma_digit_run_exact(s, i + 1, k - 1);
    }
}

/// Append two decimal digit characters for a value below one hundred.
pub fn push_two(out: &mut String, v: u8)
    requires
        v <= 99,
    ensures
        final(out)@ == old(out)@ + two_digits(v as int),
{
    proof {
        lemma_split10(v as int);
    }
    let hi: char = dec_char(v / 10);
    push_char(out, hi);
    let lo: char = dec_char(v % 10);
    push_char(out, lo);
    proof {
        assert(out@ =~= old(out)@ + two_digits(v as int));
    }
}

/// Decimal digit value of a character, or `None` when it is not a digit.
fn digit_of(c: char) -> (r: Option<u8>)
    ensures
        r is Some <==> is_digit(c),
        r matches Some(v) ==> v as int == digit_val(c) && v <= 9,
{
    if '0' <= c && c <= '9' {
        Some(((c as u32) - ('0' as u32)) as u8)
    } else {
        None
    }
}

/// Read a two-digit number at offset `i`, or `None` when either character
/// is not a digit.
fn read2(cs: &Vec<char>, i: usize) -> (r: Option<u8>)
    requires
        i + 2 <= cs@.len(),
    ensures
        r is Some <==> digits2(cs@, i as int),
        r matches Some(v) ==> v as int == num2(cs@, i as int) && v <= 99,
{
    let _n: usize = cs.len();
    let d0: Option<u8> = digit_of(cs[i]);
    let d1: Option<u8> = digit_of(cs[i + 1]);
    match (d0, d1) {
        (Some(a), Some(b)) => Some(a * 10 + b),
        _ => None,
    }
}

/// Days in a month of the Gregorian calendar.
pub fn month_length(year: u16, month: u8) -> (d: u8)
    requires
        1 <= month <= 12,
    ensures
        d as int == days_in_month(year as int, month as int),
{
    if month == 2 {
        if year % 4 == 0 && (year % 100 != 0 || year % 400 == 0) {
            29
        } else {
            28
        }
    } else if month == 4 || month == 6 || month == 9 || month == 11 {
        30
    } else {
        31
    }
}

impl Timestamp {
    /// An equal copy of the timestamp.
    pub fn duplicate(&self) -> (r: Timestamp)
        ensures
            r@ == self@,
    {
        let mut frac: Vec<u8> = Vec::new();
        let mut i: usize = 0;
        while i < self.frac.len()
            invariant
                0 <= i <= self.frac@.len(),
                frac@ =~= self.frac@.take(i as int),
            decreases self.frac@.len() - i,
        {
            frac.push(self.frac[i]);
            proof {
                assert(frac@ =~= self.frac@.take(i as int + 1));
            }
            i = i + 1;
        }
        proof {
            assert(self.frac@.take(self.frac@.len() as int) =~= self.frac@);
        }
        Timestamp {
            year: self.year,
            month: self.month,
            day: self.day,
            hour: self.hour,
            minute: self.minute,
            second: self.second,
            frac,
            offset: self.offset,
        }
    }

    /// Whether the timestamp denotes a real calendar date and time.
    pub fn is_wf(&self) -> (b: bool)
        ensures
            b == self@.wf(),
    {
        let ranges_ok: bool = self.year <= 9999 && 1 <= self.month && self.month <= 12
            && self.hour <= 23 && self.minute <= 59 && self.second <= 59 && self.frac.len() <= 9;
        if !ranges_ok {
            return false;
        }
        if !(1 <= self.day && self.day <= month_length(self.year, self.month)) {
            return false;
        }
        let mut i: usize = 0;
        while i < self.frac.len()
            invariant
                0 <= i <= self.frac@.len(),
                forall|k: int| 0 <= k < i ==> self.frac@[k] < 10,
            decreases self.frac@.len() - i,
        {
            if self.frac[i] >= 10 {
                return false;
            }
            i = i + 1;
        }
        match self.offset {
            UtcOffset::Z => true,
            UtcOffset::Plus { hours, minutes } => hours <= 23 && minutes <= 59,
            UtcOffset::Minus { hours, minutes } => hours <= 23 && minutes <= 59,
        }
    }

    /// Render the timestamp in its canonical text form.
    pub fn to_text(&self) -> (r: String)
        requires
            self@.wf(),
        ensures
            r@ == ts_text(self@),
    {
        let mut out: String = String::new();
        proof {
            lemma_split100(self.year as int);
        }
        push_two(&mut out, (self.year / 100) as u8);
        push_two(&mut out, (self.year % 100) as u8);
        push_char(&mut out, '-');
        push_two(&mut out, self.month);
        push_char(&mut out, '-');
        push_two(&mut out, self.day);
        push_char(&mut out, 'T');
        push_two(&mut out, self.hour);
        push_char(&mut out, ':');
        push_two(&mut out, self.minute);
        push_char(&mut out, ':');
        push_two(&mut out, self.second);
        proof {
            assert(out@ =~= ts_prefix_text(self@));
        }
        let ghost prefix = out@;
        if self.frac.len() > 0 {
            push_char(&mut out, '.');
            let mut i: usize = 0;
            while i < self.frac.len()
                invariant
                    0 <= i <= self.frac@.len(),
                    forall|k: int| 0 <= k < self.frac@.len() ==> self.frac@[k] < 10,
                    out@ == prefix + seq!['.'] + frac_text(self.frac@.take(i as int)),
                decreases self.frac@.len() - i,
            {
                let d: char = dec_char(self.frac[i]);
                push_char(&mut out, d);
                proof {
                    let f = self.frac@;
                    assert(f.take(i as int + 1).drop_last() =~= f.take(i as int));
                    assert(f.take(i as int + 1).last() == f[i as int]);
                    assert(out@ =~= prefix + seq!['.'] + frac_text(f.take(i as int + 1)));
                }
                i = i + 1;
            }
            proof {
                assert(self.frac@.take(self.frac@.len() as int) =~= self.frac@);
            }
        }
        let ghost with_frac = out@;
        proof {
            if self.frac@.len() == 0 {
                assert(with_frac =~= prefix + Seq::<char>::empty());
            }
        }
        match self.offset {
            UtcOffset::Z => {
                push_char(&mut out, 'Z');
            },
            UtcOffset::Plus { hours, minutes } => {
                push_char(&mut out, '+');
                push_two(&mut out, hours);
                push_char(&mut out, ':');
                push_two(&mut out, minutes);
            },
            UtcOffset::Minus { hours, minutes } => {
                push_char(&mut out, '-');
                push_two(&mut out, hours);
                push_char(&mut out, ':');
                push_two(&mut out, minutes);
            },
        }
        proof {
            assert(out@ =~= ts_text(self@));
        }
        out
    }

    /// Parse the canonical text form of a timestamp; `None` exactly when the
    /// text does not denote a well-formed timestamp.
    pub fn parse(s: &str) -> (r: Option<Timestamp>)
        ensures
            r matches Some(t) ==> ts_parse(s@) == Some(t@),
            r is None ==> ts_parse(s@) is None,
    {
        let cs: Vec<char> = to_chars(s);
        Timestamp::parse_chars(&cs)
    }

    /// Parse the canonical text form from a character vector.
    pub fn parse_chars(cs: &Vec<char>) -> (r: Option<Timestamp>)
        ensures
            r matches Some(t) ==> ts_parse(cs@) == Some(t@),
            r is None ==> ts_parse(cs@) is None,
    {
        let n: usize = cs.len();
        if n < 20 {
            return None;
        }
        let y_hi: Option<u8> = read2(&cs, 0);
        let y_lo: Option<u8> = read2(&cs, 2);
        let month_r: Option<u8> = read2(&cs, 5);
        let day_r: Option<u8> = read2(&cs, 8);
        let hour_r: Option<u8> = read2(&cs, 11);
        let minute_r: Option<u8> = read2(&cs, 14);
        let second_r: Option<u8> = read2(&cs, 17);
        if cs[4] != '-' || cs[7] != '-' || cs[10] != 'T' || cs[13] != ':' || cs[16] != ':' {
            return None;
        }
        let (year, month, day, hour, minute, second): (u16, u8, u8, u8, u8, u8) = match (
            y_hi,
            y_lo,
            month_r,
            day_r,
            hour_r,
            minute_r,
            second_r,
        ) {
            (Some(a), Some(b), Some(mo), Some(d), Some(h), Some(mi), Some(se)) => (
                (a as u16) * 100 + (b as u16),
                mo,
                d,
                h,
                mi,
                se,
            ),
            _ => {
                return None;
            },
        };
        // Fractional seconds.
        let mut frac: Vec<u8> = Vec::new();
        let mut off_i: usize = 19;
        if cs[19] == '.' {
            let mut j: usize = 20;
            while j < n && crate::text::is_digit_char(cs[j])
                invariant
                    20 <= j <= n,
                    n == cs@.len(),
                    digit_run(cs@, 20) == (j - 20) + digit_run(cs@, j as int),
                    frac@.len() == j - 20,
                    forall|k: int|
                        0 <= k < frac@.len() ==> frac@[k] == digit_val(cs@[20 + k]) && frac@[k]
                            < 10,
                decreases n - j,
            {
                match digit_of(cs[j]) {
                    Some(v) => {
                        frac.push(v);
                    },
                    None => {
                        proof {
                            assert(false);
                        }
                    },
                }
                j = j + 1;
            }
            proof {
                if j == n {
                    assert(digit_run(cs@, j as int) == 0);
                }
                assert(digit_run(cs@, 20) == j - 20);
            }
            let run: usize = j - 20;
            if run == 0 || run > 9 {
                return None;
            }
            off_i = j;
            proof {
                assert(off_i as int == ts_offset_index(cs@));
                assert(frac@ =~= ts_frac_of(cs@));
            }
        } else {
            proof {
                assert(off_i as int == ts_offset_index(cs@));
                assert(frac@ =~= ts_frac_of(cs@));
            }
        }
        // Offset.
        let offset: UtcOffset = if off_i + 1 == n && cs[off_i] == 'Z' {
            UtcOffset::Z
        } else if off_i + 6 == n && (cs[off_i] == '+' || cs[off_i] == '-') {
            let oh: Option<u8> = read2(&cs, off_i + 1);
            let om: Option<u8> = read2(&cs, off_i + 4);
            if cs[off_i + 3] != ':' {
                return None;
            }
            match (oh, om) {
                (Some(h), Some(m)) => {
                    if cs[off_i] == '+' {
                        UtcOffset::Plus { hours: h, minutes: m }
                    } else {
                        UtcOffset::Minus { hours: h, minutes: m }
                    }
                },
                _ => {
                    return None;
                },
            }
        } else {
            return None;
        };
        proof {
            assert(ts_offset_of(cs@, off_i as int) == Some(offset));
        }
        // Calendar validity.
        if !(1 <= month && month <= 12) {
            return None;
        }
        if !(1 <= day && day <= month_length(year, month)) {
            return None;
        }
        if !(year <= 9999 && hour <= 23 && minute <= 59 && second <= 59) {
            return None;
        }
        let offset_ok: bool = match offset {
            UtcOffset::Z => true,
            UtcOffset::Plus { hours, minutes } => hours <= 23 && minutes <= 59,
            UtcOffset::Minus { hours, minutes } => hours <= 23 && minutes <= 59,
        };
        if !offset_ok {
            return None;
        }
        Some(Timestamp { year, month, day, hour, minute, second, frac, offset })
    }
}

/// Rendering a well-formed timestamp and parsing the text gives the same
/// timestamp back, fraction and offset included.
#[verifier::rlimit(80)]
pub proof fn lemma_ts_round_trip(t: TimestampV)
    requires
        t.wf(),
    ensures
        ts_parse(ts_text(t)) == Some(t),
{
    let s = ts_text(t);
    let pre = ts_prefix_text(t);
    let fracpart: Seq<char> = if t.frac.len() == 0 {
        Seq::<char>::empty()
    } else {
        seq!['.'] + frac_text(t.frac)
    };
    let off = offset_text(t.offset);
    lemma_frac_text(t.frac);
    lemma_split100(t.year as int);
    assert(pre.len() == 19);
    assert(s =~= pre + fracpart + off);
    assert(off.len() >= 1);
    // The nineteen-character prefix.
    assert(s[4] == '-' && s[7] == '-' && s[10] == 'T' && s[13] == ':' && s[16] == ':');
    lemma_two_at(s, 0, t.year as int / 100);
    lemma_two_at(s, 2, t.year as int % 100);
    lemma_two_at(s, 5, t.month as int);
    lemma_two_at(s, 8, t.day as int);
    lemma_two_at(s, 11, t.hour as int);
    lemma_two_at(s, 14, t.minute as int);
    lemma_two_at(s, 17, t.second as int);
    assert(ts_prefix_ok(s));
    assert(num4(s, 0) == t.year as int);
    // The fraction.
    let oi = ts_offset_index(s);
    if t.frac.len() == 0 {
        assert(s[19] == off[0]);
        assert(off[0] == 'Z' || off[0] == '+' || off[0] == '-');
        assert(oi == 19);
        assert(ts_frac_of(s) =~= t.frac);
    } else {
        assert(s[19] == '.');
        assert forall|j: int| 20 <= j < 20 + t.frac.len() implies is_digit(#[trigger] s[j]) by {
            assert(s[j] == frac_text(t.frac)[j - 20]);
        }
        assert(s[20 + t.frac.len() as int] == off[0]);
        assert(!is_digit(off[0]));
        lemma_digit_run_exact(s, 20, t.frac.len() as int);
        assert(oi == 20 + t.frac.len());
        assert forall|k: int| 0 <= k < t.frac.len() implies digit_val(s[20 + k]) == t.frac[k] by {
            assert(s[20 + k] == frac_text(t.frac)[k]);
            lemma_dec_char_of(t.frac[k] as int);
        }
        assert(ts_frac_of(s) =~= t.frac);
    }
    // The offset.
    assert(oi == s.len() - off.len());
    match t.offset {
        UtcOffset::Z => {
            assert(s[oi] == 'Z');
            assert(ts_offset_of(s, oi) == Some(t.offset));
        },
        UtcOffset::Plus { hours, minutes } => {
            assert(s[oi] == off[0]);
            assert(off[0] == '+');
            assert(oi == s.len() - 6);
            assert(s[oi + 1] == off[1] && s[oi + 2] == off[2]);
            assert(s[oi + 3] == off[3] && off[3] == ':');
            assert(s[oi + 4] == off[4] && s[oi + 5] == off[5]);
            lemma_two_at(s, oi + 1, hours as int);
            lemma_two_at(s, oi + 4, minutes as int);
            assert(ts_offset_of(s, oi) == Some(t.offset));
        },
        UtcOffset::Minus { hours, minutes } => {
            assert(s[oi] == off[0]);
            assert(off[0] == '-');
            assert(oi == s.len() - 6);
            assert(s[oi + 1] == off[1] && s[oi + 2] == off[2]);
            assert(s[oi + 3] == off[3] && off[3] == ':');
            assert(s[oi + 4] == off[4] && s[oi + 5] == off[5]);
            lemma_two_at(s, oi + 1, hours as int);
            lemma_two_at(s, oi + 4, minutes as int);
            assert(ts_offset_of(s, oi) == Some(t.offset));
        },
    }
    let parsed = ts_parse(s);
    assert(parsed matches Some(p) && p == t) by {
        assert(ts_frac_of(s) == t.frac);
    }
}

} // verus!
