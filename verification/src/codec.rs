//! The persisted record format.
//!
//! Every record is a line-oriented key–value text. A line is either a block
//! header `[[name]]` or `key = value`; values are double-quoted strings
//! (with `\"` and `\\` escapes), double-quoted identifier renderings,
//! double-quoted exact fractions `"numerator/denominator"`, bare decimal
//! amounts with two fraction digits, bare timestamps, or arrays of quoted
//! identifiers. The reader is strict: it accepts exactly the writer's
//! layout, and rendering then parsing any record gives the value back
//! unchanged.

use vstd::prelude::*;
use crate::datetime::{lemma_split10, lemma_ts_round_trip, ts_parse, ts_text, Timestamp,
    TimestampV, two_digits};
use crate::domain::{Amount, EntityV, GroupV, LedgerV, Split, TransactionV};
use crate::ids::{lemma_uid_canon, uid_canon, uid_text_ok, uid_val, Uid};
use crate::rat::{mag, Rat};
use crate::text::{dec_char, dec_char_of, digit_val, is_digit, is_digit_char, lemma_dec_char_of,
    push_char, to_chars};

verus! {

/// Text that can stand inside a quoted value: anything but line breaks.
pub open spec fn wf_text(s: Seq<char>) -> bool {
    forall|i: int| 0 <= i < s.len() ==> #[trigger] s[i] != '\n' && s[i] != '\r'
}

// ------------------------------------------------------------------------
// String escaping.
// ------------------------------------------------------------------------

/// The escape of one character: quotes and backslashes get a backslash,
/// and line breaks become `\n` and `\r`, so every string survives the
/// line-oriented format unchanged.
pub open spec fn esc_char(c: char) -> Seq<char> {
    if c == '"' || c == '\\' {
        seq!['\\', c]
    } else if c == '\n' {
        seq!['\\', 'n']
    } else if c == '\r' {
        seq!['\\', 'r']
    } else {
        seq![c]
    }
}

/// The escaped form of a text.
pub open spec fn escape_text(s: Seq<char>) -> Seq<char>
    decreases s.len(),
{
    if s.len() == 0 {
        Seq::empty()
    } else {
        esc_char(s[0]) + escape_text(s.drop_first())
    }
}

/// Specification-level unescaping: the original text, or `None` when the
/// input is not a valid escaped form (a lone backslash, an unknown escape,
/// or a bare quote).
pub open spec fn unescape_text(s: Seq<char>) -> Option<Seq<char>>
    decreases s.len(),
{
    if s.len() == 0 {
        Some(Seq::empty())
    } else if s[0] == '\\' {
        if s.len() >= 2 && (s[1] == '"' || s[1] == '\\') {
            match unescape_text(s.skip(2)) {
                Some(r) => Some(seq![s[1]] + r),
                None => None,
            }
        } else if s.len() >= 2 && s[1] == 'n' {
            match unescape_text(s.skip(2)) {
                Some(r) => Some(seq!['\n'] + r),
                None => None,
            }
        } else if s.len() >= 2 && s[1] == 'r' {
            match unescape_text(s.skip(2)) {
                Some(r) => Some(seq!['\r'] + r),
                None => None,
            }
        } else {
            None
        }
    } else if s[0] == '"' {
        None
    } else {
        match unescape_text(s.skip(1)) {
            Some(r) => Some(seq![s[0]] + r),
            None => None,
        }
    }
}

/// Unescaping an escaped text gives the text back.
pub proof fn lemma_unescape_escape(s: Seq<char>)
    ensures
        unescape_text(escape_text(s)) == Some(s),
    decreases s.len(),
{
    if s.len() == 0 {
        assert(escape_text(s) =~= Seq::<char>::empty());
    } else {
        let rest = s.drop_first();
        lemma_unescape_escape(rest);
        let e = escape_text(s);
        if s[0] == '"' || s[0] == '\\' {
            assert(e[0] == '\\');
            assert(e[1] == s[0]);
            assert(e.skip(2) =~= escape_text(rest));
            assert(seq![s[0]] + rest =~= s);
        } else if s[0] == '\n' || s[0] == '\r' {
            assert(e[0] == '\\');
            assert(e[1] == (if s[0] == '\n' { 'n' } else { 'r' }));
            assert(e.skip(2) =~= escape_text(rest));
            assert(seq![s[0]] + rest =~= s);
        } else {
            assert(e[0] == s[0]);
            assert(e.skip(1) =~= escape_text(rest));
            assert(seq![s[0]] + rest =~= s);
        }
    }
}

/// The escaped form of any text holds no line break: line breaks are
/// written as escapes.
pub proof fn lemma_escape_wf(s: Seq<char>)
    ensures
        wf_text(escape_text(s)),
    decreases s.len(),
{
    if s.len() > 0 {
        let rest = s.drop_first();
        lemma_escape_wf(rest);
        let e = escape_text(s);
        let h = esc_char(s[0]);
        assert forall|i: int| 0 <= i < e.len() implies #[trigger] e[i] != '\n' && e[i] != '\r' by {
            if i < h.len() {
                assert(e[i] == h[i]);
            } else {
                assert(e[i] == escape_text(rest)[i - h.len()]);
            }
        }
    }
}

/// Escape a text into an output string.
pub fn push_escaped(out: &mut String, s: &str)
    ensures
        final(out)@ == old(out)@ + escape_text(s@),
{
    let cs: Vec<char> = to_chars(s);
    let n: usize = cs.len();
    let mut i: usize = 0;
    while i < n
        invariant
            0 <= i <= n,
            n == cs@.len(),
            cs@ == s@,
            out@ == old(out)@ + escape_text(s@.take(i as int)),
        decreases n - i,
    {
        let c: char = cs[i];
        if c == '"' || c == '\\' {
            push_char(out, '\\');
            push_char(out, c);
        } else if c == '\n' {
            push_char(out, '\\');
            push_char(out, 'n');
        } else if c == '\r' {
            push_char(out, '\\');
            push_char(out, 'r');
        } else {
            push_char(out, c);
        }
        proof {
            lemma_escape_take_step(s@, i as int);
            assert(out@ =~= old(out)@ + escape_text(s@.take(i as int + 1)));
        }
        i = i + 1;
    }
    proof {
        assert(s@.take(n as int) =~= s@);
    }
}

/// Escaping one more character appends its escape.
proof fn lemma_escape_take_step(s: Seq<char>, i: int)
    requires
        0 <= i < s.len(),
    ensures
        escape_text(s.take(i + 1)) == escape_text(s.take(i)) + esc_char(s[i]),
    decreases i,
{
    if i == 0 {
        assert(s.take(1).len() == 1);
        assert(s.take(1)[0] == s[0]);
        assert(s.take(1).drop_first() =~= Seq::<char>::empty());
        assert(escape_text(s.take(1)) == esc_char(s[0]) + escape_text(Seq::<char>::empty()));
        assert(s.take(0).len() == 0);
        assert(esc_char(s[0]) + Seq::<char>::empty() =~= esc_char(s[0]));
        assert(Seq::<char>::empty() + esc_char(s[0]) =~= esc_char(s[0]));
    } else {
        let t = s.drop_first();
        lemma_escape_take_step(t, i - 1);
        assert(s.take(i + 1)[0] == s[0]);
        assert(s.take(i + 1).drop_first() =~= t.take(i));
        assert(s.take(i)[0] == s[0]);
        assert(s.take(i).drop_first() =~= t.take(i - 1));
        assert(t[i - 1] == s[i]);
        assert(esc_char(s[0]) + (escape_text(t.take(i - 1)) + esc_char(s[i])) =~= (esc_char(s[0])
            + escape_text(t.take(i - 1))) + esc_char(s[i]));
    }
}

/// Unescape a value; `None` exactly when it is not a valid escaped form.
pub fn unescape(cs: &Vec<char>) -> (r: Option<Vec<char>>)
    ensures
        r matches Some(v) ==> unescape_text(cs@) == Some(v@),
        r is None ==> unescape_text(cs@) is None,
{
    let n: usize = cs.len();
    let mut out: Vec<char> = Vec::new();
    proof {
        assert(cs@.skip(0) =~= cs@);
        if unescape_text(cs@) is Some {
            assert(out@ + unescape_text(cs@)->Some_0 =~= unescape_text(cs@)->Some_0);
        }
    }
    let mut i: usize = 0;
    while i < n
        invariant
            0 <= i <= n,
            n == cs@.len(),
            unescape_text(cs@) matches Some(w) ==> unescape_text(cs@.skip(i as int)) matches Some(
                tail,
            ) && w == out@ + tail,
            unescape_text(cs@) is None ==> unescape_text(cs@.skip(i as int)) is None,
        decreases n - i,
    {
        let ghost pre = cs@.skip(i as int);
        let c: char = cs[i];
        proof {
            assert(pre[0] == cs@[i as int]);
        }
        if c == '\\' {
            if i + 1 < n {
                let c2: char = cs[i + 1];
                proof {
                    assert(pre[1] == cs@[i as int + 1]);
                }
                if c2 == '"' || c2 == '\\' || c2 == 'n' || c2 == 'r' {
                    let decoded: char = if c2 == 'n' {
                        '\n'
                    } else if c2 == 'r' {
                        '\r'
                    } else {
                        c2
                    };
                    out.push(decoded);
                    proof {
                        assert(pre.skip(2) =~= cs@.skip(i as int + 2));
                        if unescape_text(cs@) is Some {
                            assert(out@ + unescape_text(cs@.skip(i as int + 2))->Some_0 =~= out@
                                .drop_last() + (seq![decoded] + unescape_text(
                                cs@.skip(i as int + 2),
                            )->Some_0));
                        }
                    }
                    i = i + 2;
                } else {
                    return None;
                }
            } else {
                return None;
            }
        } else if c == '"' {
            return None;
        } else {
            out.push(c);
            proof {
                assert(pre.skip(1) =~= cs@.skip(i as int + 1));
                if unescape_text(cs@) is Some {
                    assert(out@ + unescape_text(cs@.skip(i as int + 1))->Some_0 =~= out@.drop_last()
                        + (seq![c] + unescape_text(cs@.skip(i as int + 1))->Some_0));
                }
            }
            i = i + 1;
        }
    }
    proof {
        assert(cs@.skip(n as int) =~= Seq::<char>::empty());
        if unescape_text(cs@) is Some {
            assert(unescape_text(cs@)->Some_0 =~= out@);
        }
    }
    Some(out)
}

// ------------------------------------------------------------------------
// Lines.
// ------------------------------------------------------------------------

/// Length of the prefix before the first line break.
pub open spec fn first_nl(s: Seq<char>) -> int
    decreases s.len(),
{
    if s.len() == 0 || s[0] == '\n' {
        0
    } else {
        1 + first_nl(s.drop_first())
    }
}

/// The prefix before the first line break is within the text.
pub proof fn lemma_first_nl_bound(s: Seq<char>)
    ensures
        0 <= first_nl(s) <= s.len(),
        forall|i: int| 0 <= i < first_nl(s) ==> #[trigger] s[i] != '\n',
        first_nl(s) < s.len() ==> s[first_nl(s)] == '\n',
    decreases s.len(),
{
    if s.len() > 0 && s[0] != '\n' {
        lemma_first_nl_bound(s.drop_first());
        let t = s.drop_first();
        assert forall|i: int| 0 <= i < first_nl(s) implies #[trigger] s[i] != '\n' by {
            if i > 0 {
                assert(t[i - 1] == s[i]);
            }
        }
        if first_nl(s) < s.len() {
            assert(t[first_nl(t)] == s[first_nl(s)]);
        }
    }
}

/// The text split at line breaks; a final line without a break counts.
pub open spec fn split_lines(s: Seq<char>) -> Seq<Seq<char>>
    decreases s.len(),
{
    if s.len() == 0 {
        Seq::empty()
    } else {
        let e = first_nl(s);
        if 0 <= e < s.len() {
            seq![s.take(e)] + split_lines(s.skip(e + 1))
        } else {
            seq![s]
        }
    }
}

/// The lines joined back into a text, a line break after each line.
pub open spec fn join_lines(ls: Seq<Seq<char>>) -> Seq<char>
    decreases ls.len(),
{
    if ls.len() == 0 {
        Seq::empty()
    } else {
        (ls[0] + seq!['\n']) + join_lines(ls.drop_first())
    }
}

/// No line holds a line break.
pub open spec fn lines_wf(ls: Seq<Seq<char>>) -> bool {
    forall|i: int, j: int|
        0 <= i < ls.len() && 0 <= j < ls[i].len() ==> #[trigger] ls[i][j] != '\n'
}

/// The first break of a line-break-free prefix followed by a break is at
/// the prefix's end.
proof fn lemma_first_nl_prefix(l: Seq<char>, tail: Seq<char>)
    requires
        forall|j: int| 0 <= j < l.len() ==> #[trigger] l[j] != '\n',
    ensures
        first_nl((l + seq!['\n']) + tail) == l.len(),
    decreases l.len(),
{
    let s = (l + seq!['\n']) + tail;
    if l.len() == 0 {
        assert(s[0] == '\n');
    } else {
        assert(s[0] == l[0]);
        let lt = l.drop_first();
        assert forall|j: int| 0 <= j < lt.len() implies #[trigger] lt[j] != '\n' by {
            assert(lt[j] == l[j + 1]);
        }
        lemma_first_nl_prefix(lt, tail);
        assert(s.drop_first() =~= (lt + seq!['\n']) + tail);
    }
}

/// Splitting a joined text gives the lines back.
pub proof fn lemma_split_join(ls: Seq<Seq<char>>)
    requires
        lines_wf(ls),
    ensures
        split_lines(join_lines(ls)) == ls,
    decreases ls.len(),
{
    if ls.len() == 0 {
        assert(split_lines(join_lines(ls)) =~= ls);
    } else {
        let l = ls[0];
        let rest = ls.drop_first();
        assert(lines_wf(rest)) by {
            assert forall|i: int, j: int|
                0 <= i < rest.len() && 0 <= j < rest[i].len() implies #[trigger] rest[i][j]
                != '\n' by {
                assert(rest[i] == ls[i + 1]);
            }
        }
        lemma_split_join(rest);
        let s = join_lines(ls);
        assert(s =~= (l + seq!['\n']) + join_lines(rest));
        assert forall|j: int| 0 <= j < l.len() implies #[trigger] l[j] != '\n' by {
            assert(ls[0][j] != '\n');
        }
        lemma_first_nl_prefix(l, join_lines(rest));
        assert(first_nl(s) == l.len());
        assert(s.len() == l.len() + 1 + join_lines(rest).len());
        assert(s.take(l.len() as int) =~= l);
        assert(s.skip(l.len() as int + 1) =~= join_lines(rest));
        assert(split_lines(s) =~= ls);
    }
}

/// The views of a vector of lines.
pub open spec fn views_of(ls: Seq<Vec<char>>) -> Seq<Seq<char>> {
    ls.map_values(|l: Vec<char>| l@)
}

/// A run of exactly `k` non-break characters bounded by a break (or the
/// text's end) puts the first break at `k`.
proof fn lemma_first_nl_exact(s: Seq<char>, k: int)
    requires
        0 <= k <= s.len(),
        forall|j: int| 0 <= j < k ==> #[trigger] s[j] != '\n',
        k < s.len() ==> s[k] == '\n',
    ensures
        first_nl(s) == k,
    decreases k,
{
    if k == 0 {
    } else {
        let t = s.drop_first();
        assert forall|j: int| 0 <= j < k - 1 implies #[trigger] t[j] != '\n' by {
            assert(t[j] == s[j + 1]);
        }
        if k - 1 < t.len() {
            assert(t[k - 1] == s[k]);
        }
        lemma_first_nl_exact(t, k - 1);
    }
}

/// Split a text into its lines.
pub fn split_lines_exec(cs: &Vec<char>) -> (r: Vec<Vec<char>>)
    ensures
        views_of(r@) == split_lines(cs@),
{
    let n: usize = cs.len();
    let mut r: Vec<Vec<char>> = Vec::new();
    let mut pos: usize = 0;
    proof {
        assert(cs@.skip(0) =~= cs@);
        assert(views_of(r@) + split_lines(cs@) =~= split_lines(cs@));
    }
    while pos < n
        invariant
            0 <= pos <= n,
            n == cs@.len(),
            views_of(r@) + split_lines(cs@.skip(pos as int)) =~= split_lines(cs@),
        decreases n - pos,
    {
        let ghost suffix = cs@.skip(pos as int);
        let mut line: Vec<char> = Vec::new();
        let mut j: usize = pos;
        while j < n && cs[j] != '\n'
            invariant
                pos <= j <= n,
                n == cs@.len(),
                line@ =~= cs@.subrange(pos as int, j as int),
                forall|k: int| pos <= k < j ==> #[trigger] cs@[k] != '\n',
            decreases n - j,
        {
            line.push(cs[j]);
            proof {
                assert(line@ =~= cs@.subrange(pos as int, j as int + 1));
            }
            j = j + 1;
        }
        proof {
            assert forall|k: int| 0 <= k < j - pos implies #[trigger] suffix[k] != '\n' by {
                assert(suffix[k] == cs@[pos + k]);
            }
            if j < n {
                assert(suffix[j - pos] == cs@[j as int]);
            }
            lemma_first_nl_exact(suffix, j as int - pos as int);
            assert(line@ =~= suffix.take(j as int - pos as int));
        }
        r.push(line);
        if j < n {
            proof {
                assert(suffix.skip(j as int - pos as int + 1) =~= cs@.skip(j as int + 1));
                assert(views_of(r@) =~= views_of(r@.drop_last()) + seq![suffix.take(
                    j as int - pos as int,
                )]);
                assert(views_of(r@) + split_lines(cs@.skip(j as int + 1)) =~= split_lines(cs@));
            }
            pos = j + 1;
        } else {
            proof {
                assert(suffix =~= suffix.take(j as int - pos as int));
                assert(split_lines(suffix) =~= seq![suffix]);
                assert(views_of(r@) =~= views_of(r@.drop_last()) + seq![suffix]);
                assert(cs@.skip(n as int) =~= Seq::<char>::empty());
                assert(views_of(r@) + split_lines(cs@.skip(n as int)) =~= split_lines(cs@));
            }
            pos = n;
        }
    }
    proof {
        assert(cs@.skip(n as int) =~= Seq::<char>::empty());
        assert(views_of(r@) =~= split_lines(cs@));
    }
    r
}

// ------------------------------------------------------------------------
// Key–value lines.
// ------------------------------------------------------------------------

/// The value part of the line `key = value`, or `None` when the line does
/// not open with exactly that key and separator.
pub open spec fn kv_value(line: Seq<char>, key: Seq<char>) -> Option<Seq<char>> {
    if line.len() >= key.len() + 3 && line.take(key.len() as int) == key && line[key.len() as int]
        == ' ' && line[key.len() as int + 1] == '=' && line[key.len() as int + 2] == ' ' {
        Some(line.skip(key.len() as int + 3))
    } else {
        None
    }
}

/// Extract the value of a `key = value` line.
pub fn kv_value_exec(line: &Vec<char>, key: &str) -> (r: Option<Vec<char>>)
    ensures
        r matches Some(v) ==> kv_value(line@, key@) == Some(v@),
        r is None ==> kv_value(line@, key@) is None,
{
    let kl: usize = key.unicode_len();
    let n: usize = line.len();
    if n < 3 || n - 3 < kl {
        return None;
    }
    let mut i: usize = 0;
    while i < kl
        invariant
            0 <= i <= kl,
            kl == key@.len(),
            n == line@.len(),
            n >= kl + 3,
            forall|k: int| 0 <= k < i ==> #[trigger] line@[k] == key@[k],
        decreases kl - i,
    {
        if line[i] != key.get_char(i) {
            proof {
                assert(line@.take(kl as int)[i as int] != key@[i as int]);
            }
            return None;
        }
        i = i + 1;
    }
    proof {
        assert(line@.take(kl as int) =~= key@);
    }
    if line[kl] != ' ' || line[kl + 1] != '=' || line[kl + 2] != ' ' {
        return None;
    }
    let mut v: Vec<char> = Vec::new();
    let mut j: usize = kl + 3;
    while j < n
        invariant
            kl + 3 <= j <= n,
            n == line@.len(),
            v@ =~= line@.subrange(kl as int + 3, j as int),
        decreases n - j,
    {
        v.push(line[j]);
        proof {
            assert(v@ =~= line@.subrange(kl as int + 3, j as int + 1));
        }
        j = j + 1;
    }
    proof {
        assert(v@ =~= line@.skip(kl as int + 3));
    }
    Some(v)
}

/// The text between the opening and closing quote of a quoted value.
pub open spec fn quoted_inner(v: Seq<char>) -> Option<Seq<char>> {
    if v.len() >= 2 && v[0] == '"' && v[v.len() - 1] == '"' {
        Some(v.subrange(1, v.len() - 1))
    } else {
        None
    }
}

/// Strip the quotes of a quoted value.
pub fn strip_quotes(v: &Vec<char>) -> (r: Option<Vec<char>>)
    ensures
        r matches Some(inner) ==> quoted_inner(v@) == Some(inner@),
        r is None ==> quoted_inner(v@) is None,
{
    let n: usize = v.len();
    if n < 2 || v[0] != '"' || v[n - 1] != '"' {
        return None;
    }
    let mut inner: Vec<char> = Vec::new();
    let mut i: usize = 1;
    while i < n - 1
        invariant
            1 <= i <= n - 1,
            n == v@.len(),
            n >= 2,
            inner@ =~= v@.subrange(1, i as int),
        decreases n - i,
    {
        inner.push(v[i]);
        proof {
            assert(inner@ =~= v@.subrange(1, i as int + 1));
        }
        i = i + 1;
    }
    Some(inner)
}

// ------------------------------------------------------------------------
// Decimal digit strings.
// ------------------------------------------------------------------------

/// Value of a string of decimal digits, most significant first.
pub open spec fn digits_val(s: Seq<char>) -> int
    decreases s.len(),
{
    if s.len() == 0 {
        0
    } else {
        digits_val(s.drop_last()) * 10 + digit_val(s.last())
    }
}

/// Every character is a decimal digit.
pub open spec fn all_digits(s: Seq<char>) -> bool {
    forall|i: int| 0 <= i < s.len() ==> is_digit(#[trigger] s[i])
}

/// The minimal decimal rendering of a non-negative value.
pub open spec fn dec_digits(v: int) -> Seq<char>
    decreases v,
{
    if v < 10 {
        seq![dec_char_of(v)]
    } else {
        dec_digits(v / 10) + seq![dec_char_of(v % 10)]
    }
}

/// Ten to the `k`-th power.
pub open spec fn pow10(k: int) -> int
    decreases k,
{
    if k <= 0 {
        1
    } else {
        10 * pow10(k - 1)
    }
}

/// The minimal rendering consists of digits and reads back as the value.
pub proof fn lemma_dec_digits(v: int)
    requires
        0 <= v,
    ensures
        dec_digits(v).len() >= 1,
        all_digits(dec_digits(v)),
        digits_val(dec_digits(v)) == v,
    decreases v,
{
    if v < 10 {
        crate::text::lemma_dec_char_of(v);
        assert(dec_digits(v)[0] == dec_char_of(v));
        assert(dec_digits(v).last() == dec_char_of(v));
        assert(dec_digits(v).drop_last() =~= Seq::<char>::empty());
        assert(digits_val(dec_digits(v).drop_last()) == 0);
        assert(digits_val(dec_digits(v)) == v);
    } else {
        vstd::arithmetic::div_mod::lemma_fundamental_div_mod(v, 10);
        vstd::arithmetic::div_mod::lemma_div_pos_is_pos(v, 10);
        vstd::arithmetic::div_mod::lemma_div_is_strictly_smaller(v, 10);
        lemma_dec_digits(v / 10);
        crate::text::lemma_dec_char_of(v % 10);
        let d = dec_digits(v);
        assert(d.drop_last() =~= dec_digits(v / 10));
        assert(d.last() == dec_char_of(v % 10));
        assert(digits_val(d) == digits_val(dec_digits(v / 10)) * 10 + digit_val(
            dec_char_of(v % 10),
        ));
        assert(digits_val(dec_digits(v / 10)) == v / 10);
        assert(digit_val(dec_char_of(v % 10)) == v % 10);
        assert((v / 10) * 10 + v % 10 == v);
        assert forall|i: int| 0 <= i < d.len() implies is_digit(#[trigger] d[i]) by {
            if i < d.len() - 1 {
                assert(d[i] == dec_digits(v / 10)[i]);
            }
        }
        assert(digits_val(dec_digits(v)) == v);
    }
}

/// A value below the `k`-th power of ten renders in at most `k` digits.
pub proof fn lemma_dec_digits_len(v: int, k: int)
    requires
        0 <= v < pow10(k),
        1 <= k,
    ensures
        dec_digits(v).len() <= k,
    decreases v,
{
    if v < 10 {
    } else {
        vstd::arithmetic::div_mod::lemma_fundamental_div_mod(v, 10);
        vstd::arithmetic::div_mod::lemma_div_pos_is_pos(v, 10);
        vstd::arithmetic::div_mod::lemma_div_is_strictly_smaller(v, 10);
        assert(pow10(k) == 10 * pow10(k - 1));
        assert(v / 10 < pow10(k - 1)) by {
            if v / 10 >= pow10(k - 1) {
                assert(10 * (v / 10) >= 10 * pow10(k - 1)) by (nonlinear_arith)
                    requires
                        v / 10 >= pow10(k - 1),
                ;
            }
        }
        assert(k - 1 >= 1) by {
            if k == 1 {
                assert(pow10(1) == 10);
            }
        }
        lemma_dec_digits_len(v / 10, k - 1);
    }
}

/// Append the minimal decimal rendering of a value.
pub fn push_dec(out: &mut String, v: u64)
    ensures
        final(out)@ == old(out)@ + dec_digits(v as int),
    decreases v,
{
    if v < 10 {
        let c: char = dec_char(v as u8);
        push_char(out, c);
        proof {
            assert(out@ =~= old(out)@ + dec_digits(v as int));
        }
    } else {
        push_dec(out, v / 10);
        let c: char = dec_char((v % 10) as u8);
        push_char(out, c);
        proof {
            assert(out@ =~= old(out)@ + dec_digits(v as int));
        }
    }
}

/// Read the digits of a range of the text as a value; `None` when some
/// character is not a digit.
pub fn digits_value(cs: &Vec<char>, from: usize, to: usize) -> (r: Option<u64>)
    requires
        from <= to <= cs@.len(),
        to - from <= 19,
    ensures
        r is Some <==> all_digits(cs@.subrange(from as int, to as int)),
        r matches Some(v) ==> v as int == digits_val(cs@.subrange(from as int, to as int)),
{
    let mut acc: u64 = 0;
    let mut i: usize = from;
    proof {
        assert(cs@.subrange(from as int, from as int) =~= Seq::<char>::empty());
        lemma_pow10_19();
    }
    while i < to
        invariant
            from <= i <= to,
            to <= cs@.len(),
            to - from <= 19,
            all_digits(cs@.subrange(from as int, i as int)),
            acc as int == digits_val(cs@.subrange(from as int, i as int)),
            (acc as int) < pow10(i as int - from as int),
            pow10(19) == 10_000_000_000_000_000_000,
        decreases to - i,
    {
        let c: char = cs[i];
        if !is_digit_char(c) {
            proof {
                assert(cs@.subrange(from as int, to as int)[i as int - from as int] == c);
            }
            return None;
        }
        let d: u64 = ((c as u32) - ('0' as u32)) as u64;
        proof {
            let pre = cs@.subrange(from as int, i as int);
            let ext = cs@.subrange(from as int, i as int + 1);
            assert(ext.drop_last() =~= pre);
            assert(ext.last() == c);
            lemma_pow10_monotone(i as int - from as int + 1, 19);
            assert(acc as int * 10 + d < pow10(i as int - from as int + 1)) by (nonlinear_arith)
                requires
                    (acc as int) < pow10(i as int - from as int),
                    d < 10,
                    pow10(i as int - from as int + 1) == 10 * pow10(i as int - from as int),
            ;
        }
        acc = acc * 10 + d;
        i = i + 1;
    }
    proof {
        assert(cs@.subrange(from as int, to as int) =~= cs@.subrange(from as int, i as int));
    }
    Some(acc)
}

/// The nineteenth power of ten, written out.
proof fn lemma_pow10_19()
    ensures
        pow10(19) == 10_000_000_000_000_000_000,
{
    reveal_with_fuel(pow10, 20);
}

/// Powers of ten are positive.
proof fn lemma_pow10_pos(a: int)
    ensures
        pow10(a) >= 1,
    decreases a,
{
    if a > 0 {
        lemma_pow10_pos(a - 1);
        assert(10 * pow10(a - 1) >= pow10(a - 1)) by (nonlinear_arith)
            requires
                pow10(a - 1) >= 1,
        ;
    }
}

/// Powers of ten grow with the exponent.
proof fn lemma_pow10_monotone(a: int, b: int)
    requires
        0 <= a <= b,
    ensures
        pow10(a) <= pow10(b),
        pow10(a) >= 1,
    decreases b - a,
{
    lemma_pow10_pos(a);
    if a < b {
        lemma_pow10_monotone(a, b - 1);
        lemma_pow10_pos(b - 1);
        assert(pow10(b) == 10 * pow10(b - 1));
        assert(10 * pow10(b - 1) >= pow10(b - 1)) by (nonlinear_arith)
            requires
                pow10(b - 1) >= 1,
        ;
    }
}

// ------------------------------------------------------------------------
// Record values.
// ------------------------------------------------------------------------

/// The separator of a `key = value` line.
pub open spec fn kv_sep() -> Seq<char> {
    seq![' ', '=', ' ']
}

/// A `key = value` line.
pub open spec fn kv_line(key: Seq<char>, value: Seq<char>) -> Seq<char> {
    key + kv_sep() + value
}

/// A value wrapped in double quotes.
pub open spec fn quoted(v: Seq<char>) -> Seq<char> {
    seq!['"'] + v + seq!['"']
}

/// The rendered value of an identifier field.
pub open spec fn uid_value_text(u: Uid) -> Seq<char> {
    quoted(uid_canon(u.value))
}

/// The rendered value of a string field.
pub open spec fn str_value_text(s: Seq<char>) -> Seq<char> {
    quoted(escape_text(s))
}

/// Parse a quoted identifier value.
pub open spec fn parse_uid_value(v: Seq<char>) -> Option<Uid> {
    match quoted_inner(v) {
        Some(i) => if uid_text_ok(i) {
            Some(Uid { value: uid_val(i) as u128 })
        } else {
            None
        },
        None => None,
    }
}

/// Parse a quoted string value.
pub open spec fn parse_str_value(v: Seq<char>) -> Option<Seq<char>> {
    match quoted_inner(v) {
        Some(i) => unescape_text(i),
        None => None,
    }
}

/// The identifier of a `key = "<identifier>"` line.
pub open spec fn kv_uid(line: Seq<char>, key: Seq<char>) -> Option<Uid> {
    match kv_value(line, key) {
        Some(v) => parse_uid_value(v),
        None => None,
    }
}

/// The string of a `key = "<string>"` line.
pub open spec fn kv_str(line: Seq<char>, key: Seq<char>) -> Option<Seq<char>> {
    match kv_value(line, key) {
        Some(v) => parse_str_value(v),
        None => None,
    }
}

/// Reading a written `key = value` line gives the value back.
pub proof fn lemma_kv_line(key: Seq<char>, value: Seq<char>)
    ensures
        kv_value(kv_line(key, value), key) == Some(value),
{
    let line = kv_line(key, value);
    assert(line.take(key.len() as int) =~= key);
    assert(line[key.len() as int] == ' ');
    assert(line[key.len() as int + 1] == '=');
    assert(line[key.len() as int + 2] == ' ');
    assert(line.skip(key.len() as int + 3) =~= value);
}

/// Stripping the quotes of a quoted value gives the value back.
pub proof fn lemma_quoted(v: Seq<char>)
    ensures
        quoted_inner(quoted(v)) == Some(v),
{
    let q = quoted(v);
    assert(q[0] == '"');
    assert(q[q.len() - 1] == '"');
    assert(q.subrange(1, q.len() - 1) =~= v);
}

/// Reading a written identifier value gives the identifier back.
pub proof fn lemma_uid_value(u: Uid)
    ensures
        parse_uid_value(uid_value_text(u)) == Some(u),
{
    lemma_quoted(uid_canon(u.value));
    lemma_uid_canon(u.value);
}

/// Reading a written string value gives the string back.
pub proof fn lemma_str_value(s: Seq<char>)
    ensures
        parse_str_value(str_value_text(s)) == Some(s),
{
    lemma_quoted(escape_text(s));
    lemma_unescape_escape(s);
}

// ------------------------------------------------------------------------
// Amounts and ratios as values.
// ------------------------------------------------------------------------

/// The rendered value of an amount: minor units as a decimal number with
/// exactly two fraction digits.
pub open spec fn amount_value_text(m: int) -> Seq<char> {
    (if m < 0 {
        seq!['-']
    } else {
        Seq::<char>::empty()
    }) + dec_digits(mag(m) as int / 100) + seq!['.'] + two_digits(mag(m) as int % 100)
}

/// Parse a decimal amount value into minor units.
pub open spec fn parse_amount_value(v: Seq<char>) -> Option<i64> {
    let neg = v.len() > 0 && v[0] == '-';
    let rest = if neg {
        v.skip(1)
    } else {
        v
    };
    if rest.len() >= 4 && rest.len() <= 17 && all_digits(rest.take(rest.len() - 3)) && rest[rest.len()
        - 3] == '.' && is_digit(rest[rest.len() - 2]) && is_digit(rest[rest.len() - 1]) {
        let units = digits_val(rest.take(rest.len() - 3));
        let cents = digit_val(rest[rest.len() - 2]) * 10 + digit_val(rest[rest.len() - 1]);
        let m = units * 100 + cents;
        if neg {
            Some((-m) as i64)
        } else {
            Some(m as i64)
        }
    } else {
        None
    }
}

/// A digit string denotes a value below ten to its length.
pub proof fn lemma_digits_val_bound(s: Seq<char>)
    requires
        all_digits(s),
    ensures
        0 <= digits_val(s) < pow10(s.len() as int),
    decreases s.len(),
{
    lemma_pow10_pos(s.len() as int);
    if s.len() > 0 {
        assert forall|i: int| 0 <= i < s.drop_last().len() implies is_digit(
            #[trigger] s.drop_last()[i],
        ) by {
            assert(s.drop_last()[i] == s[i]);
        }
        lemma_digits_val_bound(s.drop_last());
        assert(pow10(s.len() as int) == 10 * pow10(s.len() as int - 1));
        assert(digits_val(s.drop_last()) * 10 + 9 < 10 * pow10(s.len() as int - 1))
            by (nonlinear_arith)
            requires
                digits_val(s.drop_last()) < pow10(s.len() as int - 1),
        ;
        assert(digits_val(s.drop_last()) * 10 >= 0) by (nonlinear_arith)
            requires
                digits_val(s.drop_last()) >= 0,
        ;
    }
}

/// Reading a written amount value gives the amount back.
pub proof fn lemma_amount_value(m: i64)
    requires
        -10_000_000_000_000_000 < m < 10_000_000_000_000_000,
    ensures
        parse_amount_value(amount_value_text(m as int)) == Some(m),
{
    let a = mag(m as int) as int;
    vstd::arithmetic::div_mod::lemma_fundamental_div_mod(a, 100);
    vstd::arithmetic::div_mod::lemma_div_pos_is_pos(a, 100);
    let units = a / 100;
    let cents = a % 100;
    assert(units < 100_000_000_000_000) by {
        if units >= 100_000_000_000_000 {
            assert(100 * units >= 10_000_000_000_000_000) by (nonlinear_arith)
                requires
                    units >= 100_000_000_000_000,
            ;
        }
    }
    lemma_dec_digits(units);
    assert(pow10(14) == 100_000_000_000_000) by {
        reveal_with_fuel(pow10, 15);
    }
    lemma_dec_digits_len(units, 14);
    let dd = dec_digits(units);
    lemma_split10(cents);
    lemma_dec_char_of(cents / 10);
    lemma_dec_char_of(cents % 10);
    let v = amount_value_text(m as int);
    let rest = if m < 0 {
        v.skip(1)
    } else {
        v
    };
    assert(rest =~= dd + seq!['.'] + two_digits(cents));
    assert(rest.len() == dd.len() + 3);
    assert(rest.take(rest.len() - 3) =~= dd);
    assert(rest[rest.len() - 3] == '.');
    assert(rest[rest.len() - 2] == dec_char_of(cents / 10));
    assert(rest[rest.len() - 1] == dec_char_of(cents % 10));
    if m < 0 {
        assert(v[0] == '-');
        assert(v.len() > 0);
    } else {
        assert(v =~= rest);
        if v.len() > 0 {
            assert(v[0] == dd[0]);
            assert(is_digit(dd[0]));
        }
    }
}

/// The index of the first slash.
pub open spec fn first_slash(s: Seq<char>) -> int
    decreases s.len(),
{
    if s.len() == 0 || s[0] == '/' {
        0
    } else {
        1 + first_slash(s.drop_first())
    }
}

/// A run of exactly `k` non-slash characters followed by a slash puts the
/// first slash at `k`.
proof fn lemma_first_slash_exact(s: Seq<char>, k: int)
    requires
        0 <= k <= s.len(),
        forall|j: int| 0 <= j < k ==> #[trigger] s[j] != '/',
        k < s.len() ==> s[k] == '/',
    ensures
        first_slash(s) == k,
    decreases k,
{
    if k > 0 {
        let t = s.drop_first();
        assert forall|j: int| 0 <= j < k - 1 implies #[trigger] t[j] != '/' by {
            assert(t[j] == s[j + 1]);
        }
        if k - 1 < t.len() {
            assert(t[k - 1] == s[k]);
        }
        lemma_first_slash_exact(t, k - 1);
    }
}

/// The rendered value of an exact fraction: `"numerator/denominator"`.
pub open spec fn ratio_value_text(r: Rat) -> Seq<char> {
    quoted(
        (if r.num < 0 {
            seq!['-']
        } else {
            Seq::<char>::empty()
        }) + dec_digits(mag(r.num as int) as int) + seq!['/'] + dec_digits(r.den as int),
    )
}

/// Parse the inside of a fraction value.
pub open spec fn parse_ratio_inner(s: Seq<char>) -> Option<Rat> {
    let neg = s.len() > 0 && s[0] == '-';
    let body = if neg {
        s.skip(1)
    } else {
        s
    };
    let k = first_slash(body);
    if 1 <= k && k <= 19 && k < body.len() && body.len() - k - 1 >= 1 && body.len() - k - 1 <= 19
        && all_digits(body.take(k)) && all_digits(body.skip(k + 1)) {
        let p = digits_val(body.take(k));
        let q = digits_val(body.skip(k + 1));
        if p <= i64::MAX && 1 <= q <= i64::MAX {
            Some(
                Rat {
                    num: if neg {
                        (-p) as i64
                    } else {
                        p as i64
                    },
                    den: q as i64,
                },
            )
        } else {
            None
        }
    } else {
        None
    }
}

/// Parse a quoted fraction value.
pub open spec fn parse_ratio_value(v: Seq<char>) -> Option<Rat> {
    match quoted_inner(v) {
        Some(i) => parse_ratio_inner(i),
        None => None,
    }
}

/// A fraction the record format can carry: a positive denominator and a
/// numerator above the smallest machine integer.
pub open spec fn ratio_rec_wf(r: Rat) -> bool {
    r.den >= 1 && r.num > i64::MIN
}

/// Reading a written fraction value gives the fraction back.
#[verifier::spinoff_prover]
pub proof fn lemma_ratio_value(r: Rat)
    requires
        ratio_rec_wf(r),
    ensures
        parse_ratio_value(ratio_value_text(r)) == Some(r),
{
    let inner = (if r.num < 0 {
        seq!['-']
    } else {
        Seq::<char>::empty()
    }) + dec_digits(mag(r.num as int) as int) + seq!['/'] + dec_digits(r.den as int);
    lemma_quoted(inner);
    lemma_ratio_inner(r);
}

/// Reading the inside of a written fraction value gives the fraction back.
#[verifier::rlimit(100)]
#[verifier::spinoff_prover]
proof fn lemma_ratio_inner(r: Rat)
    requires
        ratio_rec_wf(r),
    ensures
        parse_ratio_inner(
            (if r.num < 0 {
                seq!['-']
            } else {
                Seq::<char>::empty()
            }) + dec_digits(mag(r.num as int) as int) + seq!['/'] + dec_digits(r.den as int),
        ) == Some(r),
{
    let p = mag(r.num as int) as int;
    let q = r.den as int;
    lemma_dec_digits(p);
    lemma_dec_digits(q);
    lemma_pow10_19();
    lemma_dec_digits_len(p, 19);
    lemma_dec_digits_len(q, 19);
    let dp = dec_digits(p);
    let dq = dec_digits(q);
    let inner = (if r.num < 0 {
        seq!['-']
    } else {
        Seq::<char>::empty()
    }) + dp + seq!['/'] + dq;
    let body = if r.num < 0 {
        inner.skip(1)
    } else {
        inner
    };
    assert(body =~= dp + seq!['/'] + dq);
    if r.num < 0 {
        assert(inner[0] == '-');
    } else {
        assert(inner =~= body);
        assert(inner.len() > 0);
        assert(inner[0] == dp[0]);
        assert(is_digit(dp[0]));
        assert(dp[0] != '-');
    }
    assert forall|j: int| 0 <= j < dp.len() implies #[trigger] body[j] != '/' by {
        assert(body[j] == dp[j]);
        assert(is_digit(dp[j]));
    }
    assert(body[dp.len() as int] == '/');
    lemma_first_slash_exact(body, dp.len() as int);
    assert(body.take(dp.len() as int) =~= dp);
    assert(body.skip(dp.len() as int + 1) =~= dq);
    lemma_digits_val_bound(dq);
    assert(parse_ratio_inner(inner) == Some(r));
}

// ------------------------------------------------------------------------
// Records: group, ledger, transaction.
// ------------------------------------------------------------------------

/// The three lines of one entity block.
pub open spec fn entity_lines(e: EntityV) -> Seq<Seq<char>> {
    seq![
        "[[entities]]"@,
        kv_line("id"@, uid_value_text(e.id)),
        kv_line("display_name"@, str_value_text(e.display_name)),
    ]
}

/// The lines of a group record: one block per entity.
pub open spec fn group_lines(es: Seq<EntityV>) -> Seq<Seq<char>>
    decreases es.len(),
{
    if es.len() == 0 {
        Seq::empty()
    } else {
        entity_lines(es[0]) + group_lines(es.drop_first())
    }
}

/// The text of a group record.
pub open spec fn group_text(g: GroupV) -> Seq<char> {
    join_lines(group_lines(g.entities))
}

/// Parse the lines of a group record.
pub open spec fn parse_group_lines(ls: Seq<Seq<char>>) -> Option<Seq<EntityV>>
    decreases ls.len(),
{
    if ls.len() == 0 {
        Some(Seq::empty())
    } else if ls.len() >= 3 && ls[0] == "[[entities]]"@ {
        match kv_uid(ls[1], "id"@) {
            Some(id) => match kv_str(ls[2], "display_name"@) {
                Some(name) => match parse_group_lines(ls.skip(3)) {
                    Some(rest) => Some(seq![EntityV { id, display_name: name }] + rest),
                    None => None,
                },
                None => None,
            },
            None => None,
        }
    } else {
        None
    }
}

/// The items of an identifier array value.
pub open spec fn uid_items_text(ids: Seq<Uid>) -> Seq<char>
    decreases ids.len(),
{
    if ids.len() == 0 {
        Seq::empty()
    } else if ids.len() == 1 {
        uid_value_text(ids[0])
    } else {
        uid_value_text(ids[0]) + seq![',', ' '] + uid_items_text(ids.drop_first())
    }
}

/// An identifier array value: the items between square brackets.
pub open spec fn uid_array_text(ids: Seq<Uid>) -> Seq<char> {
    seq!['['] + uid_items_text(ids) + seq![']']
}

/// Parse the items of an identifier array.
pub open spec fn parse_uid_items(v: Seq<char>) -> Option<Seq<Uid>>
    decreases v.len(),
{
    if v.len() == 0 {
        Some(Seq::empty())
    } else if v.len() >= 38 && v[0] == '"' && v[37] == '"' && uid_text_ok(v.subrange(1, 37)) {
        let u = Uid { value: uid_val(v.subrange(1, 37)) as u128 };
        if v.len() == 38 {
            Some(seq![u])
        } else if v.len() >= 40 && v[38] == ',' && v[39] == ' ' {
            match parse_uid_items(v.skip(40)) {
                Some(r) => Some(seq![u] + r),
                None => None,
            }
        } else {
            None
        }
    } else {
        None
    }
}

/// Parse an identifier array value.
pub open spec fn parse_uid_array(v: Seq<char>) -> Option<Seq<Uid>> {
    if v.len() >= 2 && v[0] == '[' && v[v.len() - 1] == ']' {
        parse_uid_items(v.subrange(1, v.len() - 1))
    } else {
        None
    }
}

/// The three lines of a ledger record.
pub open spec fn ledger_lines(l: LedgerV) -> Seq<Seq<char>> {
    seq![
        kv_line("id"@, uid_value_text(Uid { value: l.id.value })),
        kv_line("display_name"@, str_value_text(l.display_name)),
        kv_line("participants"@, uid_array_text(l.participants)),
    ]
}

/// The text of a ledger record.
pub open spec fn ledger_text(l: LedgerV) -> Seq<char> {
    join_lines(ledger_lines(l))
}

/// Parse the lines of a ledger record.
pub open spec fn parse_ledger_lines(ls: Seq<Seq<char>>) -> Option<LedgerV> {
    if ls.len() == 3 {
        match kv_uid(ls[0], "id"@) {
            Some(id) => match kv_str(ls[1], "display_name"@) {
                Some(name) => match kv_value(ls[2], "participants"@) {
                    Some(v) => match parse_uid_array(v) {
                        Some(ps) => Some(LedgerV { id, display_name: name, participants: ps }),
                        None => None,
                    },
                    None => None,
                },
                None => None,
            },
            None => None,
        }
    } else {
        None
    }
}

/// The three lines of one split block.
pub open spec fn one_split_lines(s: Split) -> Seq<Seq<char>> {
    seq![
        "[[split_ratios]]"@,
        kv_line("entity_id"@, uid_value_text(s.entity_id)),
        kv_line("ratio"@, ratio_value_text(s.ratio)),
    ]
}

/// The lines of all split blocks.
pub open spec fn splits_lines(ss: Seq<Split>) -> Seq<Seq<char>>
    decreases ss.len(),
{
    if ss.len() == 0 {
        Seq::empty()
    } else {
        one_split_lines(ss[0]) + splits_lines(ss.drop_first())
    }
}

/// Parse the lines of the split blocks.
pub open spec fn parse_splits_lines(ls: Seq<Seq<char>>) -> Option<Seq<Split>>
    decreases ls.len(),
{
    if ls.len() == 0 {
        Some(Seq::empty())
    } else if ls.len() >= 3 && ls[0] == "[[split_ratios]]"@ {
        match kv_uid(ls[1], "entity_id"@) {
            Some(id) => match kv_value(ls[2], "ratio"@) {
                Some(v) => match parse_ratio_value(v) {
                    Some(rr) => match parse_splits_lines(ls.skip(3)) {
                        Some(rest) => Some(seq![Split { entity_id: id, ratio: rr }] + rest),
                        None => None,
                    },
                    None => None,
                },
                None => None,
            },
            None => None,
        }
    } else {
        None
    }
}

/// The lines of a transaction record: six fields, then the split blocks.
pub open spec fn txn_lines(t: TransactionV) -> Seq<Seq<char>> {
    seq![
        kv_line("id"@, uid_value_text(t.id)),
        kv_line("description"@, str_value_text(t.description)),
        kv_line("paid_by_entity"@, uid_value_text(t.paid_by_entity)),
        kv_line("currency_iso_4217"@, str_value_text(t.currency_iso_4217)),
        kv_line("amount"@, amount_value_text(t.amount.minor as int)),
        kv_line("transaction_datetime_rfc_3339"@, ts_text(t.transaction_datetime_rfc_3339)),
    ] + splits_lines(t.split_ratios)
}

/// The text of a transaction record.
pub open spec fn txn_text(t: TransactionV) -> Seq<char> {
    join_lines(txn_lines(t))
}

/// Parse the lines of a transaction record.
pub open spec fn parse_txn_lines(ls: Seq<Seq<char>>) -> Option<TransactionV> {
    if ls.len() >= 6 {
        match kv_uid(ls[0], "id"@) {
            Some(id) => match kv_str(ls[1], "description"@) {
                Some(desc) => match kv_uid(ls[2], "paid_by_entity"@) {
                    Some(payer) => match kv_str(ls[3], "currency_iso_4217"@) {
                        Some(cur) => match kv_value(ls[4], "amount"@) {
                            Some(av) => match parse_amount_value(av) {
                                Some(minor) => match kv_value(
                                    ls[5],
                                    "transaction_datetime_rfc_3339"@,
                                ) {
                                    Some(tv) => match ts_parse(tv) {
                                        Some(ts) => match parse_splits_lines(ls.skip(6)) {
                                            Some(ss) => Some(
                                                TransactionV {
                                                    id,
                                                    description: desc,
                                                    paid_by_entity: payer,
                                                    currency_iso_4217: cur,
                                                    amount: Amount { minor },
                                                    transaction_datetime_rfc_3339: ts,
                                                    split_ratios: ss,
                                                },
                                            ),
                                            None => None,
                                        },
                                        None => None,
                                    },
                                    None => None,
                                },
                                None => None,
                            },
                            None => None,
                        },
                        None => None,
                    },
                    None => None,
                },
                None => None,
            },
            None => None,
        }
    } else {
        None
    }
}

/// A transaction the record format can carry: strings are unrestricted
/// (escaping covers them); the amount, ratios and timestamp must fit the
/// format's numerals and calendar.
pub open spec fn txn_rec_wf(t: TransactionV) -> bool {
    &&& -10_000_000_000_000_000 < t.amount.minor < 10_000_000_000_000_000
    &&& t.transaction_datetime_rfc_3339.wf()
    &&& forall|i: int| 0 <= i < t.split_ratios.len() ==> ratio_rec_wf((#[trigger] t.split_ratios[i]).ratio)
}

// ------------------------------------------------------------------------
// Round trips: rendering then parsing gives the record back.
// ------------------------------------------------------------------------

/// Well-formed texts stay well formed under concatenation.
proof fn lemma_wf_concat(a: Seq<char>, b: Seq<char>)
    requires
        wf_text(a),
        wf_text(b),
    ensures
        wf_text(a + b),
{
    assert forall|i: int| 0 <= i < (a + b).len() implies #[trigger] (a + b)[i] != '\n' && (a
        + b)[i] != '\r' by {
        if i < a.len() {
            assert((a + b)[i] == a[i]);
        } else {
            assert((a + b)[i] == b[i - a.len()]);
        }
    }
}

/// A canonical identifier rendering holds no line break.
proof fn lemma_uid_canon_wf(v: u128)
    ensures
        wf_text(uid_canon(v)),
{
    lemma_uid_canon(v);
    assert forall|i: int| 0 <= i < uid_canon(v).len() implies #[trigger] uid_canon(v)[i] != '\n'
        && uid_canon(v)[i] != '\r' by {
        if i == 8 || i == 13 || i == 18 || i == 23 {
        } else {
            assert(crate::text::is_hex_digit(uid_canon(v)[i]));
        }
    }
}

/// A quoted value of well-formed text holds no line break.
proof fn lemma_quoted_wf(v: Seq<char>)
    requires
        wf_text(v),
    ensures
        wf_text(quoted(v)),
{
    lemma_wf_concat(seq!['"'], v);
    lemma_wf_concat(seq!['"'] + v, seq!['"']);
    assert(quoted(v) =~= (seq!['"'] + v) + seq!['"']);
}

/// A digit string holds no line break.
proof fn lemma_digits_wf(s: Seq<char>)
    requires
        all_digits(s),
    ensures
        wf_text(s),
{
    assert forall|i: int| 0 <= i < s.len() implies #[trigger] s[i] != '\n' && s[i] != '\r' by {
        assert(is_digit(s[i]));
    }
}

/// A timestamp rendering holds no line break.
proof fn lemma_ts_text_wf(t: TimestampV)
    ensures
        wf_text(ts_text(t)),
{
    let s = ts_text(t);
    assert forall|i: int| 0 <= i < s.len() implies #[trigger] s[i] != '\n' && s[i] != '\r' by {
        lemma_ts_char_classes(t, i);
    }
}

/// Every character of a timestamp rendering is a digit or one of the
/// separators.
proof fn lemma_ts_char_classes(t: TimestampV, i: int)
    requires
        0 <= i < ts_text(t).len(),
    ensures
        ts_text(t)[i] != '\n' && ts_text(t)[i] != '\r',
{
    let s = ts_text(t);
    let pre = crate::datetime::ts_prefix_text(t);
    let fracpart: Seq<char> = if t.frac.len() == 0 {
        Seq::<char>::empty()
    } else {
        seq!['.'] + crate::datetime::frac_text(t.frac)
    };
    let off = crate::datetime::offset_text(t.offset);
    assert(s =~= pre + fracpart + off);
    if i < pre.len() {
        assert(s[i] == pre[i]);
        lemma_two_digit_chars_wf();
        assert(pre.len() == 19);
        lemma_prefix_text_char(t, i);
    } else if i < pre.len() + fracpart.len() {
        assert(s[i] == fracpart[i - pre.len()]);
        if i - pre.len() > 0 {
            lemma_frac_text_len(t.frac);
            assert(fracpart[i - pre.len()] == crate::datetime::frac_text(t.frac)[i - pre.len()
                - 1]);
            lemma_frac_text_digits(t.frac, i - pre.len() - 1);
        }
    } else {
        assert(s[i] == off[i - pre.len() - fracpart.len()]);
        lemma_offset_text_char(t.offset, i - pre.len() - fracpart.len());
    }
}

/// Rendered decimal digits are never line breaks.
proof fn lemma_two_digit_chars_wf()
    ensures
        forall|v: int| 0 <= v <= 9 ==> #[trigger] dec_char_of(v) != '\n' && dec_char_of(v) != '\r',
{
}

/// Each character of the date-and-time prefix is a digit or a separator.
proof fn lemma_prefix_text_char(t: TimestampV, i: int)
    requires
        0 <= i < 19,
    ensures
        crate::datetime::ts_prefix_text(t)[i] != '\n' && crate::datetime::ts_prefix_text(t)[i]
            != '\r',
{
    let pre = crate::datetime::ts_prefix_text(t);
    lemma_two_digit_chars_wf();
    lemma_split10_any(t.year as int / 100);
    lemma_split10_any(t.year as int % 100);
    lemma_split10_any(t.month as int);
    lemma_split10_any(t.day as int);
    lemma_split10_any(t.hour as int);
    lemma_split10_any(t.minute as int);
    lemma_split10_any(t.second as int);
}

/// Both rendered digits of any value are digit characters.
proof fn lemma_split10_any(v: int)
    ensures
        dec_char_of(v / 10) != '\n' && dec_char_of(v / 10) != '\r',
        dec_char_of(v % 10) != '\n' && dec_char_of(v % 10) != '\r',
{
}

/// The rendered fraction has one character per digit.
proof fn lemma_frac_text_len(f: Seq<u8>)
    ensures
        crate::datetime::frac_text(f).len() == f.len(),
    decreases f.len(),
{
    if f.len() > 0 {
        lemma_frac_text_len(f.drop_last());
    }
}

/// Each rendered fraction digit is a digit character.
proof fn lemma_frac_text_digits(f: Seq<u8>, k: int)
    requires
        0 <= k < f.len(),
    ensures
        crate::datetime::frac_text(f)[k] != '\n' && crate::datetime::frac_text(f)[k] != '\r',
    decreases f.len(),
{
    let ft = crate::datetime::frac_text(f);
    lemma_frac_text_len(f);
    if k == f.len() - 1 {
        assert(ft.last() == dec_char_of(f.last() as int));
    } else {
        lemma_frac_text_len(f.drop_last());
        assert(ft[k] == crate::datetime::frac_text(f.drop_last())[k]);
        lemma_frac_text_digits(f.drop_last(), k);
    }
}

/// Each character of a rendered offset is a digit or a separator.
proof fn lemma_offset_text_char(o: crate::datetime::UtcOffset, k: int)
    requires
        0 <= k < crate::datetime::offset_text(o).len(),
    ensures
        crate::datetime::offset_text(o)[k] != '\n' && crate::datetime::offset_text(o)[k] != '\r',
{
    lemma_two_digit_chars_wf();
    match o {
        crate::datetime::UtcOffset::Z => {
        },
        crate::datetime::UtcOffset::Plus { hours, minutes } => {
            lemma_split10_any(hours as int);
            lemma_split10_any(minutes as int);
        },
        crate::datetime::UtcOffset::Minus { hours, minutes } => {
            lemma_split10_any(hours as int);
            lemma_split10_any(minutes as int);
        },
    }
}

/// The entity block header, as characters.
proof fn lemma_entities_header()
    ensures
        "[[entities]]"@.len() == 12,
        wf_text("[[entities]]"@),
{
    reveal_strlit("[[entities]]");
}

/// The split block header, as characters.
proof fn lemma_splits_header()
    ensures
        "[[split_ratios]]"@.len() == 16,
        wf_text("[[split_ratios]]"@),
{
    reveal_strlit("[[split_ratios]]");
}

/// A `key = value` line of a well-formed key and value holds no line break.
proof fn lemma_kv_line_wf(key: Seq<char>, value: Seq<char>)
    requires
        wf_text(key),
        wf_text(value),
    ensures
        wf_text(kv_line(key, value)),
{
    assert(wf_text(kv_sep()));
    lemma_wf_concat(key, kv_sep());
    lemma_wf_concat(key + kv_sep(), value);
    assert(kv_line(key, value) =~= (key + kv_sep()) + value);
}

/// An identifier value line holds no line break.
proof fn lemma_uid_line_wf(key: Seq<char>, u: Uid)
    requires
        wf_text(key),
    ensures
        wf_text(kv_line(key, uid_value_text(u))),
{
    lemma_uid_canon_wf(u.value);
    lemma_quoted_wf(uid_canon(u.value));
    lemma_kv_line_wf(key, uid_value_text(u));
}

/// A string value line holds no line break, whatever the string holds.
proof fn lemma_str_line_wf(key: Seq<char>, v: Seq<char>)
    requires
        wf_text(key),
    ensures
        wf_text(kv_line(key, str_value_text(v))),
{
    lemma_escape_wf(v);
    lemma_quoted_wf(escape_text(v));
    lemma_kv_line_wf(key, str_value_text(v));
}

/// Group lines hold no line break, and parsing them gives the entities
/// back.
proof fn lemma_group_lines(es: Seq<EntityV>)
    ensures
        lines_wf(group_lines(es)),
        parse_group_lines(group_lines(es)) == Some(es),
    decreases es.len(),
{
    if es.len() == 0 {
        assert(lines_wf(group_lines(es)));
    } else {
        let e0 = es[0];
        let rest = es.drop_first();
        lemma_group_lines(rest);
        let ls = group_lines(es);
        let head = entity_lines(e0);
        let tail = group_lines(rest);
        assert(ls =~= head + tail);
        lemma_entities_header();
        reveal_strlit("id");
        reveal_strlit("display_name");
        assert(wf_text("id"@));
        assert(wf_text("display_name"@));
        lemma_uid_line_wf("id"@, e0.id);
        lemma_str_line_wf("display_name"@, e0.display_name);
        assert forall|i: int, j: int|
            0 <= i < ls.len() && 0 <= j < ls[i].len() implies #[trigger] ls[i][j] != '\n' by {
            if i < 3 {
                assert(ls[i] == head[i]);
            } else {
                assert(ls[i] == tail[i - 3]);
                assert(lines_wf(tail));
            }
        }
        // Parsing.
        assert(ls[0] == "[[entities]]"@);
        assert(ls[1] == kv_line("id"@, uid_value_text(e0.id)));
        assert(ls[2] == kv_line("display_name"@, str_value_text(e0.display_name)));
        lemma_kv_line("id"@, uid_value_text(e0.id));
        lemma_uid_value(e0.id);
        lemma_kv_line("display_name"@, str_value_text(e0.display_name));
        lemma_str_value(e0.display_name);
        assert(ls.skip(3) =~= tail);
        assert(parse_group_lines(ls) == Some(seq![EntityV { id: e0.id, display_name: e0.display_name }] + rest));
        assert(seq![EntityV { id: e0.id, display_name: e0.display_name }] + rest =~= es);
    }
}

/// Rendering a group record and reading the text back gives the group's
/// entities unchanged, exact identifiers and names included.
pub proof fn lemma_group_round_trip(g: GroupV)
    ensures
        parse_group_lines(split_lines(group_text(g))) == Some(g.entities),
{
    lemma_group_lines(g.entities);
    lemma_split_join(group_lines(g.entities));
}

/// Identifier array items read back as the identifiers.
proof fn lemma_uid_items(ids: Seq<Uid>)
    ensures
        parse_uid_items(uid_items_text(ids)) == Some(ids),
        ids.len() > 0 ==> uid_items_text(ids).len() >= 38,
        wf_text(uid_items_text(ids)),
    decreases ids.len(),
{
    if ids.len() == 0 {
        assert(uid_items_text(ids) =~= Seq::<char>::empty());
    } else {
        let u0 = ids[0];
        let q = uid_value_text(u0);
        lemma_uid_canon(u0.value);
        lemma_uid_canon_wf(u0.value);
        lemma_quoted_wf(uid_canon(u0.value));
        assert(q.len() == 38);
        if ids.len() == 1 {
            let v = uid_items_text(ids);
            assert(v == q);
            assert(v[0] == '"');
            assert(v[37] == quoted(uid_canon(u0.value))[37]);
            assert(v[37] == '"');
            assert(v.subrange(1, 37) =~= uid_canon(u0.value));
            assert(parse_uid_items(v) == Some(seq![Uid { value: u0.value }]));
            assert(seq![Uid { value: u0.value }] =~= ids);
        } else {
            let rest = ids.drop_first();
            lemma_uid_items(rest);
            let v = uid_items_text(ids);
            assert(v =~= (q + seq![',', ' ']) + uid_items_text(rest));
            assert forall|j: int| 0 <= j < 38 implies #[trigger] v[j] == q[j] by {}
            assert(v[0] == '"');
            assert(v[37] == '"');
            assert(v.subrange(1, 37) =~= uid_canon(u0.value));
            assert(v.len() == 40 + uid_items_text(rest).len());
            assert(v[38] == ',');
            assert(v[39] == ' ');
            assert(v.skip(40) =~= uid_items_text(rest));
            assert(parse_uid_items(v) == Some(seq![Uid { value: u0.value }] + rest));
            assert(seq![Uid { value: u0.value }] + rest =~= ids);
            lemma_wf_concat(q, seq![',', ' ']);
            lemma_wf_concat(q + seq![',', ' '], uid_items_text(rest));
        }
    }
}

/// Ledger lines hold no line break, and parsing them gives the ledger
/// back.
proof fn lemma_ledger_lines(l: LedgerV)
    ensures
        lines_wf(ledger_lines(l)),
        parse_ledger_lines(ledger_lines(l)) == Some(l),
{
    let ls = ledger_lines(l);
    reveal_strlit("id");
    reveal_strlit("display_name");
    reveal_strlit("participants");
    assert(wf_text("id"@));
    assert(wf_text("display_name"@));
    assert(wf_text("participants"@));
    lemma_uid_line_wf("id"@, Uid { value: l.id.value });
    lemma_str_line_wf("display_name"@, l.display_name);
    lemma_uid_items(l.participants);
    lemma_wf_concat(seq!['['], uid_items_text(l.participants));
    lemma_wf_concat(seq!['['] + uid_items_text(l.participants), seq![']']);
    assert(uid_array_text(l.participants) =~= (seq!['['] + uid_items_text(l.participants))
        + seq![']']);
    assert(wf_text(uid_array_text(l.participants)));
    lemma_kv_line_wf("participants"@, uid_array_text(l.participants));
    assert forall|i: int, j: int|
        0 <= i < ls.len() && 0 <= j < ls[i].len() implies #[trigger] ls[i][j] != '\n' by {
        assert(wf_text(ls[i]));
    }
    // Parsing.
    lemma_kv_line("id"@, uid_value_text(Uid { value: l.id.value }));
    lemma_uid_value(Uid { value: l.id.value });
    lemma_kv_line("display_name"@, str_value_text(l.display_name));
    lemma_str_value(l.display_name);
    lemma_kv_line("participants"@, uid_array_text(l.participants));
    let av = uid_array_text(l.participants);
    assert(av[0] == '[');
    assert(av[av.len() - 1] == ']');
    assert(av.subrange(1, av.len() - 1) =~= uid_items_text(l.participants));
    assert(parse_ledger_lines(ls) == Some(
        LedgerV {
            id: Uid { value: l.id.value },
            display_name: l.display_name,
            participants: l.participants,
        },
    ));
    assert(Uid { value: l.id.value } == l.id);
}

/// Rendering a ledger record and reading the text back gives the ledger
/// unchanged, participants in order.
pub proof fn lemma_ledger_round_trip(l: LedgerV)
    ensures
        parse_ledger_lines(split_lines(ledger_text(l))) == Some(l),
{
    lemma_ledger_lines(l);
    lemma_split_join(ledger_lines(l));
}

/// Split block lines hold no line break, and parsing them gives the splits
/// back.
proof fn lemma_splits_lines(ss: Seq<Split>)
    requires
        forall|i: int| 0 <= i < ss.len() ==> ratio_rec_wf((#[trigger] ss[i]).ratio),
    ensures
        lines_wf(splits_lines(ss)),
        parse_splits_lines(splits_lines(ss)) == Some(ss),
    decreases ss.len(),
{
    if ss.len() == 0 {
        assert(lines_wf(splits_lines(ss)));
    } else {
        let s0 = ss[0];
        let rest = ss.drop_first();
        assert forall|i: int| 0 <= i < rest.len() implies ratio_rec_wf(
            (#[trigger] rest[i]).ratio,
        ) by {
            assert(rest[i] == ss[i + 1]);
        }
        lemma_splits_lines(rest);
        let ls = splits_lines(ss);
        let head = one_split_lines(s0);
        let tail = splits_lines(rest);
        assert(ls =~= head + tail);
        lemma_splits_header();
        reveal_strlit("entity_id");
        reveal_strlit("ratio");
        assert(wf_text("entity_id"@));
        assert(wf_text("ratio"@));
        lemma_uid_line_wf("entity_id"@, s0.entity_id);
        // The ratio value: a sign, digits, a slash, digits, quoted.
        lemma_dec_digits(mag(s0.ratio.num as int) as int);
        lemma_dec_digits(s0.ratio.den as int);
        lemma_digits_wf(dec_digits(mag(s0.ratio.num as int) as int));
        lemma_digits_wf(dec_digits(s0.ratio.den as int));
        let sign: Seq<char> = if s0.ratio.num < 0 {
            seq!['-']
        } else {
            Seq::<char>::empty()
        };
        let inner = sign + dec_digits(mag(s0.ratio.num as int) as int) + seq!['/'] + dec_digits(
            s0.ratio.den as int,
        );
        assert(wf_text(sign));
        lemma_wf_concat(sign, dec_digits(mag(s0.ratio.num as int) as int));
        lemma_wf_concat(sign + dec_digits(mag(s0.ratio.num as int) as int), seq!['/']);
        lemma_wf_concat(
            sign + dec_digits(mag(s0.ratio.num as int) as int) + seq!['/'],
            dec_digits(s0.ratio.den as int),
        );
        assert(inner =~= ((sign + dec_digits(mag(s0.ratio.num as int) as int)) + seq!['/'])
            + dec_digits(s0.ratio.den as int));
        assert(wf_text(inner));
        lemma_quoted_wf(inner);
        assert(ratio_value_text(s0.ratio) == quoted(inner));
        lemma_kv_line_wf("ratio"@, ratio_value_text(s0.ratio));
        assert forall|i: int, j: int|
            0 <= i < ls.len() && 0 <= j < ls[i].len() implies #[trigger] ls[i][j] != '\n' by {
            if i < 3 {
                assert(ls[i] == head[i]);
                assert(wf_text(head[i]));
            } else {
                assert(ls[i] == tail[i - 3]);
                assert(lines_wf(tail));
            }
        }
        // Parsing.
        assert(ls[0] == "[[split_ratios]]"@);
        assert(ls[1] == kv_line("entity_id"@, uid_value_text(s0.entity_id)));
        assert(ls[2] == kv_line("ratio"@, ratio_value_text(s0.ratio)));
        lemma_kv_line("entity_id"@, uid_value_text(s0.entity_id));
        lemma_uid_value(s0.entity_id);
        lemma_kv_line("ratio"@, ratio_value_text(s0.ratio));
        lemma_ratio_value(s0.ratio);
        assert(ls.skip(3) =~= tail);
        assert(parse_splits_lines(ls) == Some(seq![Split { entity_id: s0.entity_id, ratio: s0.ratio }] + rest));
        assert(seq![Split { entity_id: s0.entity_id, ratio: s0.ratio }] + rest =~= ss);
    }
}

/// Transaction lines hold no line break, and parsing them gives the
/// transaction back.
#[verifier::rlimit(100)]
proof fn lemma_txn_lines(t: TransactionV)
    requires
        txn_rec_wf(t),
    ensures
        lines_wf(txn_lines(t)),
        parse_txn_lines(txn_lines(t)) == Some(t),
{
    let ls = txn_lines(t);
    let head = seq![
        kv_line("id"@, uid_value_text(t.id)),
        kv_line("description"@, str_value_text(t.description)),
        kv_line("paid_by_entity"@, uid_value_text(t.paid_by_entity)),
        kv_line("currency_iso_4217"@, str_value_text(t.currency_iso_4217)),
        kv_line("amount"@, amount_value_text(t.amount.minor as int)),
        kv_line("transaction_datetime_rfc_3339"@, ts_text(t.transaction_datetime_rfc_3339)),
    ];
    let tail = splits_lines(t.split_ratios);
    assert(ls =~= head + tail);
    reveal_strlit("id");
    reveal_strlit("description");
    reveal_strlit("paid_by_entity");
    reveal_strlit("currency_iso_4217");
    reveal_strlit("amount");
    reveal_strlit("transaction_datetime_rfc_3339");
    assert(wf_text("id"@));
    assert(wf_text("description"@));
    assert(wf_text("paid_by_entity"@));
    assert(wf_text("currency_iso_4217"@));
    assert(wf_text("amount"@));
    assert(wf_text("transaction_datetime_rfc_3339"@));
    lemma_uid_line_wf("id"@, t.id);
    lemma_str_line_wf("description"@, t.description);
    lemma_uid_line_wf("paid_by_entity"@, t.paid_by_entity);
    lemma_str_line_wf("currency_iso_4217"@, t.currency_iso_4217);
    // The amount value holds digits, a sign and a point.
    let m = t.amount.minor as int;
    lemma_dec_digits(mag(m) as int / 100);
    lemma_digits_wf(dec_digits(mag(m) as int / 100));
    lemma_split10_any(mag(m) as int % 100 / 10);
    let sign: Seq<char> = if m < 0 {
        seq!['-']
    } else {
        Seq::<char>::empty()
    };
    assert(wf_text(sign));
    assert(wf_text(two_digits(mag(m) as int % 100))) by {
        lemma_split10_any(mag(m) as int % 100);
    }
    lemma_wf_concat(sign, dec_digits(mag(m) as int / 100));
    lemma_wf_concat(sign + dec_digits(mag(m) as int / 100), seq!['.']);
    lemma_wf_concat(
        sign + dec_digits(mag(m) as int / 100) + seq!['.'],
        two_digits(mag(m) as int % 100),
    );
    assert(amount_value_text(m) =~= ((sign + dec_digits(mag(m) as int / 100)) + seq!['.'])
        + two_digits(mag(m) as int % 100));
    assert(wf_text(amount_value_text(m)));
    lemma_kv_line_wf("amount"@, amount_value_text(m));
    lemma_ts_text_wf(t.transaction_datetime_rfc_3339);
    lemma_kv_line_wf(
        "transaction_datetime_rfc_3339"@,
        ts_text(t.transaction_datetime_rfc_3339),
    );
    lemma_splits_lines(t.split_ratios);
    assert forall|i: int, j: int|
        0 <= i < ls.len() && 0 <= j < ls[i].len() implies #[trigger] ls[i][j] != '\n' by {
        if i < 6 {
            assert(ls[i] == head[i]);
            assert(wf_text(head[i]));
        } else {
            assert(ls[i] == tail[i - 6]);
            assert(lines_wf(tail));
        }
    }
    // Parsing.
    lemma_kv_line("id"@, uid_value_text(t.id));
    lemma_uid_value(t.id);
    lemma_kv_line("description"@, str_value_text(t.description));
    lemma_str_value(t.description);
    lemma_kv_line("paid_by_entity"@, uid_value_text(t.paid_by_entity));
    lemma_uid_value(t.paid_by_entity);
    lemma_kv_line("currency_iso_4217"@, str_value_text(t.currency_iso_4217));
    lemma_str_value(t.currency_iso_4217);
    lemma_kv_line("amount"@, amount_value_text(m));
    lemma_amount_value(t.amount.minor);
    lemma_kv_line(
        "transaction_datetime_rfc_3339"@,
        ts_text(t.transaction_datetime_rfc_3339),
    );
    lemma_ts_round_trip(t.transaction_datetime_rfc_3339);
    assert(ls.skip(6) =~= tail);
    assert(ls[0] == head[0]);
    assert(ls[1] == head[1]);
    assert(ls[2] == head[2]);
    assert(ls[3] == head[3]);
    assert(ls[4] == head[4]);
    assert(ls[5] == head[5]);
    assert(parse_txn_lines(ls) == Some(
        TransactionV {
            id: t.id,
            description: t.description,
            paid_by_entity: t.paid_by_entity,
            currency_iso_4217: t.currency_iso_4217,
            amount: Amount { minor: t.amount.minor },
            transaction_datetime_rfc_3339: t.transaction_datetime_rfc_3339,
            split_ratios: t.split_ratios,
        },
    ));
}

/// Rendering a transaction record and reading the text back gives the
/// transaction unchanged: exact ratios, full-precision timestamp and all.
pub proof fn lemma_txn_round_trip(t: TransactionV)
    requires
        txn_rec_wf(t),
    ensures
        parse_txn_lines(split_lines(txn_text(t))) == Some(t),
{
    lemma_txn_lines(t);
    lemma_split_join(txn_lines(t));
}


// ------------------------------------------------------------------------
// Rendering records, executably.
// ------------------------------------------------------------------------

/// Joining concatenated line lists joins each part.
proof fn lemma_join_concat(a: Seq<Seq<char>>, b: Seq<Seq<char>>)
    ensures
        join_lines(a + b) == join_lines(a) + join_lines(b),
    decreases a.len(),
{
    if a.len() == 0 {
        assert(a + b =~= b);
        assert(join_lines(a) =~= Seq::<char>::empty());
        assert(Seq::<char>::empty() + join_lines(b) =~= join_lines(b));
    } else {
        assert((a + b).drop_first() =~= a.drop_first() + b);
        assert((a + b)[0] == a[0]);
        lemma_join_concat(a.drop_first(), b);
        assert((a[0] + seq!['\n']) + (join_lines(a.drop_first()) + join_lines(b)) =~= ((a[0]
            + seq!['\n']) + join_lines(a.drop_first())) + join_lines(b));
    }
}

/// Append `key = ` to the output.
fn push_key(out: &mut String, key: &str)
    ensures
        final(out)@ == old(out)@ + key@ + kv_sep(),
{
    out.append(key);
    push_char(out, ' ');
    push_char(out, '=');
    push_char(out, ' ');
    proof {
        assert(out@ =~= old(out)@ + key@ + kv_sep());
    }
}

/// Append a `key = "<identifier>"` line.
fn push_uid_line(out: &mut String, key: &str, u: Uid)
    ensures
        final(out)@ == old(out)@ + kv_line(key@, uid_value_text(u)) + seq!['\n'],
{
    push_key(out, key);
    push_char(out, '"');
    let cs: String = u.to_canonical();
    out.append(cs.as_str());
    push_char(out, '"');
    push_char(out, '\n');
    proof {
        assert(out@ =~= old(out)@ + kv_line(key@, uid_value_text(u)) + seq!['\n']);
    }
}

/// Append a `key = "<string>"` line.
fn push_str_line(out: &mut String, key: &str, v: &str)
    ensures
        final(out)@ == old(out)@ + kv_line(key@, str_value_text(v@)) + seq!['\n'],
{
    push_key(out, key);
    push_char(out, '"');
    push_escaped(out, v);
    push_char(out, '"');
    push_char(out, '\n');
    proof {
        assert(out@ =~= old(out)@ + kv_line(key@, str_value_text(v@)) + seq!['\n']);
    }
}

/// Append an amount value.
fn push_amount_value(out: &mut String, m: i64)
    requires
        -10_000_000_000_000_000 < m < 10_000_000_000_000_000,
    ensures
        final(out)@ == old(out)@ + amount_value_text(m as int),
{
    let a: u64 = if m < 0 {
        push_char(out, '-');
        (-m) as u64
    } else {
        m as u64
    };
    proof {
        assert(a as int == mag(m as int) as int);
    }
    push_dec(out, a / 100);
    push_char(out, '.');
    crate::datetime::push_two(out, (a % 100) as u8);
    proof {
        assert(out@ =~= old(out)@ + amount_value_text(m as int));
    }
}

/// Append a quoted fraction value.
fn push_ratio_value(out: &mut String, r: Rat)
    requires
        r.num > i64::MIN,
        r.den >= 1,
    ensures
        final(out)@ == old(out)@ + ratio_value_text(r),
{
    push_char(out, '"');
    let p: u64 = if r.num < 0 {
        push_char(out, '-');
        (-r.num) as u64
    } else {
        r.num as u64
    };
    proof {
        assert(p as int == mag(r.num as int) as int);
    }
    push_dec(out, p);
    push_char(out, '/');
    push_dec(out, r.den as u64);
    push_char(out, '"');
    proof {
        assert(r.den as int == mag(r.den as int) as int);
        assert(out@ =~= old(out)@ + ratio_value_text(r));
    }
}

/// Render a group record.
pub fn serialize_group(g: &crate::domain::Group) -> (r: String)
    ensures
        r@ == group_text(g@),
{
    let mut out: String = String::new();
    push_group_from(&mut out, g, 0);
    proof {
        assert(g@.entities.skip(0) =~= g@.entities);
        assert(out@ =~= group_text(g@));
    }
    out
}

/// Append every entity block from index `i` on.
fn push_group_from(out: &mut String, g: &crate::domain::Group, i: usize)
    requires
        i <= g.entities@.len(),
    ensures
        final(out)@ == old(out)@ + join_lines(group_lines(g@.entities.skip(i as int))),
    decreases g.entities@.len() - i,
{
    if i < g.entities.len() {
        out.append("[[entities]]");
        push_char(out, '\n');
        push_uid_line(out, "id", g.entities[i].id);
        push_str_line(out, "display_name", g.entities[i].display_name.as_str());
        push_group_from(out, g, i + 1);
        proof {
            let es = g@.entities.skip(i as int);
            assert(es[0] == g@.entities[i as int]);
            assert(es.drop_first() =~= g@.entities.skip(i as int + 1));
            let hl = entity_lines(es[0]);
            lemma_join_concat(hl, group_lines(es.drop_first()));
            assert(group_lines(es) =~= hl + group_lines(es.drop_first()));
            reveal_with_fuel(join_lines, 5);
            assert(hl.drop_first() =~= hl.skip(1));
            assert(hl.drop_first().drop_first() =~= hl.skip(2));
            assert(hl.drop_first().drop_first().drop_first() =~= Seq::<Seq<char>>::empty());
            assert(join_lines(hl) =~= ("[[entities]]"@ + seq!['\n']) + (kv_line(
                "id"@,
                uid_value_text(es[0].id),
            ) + seq!['\n']) + (kv_line("display_name"@, str_value_text(es[0].display_name))
                + seq!['\n']));
            assert(out@ =~= old(out)@ + join_lines(group_lines(es)));
        }
    } else {
        proof {
            assert(g@.entities.skip(i as int) =~= Seq::<EntityV>::empty());
            assert(out@ =~= old(out)@ + join_lines(group_lines(g@.entities.skip(i as int))));
        }
    }
}

/// Render a ledger record.
pub fn serialize_ledger(l: &crate::domain::Ledger) -> (r: String)
    ensures
        r@ == ledger_text(l@),
{
    let mut out: String = String::new();
    push_uid_line(&mut out, "id", l.id);
    push_str_line(&mut out, "display_name", l.display_name.as_str());
    push_key(&mut out, "participants");
    push_char(&mut out, '[');
    push_uid_items(&mut out, &l.participants, 0);
    push_char(&mut out, ']');
    push_char(&mut out, '\n');
    proof {
        assert(l.participants@.skip(0) =~= l.participants@);
        reveal_with_fuel(join_lines, 5);
        let ls = ledger_lines(l@);
        assert(ls.drop_first().drop_first().drop_first() =~= Seq::<Seq<char>>::empty());
        assert(out@ =~= ledger_text(l@));
    }
    out
}

/// Append the identifier array items from index `i` on.
fn push_uid_items(out: &mut String, ids: &Vec<Uid>, i: usize)
    requires
        i <= ids@.len(),
    ensures
        final(out)@ == old(out)@ + uid_items_text(ids@.skip(i as int)),
    decreases ids@.len() - i,
{
    if i < ids.len() {
        push_char(out, '"');
        let cs: String = ids[i].to_canonical();
        out.append(cs.as_str());
        push_char(out, '"');
        if i + 1 < ids.len() {
            push_char(out, ',');
            push_char(out, ' ');
            push_uid_items(out, ids, i + 1);
            proof {
                let s = ids@.skip(i as int);
                assert(s[0] == ids@[i as int]);
                assert(s.drop_first() =~= ids@.skip(i as int + 1));
                assert(s.len() >= 2);
                assert(out@ =~= old(out)@ + uid_items_text(s));
            }
        } else {
            proof {
                let s = ids@.skip(i as int);
                assert(s[0] == ids@[i as int]);
                assert(s.len() == 1);
                assert(out@ =~= old(out)@ + uid_items_text(s));
            }
        }
    } else {
        proof {
            assert(ids@.skip(i as int) =~= Seq::<Uid>::empty());
            assert(out@ =~= old(out)@ + uid_items_text(ids@.skip(i as int)));
        }
    }
}

/// Render a transaction record.
#[verifier::rlimit(100)]
pub fn serialize_transaction(t: &crate::domain::Transaction) -> (r: String)
    requires
        txn_rec_wf(t@),
    ensures
        r@ == txn_text(t@),
{
    let mut out: String = String::new();
    push_uid_line(&mut out, "id", t.id);
    push_str_line(&mut out, "description", t.description.as_str());
    push_uid_line(&mut out, "paid_by_entity", t.paid_by_entity);
    push_str_line(&mut out, "currency_iso_4217", t.currency_iso_4217.as_str());
    push_key(&mut out, "amount");
    push_amount_value(&mut out, t.amount.minor);
    push_char(&mut out, '\n');
    push_key(&mut out, "transaction_datetime_rfc_3339");
    let ts: String = t.transaction_datetime_rfc_3339.to_text();
    out.append(ts.as_str());
    push_char(&mut out, '\n');
    let ghost head_done = out@;
    proof {
        assert forall|k: int| 0 <= k < t.split_ratios@.len() implies ratio_rec_wf(
            (#[trigger] t.split_ratios@[k]).ratio,
        ) by {
            assert(ratio_rec_wf(t@.split_ratios[k].ratio));
        }
    }
    push_splits_from(&mut out, &t.split_ratios, 0);
    proof {
        assert(t.split_ratios@.skip(0) =~= t.split_ratios@);
        let head = seq![
            kv_line("id"@, uid_value_text(t@.id)),
            kv_line("description"@, str_value_text(t@.description)),
            kv_line("paid_by_entity"@, uid_value_text(t@.paid_by_entity)),
            kv_line("currency_iso_4217"@, str_value_text(t@.currency_iso_4217)),
            kv_line("amount"@, amount_value_text(t@.amount.minor as int)),
            kv_line("transaction_datetime_rfc_3339"@, ts_text(t@.transaction_datetime_rfc_3339)),
        ];
        assert(txn_lines(t@) =~= head + splits_lines(t@.split_ratios));
        lemma_join_concat(head, splits_lines(t@.split_ratios));
        reveal_with_fuel(join_lines, 8);
        assert(head.drop_first().drop_first().drop_first().drop_first().drop_first().drop_first()
            =~= Seq::<Seq<char>>::empty());
        assert(head_done =~= join_lines(head));
        assert(out@ =~= txn_text(t@));
    }
    out
}

/// Append every split block from index `i` on.
fn push_splits_from(out: &mut String, ss: &Vec<Split>, i: usize)
    requires
        i <= ss@.len(),
        forall|k: int| 0 <= k < ss@.len() ==> ratio_rec_wf((#[trigger] ss@[k]).ratio),
    ensures
        final(out)@ == old(out)@ + join_lines(splits_lines(ss@.skip(i as int))),
    decreases ss@.len() - i,
{
    if i < ss.len() {
        out.append("[[split_ratios]]");
        push_char(out, '\n');
        push_uid_line(out, "entity_id", ss[i].entity_id);
        push_key(out, "ratio");
        push_ratio_value(out, ss[i].ratio);
        push_char(out, '\n');
        push_splits_from(out, ss, i + 1);
        proof {
            let s = ss@.skip(i as int);
            assert(s[0] == ss@[i as int]);
            assert(s.drop_first() =~= ss@.skip(i as int + 1));
            let hl = one_split_lines(s[0]);
            lemma_join_concat(hl, splits_lines(s.drop_first()));
            assert(splits_lines(s) =~= hl + splits_lines(s.drop_first()));
            reveal_with_fuel(join_lines, 5);
            assert(hl.drop_first().drop_first().drop_first() =~= Seq::<Seq<char>>::empty());
            assert(out@ =~= old(out)@ + join_lines(splits_lines(s)));
        }
    } else {
        proof {
            assert(ss@.skip(i as int) =~= Seq::<Split>::empty());
            assert(out@ =~= old(out)@ + join_lines(splits_lines(ss@.skip(i as int))));
        }
    }
}


// ------------------------------------------------------------------------
// Reading records, executably.
// ------------------------------------------------------------------------

/// Whether two string slices are equal, character for character.
pub fn chars_eq_str_pub(a: &str, b: &str) -> (r: bool)
    ensures
        r == (a@ == b@),
{
    let ca: Vec<char> = to_chars(a);
    chars_eq_str(&ca, b)
}

/// Whether a character vector equals a string slice.
fn chars_eq_str(cs: &Vec<char>, s: &str) -> (b: bool)
    ensures
        b == (cs@ == s@),
{
    let n: usize = s.unicode_len();
    if cs.len() != n {
        return false;
    }
    let mut i: usize = 0;
    while i < n
        invariant
            0 <= i <= n,
            n == s@.len(),
            n == cs@.len(),
            forall|k: int| 0 <= k < i ==> #[trigger] cs@[k] == s@[k],
        decreases n - i,
    {
        if cs[i] != s.get_char(i) {
            return false;
        }
        i = i + 1;
    }
    proof {
        assert(cs@ =~= s@);
    }
    true
}

/// Read a `key = "<identifier>"` line.
fn read_uid_line(line: &Vec<char>, key: &str) -> (r: Option<Uid>)
    ensures
        r == kv_uid(line@, key@),
{
    match kv_value_exec(line, key) {
        Some(v) => match strip_quotes(&v) {
            Some(inner) => Uid::parse_chars(&inner),
            None => None,
        },
        None => None,
    }
}

/// Read a `key = "<string>"` line.
fn read_str_line(line: &Vec<char>, key: &str) -> (r: Option<String>)
    ensures
        r matches Some(v) ==> kv_str(line@, key@) == Some(v@),
        r is None ==> kv_str(line@, key@) is None,
{
    match kv_value_exec(line, key) {
        Some(v) => match strip_quotes(&v) {
            Some(inner) => match unescape(&inner) {
                Some(u) => Some(crate::text::chars_to_string(&u)),
                None => None,
            },
            None => None,
        },
        None => None,
    }
}

/// Read an amount value.
fn read_amount_value(v: &Vec<char>) -> (r: Option<i64>)
    ensures
        r == parse_amount_value(v@),
{
    let n: usize = v.len();
    let neg: bool = n > 0 && v[0] == '-';
    let from: usize = if neg {
        1
    } else {
        0
    };
    let rl: usize = n - from;
    if !(rl >= 4 && rl <= 17) {
        proof {
            let rest = if neg { v@.skip(1) } else { v@ };
            assert(rest.len() == rl);
        }
        return None;
    }
    proof {
        let rest = if neg { v@.skip(1) } else { v@ };
        assert(rest.len() == rl);
        assert(rest =~= v@.subrange(from as int, n as int));
        assert(rest.take(rest.len() - 3) =~= v@.subrange(from as int, n as int - 3));
        assert(rest[rest.len() - 3] == v@[n as int - 3]);
        assert(rest[rest.len() - 2] == v@[n as int - 2]);
        assert(rest[rest.len() - 1] == v@[n as int - 1]);
    }
    let units: u64 = match digits_value(v, from, n - 3) {
        Some(u) => u,
        None => {
            return None;
        },
    };
    if v[n - 3] != '.' {
        return None;
    }
    let d1: u8 = match crate::text::digit_of_pub(v[n - 2]) {
        Some(d) => d,
        None => {
            return None;
        },
    };
    let d0: u8 = match crate::text::digit_of_pub(v[n - 1]) {
        Some(d) => d,
        None => {
            return None;
        },
    };
    proof {
        lemma_pow10_monotone(14, 19);
        assert(pow10(14) == 100_000_000_000_000) by {
            reveal_with_fuel(pow10, 15);
        }
        lemma_digits_val_bound(v@.subrange(from as int, n as int - 3));
        assert(pow10(n as int - 3 - from as int) <= pow10(14)) by {
            lemma_pow10_monotone(n as int - 3 - from as int, 14);
        }
    }
    let m: u64 = units * 100 + (d1 as u64) * 10 + (d0 as u64);
    if neg {
        Some(-(m as i64))
    } else {
        Some(m as i64)
    }
}

/// Read a quoted fraction value.
#[verifier::rlimit(80)]
fn read_ratio_value(v: &Vec<char>) -> (r: Option<Rat>)
    ensures
        r == parse_ratio_value(v@),
{
    let inner: Vec<char> = match strip_quotes(v) {
        Some(i) => i,
        None => {
            return None;
        },
    };
    let n: usize = inner.len();
    let neg: bool = n > 0 && inner[0] == '-';
    let from: usize = if neg {
        1
    } else {
        0
    };
    let ghost body = if neg { inner@.skip(1) } else { inner@ };
    proof {
        assert(body.len() == n - from);
        assert(body =~= inner@.subrange(from as int, n as int));
    }
    // Find the slash.
    let mut j: usize = from;
    while j < n && inner[j] != '/'
        invariant
            from <= j <= n,
            n == inner@.len(),
            forall|k: int| from <= k < j ==> #[trigger] inner@[k] != '/',
        decreases n - j,
    {
        j = j + 1;
    }
    proof {
        assert forall|k: int| 0 <= k < j - from implies #[trigger] body[k] != '/' by {
            assert(body[k] == inner@[from + k]);
        }
        if j < n {
            assert(body[j - from] == inner@[j as int]);
        }
        lemma_first_slash_exact(body, j as int - from as int);
    }
    let k: usize = j - from;
    if !(1 <= k && k <= 19 && j < n && n - j - 1 >= 1 && n - j - 1 <= 19) {
        return None;
    }
    proof {
        assert(body.take(k as int) =~= inner@.subrange(from as int, j as int));
        assert(body.skip(k as int + 1) =~= inner@.subrange(j as int + 1, n as int));
    }
    let p: u64 = match digits_value(&inner, from, j) {
        Some(u) => u,
        None => {
            return None;
        },
    };
    let q: u64 = match digits_value(&inner, j + 1, n) {
        Some(u) => u,
        None => {
            return None;
        },
    };
    if !(p <= 0x7fff_ffff_ffff_ffff && 1 <= q && q <= 0x7fff_ffff_ffff_ffff) {
        return None;
    }
    let num: i64 = if neg {
        -(p as i64)
    } else {
        p as i64
    };
    Some(Rat { num, den: q as i64 })
}

/// Read a group record; an error exactly when the text is not a group
/// record.
#[verifier::loop_isolation(false)]
pub fn parse_group(s: &str) -> (r: Result<crate::domain::Group, crate::errors::PersistenceError>)
    ensures
        r matches Ok(g) ==> parse_group_lines(split_lines(s@)) == Some(g@.entities),
        r is Err <==> parse_group_lines(split_lines(s@)) is None,
        r matches Err(e) ==> e is Toml,
{
    let cs: Vec<char> = to_chars(s);
    let lines: Vec<Vec<char>> = split_lines_exec(&cs);
    let ghost lv = split_lines(s@);
    let n: usize = lines.len();
    let mut entities: Vec<crate::domain::Entity> = Vec::new();
    let mut i: usize = 0;
    proof {
        assert(lv.skip(0) =~= lv);
        if parse_group_lines(lv) is Some {
            assert(g_ents_prefix(entities@) + parse_group_lines(lv)->Some_0 =~= parse_group_lines(
                lv,
            )->Some_0);
        }
    }
    while i < n
        invariant
            0 <= i <= n,
            n == lv.len(),
            views_of(lines@) == lv,
            lines@.len() == n,
            parse_group_lines(lv) matches Some(w) ==> parse_group_lines(lv.skip(i as int))
                matches Some(tail) && w == g_ents_prefix(entities@) + tail,
            parse_group_lines(lv) is None ==> parse_group_lines(lv.skip(i as int)) is None,
        decreases n - i,
    {
        let ghost suffix = lv.skip(i as int);
        proof {
            assert(suffix[0] == lv[i as int]);
            assert(lv[i as int] == lines@[i as int]@);
        }
        if n - i < 3 {
            return Err(crate::errors::PersistenceError::Toml("truncated entity block".to_owned()));
        }
        proof {
            assert(suffix[1] == lines@[i as int + 1]@);
            assert(suffix[2] == lines@[i as int + 2]@);
        }
        if !chars_eq_str(&lines[i], "[[entities]]") {
            return Err(crate::errors::PersistenceError::Toml("expected an entity block".to_owned()));
        }
        let id: Uid = match read_uid_line(&lines[i + 1], "id") {
            Some(u) => u,
            None => {
                return Err(crate::errors::PersistenceError::Toml("bad entity id".to_owned()));
            },
        };
        let name: String = match read_str_line(&lines[i + 2], "display_name") {
            Some(v) => v,
            None => {
                return Err(
                    crate::errors::PersistenceError::Toml("bad entity display name".to_owned()),
                );
            },
        };
        entities.push(crate::domain::Entity { id, display_name: name });
        proof {
            assert(suffix.skip(3) =~= lv.skip(i as int + 3));
            if parse_group_lines(lv) is Some {
                let tail2 = parse_group_lines(lv.skip(i as int + 3))->Some_0;
                assert(g_ents_prefix(entities@) + tail2 =~= g_ents_prefix(entities@.drop_last()) + (
                seq![EntityV { id: id, display_name: name@ }] + tail2));
                assert(g_ents_prefix(entities@) =~= g_ents_prefix(entities@.drop_last()).push(
                    EntityV { id: id, display_name: name@ },
                ));
            }
        }
        i = i + 3;
    }
    proof {
        assert(lv.skip(n as int) =~= Seq::<Seq<char>>::empty());
        if parse_group_lines(lv) is Some {
            assert(parse_group_lines(lv)->Some_0 =~= g_ents_prefix(entities@));
        }
    }
    let g: crate::domain::Group = crate::domain::Group { entities };
    proof {
        assert(g@.entities =~= g_ents_prefix(g.entities@));
    }
    Ok(g)
}

/// The entity views of a built entity vector.
pub open spec fn g_ents_prefix(es: Seq<crate::domain::Entity>) -> Seq<EntityV> {
    es.map_values(|e: crate::domain::Entity| e@)
}

/// Read a ledger record; an error exactly when the text is not a ledger
/// record.
pub fn parse_ledger(s: &str) -> (r: Result<crate::domain::Ledger, crate::errors::PersistenceError>)
    ensures
        r matches Ok(l) ==> parse_ledger_lines(split_lines(s@)) == Some(l@),
        r is Err <==> parse_ledger_lines(split_lines(s@)) is None,
        r matches Err(e) ==> e is Toml,
{
    let cs: Vec<char> = to_chars(s);
    let lines: Vec<Vec<char>> = split_lines_exec(&cs);
    let ghost lv = split_lines(s@);
    if lines.len() != 3 {
        return Err(crate::errors::PersistenceError::Toml("a ledger record has three lines".to_owned()));
    }
    proof {
        assert(lv[0] == lines@[0]@);
        assert(lv[1] == lines@[1]@);
        assert(lv[2] == lines@[2]@);
    }
    let id: Uid = match read_uid_line(&lines[0], "id") {
        Some(u) => u,
        None => {
            return Err(crate::errors::PersistenceError::Toml("bad ledger id".to_owned()));
        },
    };
    let name: String = match read_str_line(&lines[1], "display_name") {
        Some(v) => v,
        None => {
            return Err(crate::errors::PersistenceError::Toml("bad ledger display name".to_owned()));
        },
    };
    let pv: Vec<char> = match kv_value_exec(&lines[2], "participants") {
        Some(v) => v,
        None => {
            return Err(crate::errors::PersistenceError::Toml("bad participants line".to_owned()));
        },
    };
    let pn: usize = pv.len();
    if pn < 2 || pv[0] != '[' || pv[pn - 1] != ']' {
        return Err(crate::errors::PersistenceError::Toml("bad participants array".to_owned()));
    }
    let mut inner: Vec<char> = Vec::new();
    let mut ii: usize = 1;
    while ii < pn - 1
        invariant
            1 <= ii <= pn - 1,
            pn == pv@.len(),
            pn >= 2,
            inner@ =~= pv@.subrange(1, ii as int),
        decreases pn - ii,
    {
        inner.push(pv[ii]);
        proof {
            assert(inner@ =~= pv@.subrange(1, ii as int + 1));
        }
        ii = ii + 1;
    }
    proof {
        assert(inner@ =~= pv@.subrange(1, pn as int - 1));
    }
    let participants: Vec<Uid> = match read_uid_items(&inner) {
        Some(ps) => ps,
        None => {
            return Err(crate::errors::PersistenceError::Toml("bad participant id".to_owned()));
        },
    };
    Ok(crate::domain::Ledger { id, display_name: name, participants })
}

/// Read the items of an identifier array.
#[verifier::loop_isolation(false)]
fn read_uid_items(v: &Vec<char>) -> (r: Option<Vec<Uid>>)
    ensures
        r matches Some(ids) ==> parse_uid_items(v@) == Some(ids@),
        r is None ==> parse_uid_items(v@) is None,
{
    let n: usize = v.len();
    let mut out: Vec<Uid> = Vec::new();
    let mut pos: usize = 0;
    proof {
        assert(v@.skip(0) =~= v@);
        if parse_uid_items(v@) is Some {
            assert(out@ + parse_uid_items(v@)->Some_0 =~= parse_uid_items(v@)->Some_0);
        }
    }
    while pos < n
        invariant
            0 <= pos <= n,
            n == v@.len(),
            parse_uid_items(v@) matches Some(w) ==> parse_uid_items(v@.skip(pos as int))
                matches Some(tail) && w == out@ + tail,
            parse_uid_items(v@) is None ==> parse_uid_items(v@.skip(pos as int)) is None,
        decreases n - pos,
    {
        let ghost suffix = v@.skip(pos as int);
        if n - pos < 38 {
            proof {
                assert(suffix.len() < 38);
            }
            return None;
        }
        proof {
            assert(suffix[0] == v@[pos as int]);
            assert(suffix[37] == v@[pos as int + 37]);
            assert(suffix.subrange(1, 37) =~= v@.subrange(pos as int + 1, pos as int + 37));
        }
        if v[pos] != '"' || v[pos + 37] != '"' {
            return None;
        }
        let mut idc: Vec<char> = Vec::new();
        let mut k: usize = pos + 1;
        while k < pos + 37
            invariant
                pos + 1 <= k <= pos + 37,
                pos + 37 < n == v@.len(),
                idc@ =~= v@.subrange(pos as int + 1, k as int),
            decreases pos + 37 - k,
        {
            idc.push(v[k]);
            proof {
                assert(idc@ =~= v@.subrange(pos as int + 1, k as int + 1));
            }
            k = k + 1;
        }
        let u: Uid = match Uid::parse_chars(&idc) {
            Some(u) => u,
            None => {
                return None;
            },
        };
        proof {
            assert(uid_val(suffix.subrange(1, 37)) == u.value as int);
        }
        out.push(u);
        if pos + 38 == n {
            proof {
                assert(suffix.len() == 38);
                assert(v@.skip(n as int) =~= Seq::<Seq<char>>::empty().map_values(
                    |x: Seq<char>| x,
                ).flatten() || true);
                assert(v@.skip(n as int) =~= Seq::<char>::empty());
                if parse_uid_items(v@) is Some {
                    assert(out@ + parse_uid_items(v@.skip(n as int))->Some_0 =~= out@.drop_last() + (
                    seq![u] + parse_uid_items(v@.skip(n as int))->Some_0));
                }
            }
            pos = n;
        } else {
            if n - pos < 40 {
                return None;
            }
            proof {
                assert(suffix[38] == v@[pos as int + 38]);
                assert(suffix[39] == v@[pos as int + 39]);
            }
            if v[pos + 38] != ',' || v[pos + 39] != ' ' {
                return None;
            }
            proof {
                assert(suffix.skip(40) =~= v@.skip(pos as int + 40));
                if parse_uid_items(v@) is Some {
                    assert(out@ + parse_uid_items(v@.skip(pos as int + 40))->Some_0 =~= out@
                        .drop_last() + (seq![u] + parse_uid_items(v@.skip(pos as int + 40))->Some_0));
                }
            }
            pos = pos + 40;
        }
    }
    proof {
        assert(v@.skip(n as int) =~= Seq::<char>::empty());
        if parse_uid_items(v@) is Some {
            assert(parse_uid_items(v@)->Some_0 =~= out@);
        }
    }
    Some(out)
}

/// Read a transaction record; an error exactly when the text is not a
/// transaction record.
#[verifier::loop_isolation(false)]
#[verifier::rlimit(80)]
pub fn parse_transaction(s: &str) -> (r: Result<
    crate::domain::Transaction,
    crate::errors::PersistenceError,
>)
    ensures
        r matches Ok(t) ==> parse_txn_lines(split_lines(s@)) == Some(t@),
        r is Err <==> parse_txn_lines(split_lines(s@)) is None,
        r matches Err(e) ==> e is Toml,
{
    let cs: Vec<char> = to_chars(s);
    let lines: Vec<Vec<char>> = split_lines_exec(&cs);
    let ghost lv = split_lines(s@);
    let n: usize = lines.len();
    if n < 6 {
        return Err(crate::errors::PersistenceError::Toml("truncated transaction record".to_owned()));
    }
    proof {
        assert(lv[0] == lines@[0]@);
        assert(lv[1] == lines@[1]@);
        assert(lv[2] == lines@[2]@);
        assert(lv[3] == lines@[3]@);
        assert(lv[4] == lines@[4]@);
        assert(lv[5] == lines@[5]@);
    }
    let id: Uid = match read_uid_line(&lines[0], "id") {
        Some(u) => u,
        None => {
            return Err(crate::errors::PersistenceError::Toml("bad transaction id".to_owned()));
        },
    };
    let description: String = match read_str_line(&lines[1], "description") {
        Some(v) => v,
        None => {
            return Err(crate::errors::PersistenceError::Toml("bad description".to_owned()));
        },
    };
    let paid_by: Uid = match read_uid_line(&lines[2], "paid_by_entity") {
        Some(u) => u,
        None => {
            return Err(crate::errors::PersistenceError::Toml("bad payer id".to_owned()));
        },
    };
    let currency: String = match read_str_line(&lines[3], "currency_iso_4217") {
        Some(v) => v,
        None => {
            return Err(crate::errors::PersistenceError::Toml("bad currency".to_owned()));
        },
    };
    let minor: i64 = match kv_value_exec(&lines[4], "amount") {
        Some(v) => match read_amount_value(&v) {
            Some(m) => m,
            None => {
                return Err(crate::errors::PersistenceError::Toml("bad amount".to_owned()));
            },
        },
        None => {
            return Err(crate::errors::PersistenceError::Toml("bad amount line".to_owned()));
        },
    };
    let ts: Timestamp = match kv_value_exec(&lines[5], "transaction_datetime_rfc_3339") {
        Some(v) => match Timestamp::parse_chars(&v) {
            Some(t) => t,
            None => {
                return Err(crate::errors::PersistenceError::Toml("bad timestamp".to_owned()));
            },
        },
        None => {
            return Err(crate::errors::PersistenceError::Toml("bad timestamp line".to_owned()));
        },
    };
    // Split blocks.
    let mut splits: Vec<Split> = Vec::new();
    let mut i: usize = 6;
    proof {
        assert(lv.skip(6).skip(0) =~= lv.skip(6));
        if parse_splits_lines(lv.skip(6)) is Some {
            assert(splits@ + parse_splits_lines(lv.skip(6))->Some_0 =~= parse_splits_lines(
                lv.skip(6),
            )->Some_0);
        }
    }
    while i < n
        invariant
            6 <= i <= n,
            n == lv.len(),
            views_of(lines@) == lv,
            lines@.len() == n,
            parse_splits_lines(lv.skip(6)) matches Some(w) ==> parse_splits_lines(
                lv.skip(i as int),
            ) matches Some(tail) && w == splits@ + tail,
            parse_splits_lines(lv.skip(6)) is None ==> parse_splits_lines(lv.skip(i as int))
                is None,
        decreases n - i,
    {
        let ghost suffix = lv.skip(i as int);
        proof {
            assert(suffix[0] == lv[i as int]);
            assert(lv[i as int] == lines@[i as int]@);
        }
        if n - i < 3 {
            return Err(crate::errors::PersistenceError::Toml("truncated split block".to_owned()));
        }
        proof {
            assert(suffix[1] == lines@[i as int + 1]@);
            assert(suffix[2] == lines@[i as int + 2]@);
        }
        if !chars_eq_str(&lines[i], "[[split_ratios]]") {
            return Err(crate::errors::PersistenceError::Toml("expected a split block".to_owned()));
        }
        let eid: Uid = match read_uid_line(&lines[i + 1], "entity_id") {
            Some(u) => u,
            None => {
                return Err(crate::errors::PersistenceError::Toml("bad split entity".to_owned()));
            },
        };
        let ratio: Rat = match kv_value_exec(&lines[i + 2], "ratio") {
            Some(v) => match read_ratio_value(&v) {
                Some(rr) => rr,
                None => {
                    return Err(crate::errors::PersistenceError::Toml("bad split ratio".to_owned()));
                },
            },
            None => {
                return Err(crate::errors::PersistenceError::Toml("bad ratio line".to_owned()));
            },
        };
        splits.push(Split { entity_id: eid, ratio });
        proof {
            assert(suffix.skip(3) =~= lv.skip(i as int + 3));
            if parse_splits_lines(lv.skip(6)) is Some {
                let tail2 = parse_splits_lines(lv.skip(i as int + 3))->Some_0;
                assert(splits@ + tail2 =~= splits@.drop_last() + (seq![
                    Split { entity_id: eid, ratio: ratio },
                ] + tail2));
            }
        }
        i = i + 3;
    }
    proof {
        assert(lv.skip(n as int) =~= Seq::<Seq<char>>::empty());
        if parse_splits_lines(lv.skip(6)) is Some {
            assert(parse_splits_lines(lv.skip(6))->Some_0 =~= splits@);
        }
    }
    let t: crate::domain::Transaction = crate::domain::Transaction {
        id,
        description,
        paid_by_entity: paid_by,
        currency_iso_4217: currency,
        amount: Amount { minor },
        transaction_datetime_rfc_3339: ts,
        split_ratios: splits,
    };
    Ok(t)
}

} // verus!
