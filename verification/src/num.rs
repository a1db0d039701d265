//! Textual number recognition as done by `str::parse` for `u64`, `i64` and
//! `f64`, as the standard library documents it.

use vstd::prelude::*;
use crate::text::{is_ascii_digit, char_is_ascii_digit};

verus! {

/// Every character is an ASCII digit.
pub open spec fn all_digits(s: Seq<char>) -> bool {
    forall|i: int| 0 <= i < s.len() ==> is_ascii_digit(#[trigger] s[i])
}

/// The decimal value of a string of digits.
pub open spec fn digits_value(s: Seq<char>) -> nat
    decreases s.len(),
{
    if s.len() == 0 {
        0
    } else {
        digits_value(s.drop_last()) * 10 + ((s.last() as u32) - ('0' as u32)) as nat
    }
}

/// `s` without one leading `c`, if it starts with it.
pub open spec fn strip_one(s: Seq<char>, c: char) -> Seq<char> {
    if s.len() > 0 && s[0] == c {
        s.drop_first()
    } else {
        s
    }
}

/// `str::parse::<u64>`: an optional `+` and one or more digits, within range.
pub open spec fn spec_parse_u64(s: Seq<char>) -> Option<u64> {
    let d = strip_one(s, '+');
    if d.len() > 0 && all_digits(d) && digits_value(d) <= u64::MAX {
        Some(digits_value(d) as u64)
    } else {
        None
    }
}

/// `str::parse::<i64>`: an optional sign and one or more digits, within range.
pub open spec fn spec_parse_i64(s: Seq<char>) -> Option<i64> {
    if s.len() > 0 && s[0] == '-' {
        let d = s.drop_first();
        if d.len() > 0 && all_digits(d) && digits_value(d) <= 0x8000_0000_0000_0000 {
            Some((0 - digits_value(d)) as i64)
        } else {
            None
        }
    } else {
        let d = strip_one(s, '+');
        if d.len() > 0 && all_digits(d) && digits_value(d) <= i64::MAX {
            Some(digits_value(d) as i64)
        } else {
            None
        }
    }
}

/// Number of consecutive digits of `s` from index `i`.
pub open spec fn digit_run(s: Seq<char>, i: nat) -> nat
    decreases s.len() - i,
{
    if i < s.len() && is_ascii_digit(s[i as int]) {
        1 + digit_run(s, i + 1)
    } else {
        0
    }
}

/// The `Number` production of the `f64` grammar:
/// `(Digit+ | Digit+ '.' Digit* | Digit* '.' Digit+) Exp?`, `Exp ::= [eE] [+-]? Digit+`.
pub open spec fn is_decimal_number(t: Seq<char>) -> bool {
    let a = digit_run(t, 0);
    let has_dot = a < t.len() && t[a as int] == '.';
    let b = if has_dot { digit_run(t, a + 1) } else { 0 };
    let j: int = if has_dot { (a + 1 + b) as int } else { a as int };
    let mant_ok = a > 0 || b > 0;
    if j == t.len() {
        mant_ok
    } else if t[j] == 'e' || t[j] == 'E' {
        let k: int = if j + 1 < t.len() && (t[j + 1] == '+' || t[j + 1] == '-') { j + 2 } else { j + 1 };
        let c = digit_run(t, k as nat);
        mant_ok && c > 0 && k + c == t.len()
    } else {
        false
    }
}

/// ASCII lower-casing of one character.
pub open spec fn ascii_lower(c: char) -> u32 {
    if 'A' <= c <= 'Z' {
        ((c as u32) + 32) as u32
    } else {
        c as u32
    }
}

/// Case-insensitive (ASCII) equality.
pub open spec fn eq_ignore_case(s: Seq<char>, t: Seq<char>) -> bool {
    s.len() == t.len() && forall|i: int| 0 <= i < s.len() ==> ascii_lower(#[trigger] s[i]) == ascii_lower(t[i])
}

/// Whether `str::parse::<f64>` accepts `s`: an optional sign followed by
/// `inf`, `infinity`, `nan` (in any case) or a decimal number.
pub open spec fn spec_is_f64(s: Seq<char>) -> bool {
    let t = if s.len() > 0 && (s[0] == '+' || s[0] == '-') { s.drop_first() } else { s };
    eq_ignore_case(t, "inf"@) || eq_ignore_case(t, "infinity"@) || eq_ignore_case(t, "nan"@)
        || is_decimal_number(t)
}

proof fn lemma_digits_value_push(s: Seq<char>, c: char)
    ensures
        digits_value(s.push(c)) == digits_value(s) * 10 + ((c as u32) - ('0' as u32)) as nat,
{
    assert(s.push(c).drop_last() =~= s);
}

/// Reads the digits `d` as a number, if it fits in a `u64`.
fn digits_to_u64(d: &str) -> (res: Option<u64>)
    requires
        all_digits(d@),
    ensures
        res matches Some(v) ==> digits_value(d@) == v,
        res is None ==> digits_value(d@) > u64::MAX,
{
    let n = d.unicode_len();
    let mut v: u64 = 0;
    let mut i: usize = 0;
    while i < n
        invariant
            n == d@.len(),
            i <= n,
            all_digits(d@),
            v == digits_value(d@.take(i as int)),
        decreases n - i,
    {
        let c = d.get_char(i);
        assert(is_ascii_digit(d@[i as int]));
        let digit = (c as u32 - '0' as u32) as u64;
        proof {
            assert(d@.take(i + 1) =~= d@.take(i as int).push(c));
            lemma_digits_value_push(d@.take(i as int), c);
        }
        match v.checked_mul(10) {
            Some(m) => match m.checked_add(digit) {
                Some(x) => {
                    v = x;
                },
                None => {
                    proof {
                        lemma_digits_value_prefix_monotone(d@, i + 1);
                    }
                    return None;
                },
            },
            None => {
                proof {
                    lemma_digits_value_prefix_monotone(d@, i + 1);
                }
                return None;
            },
        }
        i = i + 1;
    }
    assert(d@.take(n as int) =~= d@);
    Some(v)
}

proof fn lemma_digits_value_prefix_monotone(s: Seq<char>, k: int)
    requires
        0 <= k <= s.len(),
        all_digits(s),
    ensures
        digits_value(s.take(k)) <= digits_value(s),
    decreases s.len() - k,
{
    if k < s.len() {
        lemma_digits_value_prefix_monotone(s, k + 1);
        assert(s.take(k + 1).drop_last() =~= s.take(k));
        assert(is_ascii_digit(s[k]));
        assert(s.take(k + 1).last() == s[k]);
    } else {
        assert(s.take(k) =~= s);
    }
}

/// `str::parse::<u64>`.
pub fn parse_u64(s: &str) -> (res: Option<u64>)
    ensures
        res == spec_parse_u64(s@),
{
    let n = s.unicode_len();
    let start: usize = if n > 0 && s.get_char(0) == '+' { 1 } else { 0 };
    let d = s.substring_char(start, n);
    assert(d@ =~= strip_one(s@, '+'));
    if d.unicode_len() == 0 || !str_all_digits(d) {
        return None;
    }
    digits_to_u64(d)
}

/// `str::parse::<i64>`.
pub fn parse_i64(s: &str) -> (res: Option<i64>)
    ensures
        res == spec_parse_i64(s@),
{
    let n = s.unicode_len();
    let neg = n > 0 && s.get_char(0) == '-';
    let start: usize = if n > 0 && (s.get_char(0) == '+' || s.get_char(0) == '-') { 1 } else { 0 };
    let d = s.substring_char(start, n);
    assert(neg ==> d@ =~= s@.drop_first());
    assert(!neg ==> d@ =~= strip_one(s@, '+'));
    if d.unicode_len() == 0 || !str_all_digits(d) {
        return None;
    }
    match digits_to_u64(d) {
        None => None,
        Some(v) => {
            if neg {
                if v <= 0x8000_0000_0000_0000u64 {
                    if v == 0x8000_0000_0000_0000u64 {
                        Some(i64::MIN)
                    } else {
                        Some(0i64 - (v as i64))
                    }
                } else {
                    None
                }
            } else if v <= i64::MAX as u64 {
                Some(v as i64)
            } else {
                None
            }
        },
    }
}

/// Whether every character of `s` is an ASCII digit.
pub fn str_all_digits(s: &str) -> (res: bool)
    ensures
        res == all_digits(s@),
{
    let n = s.unicode_len();
    let mut i: usize = 0;
    while i < n
        invariant
            n == s@.len(),
            i <= n,
            forall|j: int| 0 <= j < i ==> is_ascii_digit(#[trigger] s@[j]),
        decreases n - i,
    {
        if !char_is_ascii_digit(s.get_char(i)) {
            return false;
        }
        i = i + 1;
    }
    true
}

fn digit_run_exec(s: &str, i: usize) -> (res: usize)
    requires
        i <= s@.len(),
    ensures
        res == digit_run(s@, i as nat),
        i + res <= s@.len(),
{
    let n = s.unicode_len();
    let mut j: usize = i;
    while j < n && char_is_ascii_digit(s.get_char(j))
        invariant
            n == s@.len(),
            i <= j <= n,
            digit_run(s@, i as nat) == (j - i) + digit_run(s@, j as nat),
        decreases n - j,
    {
        j = j + 1;
    }
    j - i
}

/// The `Number` production of the `f64` grammar.
pub fn decimal_number(t: &str) -> (res: bool)
    ensures
        res == is_decimal_number(t@),
{
    let n = t.unicode_len();
    let a = digit_run_exec(t, 0);
    let has_dot = a < n && t.get_char(a) == '.';
    let b = if has_dot { digit_run_exec(t, a + 1) } else { 0 };
    let j = if has_dot { a + 1 + b } else { a };
    let mant_ok = a > 0 || b > 0;
    if j == n {
        mant_ok
    } else if t.get_char(j) == 'e' || t.get_char(j) == 'E' {
        let k = if j + 1 < n && (t.get_char(j + 1) == '+' || t.get_char(j + 1) == '-') {
            j + 2
        } else {
            j + 1
        };
        let c = digit_run_exec(t, k);
        mant_ok && c > 0 && k + c == n
    } else {
        false
    }
}

fn lower(c: char) -> (res: u32)
    ensures
        res == ascii_lower(c),
{
    if 'A' <= c && c <= 'Z' {
        (c as u32) + 32
    } else {
        c as u32
    }
}

fn eq_ignore_case_exec(s: &str, t: &str) -> (res: bool)
    ensures
        res == eq_ignore_case(s@, t@),
{
    let n = s.unicode_len();
    if n != t.unicode_len() {
        return false;
    }
    let mut i: usize = 0;
    while i < n
        invariant
            n == s@.len(),
            n == t@.len(),
            i <= n,
            forall|j: int| 0 <= j < i ==> ascii_lower(#[trigger] s@[j]) == ascii_lower(t@[j]),
        decreases n - i,
    {
        if lower(s.get_char(i)) != lower(t.get_char(i)) {
            return false;
        }
        i = i + 1;
    }
    true
}

/// Whether `str::parse::<f64>` accepts `s`.
pub fn is_f64(s: &str) -> (res: bool)
    ensures
        res == spec_is_f64(s@),
{
    let n = s.unicode_len();
    let t = if n > 0 && (s.get_char(0) == '+' || s.get_char(0) == '-') {
        let r = s.substring_char(1, n);
        assert(r@ =~= s@.drop_first());
        r
    } else {
        s
    };
    eq_ignore_case_exec(t, "inf") || eq_ignore_case_exec(t, "infinity") || eq_ignore_case_exec(
        t,
        "nan",
    ) || decimal_number(t)
}

/// The ASCII digit of `d` (below ten).
pub open spec fn digit_char(d: nat) -> char {
    if d == 0 { '0' } else if d == 1 { '1' } else if d == 2 { '2' } else if d == 3 { '3' } else if d == 4 { '4' }
    else if d == 5 { '5' } else if d == 6 { '6' } else if d == 7 { '7' } else if d == 8 { '8' } else { '9' }
}

/// The decimal writing of `n`, as `Display` gives it.
pub open spec fn dec_nat(n: nat) -> Seq<char>
    decreases n,
{
    if n < 10 {
        seq![digit_char(n)]
    } else {
        dec_nat(n / 10).push(digit_char(n % 10))
    }
}

/// The decimal writing of a signed integer: `-` before the negative ones.
pub open spec fn dec_int(i: int) -> Seq<char> {
    if i < 0 {
        seq!['-'] + dec_nat((-i) as nat)
    } else {
        dec_nat(i as nat)
    }
}

fn digit_str(d: u64) -> (res: &'static str)
    requires
        d < 10,
    ensures
        res@ == seq![digit_char(d as nat)],
{
    proof {
        reveal_strlit("0");
        reveal_strlit("1");
        reveal_strlit("2");
        reveal_strlit("3");
        reveal_strlit("4");
        reveal_strlit("5");
        reveal_strlit("6");
        reveal_strlit("7");
        reveal_strlit("8");
        reveal_strlit("9");
    }
    let r = if d == 0 { "0" } else if d == 1 { "1" } else if d == 2 { "2" } else if d == 3 { "3" }
    else if d == 4 { "4" } else if d == 5 { "5" } else if d == 6 { "6" } else if d == 7 { "7" }
    else if d == 8 { "8" } else { "9" };
    assert(r@ =~= seq![digit_char(d as nat)]);
    r
}

/// Appends the decimal writing of `n` to `s`.
pub fn push_u64(s: &mut String, n: u64)
    ensures
        final(s)@ == old(s)@ + dec_nat(n as nat),
    decreases n,
{
    if n < 10 {
        s.append(digit_str(n));
    } else {
        push_u64(s, n / 10);
        s.append(digit_str(n % 10));
        assert(old(s)@ + dec_nat((n / 10) as nat) + seq![digit_char((n % 10) as nat)] =~= old(s)@
            + dec_nat(n as nat));
    }
}

/// Appends the decimal writing of `i` to `s`.
pub fn push_i64(s: &mut String, i: i64)
    ensures
        final(s)@ == old(s)@ + dec_int(i as int),
{
    if i < 0 {
        proof {
            reveal_strlit("-");
        }
        s.append("-");
        let m: u64 = ((-(i + 1)) as u64) + 1;
        assert(m as int == -(i as int));
        push_u64(s, m);
        assert(old(s)@ + seq!['-'] + dec_nat(m as nat) =~= old(s)@ + dec_int(i as int));
    } else {
        push_u64(s, i as u64);
    }
}

} // verus!
