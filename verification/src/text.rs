//! Character-level string helpers whose contracts speak of the `Seq<char>`
//! view of strings: searching, splitting, trimming and prefix handling.

use vstd::prelude::*;

verus! {

/// The first index at or after `i` where `p` occurs in `s`.
pub open spec fn find_from(s: Seq<char>, p: Seq<char>, i: nat) -> Option<int>
    decreases s.len() + 1 - i,
{
    if i + p.len() > s.len() {
        None
    } else if s.subrange(i as int, (i + p.len()) as int) == p {
        Some(i as int)
    } else {
        find_from(s, p, i + 1)
    }
}

/// The first index where `p` occurs in `s`.
pub open spec fn spec_find(s: Seq<char>, p: Seq<char>) -> Option<int> {
    find_from(s, p, 0)
}

/// The last index strictly below `end` where the character `c` occurs.
pub open spec fn rfind_char_before(s: Seq<char>, c: char, end: int) -> Option<int>
    decreases end,
{
    if end <= 0 {
        None
    } else if s[end - 1] == c {
        Some(end - 1)
    } else {
        rfind_char_before(s, c, end - 1)
    }
}

/// The last index where `c` occurs in `s`.
pub open spec fn spec_rfind_char(s: Seq<char>, c: char) -> Option<int> {
    rfind_char_before(s, c, s.len() as int)
}

/// Splits around the first occurrence of `p`.
pub open spec fn spec_split_once(s: Seq<char>, p: Seq<char>) -> Option<(Seq<char>, Seq<char>)> {
    match spec_find(s, p) {
        Some(i) => Some((s.take(i), s.skip(i + p.len()))),
        None => None,
    }
}

/// Splits around the last occurrence of `c`.
pub open spec fn spec_rsplit_once(s: Seq<char>, c: char) -> Option<(Seq<char>, Seq<char>)> {
    match spec_rfind_char(s, c) {
        Some(i) => Some((s.take(i), s.skip(i + 1))),
        None => None,
    }
}

/// The Unicode `White_Space` property.
pub open spec fn is_ws(c: char) -> bool {
    let x = c as u32;
    ||| 0x9 <= x <= 0xd
    ||| x == 0x20
    ||| x == 0x85
    ||| x == 0xa0
    ||| x == 0x1680
    ||| 0x2000 <= x <= 0x200a
    ||| x == 0x2028
    ||| x == 0x2029
    ||| x == 0x202f
    ||| x == 0x205f
    ||| x == 0x3000
}

/// Number of leading whitespace characters of `s` from index `i` on.
pub open spec fn ws_run_from(s: Seq<char>, i: nat) -> nat
    decreases s.len() - i,
{
    if i >= s.len() {
        0
    } else if is_ws(s[i as int]) {
        1 + ws_run_from(s, i + 1)
    } else {
        0
    }
}

/// Number of trailing whitespace characters of `s` in `s[..end]`.
pub open spec fn ws_run_back(s: Seq<char>, end: int) -> nat
    decreases end,
{
    if end <= 0 {
        0
    } else if is_ws(s[end - 1]) {
        1 + ws_run_back(s, end - 1)
    } else {
        0
    }
}

/// `s` without leading whitespace.
pub open spec fn spec_trim_start(s: Seq<char>) -> Seq<char> {
    s.skip(ws_run_from(s, 0) as int)
}

/// `s` without trailing whitespace.
pub open spec fn spec_trim_end(s: Seq<char>) -> Seq<char> {
    s.take(s.len() - ws_run_back(s, s.len() as int))
}

/// `s` without leading and trailing whitespace.
pub open spec fn spec_trim(s: Seq<char>) -> Seq<char> {
    spec_trim_end(spec_trim_start(s))
}

/// `s` starts with `p`.
pub open spec fn starts_with(s: Seq<char>, p: Seq<char>) -> bool {
    p.len() <= s.len() && s.take(p.len() as int) == p
}

/// `s` ends with `p`.
pub open spec fn ends_with(s: Seq<char>, p: Seq<char>) -> bool {
    p.len() <= s.len() && s.skip(s.len() - p.len()) == p
}

/// `s` without the prefix `p`, if it has it.
pub open spec fn spec_strip_prefix(s: Seq<char>, p: Seq<char>) -> Option<Seq<char>> {
    if starts_with(s, p) {
        Some(s.skip(p.len() as int))
    } else {
        None
    }
}

/// `s` without the suffix `p`, if it has it.
pub open spec fn spec_strip_suffix(s: Seq<char>, p: Seq<char>) -> Option<Seq<char>> {
    if ends_with(s, p) {
        Some(s.take(s.len() - p.len()))
    } else {
        None
    }
}

pub proof fn lemma_ws_run_from_bound(s: Seq<char>, i: nat)
    requires
        i <= s.len(),
    ensures
        i + ws_run_from(s, i) <= s.len(),
        forall|k: int| i <= k < i + ws_run_from(s, i) ==> is_ws(#[trigger] s[k]),
        i + ws_run_from(s, i) < s.len() ==> !is_ws(s[(i + ws_run_from(s, i)) as int]),
    decreases s.len() - i,
{
    if i < s.len() && is_ws(s[i as int]) {
        lemma_ws_run_from_bound(s, i + 1);
    }
}

pub proof fn lemma_ws_run_back_bound(s: Seq<char>, end: int)
    requires
        0 <= end <= s.len(),
    ensures
        ws_run_back(s, end) <= end,
        forall|k: int| end - ws_run_back(s, end) <= k < end ==> is_ws(#[trigger] s[k]),
        end - ws_run_back(s, end) > 0 ==> !is_ws(s[end - ws_run_back(s, end) - 1]),
    decreases end,
{
    if end > 0 && is_ws(s[end - 1]) {
        lemma_ws_run_back_bound(s, end - 1);
    }
}

/// Tests the Unicode `White_Space` property.
pub fn char_is_ws(c: char) -> (res: bool)
    ensures
        res == is_ws(c),
{
    let x = c as u32;
    (0x9 <= x && x <= 0xd) || x == 0x20 || x == 0x85 || x == 0xa0 || x == 0x1680 || (0x2000 <= x
        && x <= 0x200a) || x == 0x2028 || x == 0x2029 || x == 0x202f || x == 0x205f || x == 0x3000
}

/// An ASCII decimal digit.
pub open spec fn is_ascii_digit(c: char) -> bool {
    '0' <= c <= '9'
}

/// An ASCII letter.
pub open spec fn is_ascii_alpha(c: char) -> bool {
    ('a' <= c <= 'z') || ('A' <= c <= 'Z')
}

pub fn char_is_ascii_digit(c: char) -> (res: bool)
    ensures
        res == is_ascii_digit(c),
{
    '0' <= c && c <= '9'
}

pub fn char_is_ascii_alpha(c: char) -> (res: bool)
    ensures
        res == is_ascii_alpha(c),
{
    ('a' <= c && c <= 'z') || ('A' <= c && c <= 'Z')
}

/// Exact equality of two strings, compared character by character.
pub fn str_eq(a: &str, b: &str) -> (res: bool)
    ensures
        res == (a@ == b@),
{
    let n = a.unicode_len();
    let m = b.unicode_len();
    if n != m {
        return false;
    }
    let mut i: usize = 0;
    while i < n
        invariant
            n == a@.len(),
            m == b@.len(),
            n == m,
            i <= n,
            forall|j: int| 0 <= j < i ==> a@[j] == b@[j],
        decreases n - i,
    {
        if a.get_char(i) != b.get_char(i) {
            return false;
        }
        i = i + 1;
    }
    assert(a@ =~= b@);
    true
}

/// Whether `p` occurs in `s` at character index `i`.
pub fn match_at(s: &str, p: &str, i: usize) -> (res: bool)
    requires
        i <= s@.len(),
    ensures
        res == (i + p@.len() <= s@.len() && s@.subrange(i as int, i + p@.len()) == p@),
{
    let n = s.unicode_len();
    let m = p.unicode_len();
    if m > n - i {
        return false;
    }
    let mut k: usize = 0;
    while k < m
        invariant
            n == s@.len(),
            m == p@.len(),
            i + m <= n,
            k <= m,
            forall|j: int| 0 <= j < k ==> s@[i + j] == p@[j],
        decreases m - k,
    {
        if s.get_char(i + k) != p.get_char(k) {
            assert(s@.subrange(i as int, i + m)[k as int] != p@[k as int]);
            return false;
        }
        k = k + 1;
    }
    assert(s@.subrange(i as int, i + m) =~= p@);
    true
}

/// The first character index where `p` occurs in `s`.
pub fn find(s: &str, p: &str) -> (res: Option<usize>)
    ensures
        res matches Some(i) ==> spec_find(s@, p@) == Some(i as int),
        res is None ==> spec_find(s@, p@) is None,
{
    let n = s.unicode_len();
    let m = p.unicode_len();
    let mut i: usize = 0;
    while i <= n
        invariant
            n == s@.len(),
            m == p@.len(),
            i <= n + 1,
            find_from(s@, p@, 0) == find_from(s@, p@, i as nat),
        decreases n + 1 - i,
    {
        if m > n - i {
            return None;
        }
        if match_at(s, p, i) {
            return Some(i);
        }
        assert(m > 0) by {
            if m == 0 {
                assert(s@.subrange(i as int, i as int) =~= p@);
            }
        }
        i = i + 1;
    }
    None
}

/// Splits `s` around the first occurrence of `p`.
pub fn split_once<'a>(s: &'a str, p: &str) -> (res: Option<(&'a str, &'a str)>)
    ensures
        res matches Some((a, b)) ==> spec_split_once(s@, p@) == Some((a@, b@)),
        res is None ==> spec_split_once(s@, p@) is None,
{
    match find(s, p) {
        Some(i) => {
            proof {
                lemma_find_from_bound(s@, p@, 0);
            }
            let n = s.unicode_len();
            let m = p.unicode_len();
            let a = s.substring_char(0, i);
            let b = s.substring_char(i + m, n);
            assert(a@ =~= s@.take(i as int));
            assert(b@ =~= s@.skip(i + m));
            Some((a, b))
        },
        None => None,
    }
}

pub proof fn lemma_find_from_bound(s: Seq<char>, p: Seq<char>, i: nat)
    ensures
        find_from(s, p, i) matches Some(k) ==> i <= k && k + p.len() <= s.len() && s.subrange(
            k,
            k + p.len(),
        ) == p,
    decreases s.len() + 1 - i,
{
    if i + p.len() <= s.len() && s.subrange(i as int, (i + p.len()) as int) != p {
        lemma_find_from_bound(s, p, i + 1);
    }
}

/// The pieces of `s` between the occurrences of `p` (a non-empty pattern),
/// as `str::split` gives them: always at least one.
pub open spec fn spec_split(s: Seq<char>, p: Seq<char>) -> Seq<Seq<char>>
    decreases s.len(),
{
    match spec_split_once(s, p) {
        Some((a, b)) => {
            proof {
                lemma_find_from_bound(s, p, 0);
            }
            if b.len() < s.len() {
                seq![a] + spec_split(b, p)
            } else {
                seq![s]
            }
        },
        None => seq![s],
    }
}

/// Splits `s` at every occurrence of `p`.
pub fn split<'a>(s: &'a str, p: &str) -> (res: Vec<&'a str>)
    requires
        p@.len() > 0,
    ensures
        res@.map_values(|x: &str| x@) == spec_split(s@, p@),
{
    let ghost all = spec_split(s@, p@);
    let mut out: Vec<&str> = Vec::new();
    let mut cur = s;
    loop
        invariant
            p@.len() > 0,
            all == spec_split(s@, p@),
            all == out@.map_values(|x: &str| x@) + spec_split(cur@, p@),
        decreases cur@.len(),
    {
        proof {
            lemma_find_from_bound(cur@, p@, 0);
        }
        match split_once(cur, p) {
            Some((a, b)) => {
                assert(spec_split(cur@, p@) == seq![a@] + spec_split(b@, p@));
                let ghost old_out = out@;
                out.push(a);
                assert(out@.map_values(|x: &str| x@) =~= old_out.map_values(|x: &str| x@).push(a@));
                assert(out@.map_values(|x: &str| x@) + spec_split(b@, p@) =~= old_out.map_values(
                    |x: &str| x@,
                ) + (seq![a@] + spec_split(b@, p@)));
                cur = b;
            },
            None => {
                assert(spec_split(cur@, p@) == seq![cur@]);
                let ghost old_out = out@;
                out.push(cur);
                assert(out@.map_values(|x: &str| x@) =~= old_out.map_values(|x: &str| x@).push(cur@));
                assert(all =~= out@.map_values(|x: &str| x@));
                return out;
            },
        }
    }
}

/// The last character index where `c` occurs in `s`.
pub fn rfind_char(s: &str, c: char) -> (res: Option<usize>)
    ensures
        res matches Some(i) ==> spec_rfind_char(s@, c) == Some(i as int),
        res is None ==> spec_rfind_char(s@, c) is None,
{
    let n = s.unicode_len();
    let mut end: usize = n;
    while end > 0
        invariant
            n == s@.len(),
            end <= n,
            rfind_char_before(s@, c, n as int) == rfind_char_before(s@, c, end as int),
        decreases end,
    {
        if s.get_char(end - 1) == c {
            return Some(end - 1);
        }
        end = end - 1;
    }
    None
}

pub proof fn lemma_rfind_bound(s: Seq<char>, c: char, end: int)
    requires
        end <= s.len(),
    ensures
        rfind_char_before(s, c, end) matches Some(k) ==> 0 <= k < end && s[k] == c,
    decreases end,
{
    if end > 0 && s[end - 1] != c {
        lemma_rfind_bound(s, c, end - 1);
    }
}

/// Splits `s` around the last occurrence of `c`.
pub fn rsplit_once_char<'a>(s: &'a str, c: char) -> (res: Option<(&'a str, &'a str)>)
    ensures
        res matches Some((a, b)) ==> spec_rsplit_once(s@, c) == Some((a@, b@)),
        res is None ==> spec_rsplit_once(s@, c) is None,
{
    match rfind_char(s, c) {
        Some(i) => {
            proof {
                lemma_rfind_bound(s@, c, s@.len() as int);
            }
            let n = s.unicode_len();
            let a = s.substring_char(0, i);
            let b = s.substring_char(i + 1, n);
            assert(a@ =~= s@.take(i as int));
            assert(b@ =~= s@.skip(i + 1));
            Some((a, b))
        },
        None => None,
    }
}

/// `s` without leading whitespace.
pub fn trim_start(s: &str) -> (res: &str)
    ensures
        res@ == spec_trim_start(s@),
{
    let n = s.unicode_len();
    let mut i: usize = 0;
    while i < n && char_is_ws(s.get_char(i))
        invariant
            n == s@.len(),
            i <= n,
            ws_run_from(s@, 0) == i + ws_run_from(s@, i as nat),
        decreases n - i,
    {
        i = i + 1;
    }
    let r = s.substring_char(i, n);
    assert(r@ =~= s@.skip(i as int));
    r
}

/// `s` without trailing whitespace.
pub fn trim_end(s: &str) -> (res: &str)
    ensures
        res@ == spec_trim_end(s@),
{
    let n = s.unicode_len();
    let mut end: usize = n;
    while end > 0 && char_is_ws(s.get_char(end - 1))
        invariant
            n == s@.len(),
            end <= n,
            ws_run_back(s@, n as int) == (n - end) + ws_run_back(s@, end as int),
        decreases end,
    {
        end = end - 1;
    }
    let r = s.substring_char(0, end);
    assert(r@ =~= s@.take(end as int));
    r
}

/// `s` without leading and trailing whitespace.
pub fn trim(s: &str) -> (res: &str)
    ensures
        res@ == spec_trim(s@),
{
    trim_end(trim_start(s))
}

/// Whether `s` starts with `p`.
pub fn has_prefix(s: &str, p: &str) -> (res: bool)
    ensures
        res == starts_with(s@, p@),
{
    let r = match_at(s, p, 0);
    assert(s@.subrange(0, p@.len() as int) =~= s@.take(p@.len() as int));
    r
}

/// Whether `s` ends with `p`.
pub fn has_suffix(s: &str, p: &str) -> (res: bool)
    ensures
        res == ends_with(s@, p@),
{
    let n = s.unicode_len();
    let m = p.unicode_len();
    if m > n {
        return false;
    }
    let r = match_at(s, p, n - m);
    assert(s@.subrange(n - m, n as int) =~= s@.skip(n - m));
    r
}

/// `s` without the prefix `p`, if it has it.
pub fn strip_prefix<'a>(s: &'a str, p: &str) -> (res: Option<&'a str>)
    ensures
        res matches Some(r) ==> spec_strip_prefix(s@, p@) == Some(r@),
        res is None ==> spec_strip_prefix(s@, p@) is None,
{
    if has_prefix(s, p) {
        let r = s.substring_char(p.unicode_len(), s.unicode_len());
        assert(r@ =~= s@.skip(p@.len() as int));
        Some(r)
    } else {
        None
    }
}

/// `s` without the suffix `p`, if it has it.
pub fn strip_suffix<'a>(s: &'a str, p: &str) -> (res: Option<&'a str>)
    ensures
        res matches Some(r) ==> spec_strip_suffix(s@, p@) == Some(r@),
        res is None ==> spec_strip_suffix(s@, p@) is None,
{
    if has_suffix(s, p) {
        let r = s.substring_char(0, s.unicode_len() - p.unicode_len());
        assert(r@ =~= s@.take(s@.len() - p@.len()));
        Some(r)
    } else {
        None
    }
}

/// An owned copy of `s`.
pub fn to_owned(s: &str) -> (res: String)
    ensures
        res@ == s@,
{
    s.to_owned()
}

/// `a` followed by `b`, as a new string.
pub fn concat_str(a: &str, b: &str) -> (res: String)
    ensures
        res@ == a@ + b@,
{
    let mut r = s_to_string(a);
    r.append(b);
    r
}

fn s_to_string(a: &str) -> (res: String)
    ensures
        res@ == a@,
{
    a.to_owned()
}

} // verus!
