//! Parsing of component attributes: `name`, `name=true`, `name="text"`,
//! `name=12`, `name={{ var }}`, separated by whitespace.

use vstd::prelude::*;
use crate::context::{Context, CtxV};
use crate::error::{errs_view, ErrV, Error};
use crate::key::{spec_key_new, Key};
use crate::num::{is_f64, parse_i64, parse_u64, spec_is_f64, spec_parse_i64, spec_parse_u64};
use crate::text::{char_is_ascii_digit, char_is_ws, concat_str, is_ascii_digit, is_ws, lemma_ws_run_from_bound, spec_split_once, spec_strip_prefix, spec_trim, spec_trim_start, split_once, strip_prefix, to_owned, trim, trim_start};
use crate::value::{attrs_view, Attribute, AttributeV, AttributeValue, AttributeValueV, Literal, LiteralV};

verus! {

/// The Unicode `Alphabetic` property, as `char::is_alphabetic` reports it.
pub uninterp spec fn is_alphabetic(c: char) -> bool;

/// Calls `char::is_alphabetic`; the contract only names the answer.
#[verifier::external_body]
fn char_is_alphabetic(c: char) -> (res: bool)
    ensures
        res == is_alphabetic(c),
{
    c.is_alphabetic()
}

/// An attribute name is made of alphabetic characters and underscores.
pub open spec fn valid_attr_name(k: Seq<char>) -> bool {
    forall|i: int| 0 <= i < k.len() ==> is_alphabetic(#[trigger] k[i]) || k[i] == '_'
}

/// Index of the first whitespace or `=` of `s` from `i` on.
pub open spec fn first_ws_or_eq(s: Seq<char>, i: nat) -> Option<int>
    decreases s.len() - i,
{
    if i >= s.len() {
        None
    } else if is_ws(s[i as int]) || s[i as int] == '=' {
        Some(i as int)
    } else {
        first_ws_or_eq(s, i + 1)
    }
}

/// Index of the first whitespace of `s` from `i` on.
pub open spec fn first_ws(s: Seq<char>, i: nat) -> Option<int>
    decreases s.len() - i,
{
    if i >= s.len() {
        None
    } else if is_ws(s[i as int]) {
        Some(i as int)
    } else {
        first_ws(s, i + 1)
    }
}

/// Index of the first `"` of `s` from `i` on that is not escaped by a `\`.
pub open spec fn unescaped_quote(s: Seq<char>, i: nat, escaped: bool) -> Option<int>
    decreases s.len() - i,
{
    if i >= s.len() {
        None
    } else if escaped {
        unescaped_quote(s, i + 1, false)
    } else if s[i as int] == '\\' {
        unescaped_quote(s, i + 1, true)
    } else if s[i as int] == '"' {
        Some(i as int)
    } else {
        unescaped_quote(s, i + 1, false)
    }
}

/// A numeric attribute value: unsigned, else signed, else a float (kept as text).
pub open spec fn spec_parse_num(num: Seq<char>) -> Option<LiteralV> {
    match spec_parse_u64(num) {
        Some(v) => Some(LiteralV::Unsigned(v)),
        None => match spec_parse_i64(num) {
            Some(v) => Some(LiteralV::Signed(v)),
            None => if spec_is_f64(num) {
                Some(LiteralV::Float(num))
            } else {
                None
            },
        },
    }
}

/// An `InvalidAttribute` error in context `c`.
pub open spec fn attr_err(c: CtxV, name: Seq<char>, value: Seq<char>, err: Seq<char>) -> ErrV {
    ErrV::InvalidAttribute {
        locale: c.locale,
        key_path: c.key_path,
        attr_name: name,
        attr_value: value,
        err: err,
    }
}

/// Reads an attribute value from the start of `s` (what follows `name=`):
/// the value and the rest of the text, or the text to resume from after an
/// error, together with the errors reported.
pub open spec fn spec_pop_value(c: CtxV, key: Seq<char>, s: Seq<char>) -> (
    Result<(AttributeValueV, Seq<char>), Seq<char>>,
    Seq<ErrV>,
) {
    if spec_strip_prefix(s, "true "@) is Some {
        (Ok((AttributeValueV::Literal(LiteralV::Bool(true)), spec_strip_prefix(s, "true "@)->0)), seq![])
    } else if spec_strip_prefix(s, "false "@) is Some {
        (Ok((AttributeValueV::Literal(LiteralV::Bool(false)), spec_strip_prefix(s, "false "@)->0)), seq![])
    } else if spec_strip_prefix(s, "\""@) is Some {
        let rest = spec_strip_prefix(s, "\""@)->0;
        match unescaped_quote(rest, 0, false) {
            Some(i) => (
                Ok((AttributeValueV::Literal(LiteralV::String(rest.take(i), usize::MAX)), rest.skip(i + 1))),
                seq![],
            ),
            None => (Err(Seq::empty()), seq![attr_err(c, key, "\""@ + rest, "unterminated string"@)]),
        }
    } else if s.len() > 0 && (is_ascii_digit(s[0]) || s[0] == '.') {
        let (num, rest) = match first_ws(s, 0) {
            Some(i) => (s.take(i), s.skip(i + 1)),
            None => (s, Seq::empty()),
        };
        match spec_parse_num(num) {
            Some(l) => (Ok((AttributeValueV::Literal(l), rest)), seq![]),
            None => (
                Err(rest),
                seq![attr_err(c, key, num, "value appears to be a number, but can't be parsed as one"@)],
            ),
        }
    } else if spec_strip_prefix(s, "{{"@) is Some {
        let rest = spec_strip_prefix(s, "{{"@)->0;
        match spec_split_once(rest, "}}"@) {
            Some((k, rest2)) => {
                let name = "var_"@ + spec_trim(k);
                match spec_key_new(name) {
                    Some(kn) => (Ok((AttributeValueV::Variable(kn), rest2)), seq![]),
                    None => (
                        Err(rest2),
                        seq![ErrV::InvalidKeyAt { key: name, locale: c.locale, key_path: c.key_path }],
                    ),
                }
            },
            None => (Err(Seq::empty()), seq![attr_err(c, key, rest, "unterminated variable"@)]),
        }
    } else {
        (
            Err(Seq::empty()),
            seq![attr_err(c, key, s, "invalid argument (expect string, number, boolean or variable)"@)],
        )
    }
}

/// Reads one attribute from the start of `s`: `None` when only whitespace
/// is left, `Err(rest)` when the attribute is dropped after an error.
pub open spec fn spec_pop_key_and_value(c: CtxV, s: Seq<char>) -> (
    Option<Result<(Seq<char>, Option<AttributeValueV>, Seq<char>), Seq<char>>>,
    Seq<ErrV>,
) {
    let t = spec_trim_start(s);
    if t.len() == 0 {
        (None, seq![])
    } else {
        let (mk, rest0) = match first_ws_or_eq(t, 0) {
            Some(i) => (t.take(i), t.skip(i)),
            None => (t, Seq::empty()),
        };
        let key_ok = valid_attr_name(mk);
        let d1 = if key_ok {
            Seq::<ErrV>::empty()
        } else {
            seq![ErrV::InvalidAttributeName { locale: c.locale, key_path: c.key_path, value: mk }]
        };
        let rest = spec_trim_start(rest0);
        match spec_strip_prefix(rest, "="@) {
            Some(x0) => {
                let x = spec_trim_start(x0);
                if x.len() == 0 {
                    (
                        Some(Err(Seq::empty())),
                        d1.push(
                            attr_err(
                                c,
                                mk,
                                Seq::empty(),
                                "attribute have an '=' sign but no value afterward"@,
                            ),
                        ),
                    )
                } else {
                    let (pv, d2) = spec_pop_value(c, mk, x);
                    match pv {
                        Ok((v, r)) => if key_ok {
                            (Some(Ok((mk, Some(v), r))), d1 + d2)
                        } else {
                            (Some(Err(r)), d1 + d2)
                        },
                        Err(r) => (Some(Err(r)), d1 + d2),
                    }
                }
            },
            None => if key_ok {
                (Some(Ok((mk, None, rest))), d1)
            } else {
                (Some(Err(rest)), d1)
            },
        }
    }
}

pub proof fn lemma_trim_start_len(s: Seq<char>)
    ensures
        spec_trim_start(s).len() <= s.len(),
        s.len() > 0 && spec_trim_start(s).len() == s.len() ==> !is_ws(s[0]),
        spec_trim_start(s).len() > 0 ==> !is_ws(spec_trim_start(s)[0]),
        spec_trim_start(s) == s.skip(s.len() - spec_trim_start(s).len()),
{
    lemma_ws_run_from_bound(s, 0);
}

proof fn lemma_first_ws_or_eq(s: Seq<char>, i: nat)
    ensures
        first_ws_or_eq(s, i) matches Some(k) ==> i <= k < s.len() && (is_ws(s[k]) || s[k] == '='),
    decreases s.len() - i,
{
    if i < s.len() && !(is_ws(s[i as int]) || s[i as int] == '=') {
        lemma_first_ws_or_eq(s, i + 1);
    }
}

proof fn lemma_first_ws(s: Seq<char>, i: nat)
    ensures
        first_ws(s, i) matches Some(k) ==> i <= k < s.len() && is_ws(s[k]),
    decreases s.len() - i,
{
    if i < s.len() && !is_ws(s[i as int]) {
        lemma_first_ws(s, i + 1);
    }
}

proof fn lemma_unescaped_quote(s: Seq<char>, i: nat, e: bool)
    ensures
        unescaped_quote(s, i, e) matches Some(k) ==> i <= k < s.len(),
    decreases s.len() - i,
{
    if i < s.len() {
        lemma_unescaped_quote(s, i + 1, false);
        lemma_unescaped_quote(s, i + 1, true);
    }
}

pub proof fn lemma_pop_value_rest(c: CtxV, key: Seq<char>, s: Seq<char>)
    ensures
        match spec_pop_value(c, key, s).0 {
            Ok((_, r)) => r.len() <= s.len(),
            Err(r) => r.len() <= s.len(),
        },
{
    reveal_strlit("true ");
    reveal_strlit("false ");
    reveal_strlit("\"");
    reveal_strlit("{{");
    reveal_strlit("}}");
    if spec_strip_prefix(s, "\""@) is Some {
        let rest = spec_strip_prefix(s, "\""@)->0;
        lemma_unescaped_quote(rest, 0, false);
    }
    lemma_first_ws(s, 0);
    if spec_strip_prefix(s, "{{"@) is Some {
        let rest = spec_strip_prefix(s, "{{"@)->0;
        crate::text::lemma_find_from_bound(rest, "}}"@, 0);
    }
}

pub proof fn lemma_pop_kv_shorter(c: CtxV, s: Seq<char>)
    ensures
        match spec_pop_key_and_value(c, s).0 {
            Some(Ok((_, _, r))) => r.len() < s.len(),
            Some(Err(r)) => r.len() < s.len(),
            None => true,
        },
{
    reveal_strlit("=");
    let t = spec_trim_start(s);
    lemma_trim_start_len(s);
    if t.len() > 0 {
        lemma_first_ws_or_eq(t, 0);
        let (mk, rest0) = match first_ws_or_eq(t, 0) {
            Some(i) => (t.take(i), t.skip(i)),
            None => (t, Seq::<char>::empty()),
        };
        let rest = spec_trim_start(rest0);
        lemma_trim_start_len(rest0);
        if let Some(x0) = spec_strip_prefix(rest, "="@) {
            let x = spec_trim_start(x0);
            lemma_trim_start_len(x0);
            lemma_pop_value_rest(c, mk, x);
        } else {
            if let Some(i) = first_ws_or_eq(t, 0) {
                if i == 0 {
                    assert(t[0] == '=');
                    assert(rest0 =~= t);
                    assert(rest[0] == '=');
                    assert(rest.take(1) =~= "="@);
                }
            }
        }
    }
}

/// All attributes of `s`, in order, with the errors reported.
pub open spec fn spec_parse_attributes(c: CtxV, s: Seq<char>) -> (Seq<AttributeV>, Seq<ErrV>)
    decreases s.len(),
{
    let (r, d) = spec_pop_key_and_value(c, s);
    proof {
        lemma_pop_kv_shorter(c, s);
    }
    match r {
        None => (seq![], d),
        Some(Err(rest)) => {
            let (a, d2) = spec_parse_attributes(c, rest);
            (a, d + d2)
        },
        Some(Ok((k, v, rest))) => {
            let (a, d2) = spec_parse_attributes(c, rest);
            (seq![AttributeV { key: k, value: v }] + a, d + d2)
        },
    }
}

fn first_ws_or_eq_exec(s: &str) -> (res: Option<usize>)
    ensures
        res matches Some(i) ==> first_ws_or_eq(s@, 0) == Some(i as int),
        res is None ==> first_ws_or_eq(s@, 0) is None,
{
    let n = s.unicode_len();
    let mut i: usize = 0;
    while i < n
        invariant
            n == s@.len(),
            i <= n,
            first_ws_or_eq(s@, 0) == first_ws_or_eq(s@, i as nat),
        decreases n - i,
    {
        let ch = s.get_char(i);
        if char_is_ws(ch) || ch == '=' {
            return Some(i);
        }
        i = i + 1;
    }
    None
}

fn first_ws_exec(s: &str) -> (res: Option<usize>)
    ensures
        res matches Some(i) ==> first_ws(s@, 0) == Some(i as int),
        res is None ==> first_ws(s@, 0) is None,
{
    let n = s.unicode_len();
    let mut i: usize = 0;
    while i < n
        invariant
            n == s@.len(),
            i <= n,
            first_ws(s@, 0) == first_ws(s@, i as nat),
        decreases n - i,
    {
        if char_is_ws(s.get_char(i)) {
            return Some(i);
        }
        i = i + 1;
    }
    None
}

fn unescaped_quote_exec(s: &str) -> (res: Option<usize>)
    ensures
        res matches Some(i) ==> unescaped_quote(s@, 0, false) == Some(i as int),
        res is None ==> unescaped_quote(s@, 0, false) is None,
{
    let n = s.unicode_len();
    let mut i: usize = 0;
    let mut escaped = false;
    while i < n
        invariant
            n == s@.len(),
            i <= n,
            unescaped_quote(s@, 0, false) == unescaped_quote(s@, i as nat, escaped),
        decreases n - i,
    {
        let ch = s.get_char(i);
        if escaped {
            escaped = false;
        } else if ch == '\\' {
            escaped = true;
        } else if ch == '"' {
            return Some(i);
        }
        i = i + 1;
    }
    None
}

fn valid_attr_name_exec(k: &str) -> (res: bool)
    ensures
        res == valid_attr_name(k@),
{
    let n = k.unicode_len();
    let mut i: usize = 0;
    while i < n
        invariant
            n == k@.len(),
            i <= n,
            forall|j: int| 0 <= j < i ==> is_alphabetic(#[trigger] k@[j]) || k@[j] == '_',
        decreases n - i,
    {
        let ch = k.get_char(i);
        if !(char_is_alphabetic(ch) || ch == '_') {
            return false;
        }
        i = i + 1;
    }
    true
}

/// A numeric attribute value.
pub fn parse_num(num: &str) -> (res: Option<Literal>)
    ensures
        match res {
            Some(l) => spec_parse_num(num@) == Some(l@),
            None => spec_parse_num(num@) is None,
        },
{
    if let Some(v) = parse_u64(num) {
        Some(Literal::Unsigned(v))
    } else if let Some(v) = parse_i64(num) {
        Some(Literal::Signed(v))
    } else if is_f64(num) {
        Some(Literal::Float(to_owned(num)))
    } else {
        None
    }
}

/// Reads an attribute value from the start of `s`.
pub fn pop_value<'a>(ctx: &Context, key: &str, s: &'a str, diag: &mut Vec<Error>) -> (res: Result<
    (AttributeValue, &'a str),
    &'a str,
>)
    ensures
        errs_view(final(diag)@) == errs_view(old(diag)@) + spec_pop_value(ctx@, key@, s@).1,
        match (res, spec_pop_value(ctx@, key@, s@).0) {
            (Ok((v, r)), Ok((sv, sr))) => v@ == sv && r@ == sr,
            (Err(r), Err(sr)) => r@ == sr,
            _ => false,
        },
{
    proof {
        reveal_strlit("true ");
        reveal_strlit("false ");
        reveal_strlit("\"");
        reveal_strlit("{{");
        reveal_strlit("}}");
        reveal_strlit("var_");
    }
    let ghost d0 = diag@;
    if let Some(rest) = strip_prefix(s, "true ") {
        assert(errs_view(diag@) =~= errs_view(d0) + Seq::<ErrV>::empty());
        return Ok((AttributeValue::Literal(Literal::Bool(true)), rest));
    }
    if let Some(rest) = strip_prefix(s, "false ") {
        assert(errs_view(diag@) =~= errs_view(d0) + Seq::<ErrV>::empty());
        return Ok((AttributeValue::Literal(Literal::Bool(false)), rest));
    }
    if let Some(rest) = strip_prefix(s, "\"") {
        match unescaped_quote_exec(rest) {
            Some(i) => {
                proof {
                    lemma_unescaped_quote(rest@, 0, false);
                }
                let rn = rest.unicode_len();
                let v = rest.substring_char(0, i);
                let r = rest.substring_char(i + 1, rn);
                assert(v@ =~= rest@.take(i as int));
                assert(r@ =~= rest@.skip(i + 1));
                assert(errs_view(diag@) =~= errs_view(d0) + Seq::<ErrV>::empty());
                return Ok((AttributeValue::Literal(Literal::String(to_owned(v), usize::MAX)), r));
            },
            None => {
                let value = concat_str("\"", rest);
                let e = ctx.invalid_attribute(key, value.as_str(), "unterminated string");
                diag.push(e);
                let empty = s.substring_char(0, 0);
                assert(empty@ =~= Seq::<char>::empty());
                assert(errs_view(diag@) =~= errs_view(d0) + seq![e@]);
                return Err(empty);
            },
        }
    }
    let n = s.unicode_len();
    if n > 0 && (char_is_ascii_digit(s.get_char(0)) || s.get_char(0) == '.') {
        let (num, rest) = match first_ws_exec(s) {
            Some(i) => {
                proof {
                    lemma_first_ws(s@, 0);
                }
                let a = s.substring_char(0, i);
                let b = s.substring_char(i + 1, n);
                assert(a@ =~= s@.take(i as int));
                assert(b@ =~= s@.skip(i + 1));
                (a, b)
            },
            None => {
                let b = s.substring_char(n, n);
                assert(b@ =~= Seq::<char>::empty());
                (s, b)
            },
        };
        match parse_num(num) {
            Some(l) => {
                assert(errs_view(diag@) =~= errs_view(d0) + Seq::<ErrV>::empty());
                return Ok((AttributeValue::Literal(l), rest));
            },
            None => {
                let e = ctx.invalid_attribute(
                    key,
                    num,
                    "value appears to be a number, but can't be parsed as one",
                );
                diag.push(e);
                assert(errs_view(diag@) =~= errs_view(d0) + seq![e@]);
                return Err(rest);
            },
        }
    }
    if let Some(rest) = strip_prefix(s, "{{") {
        match split_once(rest, "}}") {
            Some((k, rest2)) => {
                let name = concat_str("var_", trim(k));
                match Key::new(name.as_str()) {
                    Some(kn) => {
                        assert(errs_view(diag@) =~= errs_view(d0) + Seq::<ErrV>::empty());
                        return Ok((AttributeValue::Variable(kn), rest2));
                    },
                    None => {
                        let e = ctx.invalid_key_at(name.as_str());
                        diag.push(e);
                        assert(errs_view(diag@) =~= errs_view(d0) + seq![e@]);
                        return Err(rest2);
                    },
                }
            },
            None => {
                let e = ctx.invalid_attribute(key, rest, "unterminated variable");
                diag.push(e);
                let empty = s.substring_char(0, 0);
                assert(empty@ =~= Seq::<char>::empty());
                assert(errs_view(diag@) =~= errs_view(d0) + seq![e@]);
                return Err(empty);
            },
        }
    }
    let e = ctx.invalid_attribute(key, s, "invalid argument (expect string, number, boolean or variable)");
    diag.push(e);
    let empty = s.substring_char(0, 0);
    assert(empty@ =~= Seq::<char>::empty());
    assert(errs_view(diag@) =~= errs_view(d0) + seq![e@]);
    Err(empty)
}

/// Reads one attribute from the start of `s`.
pub fn pop_key_and_value<'a>(ctx: &Context, s: &'a str, diag: &mut Vec<Error>) -> (res: Option<
    Result<(&'a str, Option<AttributeValue>, &'a str), &'a str>,
>)
    ensures
        errs_view(final(diag)@) == errs_view(old(diag)@) + spec_pop_key_and_value(ctx@, s@).1,
        match (res, spec_pop_key_and_value(ctx@, s@).0) {
            (None, None) => true,
            (Some(Ok((k, v, r))), Some(Ok((sk, sv, sr)))) => k@ == sk && r@ == sr && match (
                v,
                sv,
            ) {
                (Some(a), Some(b)) => a@ == b,
                (None, None) => true,
                _ => false,
            },
            (Some(Err(r)), Some(Err(sr))) => r@ == sr,
            _ => false,
        },
{
    proof {
        reveal_strlit("=");
    }
    let ghost d0 = diag@;
    let t = trim_start(s);
    let n = t.unicode_len();
    if n == 0 {
        assert(errs_view(diag@) =~= errs_view(d0) + Seq::<ErrV>::empty());
        return None;
    }
    let (mk, rest0) = match first_ws_or_eq_exec(t) {
        Some(i) => {
            proof {
                lemma_first_ws_or_eq(t@, 0);
            }
            let a = t.substring_char(0, i);
            let b = t.substring_char(i, n);
            assert(a@ =~= t@.take(i as int));
            assert(b@ =~= t@.skip(i as int));
            (a, b)
        },
        None => {
            let b = t.substring_char(n, n);
            assert(b@ =~= Seq::<char>::empty());
            (t, b)
        },
    };
    let key_ok = valid_attr_name_exec(mk);
    if !key_ok {
        let e = ctx.invalid_attribute_name(mk);
        diag.push(e);
    }
    let ghost d1 = diag@;
    assert(errs_view(d1) =~= errs_view(d0) + (if key_ok {
        Seq::<ErrV>::empty()
    } else {
        seq![ErrV::InvalidAttributeName { locale: ctx@.locale, key_path: ctx@.key_path, value: mk@ }]
    }));
    let rest = trim_start(rest0);
    match strip_prefix(rest, "=") {
        Some(x0) => {
            let x = trim_start(x0);
            if x.unicode_len() == 0 {
                let e = ctx.invalid_attribute(mk, "", "attribute have an '=' sign but no value afterward");
                proof {
                    reveal_strlit("");
                    assert(""@ =~= Seq::<char>::empty());
                }
                diag.push(e);
                let empty = s.substring_char(0, 0);
                assert(empty@ =~= Seq::<char>::empty());
                assert(errs_view(diag@) =~= errs_view(d1).push(e@));
                assert(errs_view(diag@) =~= errs_view(d0) + spec_pop_key_and_value(ctx@, s@).1);
                return Some(Err(empty));
            }
            let pv = pop_value(ctx, mk, x, diag);
            match pv {
                Ok((v, r)) => {
                    if key_ok {
                        Some(Ok((mk, Some(v), r)))
                    } else {
                        Some(Err(r))
                    }
                },
                Err(r) => Some(Err(r)),
            }
        },
        None => {
            assert(errs_view(diag@) =~= errs_view(d1) + Seq::<ErrV>::empty());
            if key_ok {
                Some(Ok((mk, None, rest)))
            } else {
                Some(Err(rest))
            }
        },
    }
}

/// Parses all attributes of `s`. Attributes with errors are reported and dropped.
pub fn parse_attributes(ctx: &Context, s: &str, diag: &mut Vec<Error>) -> (res: Vec<Attribute>)
    ensures
        errs_view(final(diag)@) == errs_view(old(diag)@) + spec_parse_attributes(ctx@, s@).1,
        attrs_view(res@) == spec_parse_attributes(ctx@, s@).0,
    decreases s@.len(),
{
    let ghost d0 = diag@;
    proof {
        lemma_pop_kv_shorter(ctx@, s@);
    }
    match pop_key_and_value(ctx, s, diag) {
        None => {
            let v: Vec<Attribute> = Vec::new();
            assert(attrs_view(v@) =~= Seq::<AttributeV>::empty());
            v
        },
        Some(Err(rest)) => {
            let a = parse_attributes(ctx, rest, diag);
            assert(errs_view(diag@) =~= errs_view(d0) + spec_parse_attributes(ctx@, s@).1);
            a
        },
        Some(Ok((k, v, rest))) => {
            let a = parse_attributes(ctx, rest, diag);
            let mut out: Vec<Attribute> = Vec::new();
            out.push(Attribute { key: to_owned(k), value: v });
            let mut a = a;
            out.append(&mut a);
            assert(errs_view(diag@) =~= errs_view(d0) + spec_parse_attributes(ctx@, s@).1);
            assert(attrs_view(out@) =~= spec_parse_attributes(ctx@, s@).0);
            out
        },
    }
}

} // verus!
