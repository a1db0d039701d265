//! Parsing of translation strings: components (`<b>...</b>`, `<br/>`),
//! foreign keys (`$t(ns:key.sub, {"arg": ...})`) and variables
//! (`{{ name, formatter(args) }}`).

use vstd::prelude::*;
use crate::attrs::{lemma_trim_start_len, parse_attributes, spec_parse_attributes};
use crate::context::{Context, CtxV};
use crate::error::{errs_view, lemma_errs_push, ErrV, Error};
use crate::formatter::{args_view, spec_err_message, spec_from_name_and_args, Formatter};
use crate::key::{spec_key_new, Key, KeyPath, KeyPathV};
use crate::text::{concat_str, ends_with, find, has_suffix, lemma_find_from_bound, rsplit_once_char, spec_find, spec_rsplit_once, spec_split_once, spec_strip_prefix, spec_trim, spec_trim_start, split_once, str_eq, strip_prefix, to_owned, trim, trim_start};
use crate::value::{view_value, lemma_view_args_insert, lemma_view_args_update, lemma_view_values_push, lemma_view_args_len, lemma_view_values_append, lemma_view_values_len, view_args, view_values, Dummy, DummyV, FkV, ForeignKey, Literal, LiteralV, ParsedValue, ValueV, VarBound};

verus! {

/// The view of an optional string piece.
pub open spec fn opt_view(o: Option<&str>) -> Option<Seq<char>> {
    match o {
        Some(s) => Some(s@),
        None => None,
    }
}

/// `Some(s)` unless `s` is empty.
pub open spec fn non_empty(s: Seq<char>) -> Option<Seq<char>> {
    if s.len() == 0 {
        None
    } else {
        Some(s)
    }
}

/// The first tag `<...>` of `v`: the text before it, its trimmed content
/// (without a final `/`), the text after it, the number of characters up to
/// the end of the tag, and whether it is self-closing (`<.../>`).
pub open spec fn spec_opening_tag(v: Seq<char>) -> Option<(Seq<char>, Seq<char>, Seq<char>, int, bool)> {
    match spec_find(v, "<"@) {
        None => None,
        Some(open) => match spec_find(v.skip(open), ">"@) {
            None => None,
            Some(rel) => {
                let close = open + rel;
                let raw = v.subrange(open + 1, close);
                let sc = ends_with(raw, "/"@);
                let content = if sc {
                    spec_trim(raw.take(raw.len() - 1))
                } else {
                    spec_trim(raw)
                };
                Some((v.take(open), content, v.skip(close + 1), close + 1, sc))
            },
        },
    }
}

pub proof fn lemma_find_char_at(v: Seq<char>, c: char)
    ensures
        spec_find(v, seq![c]) matches Some(i) ==> 0 <= i < v.len() && v[i] == c,
{
    lemma_find_from_bound(v, seq![c], 0);
    if let Some(i) = spec_find(v, seq![c]) {
        assert(v.subrange(i, i + 1)[0] == v[i]);
    }
}

pub proof fn lemma_opening_tag_bounds(v: Seq<char>)
    ensures
        spec_opening_tag(v) matches Some((b, c, a, sk, sc)) ==> 2 <= sk <= v.len() && b.len() + 2
            <= sk && a == v.skip(sk),
{
    reveal_strlit("<");
    reveal_strlit(">");
    assert("<"@ =~= seq!['<']);
    assert(">"@ =~= seq!['>']);
    lemma_find_char_at(v, '<');
    if let Some(open) = spec_find(v, "<"@) {
        lemma_find_char_at(v.skip(open), '>');
    }
}

/// Finds the first tag of `v`.
pub fn find_opening_tag<'a>(v: &'a str) -> (res: Option<(&'a str, &'a str, &'a str, usize, bool)>)
    ensures
        match (res, spec_opening_tag(v@)) {
            (Some((b, c, a, sk, sc)), Some((sb, scn, sa, ssk, ssc))) => b@ == sb && c@ == scn && a@
                == sa && sk == ssk && sc == ssc,
            (None, None) => true,
            _ => false,
        },
{
    proof {
        lemma_opening_tag_bounds(v@);
        reveal_strlit("<");
        reveal_strlit(">");
        assert("<"@ =~= seq!['<']);
        assert(">"@ =~= seq!['>']);
        lemma_find_char_at(v@, '<');
    }
    let n = v.unicode_len();
    let open = match find(v, "<") {
        Some(i) => i,
        None => return None,
    };
    let rest = v.substring_char(open, n);
    assert(rest@ =~= v@.skip(open as int));
    proof {
        lemma_find_char_at(rest@, '>');
    }
    let rel = match find(rest, ">") {
        Some(i) => i,
        None => return None,
    };
    let close = open + rel;
    let before = v.substring_char(0, open);
    let raw = v.substring_char(open + 1, close);
    let after = v.substring_char(close + 1, n);
    assert(before@ =~= v@.take(open as int));
    assert(after@ =~= v@.skip(close + 1));
    let sc = has_suffix(raw, "/");
    proof {
        reveal_strlit("/");
    }
    let content = if sc {
        let inner = raw.substring_char(0, raw.unicode_len() - 1);
        assert(inner@ =~= raw@.take(raw@.len() - 1));
        trim(inner)
    } else {
        trim(raw)
    };
    Some((before, content, after, close + 1, sc))
}

/// Scanning for the tag closing `key` from index `start`, at nesting `depth`:
/// the indices of the `<` and `>` of the matching closing tag.
pub open spec fn spec_closing_from(v: Seq<char>, key: Seq<char>, start: nat, depth: nat) -> Option<
    (int, int),
>
    decreases v.len() + 1 - start,
{
    if start > v.len() {
        None
    } else {
        match spec_find(v.skip(start as int), "<"@) {
            None => None,
            Some(r) => {
                let open = start + r;
                match spec_find(v.skip(open), ">"@) {
                    None => None,
                    Some(rc) => {
                        let close = open + rc;
                        let content = spec_trim(v.subrange(open + 1, close));
                        let next = close + 1;
                        proof {
                            lemma_find_char_at(v.skip(start as int), '<');
                            lemma_find_char_at(v.skip(open), '>');
                            reveal_strlit("<");
                            reveal_strlit(">");
                            assert("<"@ =~= seq!['<']);
                            assert(">"@ =~= seq!['>']);
                        }
                        if next <= start || next > v.len() + 1 {
                            None
                        } else if ends_with(content, "/"@) {
                            spec_closing_from(v, key, next as nat, depth)
                        } else {
                            match spec_strip_prefix(content, "/"@) {
                                Some(cn) => if spec_trim_start(cn) == key {
                                    if depth == 0 {
                                        Some((open, close))
                                    } else {
                                        spec_closing_from(v, key, next as nat, (depth - 1) as nat)
                                    }
                                } else {
                                    spec_closing_from(v, key, next as nat, depth)
                                },
                                None => if content == key {
                                    spec_closing_from(v, key, next as nat, depth + 1)
                                } else {
                                    spec_closing_from(v, key, next as nat, depth)
                                },
                            }
                        }
                    },
                }
            },
        }
    }
}

/// The tag closing `<key>` in `v`, skipping nested `<key>...</key>` pairs:
/// the component key `comp_<key>`, the text before the closing tag and the
/// text after it. `None` when `comp_<key>` is not a valid key.
pub open spec fn spec_closing_tag(v: Seq<char>, key: Seq<char>) -> Option<
    (Seq<char>, Seq<char>, Seq<char>),
> {
    match spec_key_new("comp_"@ + key) {
        None => None,
        Some(kn) => match spec_closing_from(v, key, 0, 0) {
            Some((open, close)) => Some((kn, v.take(open), v.skip(close + 1))),
            None => None,
        },
    }
}

pub proof fn lemma_closing_from_bounds(v: Seq<char>, key: Seq<char>, start: nat, depth: nat)
    ensures
        spec_closing_from(v, key, start, depth) matches Some((o, c)) ==> 0 <= o < c < v.len(),
    decreases v.len() + 1 - start,
{
    if start <= v.len() {
        lemma_find_char_at(v.skip(start as int), '<');
        reveal_strlit("<");
        reveal_strlit(">");
        assert("<"@ =~= seq!['<']);
        assert(">"@ =~= seq!['>']);
        if let Some(r) = spec_find(v.skip(start as int), "<"@) {
            let open = start + r;
            lemma_find_char_at(v.skip(open), '>');
            if let Some(rc) = spec_find(v.skip(open), ">"@) {
                let close = open + rc;
                let next = close + 1;
                if !(next <= start || next > v.len() + 1) {
                    let content = spec_trim(v.subrange(open + 1, close));
                    lemma_closing_from_bounds(v, key, next as nat, depth);
                    if depth > 0 {
                        lemma_closing_from_bounds(v, key, next as nat, (depth - 1) as nat);
                    }
                    lemma_closing_from_bounds(v, key, next as nat, depth + 1);
                }
            }
        }
    }
}

/// Finds the tag closing `<key>`.
pub fn find_closing_tag<'a>(v: &'a str, key: &str) -> (res: Option<(Key, &'a str, &'a str)>)
    ensures
        match (res, spec_closing_tag(v@, key@)) {
            (Some((k, b, a)), Some((sk, sb, sa))) => k@ == sk && b@ == sb && a@ == sa,
            (None, None) => true,
            _ => false,
        },
{
    let full = concat_str("comp_", key);
    let key_ident = match Key::new(full.as_str()) {
        Some(k) => k,
        None => return None,
    };
    proof {
        reveal_strlit("<");
        reveal_strlit(">");
        assert("<"@ =~= seq!['<']);
        assert(">"@ =~= seq!['>']);
    }
    let n = v.unicode_len();
    let mut depth: usize = 0;
    let mut start: usize = 0;
    while start <= n
        invariant
            n == v@.len(),
            depth <= start,
            spec_key_new("comp_"@ + key@) == Some(key_ident@),
            spec_closing_from(v@, key@, 0, 0) == spec_closing_from(
                v@,
                key@,
                start as nat,
                depth as nat,
            ),
        decreases n + 1 - start,
    {
        let tail = v.substring_char(start, n);
        assert(tail@ =~= v@.skip(start as int));
        proof {
            reveal_strlit("<");
            reveal_strlit(">");
            assert("<"@ =~= seq!['<']);
            assert(">"@ =~= seq!['>']);
            lemma_find_char_at(tail@, '<');
        }
        let r = match find(tail, "<") {
            Some(r) => r,
            None => return None,
        };
        let open = start + r;
        let tail2 = v.substring_char(open, n);
        assert(tail2@ =~= v@.skip(open as int));
        proof {
            lemma_find_char_at(tail2@, '>');
        }
        let rc = match find(tail2, ">") {
            Some(rc) => rc,
            None => return None,
        };
        let close = open + rc;
        let content = trim(v.substring_char(open + 1, close));
        let next = close + 1;
        if has_suffix(content, "/") {
            start = next;
        } else {
            match strip_prefix(content, "/") {
                Some(cn) => {
                    if str_eq(trim_start(cn), key) {
                        if depth == 0 {
                            let before = v.substring_char(0, open);
                            let after = v.substring_char(close + 1, n);
                            assert(before@ =~= v@.take(open as int));
                            assert(after@ =~= v@.skip(close + 1));
                            return Some((key_ident, before, after));
                        }
                        depth = depth - 1;
                    }
                    start = next;
                },
                None => {
                    if str_eq(content, key) {
                        depth = depth + 1;
                    }
                    start = next;
                },
            }
        }
    }
    None
}

/// The first component of `v` from character `skip` on: its key
/// `comp_<name>`, the text before its opening tag (from the very start of
/// `v`, when not empty), the text between its tags, the text after it (each
/// when not empty) and its raw attributes. Tags that are never closed are
/// skipped and kept in the text before; an empty tag ends the search.
pub open spec fn spec_component_from(v: Seq<char>, skip: nat) -> Option<
    (Seq<char>, Option<Seq<char>>, Option<Seq<char>>, Option<Seq<char>>, Seq<char>),
>
    decreases v.len() + 1 - skip,
{
    if skip > v.len() {
        None
    } else {
        match spec_opening_tag(v.skip(skip as int)) {
            None => None,
            Some((before, content, after, sk, sc)) => {
                proof {
                    lemma_opening_tag_bounds(v.skip(skip as int));
                }
                let (name, attrs) = match spec_split_once(content, " "@) {
                    Some((k, a)) => (k, spec_trim_start(a)),
                    None => (content, Seq::<char>::empty()),
                };
                if spec_split_once(content, " "@) is None && content.len() == 0 {
                    None
                } else {
                    let tag_end = skip + sk;
                    let before_o = non_empty(v.take((skip + before.len()) as int));
                    if sc {
                        match spec_key_new("comp_"@ + name) {
                            None => None,
                            Some(kn) => Some((kn, before_o, None, non_empty(after), attrs)),
                        }
                    } else {
                        match spec_closing_tag(after, name) {
                            Some((kn, between, after2)) => Some(
                                (kn, before_o, non_empty(between), non_empty(after2), attrs),
                            ),
                            None => if tag_end <= skip {
                                None
                            } else {
                                spec_component_from(v, tag_end as nat)
                            },
                        }
                    }
                }
            },
        }
    }
}

/// The first valid component of `v`.
pub open spec fn spec_valid_component(v: Seq<char>) -> Option<
    (Seq<char>, Option<Seq<char>>, Option<Seq<char>>, Option<Seq<char>>, Seq<char>),
> {
    spec_component_from(v, 0)
}

/// The view of a found component.
pub open spec fn found_view(
    f: (Key, Option<&str>, Option<&str>, Option<&str>, &str),
) -> (Seq<char>, Option<Seq<char>>, Option<Seq<char>>, Option<Seq<char>>, Seq<char>) {
    (f.0@, opt_view(f.1), opt_view(f.2), opt_view(f.3), f.4@)
}

fn opt_non_empty<'a>(s: &'a str) -> (res: Option<&'a str>)
    ensures
        opt_view(res) == non_empty(s@),
{
    if s.unicode_len() == 0 {
        None
    } else {
        Some(s)
    }
}

/// Finds the first valid component of `v`.
pub fn find_valid_component<'a>(v: &'a str) -> (res: Option<
    (Key, Option<&'a str>, Option<&'a str>, Option<&'a str>, &'a str),
>)
    ensures
        match res {
            Some(f) => spec_valid_component(v@) == Some(found_view(f)),
            None => spec_valid_component(v@) is None,
        },
{
    let n = v.unicode_len();
    let mut skip: usize = 0;
    while skip <= n
        invariant
            n == v@.len(),
            spec_valid_component(v@) == spec_component_from(v@, skip as nat),
        decreases n + 1 - skip,
    {
        let tail = v.substring_char(skip, n);
        assert(tail@ =~= v@.skip(skip as int));
        proof {
            lemma_opening_tag_bounds(tail@);
        }
        let (before, content, after, sk, sc) = match find_opening_tag(tail) {
            Some(t) => t,
            None => return None,
        };
        let (name, attrs) = match split_once(content, " ") {
            Some((k, a)) => (k, trim_start(a)),
            None => {
                if content.unicode_len() == 0 {
                    return None;
                }
                let e = v.substring_char(0, 0);
                assert(e@ =~= Seq::<char>::empty());
                (content, e)
            },
        };
        let tag_end = skip + sk;
        let abs_before = v.substring_char(0, skip + before.unicode_len());
        assert(abs_before@ =~= v@.take(skip + before@.len()));
        if sc {
            let full = concat_str("comp_", name);
            let key = match Key::new(full.as_str()) {
                Some(k) => k,
                None => return None,
            };
            return Some((key, opt_non_empty(abs_before), None, opt_non_empty(after), attrs));
        }
        match find_closing_tag(after, name) {
            Some((key, between, after2)) => {
                return Some(
                    (key, opt_non_empty(abs_before), opt_non_empty(between), opt_non_empty(after2), attrs),
                );
            },
            None => {},
        }
        skip = tag_end;
    }
    None
}

/// The pieces of `s` separated by `.`.
pub open spec fn spec_split_dots(s: Seq<char>) -> Seq<Seq<char>>
    decreases s.len(),
{
    match spec_split_once(s, "."@) {
        Some((a, b)) => {
            proof {
                reveal_strlit(".");
                lemma_find_from_bound(s, "."@, 0);
            }
            if b.len() < s.len() {
                seq![a] + spec_split_dots(b)
            } else {
                seq![s]
            }
        },
        None => seq![s],
    }
}

/// The keys named by `pieces`, if all are valid.
pub open spec fn spec_keys_of(pieces: Seq<Seq<char>>) -> Option<Seq<Seq<char>>>
    decreases pieces.len(),
{
    if pieces.len() == 0 {
        Some(seq![])
    } else {
        match spec_key_new(pieces[0]) {
            None => None,
            Some(k) => match spec_keys_of(pieces.drop_first()) {
                Some(r) => Some(seq![k] + r),
                None => None,
            },
        }
    }
}

/// A key path written `ns:a.b.c` (namespace optional); `None` when a part is
/// not a valid key.
pub open spec fn spec_parse_key_path(p: Seq<char>) -> Option<KeyPathV> {
    let (ns, path) = match spec_split_once(p, ":"@) {
        Some((n, r)) => (Some(n), r),
        None => (None, p),
    };
    let nsk = match ns {
        Some(n) => spec_key_new(n),
        None => None,
    };
    if ns is Some && nsk is None {
        None
    } else {
        match spec_keys_of(spec_split_dots(path)) {
            Some(keys) => Some(KeyPathV { namespace: nsk, path: keys }),
            None => None,
        }
    }
}

proof fn lemma_keys_of_concat(x: Seq<Seq<char>>, y: Seq<Seq<char>>)
    ensures
        spec_keys_of(x + y) == match (spec_keys_of(x), spec_keys_of(y)) {
            (Some(a), Some(b)) => Some(a + b),
            _ => None::<Seq<Seq<char>>>,
        },
    decreases x.len(),
{
    if x.len() == 0 {
        assert(x + y =~= y);
        if let Some(b) = spec_keys_of(y) {
            assert(Seq::<Seq<char>>::empty() + b =~= b);
        }
    } else {
        assert((x + y).drop_first() =~= x.drop_first() + y);
        assert((x + y)[0] == x[0]);
        lemma_keys_of_concat(x.drop_first(), y);
        if let (Some(a), Some(b)) = (spec_keys_of(x), spec_keys_of(y)) {
            let k = spec_key_new(x[0])->0;
            let a1 = spec_keys_of(x.drop_first())->0;
            assert(seq![k] + (a1 + b) =~= (seq![k] + a1) + b);
        }
    }
}

proof fn lemma_keys_of_single(a: Seq<char>)
    ensures
        spec_keys_of(seq![a]) == match spec_key_new(a) {
            Some(k) => Some(seq![k]),
            None => None::<Seq<Seq<char>>>,
        },
{
    assert(seq![a].drop_first() =~= Seq::<Seq<char>>::empty());
    assert(spec_keys_of(Seq::<Seq<char>>::empty()) == Some(Seq::<Seq<char>>::empty()));
    assert(seq![a][0] == a);
    if let Some(k) = spec_key_new(a) {
        assert(seq![k] + Seq::<Seq<char>>::empty() =~= seq![k]);
    }
}

/// Parses a key path written `ns:a.b.c`.
pub fn parse_key_path(p: &str) -> (res: Option<KeyPath>)
    ensures
        match res {
            Some(kp) => spec_parse_key_path(p@) == Some(kp@),
            None => spec_parse_key_path(p@) is None,
        },
{
    let (namespace, path) = match split_once(p, ":") {
        Some((n, r)) => match Key::new(n) {
            Some(k) => (Some(k), r),
            None => return None,
        },
        None => (None, p),
    };
    let mut keys: Vec<Key> = Vec::new();
    let mut rest = path;
    let ghost pieces = spec_split_dots(path@);
    let ghost mut acc: Seq<Seq<char>> = Seq::empty();
    assert(acc + spec_split_dots(rest@) =~= pieces);
    assert(keys@.map_values(|k: Key| k@) =~= Seq::<Seq<char>>::empty());
    loop
        invariant
            pieces == spec_split_dots(path@),
            spec_keys_of(acc) == Some(keys@.map_values(|k: Key| k@)),
            pieces == acc + spec_split_dots(rest@),
            spec_parse_key_path(p@) == match spec_keys_of(pieces) {
                Some(ks) => Some(
                    KeyPathV {
                        namespace: match namespace {
                            Some(k) => Some(k@),
                            None => None,
                        },
                        path: ks,
                    },
                ),
                None => None,
            },
        decreases rest@.len(),
    {
        proof {
            reveal_strlit(".");
            lemma_find_from_bound(rest@, "."@, 0);
        }
        match split_once(rest, ".") {
            Some((a, b)) => {
                assert(spec_split_dots(rest@) == seq![a@] + spec_split_dots(b@));
                proof {
                    lemma_keys_of_single(a@);
                    lemma_keys_of_concat(seq![a@], spec_split_dots(b@));
                    lemma_keys_of_concat(acc, seq![a@] + spec_split_dots(b@));
                    assert(acc + (seq![a@] + spec_split_dots(b@)) =~= (acc + seq![a@])
                        + spec_split_dots(b@));
                }
                let k = match Key::new(a) {
                    Some(k) => k,
                    None => return None,
                };
                let ghost old_keys = keys@;
                keys.push(k);
                proof {
                    lemma_keys_of_concat(acc, seq![a@]);
                    assert(keys@.map_values(|k: Key| k@) =~= old_keys.map_values(|k: Key| k@)
                        + seq![k@]);
                    acc = acc + seq![a@];
                }
                rest = b;
            },
            None => {
                assert(spec_split_dots(rest@) == seq![rest@]);
                proof {
                    lemma_keys_of_single(rest@);
                    lemma_keys_of_concat(acc, seq![rest@]);
                }
                let k = match Key::new(rest) {
                    Some(k) => k,
                    None => return None,
                };
                let ghost old_keys = keys@;
                keys.push(k);
                assert(keys@.map_values(|k: Key| k@) =~= old_keys.map_values(|k: Key| k@)
                    + seq![k@]);
                let kp = KeyPath::new_from_path(namespace, keys);
                assert(kp@.path =~= keys@.map_values(|k: Key| k@));
                return Some(kp);
            },
        }
    }
}

/// The name and arguments of a formatter call `name(a: x; b; c: y)`; the
/// whole trimmed text with no arguments when there are no parentheses.
pub open spec fn spec_formatter_args(s: Seq<char>) -> (Seq<char>, Seq<(Seq<char>, Option<Seq<char>>)>) {
    match spec_split_once(s, "("@) {
        None => (spec_trim(s), seq![]),
        Some((name, rest)) => match spec_rsplit_once(rest, ')') {
            None => (spec_trim(s), seq![]),
            Some((args, _)) => (spec_trim(name), spec_split_semis(args).map_values(|a: Seq<char>| spec_one_arg(a))),
        },
    }
}

/// One formatter argument: `name: value` or a bare `name`.
pub open spec fn spec_one_arg(a: Seq<char>) -> (Seq<char>, Option<Seq<char>>) {
    match spec_split_once(a, ":"@) {
        Some((x, y)) => (spec_trim(x), Some(spec_trim(y))),
        None => (spec_trim(a), None),
    }
}

/// The pieces of `s` separated by `;`.
pub open spec fn spec_split_semis(s: Seq<char>) -> Seq<Seq<char>>
    decreases s.len(),
{
    match spec_split_once(s, ";"@) {
        Some((a, b)) => {
            proof {
                reveal_strlit(";");
                lemma_find_from_bound(s, ";"@, 0);
            }
            if b.len() < s.len() {
                seq![a] + spec_split_semis(b)
            } else {
                seq![s]
            }
        },
        None => seq![s],
    }
}

fn one_arg<'a>(a: &'a str) -> (res: (&'a str, Option<&'a str>))
    ensures
        (res.0@, opt_view(res.1)) == spec_one_arg(a@),
{
    match split_once(a, ":") {
        Some((x, y)) => (trim(x), Some(trim(y))),
        None => (trim(a), None),
    }
}

/// Splits a formatter call into its name and arguments.
pub fn parse_formatter_args<'a>(s: &'a str) -> (res: (&'a str, Vec<(&'a str, Option<&'a str>)>))
    ensures
        (res.0@, args_view(res.1@)) == spec_formatter_args(s@),
{
    proof {
        reveal_strlit(";");
    }
    let (name, rest) = match split_once(s, "(") {
        None => {
            let v: Vec<(&str, Option<&str>)> = Vec::new();
            assert(args_view(v@) =~= Seq::<(Seq<char>, Option<Seq<char>>)>::empty());
            return (trim(s), v);
        },
        Some(p) => p,
    };
    let args = match rsplit_once_char(rest, ')') {
        None => {
            let v: Vec<(&str, Option<&str>)> = Vec::new();
            assert(args_view(v@) =~= Seq::<(Seq<char>, Option<Seq<char>>)>::empty());
            return (trim(s), v);
        },
        Some((a, _)) => a,
    };
    let ghost all = spec_split_semis(args@);
    let mut out: Vec<(&str, Option<&str>)> = Vec::new();
    let mut cur = args;
    loop
        invariant
            all == spec_split_semis(args@),
            spec_formatter_args(s@) == (spec_trim(name@), all.map_values(|a: Seq<char>| spec_one_arg(a))),
            all.map_values(|a: Seq<char>| spec_one_arg(a)) == args_view(out@)
                + spec_split_semis(cur@).map_values(|a: Seq<char>| spec_one_arg(a)),
        decreases cur@.len(),
    {
        proof {
            reveal_strlit(";");
            lemma_find_from_bound(cur@, ";"@, 0);
        }
        match split_once(cur, ";") {
            Some((a, b)) => {
                proof {
                    lemma_find_from_bound(cur@, ";"@, 0);
                    assert(spec_split_semis(cur@) == seq![a@] + spec_split_semis(b@));
                }
                let ghost old_out = out@;
                out.push(one_arg(a));
                assert(args_view(out@) =~= args_view(old_out).push(spec_one_arg(a@)));
                assert((seq![a@] + spec_split_semis(b@)).map_values(|x: Seq<char>| spec_one_arg(x))
                    =~= seq![spec_one_arg(a@)] + spec_split_semis(b@).map_values(
                    |x: Seq<char>| spec_one_arg(x),
                ));
                assert(args_view(out@) + spec_split_semis(b@).map_values(|x: Seq<char>| spec_one_arg(x))
                    =~= args_view(old_out) + (seq![spec_one_arg(a@)] + spec_split_semis(b@).map_values(
                    |x: Seq<char>| spec_one_arg(x),
                )));
                cur = b;
            },
            None => {
                proof {
                    assert(spec_split_semis(cur@) == seq![cur@]);
                }
                let ghost old_out = out@;
                out.push(one_arg(cur));
                assert(args_view(out@) =~= args_view(old_out).push(spec_one_arg(cur@)));
                assert(seq![cur@].map_values(|x: Seq<char>| spec_one_arg(x)) =~= seq![
                    spec_one_arg(cur@),
                ]);
                assert(all.map_values(|a: Seq<char>| spec_one_arg(a)) =~= args_view(out@));
                return (trim(name), out);
            },
        }
    }
}

/// The bound a variable gets from its formatter text, and the errors
/// reported: an unknown formatter name or a disabled formatter family gives
/// `Dummy` and an error.
pub open spec fn spec_parse_formatter(c: CtxV, s: Seq<char>) -> (VarBound, Seq<ErrV>) {
    let (name, args) = spec_formatter_args(s);
    match spec_from_name_and_args(name, Some(args), c.features) {
        Ok(Some(f)) => (VarBound::Formatted(f), seq![]),
        Ok(None) => (
            VarBound::Dummy,
            seq![ErrV::UnknownFormatter { name: name, locale: c.locale, key_path: c.key_path }],
        ),
        Err(f) => (
            VarBound::Dummy,
            seq![
                ErrV::DisabledFormatter {
                    locale: c.locale,
                    key_path: c.key_path,
                    formatter_err: spec_err_message(f),
                },
            ],
        ),
    }
}

/// Parses the formatter of a variable.
pub fn parse_formatter(ctx: &Context, s: &str, diag: &mut Vec<Error>) -> (res: VarBound)
    ensures
        res == spec_parse_formatter(ctx@, s@).0,
        errs_view(final(diag)@) == errs_view(old(diag)@) + spec_parse_formatter(ctx@, s@).1,
{
    let ghost d0 = diag@;
    let (name, args) = parse_formatter_args(s);
    match Formatter::from_name_and_args(name, Some(args.as_slice()), ctx.features) {
        Ok(Some(f)) => {
            assert(errs_view(diag@) =~= errs_view(d0) + Seq::<ErrV>::empty());
            VarBound::Formatted(f)
        },
        Ok(None) => {
            let e = ctx.unknown_formatter(name);
            diag.push(e);
            assert(errs_view(diag@) =~= errs_view(d0) + seq![e@]);
            VarBound::Dummy
        },
        Err(f) => {
            let e = ctx.disabled_formatter(f.err_message());
            diag.push(e);
            assert(errs_view(diag@) =~= errs_view(d0) + seq![e@]);
            VarBound::Dummy
        },
    }
}

/// The first variable `{{ name }}` or `{{ name, formatter }}` of `s`: the
/// text before it, its key `var_<name>` and bound, and the text after it,
/// with the errors its formatter reported. The key is `None` when
/// `var_<name>` is not a valid key; the result is `None` when there is no
/// `{{ ... }}`.
pub open spec fn spec_valid_variable(c: CtxV, s: Seq<char>) -> Option<
    (Seq<char>, Option<(Seq<char>, VarBound)>, Seq<char>, Seq<ErrV>),
> {
    match spec_split_once(s, "{{"@) {
        None => None,
        Some((before, rest)) => match spec_split_once(rest, "}}"@) {
            None => None,
            Some((ident0, after)) => {
                let ident = spec_trim(ident0);
                match spec_split_once(ident, ","@) {
                    Some((id, fs)) => {
                        let (bound, d) = spec_parse_formatter(c, fs);
                        match spec_key_new("var_"@ + spec_trim(id)) {
                            Some(k) => Some((before, Some((k, bound)), after, d)),
                            None => Some((before, None, after, d)),
                        }
                    },
                    None => match spec_key_new("var_"@ + ident) {
                        Some(k) => Some((before, Some((k, VarBound::Unformatted)), after, seq![])),
                        None => Some((before, None, after, seq![])),
                    },
                }
            },
        },
    }
}

/// Finds the first variable of `s`.
pub fn find_valid_variable<'a>(ctx: &Context, s: &'a str, diag: &mut Vec<Error>) -> (res: Option<
    (&'a str, Option<ParsedValue>, &'a str),
>)
    ensures
        match (res, spec_valid_variable(ctx@, s@)) {
            (None, None) => final(diag)@ == old(diag)@,
            (Some((b, v, a)), Some((sb, sv, sa, d))) => b@ == sb && a@ == sa && errs_view(
                final(diag)@,
            ) == errs_view(old(diag)@) + d && match (v, sv) {
                (Some(pv), Some((k, bound))) => pv@ == ValueV::Variable(k, bound),
                (None, None) => true,
                _ => false,
            },
            _ => false,
        },
{
    let ghost d0 = diag@;
    let (before, rest) = match split_once(s, "{{") {
        None => return None,
        Some(p) => p,
    };
    let (ident0, after) = match split_once(rest, "}}") {
        None => return None,
        Some(p) => p,
    };
    let ident = trim(ident0);
    match split_once(ident, ",") {
        Some((id, fs)) => {
            let bound = parse_formatter(ctx, fs, diag);
            let name = concat_str("var_", trim(id));
            match Key::new(name.as_str()) {
                Some(k) => Some((before, Some(ParsedValue::Variable { key: k, formatter: bound }), after)),
                None => Some((before, None, after)),
            }
        },
        None => {
            let name = concat_str("var_", ident);
            assert(errs_view(diag@) =~= errs_view(d0) + Seq::<ErrV>::empty());
            match Key::new(name.as_str()) {
                Some(k) => Some(
                    (before, Some(ParsedValue::Variable { key: k, formatter: VarBound::Unformatted }), after),
                ),
                None => Some((before, None, after)),
            }
        },
    }
}

/// A literal argument of a foreign key, as read from its JSON object.
#[derive(Debug, Clone, PartialEq)]
pub enum JsonArg {
    Bool(bool),
    Unsigned(u64),
    Signed(i64),
    Float(String),
    Str(String),
    Other,
}

pub enum JsonArgV {
    Bool(bool),
    Unsigned(u64),
    Signed(i64),
    Float(Seq<char>),
    Str(Seq<char>),
    Other,
}

impl View for JsonArg {
    type V = JsonArgV;

    open spec fn view(&self) -> JsonArgV {
        match self {
            JsonArg::Bool(b) => JsonArgV::Bool(*b),
            JsonArg::Unsigned(u) => JsonArgV::Unsigned(*u),
            JsonArg::Signed(i) => JsonArgV::Signed(*i),
            JsonArg::Float(t) => JsonArgV::Float(t@),
            JsonArg::Str(t) => JsonArgV::Str(t@),
            JsonArg::Other => JsonArgV::Other,
        }
    }
}

/// The views of decoded JSON entries.
pub open spec fn json_pairs_view(v: Seq<(String, JsonArg)>) -> Seq<(Seq<char>, JsonArgV)> {
    v.map_values(|p: (String, JsonArg)| (p.0@, p.1@))
}

/// The entries (in key order) that `serde_json` reads from a JSON object
/// text, each value classified; or its error message.
pub uninterp spec fn json_literal_object(s: Seq<char>) -> Result<Seq<(Seq<char>, JsonArgV)>, Seq<char>>;

/// Calls `serde_json::from_str` for a map from strings to JSON values and
/// classifies each value (boolean, integer fitting `u64`, else fitting `i64`,
/// else other number as its text, string, or anything else). The contract
/// names the outcome, and states that every decoded string value is shorter
/// than the text (it stands between quotes inside it).
#[verifier::external_body]
fn parse_json_object(s: &str) -> (res: Result<Vec<(String, JsonArg)>, String>)
    ensures
        match res {
            Ok(v) => json_literal_object(s@) == Ok::<_, Seq<char>>(json_pairs_view(v@)),
            Err(e) => json_literal_object(s@) == Err::<Seq<(Seq<char>, JsonArgV)>, _>(e@),
        },
        res matches Ok(v) ==> forall|i: int|
            0 <= i < v@.len() ==> ((#[trigger] v@[i]).1 matches JsonArg::Str(t) ==> t@.len() < s@.len()),
{
    let map = serde_json::from_str::<std::collections::BTreeMap<String, serde_json::Value>>(s).map_err(|e| e.to_string())?;
    Ok(map.into_iter().map(|(k, v)| (k, match v {
        serde_json::Value::Bool(b) => JsonArg::Bool(b),
        serde_json::Value::String(t) => JsonArg::Str(t),
        serde_json::Value::Number(n) => n.as_u64().map(JsonArg::Unsigned).or(n.as_i64().map(JsonArg::Signed)).unwrap_or(JsonArg::Float(n.to_string())),
        _ => JsonArg::Other,
    })).collect())
}

/// Outcome of parsing: `None` where the parser panics, else the value or the
/// error, with the errors reported along the way.
pub struct Outcome<T> {
    pub res: Option<Result<T, ErrV>>,
    pub diag: Seq<ErrV>,
}

/// An exec result matches a spec outcome.
pub open spec fn res_matches(r: Option<Result<ParsedValue, Error>>, o: Option<Result<ValueV, ErrV>>) -> bool {
    match (r, o) {
        (None, None) => true,
        (Some(Ok(v)), Some(Ok(w))) => v@ == w,
        (Some(Err(e)), Some(Err(f))) => e@ == f,
        _ => false,
    }
}

/// How the argument text of a foreign key splits: at the brace closing the
/// JSON object, then past the `)` that must follow.
pub enum ArgsSplit {
    Malformed,
    Panics,
    Split(Seq<char>, Seq<char>),
}

/// Brace scan from index `i` at depth `depth`.
pub enum BraceScan {
    Malformed,
    Closed(int),
    Unclosed,
}

pub open spec fn brace_from(s: Seq<char>, i: nat, depth: nat) -> BraceScan
    decreases s.len() - i,
{
    if i >= s.len() {
        BraceScan::Unclosed
    } else if s[i as int] == '{' {
        brace_from(s, i + 1, depth + 1)
    } else if s[i as int] == '}' {
        if depth == 0 {
            BraceScan::Malformed
        } else if depth == 1 {
            BraceScan::Closed(i as int)
        } else {
            brace_from(s, i + 1, (depth - 1) as nat)
        }
    } else {
        brace_from(s, i + 1, depth)
    }
}

/// The JSON object text and the text after the closing `)`. When no brace
/// closes the object the text is cut after its first character, which panics
/// when the text is empty or starts with a non-ASCII character.
pub open spec fn spec_args_split(t: Seq<char>) -> ArgsSplit {
    let idx: Option<int> = match brace_from(t, 0, 0) {
        BraceScan::Malformed => None,
        BraceScan::Closed(i) => Some(i),
        BraceScan::Unclosed => Some(0),
    };
    match idx {
        None => ArgsSplit::Malformed,
        Some(i) => if i == 0 && brace_from(t, 0, 0) is Unclosed && (t.len() == 0 || (t[0] as u32)
            >= 0x80) {
            ArgsSplit::Panics
        } else {
            match spec_strip_prefix(spec_trim_start(t.skip(i + 1)), ")"@) {
                Some(after) => ArgsSplit::Split(t.take(i + 1), after),
                None => ArgsSplit::Malformed,
            }
        },
    }
}

proof fn lemma_brace_from(s: Seq<char>, i: nat, depth: nat)
    ensures
        brace_from(s, i, depth) matches BraceScan::Closed(k) ==> i <= k < s.len(),
    decreases s.len() - i,
{
    if i < s.len() {
        lemma_brace_from(s, i + 1, depth + 1);
        lemma_brace_from(s, i + 1, depth);
        if depth > 1 {
            lemma_brace_from(s, i + 1, (depth - 1) as nat);
        }
    }
}

pub proof fn lemma_args_split_bounds(t: Seq<char>)
    ensures
        spec_args_split(t) matches ArgsSplit::Split(b, a) ==> b.len() <= t.len() && a.len() < t.len(),
{
    lemma_brace_from(t, 0, 0);
    reveal_strlit(")");
    if let ArgsSplit::Split(b, a) = spec_args_split(t) {
        let i: int = match brace_from(t, 0, 0) {
            BraceScan::Closed(i) => i,
            _ => 0,
        };
        lemma_trim_start_len(t.skip(i + 1));
    }
}

/// Splits the argument text of a foreign key.
fn args_split<'a>(t: &'a str) -> (res: Result<Option<(&'a str, &'a str)>, ()>)
    ensures
        match (res, spec_args_split(t@)) {
            (Err(()), ArgsSplit::Malformed) => true,
            (Ok(None), ArgsSplit::Panics) => true,
            (Ok(Some((b, a))), ArgsSplit::Split(sb, sa)) => b@ == sb && a@ == sa,
            _ => false,
        },
{
    proof {
        reveal_strlit(")");
        lemma_brace_from(t@, 0, 0);
    }
    let n = t.unicode_len();
    let mut depth: usize = 0;
    let mut i: usize = 0;
    let mut index: usize = 0;
    let mut closed = false;
    while i < n
        invariant_except_break
            n == t@.len(),
            i <= n,
            depth <= i,
            brace_from(t@, 0, 0) == brace_from(t@, i as nat, depth as nat),
            !closed,
            index == 0,
        ensures
            n == t@.len(),
            closed ==> brace_from(t@, 0, 0) == BraceScan::Closed(index as int) && index < n,
            !closed ==> brace_from(t@, 0, 0) == BraceScan::Unclosed && index == 0,
        decreases n - i,
    {
        let ch = t.get_char(i);
        if ch == '{' {
            depth = depth + 1;
        } else if ch == '}' {
            if depth == 0 {
                return Err(());
            }
            depth = depth - 1;
            if depth == 0 {
                index = i;
                closed = true;
                break;
            }
        }
        i = i + 1;
    }
    if !closed && (n == 0 || (t.get_char(0) as u32) >= 0x80) {
        return Ok(None);
    }
    let before = t.substring_char(0, index + 1);
    let after = t.substring_char(index + 1, n);
    assert(before@ =~= t@.take(index + 1));
    assert(after@ =~= t@.skip(index + 1));
    match strip_prefix(trim_start(after), ")") {
        Some(a) => Ok(Some((before, a))),
        None => Err(()),
    }
}

/// Lexicographic order of strings by code point (the order of `String`).
pub open spec fn str_less(a: Seq<char>, b: Seq<char>) -> bool
    decreases a.len(),
{
    if a.len() == 0 {
        b.len() > 0
    } else if b.len() == 0 {
        false
    } else if (a[0] as u32) < (b[0] as u32) {
        true
    } else if (a[0] as u32) > (b[0] as u32) {
        false
    } else {
        str_less(a.drop_first(), b.drop_first())
    }
}

/// Whether `a` sorts before `b`.
pub fn string_less(a: &str, b: &str) -> (res: bool)
    ensures
        res == str_less(a@, b@),
{
    let n = a.unicode_len();
    let m = b.unicode_len();
    let mut i: usize = 0;
    assert(a@.skip(0) =~= a@);
    assert(b@.skip(0) =~= b@);
    while i < n && i < m
        invariant
            n == a@.len(),
            m == b@.len(),
            i <= n,
            i <= m,
            str_less(a@, b@) == str_less(a@.skip(i as int), b@.skip(i as int)),
        decreases n - i,
    {
        let x = a.get_char(i) as u32;
        let y = b.get_char(i) as u32;
        assert(a@.skip(i as int)[0] == a@[i as int]);
        assert(b@.skip(i as int)[0] == b@[i as int]);
        if x < y {
            return true;
        }
        if x > y {
            return false;
        }
        assert(a@.skip(i as int).drop_first() =~= a@.skip(i + 1));
        assert(b@.skip(i as int).drop_first() =~= b@.skip(i + 1));
        i = i + 1;
    }
    i == n && i < m
}

/// Inserting into a map kept as entries sorted by key: an existing entry of
/// the same key is replaced.
pub open spec fn spec_map_insert(m: Seq<(Seq<char>, ValueV)>, k: Seq<char>, v: ValueV) -> Seq<
    (Seq<char>, ValueV),
>
    decreases m.len(),
{
    if m.len() == 0 {
        seq![(k, v)]
    } else if m[0].0 == k {
        seq![(k, v)] + m.drop_first()
    } else if str_less(k, m[0].0) {
        seq![(k, v)] + m
    } else {
        seq![m[0]] + spec_map_insert(m.drop_first(), k, v)
    }
}

/// Inserts an argument, replacing one of the same name.
fn args_insert(m: &mut Vec<(String, ParsedValue)>, k: String, v: ParsedValue)
    ensures
        view_args(final(m)@) == spec_map_insert(view_args(old(m)@), k@, v@),
{
    let ghost m0 = view_args(m@);
    proof {
        lemma_view_args_len(m@);
        assert(m0.skip(0) =~= m0);
        assert(m0.take(0) + spec_map_insert(m0.skip(0), k@, v@) =~= spec_map_insert(m0, k@, v@));
    }
    let n = m.len();
    let mut i: usize = 0;
    while i < n
        invariant
            n == m@.len(),
            i <= n,
            m0 == view_args(m@),
            m0 == view_args(old(m)@),
            m0.len() == n,
            spec_map_insert(m0, k@, v@) == m0.take(i as int) + spec_map_insert(m0.skip(i as int), k@, v@),
        decreases n - i,
    {
        proof {
            lemma_view_args_len(m@);
            assert(m0.skip(i as int)[0] == m0[i as int]);
        }
        if str_eq(m[i].0.as_str(), k.as_str()) {
            let ghost before = m@;
            let ghost kv = (k, v);
            let _ = m.remove(i);
            m.insert(i, (k, v));
            proof {
                assert(m@ =~= before.update(i as int, kv));
                lemma_view_args_update(before, i as int, kv);
                assert(m0.skip(i as int).drop_first() =~= m0.skip(i + 1));
                assert(m0.skip(i as int)[0].0 == k@);
                assert(spec_map_insert(m0.skip(i as int), k@, v@) == seq![(k@, v@)] + m0.skip(
                    i as int,
                ).drop_first());
                assert(view_args(m@) =~= m0.take(i as int) + (seq![(k@, v@)] + m0.skip(i + 1)));
            }
            return;
        }
        if string_less(k.as_str(), m[i].0.as_str()) {
            let ghost before = m@;
            let ghost kv = (k, v);
            m.insert(i, (k, v));
            proof {
                lemma_view_args_insert(before, i as int, kv);
                assert(m0.skip(i as int)[0].0 != k@);
                assert(str_less(k@, m0.skip(i as int)[0].0));
                assert(spec_map_insert(m0.skip(i as int), k@, v@) == seq![(k@, v@)] + m0.skip(
                    i as int,
                ));
                assert(view_args(m@) =~= m0.take(i as int) + (seq![(k@, v@)] + m0.skip(i as int)));
            }
            return;
        }
        proof {
            assert(m0.skip(i as int).drop_first() =~= m0.skip(i + 1));
            assert(m0.take(i as int) + (seq![m0[i as int]] + spec_map_insert(m0.skip(i + 1), k@, v@))
                =~= m0.take(i + 1) + spec_map_insert(m0.skip(i + 1), k@, v@));
        }
        i = i + 1;
    }
    let ghost before = m@;
    let ghost kv = (k, v);
    m.push((k, v));
    proof {
        assert(m@ =~= before.insert(n as int, kv));
        lemma_view_args_insert(before, n as int, kv);
        assert(m0.skip(n as int) =~= Seq::<(Seq<char>, ValueV)>::empty());
        assert(m0.take(n as int) =~= m0);
        assert(view_args(m@) =~= m0 + seq![(k@, v@)]);
    }
}

/// The message reported when a foreign key argument is not a literal.
pub open spec fn non_literal_message() -> Seq<char> {
    "invalid type: expected a litteral such as a number, a string or a boolean"@
}

/// The literal value of a non-string JSON argument.
pub open spec fn json_lit_value(a: JsonArgV) -> ValueV {
    match a {
        JsonArgV::Bool(b) => ValueV::Literal(LiteralV::Bool(b)),
        JsonArgV::Unsigned(u) => ValueV::Literal(LiteralV::Unsigned(u)),
        JsonArgV::Signed(i) => ValueV::Literal(LiteralV::Signed(i)),
        JsonArgV::Float(t) => ValueV::Literal(LiteralV::Float(t)),
        JsonArgV::Str(t) => ValueV::Literal(LiteralV::String(t, usize::MAX)),
        JsonArgV::Other => ValueV::Default,
    }
}

/// Passes on a failure (panic or error) to another result type.
pub open spec fn fail_on<T, U>(r: Option<Result<T, ErrV>>) -> Option<Result<U, ErrV>> {
    match r {
        Some(Err(e)) => Some(Err(e)),
        _ => None,
    }
}

/// Index of the first `,` or `)` of `s` from `i` on.
pub open spec fn find_sep(s: Seq<char>, i: nat) -> Option<int>
    decreases s.len() - i,
{
    if i >= s.len() {
        None
    } else if s[i as int] == ',' || s[i as int] == ')' {
        Some(i as int)
    } else {
        find_sep(s, i + 1)
    }
}

pub proof fn lemma_find_sep(s: Seq<char>, i: nat)
    ensures
        find_sep(s, i) matches Some(k) ==> i <= k < s.len() && (s[k] == ',' || s[k] == ')'),
    decreases s.len() - i,
{
    if i < s.len() && !(s[i as int] == ',' || s[i as int] == ')') {
        lemma_find_sep(s, i + 1);
    }
}

pub proof fn lemma_component_bounds(v: Seq<char>, skip: nat)
    ensures
        spec_component_from(v, skip) matches Some((_, b, bt, a, _)) ==> (bt matches Some(x) ==> x.len()
            < v.len()) && (a matches Some(x) ==> x.len() < v.len()) && (b matches Some(x) ==> x.len()
            < v.len()),
    decreases v.len() + 1 - skip,
{
    if skip <= v.len() {
        let w = v.skip(skip as int);
        lemma_opening_tag_bounds(w);
        if let Some((before, content, after, sk, sc)) = spec_opening_tag(w) {
            let name = match spec_split_once(content, " "@) {
                Some((k, a)) => k,
                None => content,
            };
            lemma_closing_from_bounds(after, name, 0, 0);
            let tag_end = skip + sk;
            if tag_end > skip {
                lemma_component_bounds(v, tag_end as nat);
            }
        }
    }
}

pub proof fn lemma_split_bounds(s: Seq<char>, p: Seq<char>)
    requires
        p.len() > 0,
    ensures
        spec_split_once(s, p) matches Some((a, b)) ==> a.len() < s.len() && b.len() < s.len(),
{
    lemma_find_from_bound(s, p, 0);
}

/// Parsing a translation string: the first component if any, else the first
/// foreign key, else the first variable, else the whole string as a literal.
pub open spec fn spec_new(c: CtxV, s: Seq<char>) -> Outcome<ValueV>
    decreases s.len(), 3nat, 0nat,
{
    match spec_comp(c, s) {
        Some(o) => o,
        None => match spec_fk(c, s) {
            Some(o) => o,
            None => {
                let (vo, d) = spec_var(c, s);
                match vo {
                    Some(o) => o,
                    None => Outcome {
                        res: Some(Ok(ValueV::Literal(LiteralV::String(s, usize::MAX)))),
                        diag: d,
                    },
                }
            },
        },
    }
}

/// A component value: the literal text before, the component (inner text
/// parsed, attributes parsed) and the parsed text after, flattened into a bloc.
pub open spec fn spec_comp(c: CtxV, s: Seq<char>) -> Option<Outcome<ValueV>>
    decreases s.len(), 2nat, 0nat,
{
    match spec_valid_component(s) {
        None => None,
        Some((key, before, between, after, attrs)) => {
            proof {
                lemma_component_bounds(s, 0);
            }
            let v0: Seq<ValueV> = match before {
                Some(b) => seq![ValueV::Literal(LiteralV::String(b, usize::MAX))],
                None => seq![],
            };
            let io: Outcome<ValueV> = match between {
                Some(b) => spec_new(c, b),
                None => Outcome { res: Some(Ok(ValueV::Default)), diag: seq![] },
            };
            if !(io.res matches Some(Ok(_))) {
                Some(io)
            } else {
                let inner = match between {
                    Some(_) => Some(Box::new(io.res->0->Ok_0)),
                    None => None,
                };
                let (av, da) = spec_parse_attributes(c, attrs);
                let v1 = v0.push(ValueV::Component(key, inner, av));
                let d1 = io.diag + da;
                match after {
                    None => Some(Outcome { res: Some(Ok(ValueV::Bloc(v1))), diag: d1 }),
                    Some(a) => {
                        let ao: Outcome<ValueV> = spec_new(c, a);
                        match ao.res {
                            Some(Ok(ValueV::Bloc(xs))) => Some(
                                Outcome { res: Some(Ok(ValueV::Bloc(v1 + xs))), diag: d1 + ao.diag },
                            ),
                            Some(Ok(x)) => Some(
                                Outcome { res: Some(Ok(ValueV::Bloc(v1.push(x)))), diag: d1 + ao.diag },
                            ),
                            _ => Some(Outcome { res: ao.res, diag: d1 + ao.diag }),
                        }
                    },
                }
            }
        },
    }
}

/// A variable value: the parsed text before, the variable, the parsed text
/// after. The second part holds the errors reported when no variable is made.
pub open spec fn spec_var(c: CtxV, s: Seq<char>) -> (Option<Outcome<ValueV>>, Seq<ErrV>)
    decreases s.len(), 2nat, 0nat,
{
    match spec_valid_variable(c, s) {
        None => (None, seq![]),
        Some((before, var, after, d)) => match var {
            None => (None, d),
            Some((k, bound)) => {
                proof {
                    reveal_strlit("{{");
                    reveal_strlit("}}");
                    lemma_split_bounds(s, "{{"@);
                    if let Some((b0, rest)) = spec_split_once(s, "{{"@) {
                        lemma_split_bounds(rest, "}}"@);
                    }
                }
                let bo: Outcome<ValueV> = spec_new(c, before);
                match bo.res {
                    Some(Ok(bv)) => {
                        let ao: Outcome<ValueV> = spec_new(c, after);
                        match ao.res {
                            Some(Ok(av)) => (
                                Some(
                                    Outcome {
                                        res: Some(Ok(ValueV::Bloc(seq![bv, ValueV::Variable(k, bound), av]))),
                                        diag: d + bo.diag + ao.diag,
                                    },
                                ),
                                seq![],
                            ),
                            _ => (Some(Outcome { res: ao.res, diag: d + bo.diag + ao.diag }), seq![]),
                        }
                    },
                    _ => (Some(Outcome { res: bo.res, diag: d + bo.diag }), seq![]),
                }
            },
        },
    }
}

/// A foreign key value `$t(path)` or `$t(path, {args})`: the parsed text
/// before, the foreign key with its parsed arguments, the parsed text after.
pub open spec fn spec_fk(c: CtxV, s: Seq<char>) -> Option<Outcome<ValueV>>
    decreases s.len(), 2nat, 0nat,
{
    match spec_split_once(s, "$t("@) {
        None => None,
        Some((before, rest)) => match find_sep(rest, 0) {
            None => None,
            Some(ns) => {
                let keypath = rest.take(ns);
                let sep = rest[ns];
                let after = rest.skip(ns + 1);
                match spec_parse_key_path(keypath) {
                    None => None,
                    Some(target) => {
                        proof {
                            reveal_strlit("$t(");
                            lemma_split_bounds(s, "$t("@);
                            lemma_find_sep(rest, 0);
                            lemma_args_split_bounds(after);
                        }
                        let (ao, after2): (Outcome<Seq<(Seq<char>, ValueV)>>, Seq<char>) = if sep == ',' {
                            match spec_args_split(after) {
                                ArgsSplit::Malformed => (
                                    Outcome {
                                        res: Some(
                                            Err(
                                                ErrV::UnexpectedToken {
                                                    locale: c.locale,
                                                    key_path: c.key_path,
                                                    message: "malformed foreign key"@,
                                                },
                                            ),
                                        ),
                                        diag: seq![],
                                    },
                                    after,
                                ),
                                ArgsSplit::Panics => (Outcome { res: None, diag: seq![] }, after),
                                ArgsSplit::Split(js, a2) => (spec_args_inner(c, js, s.len()), a2),
                            }
                        } else {
                            (Outcome { res: Some(Ok(seq![])), diag: seq![] }, after)
                        };
                        match ao.res {
                            Some(Ok(args)) => {
                                let this = ValueV::ForeignKey(FkV::NotSet(target, args));
                                let bo: Outcome<ValueV> = spec_new(c, before);
                                match bo.res {
                                    Some(Ok(bv)) => {
                                        let fo: Outcome<ValueV> = spec_new(c, after2);
                                        match fo.res {
                                            Some(Ok(av)) => Some(
                                                Outcome {
                                                    res: Some(Ok(ValueV::Bloc(seq![bv, this, av]))),
                                                    diag: ao.diag + bo.diag + fo.diag,
                                                },
                                            ),
                                            _ => Some(
                                                Outcome { res: fo.res, diag: ao.diag + bo.diag + fo.diag },
                                            ),
                                        }
                                    },
                                    _ => Some(Outcome { res: bo.res, diag: ao.diag + bo.diag }),
                                }
                            },
                            _ => Some(Outcome { res: fail_on(ao.res), diag: ao.diag }),
                        }
                    },
                }
            },
        },
    }
}

/// The arguments of a foreign key read from its JSON object text: literal
/// values as they are, string values parsed as translation strings, each
/// stored under `var_<trimmed name>`.
pub open spec fn spec_args_inner(c: CtxV, js: Seq<char>, bound: nat) -> Outcome<Seq<(Seq<char>, ValueV)>>
    decreases bound, 1nat, 0nat,
{
    match json_literal_object(js) {
        Err(m) => Outcome {
            res: Some(Err(ErrV::InvalidForeignKeyArgs { locale: c.locale, key_path: c.key_path, err: m })),
            diag: seq![],
        },
        Ok(pairs) => if exists|i: int| 0 <= i < pairs.len() && #[trigger] pairs[i].1 is Other {
            Outcome {
                res: Some(
                    Err(
                        ErrV::InvalidForeignKeyArgs {
                            locale: c.locale,
                            key_path: c.key_path,
                            err: non_literal_message(),
                        },
                    ),
                ),
                diag: seq![],
            }
        } else {
            spec_args_fold(c, pairs, 0, seq![], bound)
        },
    }
}

/// Folding the decoded arguments from index `i` into the map `acc`.
pub open spec fn spec_args_fold(
    c: CtxV,
    pairs: Seq<(Seq<char>, JsonArgV)>,
    i: nat,
    acc: Seq<(Seq<char>, ValueV)>,
    bound: nat,
) -> Outcome<Seq<(Seq<char>, ValueV)>>
    decreases bound, 0nat, pairs.len() - i,
{
    if i >= pairs.len() {
        Outcome { res: Some(Ok(acc)), diag: seq![] }
    } else {
        let name = "var_"@ + spec_trim(pairs[i as int].0);
        match pairs[i as int].1 {
            JsonArgV::Str(t) => if t.len() < bound {
                let o = spec_new(c, t);
                match o.res {
                    Some(Ok(pv)) => {
                        let r = spec_args_fold(c, pairs, i + 1, spec_map_insert(acc, name, pv), bound);
                        Outcome { res: r.res, diag: o.diag + r.diag }
                    },
                    _ => Outcome { res: fail_on(o.res), diag: o.diag },
                }
            } else {
                Outcome { res: None, diag: seq![] }
            },
            other => spec_args_fold(
                c,
                pairs,
                i + 1,
                spec_map_insert(acc, name, json_lit_value(other)),
                bound,
            ),
        }
    }
}

/// What a search for one kind of construct gives: nothing found, a panic of
/// the parser, or the parsed value (or error).
pub enum Found {
    NotFound,
    Panic,
    Done(Result<ParsedValue, Error>),
}

/// An exec search result matches a spec one.
pub open spec fn found_matches(f: Found, o: Option<Outcome<ValueV>>) -> bool {
    match (f, o) {
        (Found::NotFound, None) => true,
        (Found::Panic, Some(so)) => so.res is None,
        (Found::Done(r), Some(so)) => res_matches(Some(r), so.res),
        _ => false,
    }
}

/// Parses a translation string (see `spec_new`); `None` where the parser
/// panics.
pub fn parse_value(ctx: &Context, s: &str, diag: &mut Vec<Error>) -> (res: Option<Result<ParsedValue, Error>>)
    ensures
        res_matches(res, spec_new(ctx@, s@).res),
        errs_view(final(diag)@) == errs_view(old(diag)@) + spec_new(ctx@, s@).diag,
    decreases s@.len(), 3nat, 0nat,
{
    let ghost d0 = diag@;
    match find_component_value(ctx, s, diag) {
        Found::Done(r) => return Some(r),
        Found::Panic => return None,
        Found::NotFound => {},
    }
    match find_fk_value(ctx, s, diag) {
        Found::Done(r) => return Some(r),
        Found::Panic => return None,
        Found::NotFound => {},
    }
    match find_variable_value(ctx, s, diag) {
        Found::Done(r) => Some(r),
        Found::Panic => None,
        Found::NotFound => Some(Ok(ParsedValue::Literal(Literal::String(to_owned(s), usize::MAX)))),
    }
}

/// Parses the first component of `s` (see `spec_comp`).
#[verifier::rlimit(100)]
fn find_component_value(ctx: &Context, s: &str, diag: &mut Vec<Error>) -> (res: Found)
    ensures
        found_matches(res, spec_comp(ctx@, s@)),
        spec_comp(ctx@, s@) is None ==> final(diag)@ == old(diag)@,
        spec_comp(ctx@, s@) matches Some(o) ==> errs_view(final(diag)@) == errs_view(old(diag)@)
            + o.diag,
    decreases s@.len(), 2nat, 0nat,
{
    let ghost d0 = diag@;
    proof {
        lemma_component_bounds(s@, 0);
    }
    let (key, before, between, after, attrs) = match find_valid_component(s) {
        None => return Found::NotFound,
        Some(f) => f,
    };
    let mut values: Vec<ParsedValue> = Vec::new();
    if let Some(b) = before {
        values.push(ParsedValue::Literal(Literal::String(to_owned(b), usize::MAX)));
    }
    let ghost v0 = values@;
    proof {
        lemma_view_values_len(values@);
        if before is Some {
            assert(view_values(values@) =~= seq![ValueV::Literal(LiteralV::String(before->0@, usize::MAX))]);
        } else {
            assert(view_values(values@) =~= Seq::<ValueV>::empty());
        }
    }
    let inner = match between {
        Some(b) => match parse_value(ctx, b, diag) {
            None => return Found::Panic,
            Some(Err(e)) => return Found::Done(Err(e)),
            Some(Ok(v)) => Some(Box::new(v)),
        },
        None => {
            assert(errs_view(diag@) =~= errs_view(d0) + Seq::<ErrV>::empty());
            None
        },
    };
    let ghost d1 = diag@;
    let attributes = parse_attributes(ctx, attrs, diag);
    values.push(ParsedValue::Component { key, inner, attributes });
    proof {
        lemma_view_values_push(v0, values@.last());
        assert(values@ =~= v0.push(values@.last()));
    }
    let ghost v1 = values@;
    match after {
        None => {
            assert(errs_view(diag@) =~= errs_view(d0) + spec_comp(ctx@, s@)->0.diag);
            Found::Done(Ok(ParsedValue::Bloc(values)))
        },
        Some(a) => match parse_value(ctx, a, diag) {
            None => {
                assert(errs_view(diag@) =~= errs_view(d0) + spec_comp(ctx@, s@)->0.diag);
                Found::Panic
            },
            Some(Err(e)) => {
                assert(errs_view(diag@) =~= errs_view(d0) + spec_comp(ctx@, s@)->0.diag);
                Found::Done(Err(e))
            },
            Some(Ok(v)) => {
                assert(errs_view(diag@) =~= errs_view(d0) + spec_comp(ctx@, s@)->0.diag);
                match v {
                    ParsedValue::Bloc(mut xs) => {
                        let ghost xs0 = xs@;
                        values.append(&mut xs);
                        proof {
                            lemma_view_values_append(v1, xs0);
                        }
                        Found::Done(Ok(ParsedValue::Bloc(values)))
                    },
                    other => {
                        let ghost o = other;
                        values.push(other);
                        proof {
                            lemma_view_values_push(v1, o);
                        }
                        Found::Done(Ok(ParsedValue::Bloc(values)))
                    },
                }
            },
        },
    }
}

/// Parses the first variable of `s` (see `spec_var`).
fn find_variable_value(ctx: &Context, s: &str, diag: &mut Vec<Error>) -> (res: Found)
    ensures
        found_matches(res, spec_var(ctx@, s@).0),
        spec_var(ctx@, s@).0 is None ==> errs_view(final(diag)@) == errs_view(old(diag)@) + spec_var(
            ctx@,
            s@,
        ).1,
        spec_var(ctx@, s@).0 matches Some(o) ==> errs_view(final(diag)@) == errs_view(old(diag)@)
            + o.diag,
    decreases s@.len(), 2nat, 0nat,
{
    let ghost d0 = diag@;
    proof {
        reveal_strlit("{{");
        reveal_strlit("}}");
        lemma_split_bounds(s@, "{{"@);
        if let Some((b0, rest)) = spec_split_once(s@, "{{"@) {
            lemma_split_bounds(rest, "}}"@);
        }
    }
    let (before, var, after) = match find_valid_variable(ctx, s, diag) {
        None => {
            assert(errs_view(diag@) =~= errs_view(d0) + Seq::<ErrV>::empty());
            return Found::NotFound;
        },
        Some(t) => t,
    };
    let var = match var {
        None => return Found::NotFound,
        Some(v) => v,
    };
    let bv = match parse_value(ctx, before, diag) {
        None => {
            assert(errs_view(diag@) =~= errs_view(d0) + spec_var(ctx@, s@).0->0.diag);
            return Found::Panic;
        },
        Some(Err(e)) => {
            assert(errs_view(diag@) =~= errs_view(d0) + spec_var(ctx@, s@).0->0.diag);
            return Found::Done(Err(e));
        },
        Some(Ok(v)) => v,
    };
    let av = match parse_value(ctx, after, diag) {
        None => {
            assert(errs_view(diag@) =~= errs_view(d0) + spec_var(ctx@, s@).0->0.diag);
            return Found::Panic;
        },
        Some(Err(e)) => {
            assert(errs_view(diag@) =~= errs_view(d0) + spec_var(ctx@, s@).0->0.diag);
            return Found::Done(Err(e));
        },
        Some(Ok(v)) => v,
    };
    assert(errs_view(diag@) =~= errs_view(d0) + spec_var(ctx@, s@).0->0.diag);
    let ghost (g1, g2, g3) = (bv, var, av);
    let mut values: Vec<ParsedValue> = Vec::new();
    values.push(bv);
    values.push(var);
    values.push(av);
    proof {
        assert(values@ =~= seq![g1, g2, g3]);
        lemma_view_values_len(values@);
        assert(view_values(values@) =~= seq![view_value(g1), view_value(g2), view_value(g3)]);
    }
    Found::Done(Ok(ParsedValue::Bloc(values)))
}

/// Index of the first `,` or `)` of `s`.
fn find_sep_exec(s: &str) -> (res: Option<usize>)
    ensures
        res matches Some(i) ==> find_sep(s@, 0) == Some(i as int),
        res is None ==> find_sep(s@, 0) is None,
{
    let n = s.unicode_len();
    let mut i: usize = 0;
    while i < n
        invariant
            n == s@.len(),
            i <= n,
            find_sep(s@, 0) == find_sep(s@, i as nat),
        decreases n - i,
    {
        let ch = s.get_char(i);
        if ch == ',' || ch == ')' {
            return Some(i);
        }
        i = i + 1;
    }
    None
}

/// Parses the first foreign key of `s` (see `spec_fk`).
#[verifier::rlimit(100)]
fn find_fk_value(ctx: &Context, s: &str, diag: &mut Vec<Error>) -> (res: Found)
    ensures
        found_matches(res, spec_fk(ctx@, s@)),
        spec_fk(ctx@, s@) is None ==> final(diag)@ == old(diag)@,
        spec_fk(ctx@, s@) matches Some(o) ==> errs_view(final(diag)@) == errs_view(old(diag)@)
            + o.diag,
    decreases s@.len(), 2nat, 0nat,
{
    let ghost d0 = diag@;
    proof {
        reveal_strlit("$t(");
        lemma_split_bounds(s@, "$t("@);
    }
    let (before, rest) = match split_once(s, "$t(") {
        None => return Found::NotFound,
        Some(p) => p,
    };
    proof {
        lemma_find_sep(rest@, 0);
    }
    let ns = match find_sep_exec(rest) {
        None => return Found::NotFound,
        Some(i) => i,
    };
    let rn = rest.unicode_len();
    let keypath = rest.substring_char(0, ns);
    let sep = rest.get_char(ns);
    let after = rest.substring_char(ns + 1, rn);
    assert(keypath@ =~= rest@.take(ns as int));
    assert(after@ =~= rest@.skip(ns + 1));
    let target = match parse_key_path(keypath) {
        None => return Found::NotFound,
        Some(t) => t,
    };
    proof {
        lemma_args_split_bounds(after@);
        reveal_strlit("malformed foreign key");
    }
    let (args, after2): (Vec<(String, ParsedValue)>, &str) = if sep == ',' {
        match args_split(after) {
            Err(()) => {
                let e = ctx.unexpected_token("malformed foreign key");
                assert(errs_view(diag@) =~= errs_view(d0) + Seq::<ErrV>::empty());
                return Found::Done(Err(e));
            },
            Ok(None) => {
                assert(errs_view(diag@) =~= errs_view(d0) + Seq::<ErrV>::empty());
                return Found::Panic;
            },
            Ok(Some((js, a2))) => match fk_args_inner(ctx, js, Ghost(s@.len()), diag) {
                None => return Found::Panic,
                Some(Err(e)) => return Found::Done(Err(e)),
                Some(Ok(args)) => (args, a2),
            },
        }
    } else {
        let v: Vec<(String, ParsedValue)> = Vec::new();
        assert(view_args(v@) =~= Seq::<(Seq<char>, ValueV)>::empty());
        assert(errs_view(diag@) =~= errs_view(d0) + Seq::<ErrV>::empty());
        (v, after)
    };
    let ghost da = diag@;
    let this = ParsedValue::ForeignKey(ForeignKey::NotSet(target, args));
    let bv = match parse_value(ctx, before, diag) {
        None => {
            assert(errs_view(diag@) =~= errs_view(d0) + spec_fk(ctx@, s@)->0.diag);
            return Found::Panic;
        },
        Some(Err(e)) => {
            assert(errs_view(diag@) =~= errs_view(d0) + spec_fk(ctx@, s@)->0.diag);
            return Found::Done(Err(e));
        },
        Some(Ok(v)) => v,
    };
    let av = match parse_value(ctx, after2, diag) {
        None => {
            assert(errs_view(diag@) =~= errs_view(d0) + spec_fk(ctx@, s@)->0.diag);
            return Found::Panic;
        },
        Some(Err(e)) => {
            assert(errs_view(diag@) =~= errs_view(d0) + spec_fk(ctx@, s@)->0.diag);
            return Found::Done(Err(e));
        },
        Some(Ok(v)) => v,
    };
    assert(errs_view(diag@) =~= errs_view(d0) + spec_fk(ctx@, s@)->0.diag);
    let ghost (g1, g2, g3) = (bv, this, av);
    let mut values: Vec<ParsedValue> = Vec::new();
    values.push(bv);
    values.push(this);
    values.push(av);
    proof {
        assert(values@ =~= seq![g1, g2, g3]);
        lemma_view_values_len(values@);
        assert(view_values(values@) =~= seq![view_value(g1), view_value(g2), view_value(g3)]);
    }
    Found::Done(Ok(ParsedValue::Bloc(values)))
}

/// An exec argument-map result matches a spec one.
pub open spec fn args_res_matches(
    r: Option<Result<Vec<(String, ParsedValue)>, Error>>,
    o: Option<Result<Seq<(Seq<char>, ValueV)>, ErrV>>,
) -> bool {
    match (r, o) {
        (None, None) => true,
        (Some(Ok(v)), Some(Ok(w))) => view_args(v@) == w,
        (Some(Err(e)), Some(Err(f))) => e@ == f,
        _ => false,
    }
}

/// Reads the arguments of a foreign key from their JSON object text (see
/// `spec_args_inner`).
#[verifier::rlimit(50)]
fn fk_args_inner(ctx: &Context, js: &str, Ghost(bound): Ghost<nat>, diag: &mut Vec<Error>) -> (res: Option<
    Result<Vec<(String, ParsedValue)>, Error>,
>)
    requires
        js@.len() < bound,
    ensures
        args_res_matches(res, spec_args_inner(ctx@, js@, bound).res),
        errs_view(final(diag)@) == errs_view(old(diag)@) + spec_args_inner(ctx@, js@, bound).diag,
    decreases bound, 1nat, 0nat,
{
    let ghost d0 = diag@;
    let pairs = match parse_json_object(js) {
        Err(m) => {
            assert(errs_view(diag@) =~= errs_view(d0) + Seq::<ErrV>::empty());
            return Some(Err(ctx.invalid_fk_args(m)));
        },
        Ok(p) => p,
    };
    let ghost pv = json_pairs_view(pairs@);
    let n = pairs.len();
    let mut k: usize = 0;
    while k < n
        invariant
            n == pairs@.len(),
            k <= n,
            pv == json_pairs_view(pairs@),
            json_literal_object(js@) == Ok::<_, Seq<char>>(pv),
            diag@ == d0,
            forall|j: int| 0 <= j < k ==> !(#[trigger] pv[j].1 is Other),
        decreases n - k,
    {
        if let JsonArg::Other = &pairs[k].1 {
            assert(pv[k as int].1 is Other);
            assert(errs_view(diag@) =~= errs_view(d0) + Seq::<ErrV>::empty());
            proof {
                reveal_strlit("invalid type: expected a litteral such as a number, a string or a boolean");
            }
            let e = ctx.invalid_fk_args(
                to_owned("invalid type: expected a litteral such as a number, a string or a boolean"),
            );
            return Some(Err(e));
        }
        k = k + 1;
    }
    assert(!(exists|i: int| 0 <= i < pv.len() && #[trigger] pv[i].1 is Other));
    let mut acc: Vec<(String, ParsedValue)> = Vec::new();
    assert(view_args(acc@) =~= Seq::<(Seq<char>, ValueV)>::empty());
    let mut i: usize = 0;
    let ghost mut gd: Seq<ErrV> = Seq::empty();
    assert(errs_view(diag@) =~= errs_view(d0) + gd);
    assert(spec_args_inner(ctx@, js@, bound) == spec_args_fold(ctx@, pv, 0, Seq::empty(), bound));
    assert(gd + spec_args_fold(ctx@, pv, 0, Seq::empty(), bound).diag =~= spec_args_fold(
        ctx@,
        pv,
        0,
        Seq::empty(),
        bound,
    ).diag);
    while i < n
        invariant
            n == pairs@.len(),
            i <= n,
            pv == json_pairs_view(pairs@),
            js@.len() < bound,
            d0 == old(diag)@,
            forall|j: int|
                0 <= j < pairs@.len() ==> ((#[trigger] pairs@[j]).1 matches JsonArg::Str(t) ==> t@.len()
                    < js@.len()),
            errs_view(diag@) == errs_view(d0) + gd,
            spec_args_inner(ctx@, js@, bound).res == spec_args_fold(
                ctx@,
                pv,
                i as nat,
                view_args(acc@),
                bound,
            ).res,
            spec_args_inner(ctx@, js@, bound).diag == gd + spec_args_fold(
                ctx@,
                pv,
                i as nat,
                view_args(acc@),
                bound,
            ).diag,
        decreases n - i,
    {
        let (name, arg) = &pairs[i];
        let full = concat_str("var_", trim(name.as_str()));
        assert(pv[i as int].0 == name@);
        let ghost dbefore = diag@;
        let ghost acc0 = view_args(acc@);
        let value = match arg {
            JsonArg::Str(t) => {
                assert(pv[i as int].1 == JsonArgV::Str(t@));
                match parse_value(ctx, t.as_str(), diag) {
                    None => {
                        assert(errs_view(diag@) =~= errs_view(d0) + spec_args_inner(ctx@, js@, bound).diag);
                        return None;
                    },
                    Some(Err(e)) => {
                        assert(errs_view(diag@) =~= errs_view(d0) + spec_args_inner(ctx@, js@, bound).diag);
                        return Some(Err(e));
                    },
                    Some(Ok(v)) => v,
                }
            },
            JsonArg::Bool(b) => ParsedValue::Literal(Literal::Bool(*b)),
            JsonArg::Unsigned(u) => ParsedValue::Literal(Literal::Unsigned(*u)),
            JsonArg::Signed(x) => ParsedValue::Literal(Literal::Signed(*x)),
            JsonArg::Float(t) => ParsedValue::Literal(Literal::Float(t.clone())),
            JsonArg::Other => ParsedValue::Default,
        };
        args_insert(&mut acc, full, value);
        proof {
            let added = errs_view(diag@).skip(errs_view(dbefore).len() as int);
            assert(errs_view(diag@) =~= errs_view(dbefore) + added);
            assert(errs_view(diag@) =~= errs_view(d0) + (gd + added));
            gd = gd + added;
            assert(spec_args_inner(ctx@, js@, bound).diag =~= gd + spec_args_fold(
                ctx@,
                pv,
                (i + 1) as nat,
                view_args(acc@),
                bound,
            ).diag);
        }
        i = i + 1;
    }
    assert(errs_view(diag@) =~= errs_view(d0) + spec_args_inner(ctx@, js@, bound).diag);
    Some(Ok(acc))
}

/// The placeholders found in a string that failed to parse: for the first
/// component, the component then the placeholders of the text before it,
/// between its tags and after it; without a component, the first variable
/// then the placeholders before and after it.
pub open spec fn spec_dummies(s: Seq<char>) -> Seq<DummyV>
    decreases s.len(), 1nat,
{
    match spec_dummy_comp(s) {
        Some(d) => d,
        None => spec_dummy_var(s),
    }
}

pub open spec fn spec_dummy_comp(s: Seq<char>) -> Option<Seq<DummyV>>
    decreases s.len(), 0nat,
{
    match spec_valid_component(s) {
        None => None,
        Some((k, b, bt, a, _)) => {
            proof {
                lemma_component_bounds(s, 0);
            }
            let db = match b {
                Some(x) => spec_dummies(x),
                None => seq![],
            };
            let dt = match bt {
                Some(x) => spec_dummies(x),
                None => seq![],
            };
            let da = match a {
                Some(x) => spec_dummies(x),
                None => seq![],
            };
            Some(seq![DummyV::Component(k)] + db + dt + da)
        },
    }
}

pub open spec fn spec_dummy_var(s: Seq<char>) -> Seq<DummyV>
    decreases s.len(), 0nat,
{
    match spec_split_once(s, "{{"@) {
        None => seq![],
        Some((before, rest)) => match spec_split_once(rest, "}}"@) {
            None => seq![],
            Some((raw, after)) => {
                let ident = match spec_split_once(raw, ","@) {
                    Some((a, _)) => spec_trim(a),
                    None => spec_trim(raw),
                };
                match spec_key_new("var_"@ + ident) {
                    None => seq![],
                    Some(k) => {
                        proof {
                            reveal_strlit("{{");
                            reveal_strlit("}}");
                            lemma_split_bounds(s, "{{"@);
                            lemma_split_bounds(rest, "}}"@);
                        }
                        seq![DummyV::Variable(k)] + spec_dummies(before) + spec_dummies(after)
                    },
                }
            },
        },
    }
}

/// The views of placeholders.
pub open spec fn dummies_view(d: Seq<Dummy>) -> Seq<DummyV> {
    d.map_values(|x: Dummy| x@)
}

fn dummies_of(s: &str, out: &mut Vec<Dummy>)
    ensures
        dummies_view(final(out)@) == dummies_view(old(out)@) + spec_dummies(s@),
    decreases s@.len(), 1nat,
{
    let ghost o0 = dummies_view(out@);
    if !dummy_component(s, out) {
        dummy_var(s, out);
    }
}

fn dummy_component(s: &str, out: &mut Vec<Dummy>) -> (found: bool)
    ensures
        found == spec_dummy_comp(s@) is Some,
        found ==> dummies_view(final(out)@) == dummies_view(old(out)@) + spec_dummy_comp(s@)->0,
        !found ==> final(out)@ == old(out)@,
    decreases s@.len(), 0nat,
{
    proof {
        lemma_component_bounds(s@, 0);
    }
    let ghost o0 = dummies_view(out@);
    let (k, b, bt, a, _) = match find_valid_component(s) {
        None => return false,
        Some(f) => f,
    };
    let ghost kv = k@;
    out.push(Dummy::Component(k));
    assert(dummies_view(out@) =~= o0 + seq![DummyV::Component(kv)]);
    let ghost o1 = dummies_view(out@);
    if let Some(x) = b {
        dummies_of(x, out);
    }
    let ghost o2 = dummies_view(out@);
    if let Some(x) = bt {
        dummies_of(x, out);
    }
    let ghost o3 = dummies_view(out@);
    if let Some(x) = a {
        dummies_of(x, out);
    }
    proof {
        let db = match b {
            Some(x) => spec_dummies(x@),
            None => Seq::<DummyV>::empty(),
        };
        let dt = match bt {
            Some(x) => spec_dummies(x@),
            None => Seq::<DummyV>::empty(),
        };
        let da = match a {
            Some(x) => spec_dummies(x@),
            None => Seq::<DummyV>::empty(),
        };
        assert(o2 =~= o1 + db);
        assert(o3 =~= o2 + dt);
        assert(dummies_view(out@) =~= o3 + da);
        assert(dummies_view(out@) =~= o0 + (seq![DummyV::Component(kv)] + db + dt + da));
    }
    true
}

fn dummy_var(s: &str, out: &mut Vec<Dummy>)
    ensures
        dummies_view(final(out)@) == dummies_view(old(out)@) + spec_dummy_var(s@),
    decreases s@.len(), 0nat,
{
    proof {
        reveal_strlit("{{");
        reveal_strlit("}}");
        lemma_split_bounds(s@, "{{"@);
    }
    let ghost o0 = dummies_view(out@);
    let (before, rest) = match split_once(s, "{{") {
        None => {
            assert(dummies_view(out@) =~= o0 + Seq::<DummyV>::empty());
            return;
        },
        Some(p) => p,
    };
    proof {
        lemma_split_bounds(rest@, "}}"@);
    }
    let (raw, after) = match split_once(rest, "}}") {
        None => {
            assert(dummies_view(out@) =~= o0 + Seq::<DummyV>::empty());
            return;
        },
        Some(p) => p,
    };
    let ident = match split_once(raw, ",") {
        Some((a, _)) => trim(a),
        None => trim(raw),
    };
    let name = concat_str("var_", ident);
    let k = match Key::new(name.as_str()) {
        None => {
            assert(dummies_view(out@) =~= o0 + Seq::<DummyV>::empty());
            return;
        },
        Some(k) => k,
    };
    let ghost kv = k@;
    out.push(Dummy::Variable(k));
    assert(dummies_view(out@) =~= o0 + seq![DummyV::Variable(kv)]);
    let ghost o1 = dummies_view(out@);
    dummies_of(before, out);
    let ghost o2 = dummies_view(out@);
    dummies_of(after, out);
    assert(dummies_view(out@) =~= o0 + (seq![DummyV::Variable(kv)] + spec_dummies(before@)
        + spec_dummies(after@)));
}

/// Whether the parse of `s` in context `c` panics in the original parser.
pub open spec fn parse_panics(c: CtxV, s: Seq<char>) -> bool {
    spec_new(c, s).res is None
}

impl ParsedValue {
    /// Parses a translation string: components, foreign keys and variables
    /// are recognised (in that order of precedence), everything else is
    /// literal text. Formatter problems are reported in `diag`.
    pub fn new(value: &str, ctx: &Context, diag: &mut Vec<Error>) -> (res: Result<ParsedValue, Error>)
        requires
            !parse_panics(ctx@, value@),
        ensures
            res_matches(Some(res), spec_new(ctx@, value@).res),
            errs_view(final(diag)@) == errs_view(old(diag)@) + spec_new(ctx@, value@).diag,
    {
        match parse_value(ctx, value, diag) {
            Some(r) => r,
            None => {
                proof {
                    assert(false);
                }
                Err(ctx.unexpected_token(""))
            },
        }
    }

    /// Like `new`, with `None` for the strings on which the parser would
    /// panic (foreign key arguments that are empty or start with a non-ASCII
    /// character and contain no closing brace).
    pub fn new_checked(value: &str, ctx: &Context, diag: &mut Vec<Error>) -> (res: Option<
        Result<ParsedValue, Error>,
    >)
        ensures
            res_matches(res, spec_new(ctx@, value@).res),
            errs_view(final(diag)@) == errs_view(old(diag)@) + spec_new(ctx@, value@).diag,
    {
        parse_value(ctx, value, diag)
    }

    /// The placeholders of a string that failed to parse.
    pub fn new_dummy(value: &str) -> (res: ParsedValue)
        ensures
            res@ == ValueV::Dummy(spec_dummies(value@)),
    {
        let mut d: Vec<Dummy> = Vec::new();
        assert(dummies_view(d@) =~= Seq::<DummyV>::empty());
        dummies_of(value, &mut d);
        assert(dummies_view(d@) =~= spec_dummies(value@));
        ParsedValue::Dummy(d)
    }
}

/// The value read for a translation string: its parse, or when that fails,
/// the error reported and the placeholders of the string.
pub open spec fn spec_string_value(c: CtxV, s: Seq<char>) -> (ValueV, Seq<ErrV>) {
    let o = spec_new(c, s);
    match o.res {
        Some(Ok(v)) => (v, o.diag),
        Some(Err(e)) => (ValueV::Dummy(spec_dummies(s)), o.diag.push(e)),
        None => (ValueV::Default, o.diag),
    }
}

/// Reads a translation string: parsed when possible, otherwise reported and
/// replaced by its placeholders.
pub fn parse_string_value(value: &str, ctx: &Context, diag: &mut Vec<Error>) -> (res: ParsedValue)
    requires
        !parse_panics(ctx@, value@),
    ensures
        res@ == spec_string_value(ctx@, value@).0,
        errs_view(final(diag)@) == errs_view(old(diag)@) + spec_string_value(ctx@, value@).1,
{
    let ghost d0 = diag@;
    match ParsedValue::new(value, ctx, diag) {
        Ok(pv) => pv,
        Err(e) => {
            let ghost ev = e@;
            let ghost d1 = diag@;
            diag.push(e);
            proof {
                lemma_errs_push(d1, e);
                assert(errs_view(diag@) =~= errs_view(d0) + spec_new(ctx@, value@).diag.push(ev));
            }
            ParsedValue::new_dummy(value)
        },
    }
}

} // verus!
