//! Negotiation of the language of a request: the languages of an
//! `Accept-Language` header, ordered by their quality, after a preferred
//! language that a cookie may hold.

use vstd::prelude::*;
use crate::indexer::strings_view;
use crate::text::{
    spec_split, spec_strip_prefix, spec_trim, split, str_eq, strip_prefix, to_owned, trim,
};

verus! {

/// The languages a client accepts, most wanted first.
pub struct AcceptedLang {
    langs: Vec<String>,
    preffered_lang: Option<String>,
}

/// View of the accepted languages.
pub struct AcceptedLangV {
    pub langs: Seq<Seq<char>>,
    pub preffered_lang: Option<Seq<char>>,
}

impl View for AcceptedLang {
    type V = AcceptedLangV;

    closed spec fn view(&self) -> AcceptedLangV {
        AcceptedLangV {
            langs: strings_view(self.langs@),
            preffered_lang: match self.preffered_lang {
                Some(p) => Some(p@),
                None => None,
            },
        }
    }
}

/// The languages in the order they are tried: the preferred one, then the
/// header's.
pub open spec fn candidates(a: AcceptedLangV) -> Seq<Seq<char>> {
    match a.preffered_lang {
        Some(p) => seq![p] + a.langs,
        None => a.langs,
    }
}

/// The first index of `l` among `locales`.
pub open spec fn first_index(locales: Seq<Seq<char>>, l: Seq<char>) -> Option<int>
    decreases locales.len(),
{
    if locales.len() == 0 {
        None
    } else if locales[0] == l {
        Some(0)
    } else {
        match first_index(locales.drop_first(), l) {
            Some(i) => Some(i + 1),
            None => None,
        }
    }
}

/// The index of the locale chosen for the candidates `cands`: that of the
/// first candidate that some locale equals, at its first occurrence.
pub open spec fn spec_first_lang(cands: Seq<Seq<char>>, locales: Seq<Seq<char>>) -> Option<int>
    decreases cands.len(),
{
    if cands.len() == 0 {
        None
    } else {
        match first_index(locales, cands[0]) {
            Some(i) => Some(i),
            None => spec_first_lang(cands.drop_first(), locales),
        }
    }
}

/// `first_index` lies within the sequence and points at the value.
pub proof fn lemma_first_index(locales: Seq<Seq<char>>, l: Seq<char>)
    ensures
        first_index(locales, l) matches Some(i) ==> 0 <= i < locales.len() && locales[i] == l
            && forall|j: int| 0 <= j < i ==> locales[j] != l,
        first_index(locales, l) is None ==> !locales.contains(l),
    decreases locales.len(),
{
    if locales.len() > 0 {
        lemma_first_index(locales.drop_first(), l);
        if locales[0] != l {
            if first_index(locales, l) is Some {
                let i = first_index(locales, l)->0;
                assert forall|j: int| 0 <= j < i implies locales[j] != l by {
                    if j > 0 {
                        assert(locales.drop_first()[j - 1] == locales[j]);
                    }
                }
            }
            if first_index(locales, l) is None {
                assert forall|k: int| 0 <= k < locales.len() implies locales[k] != l by {
                    if k > 0 {
                        assert(locales.drop_first()[k - 1] == locales[k]);
                    }
                }
            }
        }
    }
}

/// `spec_first_lang` gives an index of `locales`.
pub proof fn lemma_first_lang_bound(cands: Seq<Seq<char>>, locales: Seq<Seq<char>>)
    ensures
        spec_first_lang(cands, locales) matches Some(i) ==> 0 <= i < locales.len(),
    decreases cands.len(),
{
    if cands.len() > 0 {
        lemma_first_index(locales, cands[0]);
        lemma_first_lang_bound(cands.drop_first(), locales);
    }
}

pub(crate) fn find_index(locales: &[String], l: &str) -> (res: Option<usize>)
    ensures
        res matches Some(i) ==> first_index(strings_view(locales@), l@) == Some(i as int) && i
            < locales@.len(),
        res is None ==> first_index(strings_view(locales@), l@) is None,
{
    let ghost ls = strings_view(locales@);
    proof {
        lemma_first_index(ls, l@);
    }
    let mut i: usize = 0;
    while i < locales.len()
        invariant
            ls == strings_view(locales@),
            i <= locales@.len(),
            forall|j: int| 0 <= j < i ==> ls[j] != l@,
            first_index(ls, l@) matches Some(k) ==> 0 <= k < ls.len() && ls[k] == l@ && forall|
                j: int,
            |
                0 <= j < k ==> ls[j] != l@,
            first_index(ls, l@) is None ==> !ls.contains(l@),
        decreases locales@.len() - i,
    {
        if str_eq(locales[i].as_str(), l) {
            assert(ls[i as int] == l@);
            return Some(i);
        }
        i = i + 1;
    }
    assert(!ls.contains(l@)) by {
        assert forall|k: int| 0 <= k < ls.len() implies ls[k] != l@ by {}
    }
    None
}

/// One `;`-separated part of an `Accept-Language` header: the text of its
/// `q=` weight when its first `,`-separated piece is one, and its languages.
pub struct HeaderPart {
    pub quality: Option<String>,
    pub langs: Vec<String>,
}

impl View for HeaderPart {
    type V = (Option<Seq<char>>, Seq<Seq<char>>);

    open spec fn view(&self) -> (Option<Seq<char>>, Seq<Seq<char>>) {
        (
            match self.quality {
                Some(q) => Some(q@),
                None => None,
            },
            strings_view(self.langs@),
        )
    }
}

/// The trimmed pieces.
pub open spec fn trimmed(p: Seq<Seq<char>>) -> Seq<Seq<char>> {
    p.map_values(|x: Seq<char>| spec_trim(x))
}

/// One part of the header: a leading `q=` piece is its weight, the other
/// pieces, trimmed, its languages.
pub open spec fn spec_header_part(seg: Seq<char>) -> (Option<Seq<char>>, Seq<Seq<char>>) {
    let pieces = spec_split(seg, ","@);
    match spec_strip_prefix(spec_trim(pieces[0]), "q="@) {
        Some(q) => (Some(q), trimmed(pieces.drop_first())),
        None => (None, trimmed(pieces)),
    }
}

/// The parts of a header, in order.
pub open spec fn spec_header_parts(h: Seq<char>) -> Seq<(Option<Seq<char>>, Seq<Seq<char>>)> {
    spec_split(h, ";"@).map_values(|s: Seq<char>| spec_header_part(s))
}

/// `spec_split` gives at least one piece.
pub proof fn lemma_split_nonempty(s: Seq<char>, p: Seq<char>)
    ensures
        spec_split(s, p).len() >= 1,
{
}

fn trim_all(v: &Vec<&str>, from: usize) -> (res: Vec<String>)
    requires
        from <= v@.len(),
    ensures
        strings_view(res@) == trimmed(v@.map_values(|x: &str| x@).skip(from as int)),
{
    let ghost src = v@.map_values(|x: &str| x@);
    let mut out: Vec<String> = Vec::new();
    let mut i = from;
    while i < v.len()
        invariant
            from <= i <= v@.len(),
            src == v@.map_values(|x: &str| x@),
            strings_view(out@) == trimmed(src.subrange(from as int, i as int)),
        decreases v@.len() - i,
    {
        let ghost before = out@;
        out.push(to_owned(trim(v[i])));
        assert(strings_view(out@) =~= strings_view(before).push(spec_trim(src[i as int])));
        assert(src.subrange(from as int, i + 1) =~= src.subrange(from as int, i as int).push(
            src[i as int],
        ));
        assert(trimmed(src.subrange(from as int, i + 1)) =~= trimmed(
            src.subrange(from as int, i as int),
        ).push(spec_trim(src[i as int])));
        i = i + 1;
    }
    assert(src.subrange(from as int, i as int) =~= src.skip(from as int));
    out
}

fn header_part(seg: &str) -> (res: HeaderPart)
    ensures
        res@ == spec_header_part(seg@),
{
    proof {
        reveal_strlit(",");
        reveal_strlit("q=");
        lemma_split_nonempty(seg@, ","@);
    }
    let pieces = split(seg, ",");
    let ghost pv = pieces@.map_values(|x: &str| x@);
    assert(pv.len() >= 1);
    assert(pieces[0]@ == pv[0]);
    match strip_prefix(trim(pieces[0]), "q=") {
        Some(q) => {
            let langs = trim_all(&pieces, 1);
            assert(pv.skip(1) =~= pv.drop_first());
            HeaderPart { quality: Some(to_owned(q)), langs }
        },
        None => {
            let langs = trim_all(&pieces, 0);
            assert(pv.skip(0) =~= pv);
            HeaderPart { quality: None, langs }
        },
    }
}

/// Splits an `Accept-Language` header into its parts; the weights stay
/// text, for the caller to read.
pub fn split_header(header: &str) -> (res: Vec<HeaderPart>)
    ensures
        res@.map_values(|p: HeaderPart| p@) == spec_header_parts(header@),
{
    proof {
        reveal_strlit(";");
    }
    let segs = split(header, ";");
    let ghost sv = segs@.map_values(|x: &str| x@);
    let mut out: Vec<HeaderPart> = Vec::new();
    let mut i: usize = 0;
    while i < segs.len()
        invariant
            i <= segs@.len(),
            sv == segs@.map_values(|x: &str| x@),
            sv == spec_split(header@, ";"@),
            out@.map_values(|p: HeaderPart| p@) == sv.take(i as int).map_values(
                |s: Seq<char>| spec_header_part(s),
            ),
        decreases segs@.len() - i,
    {
        let ghost before = out@;
        out.push(header_part(segs[i]));
        assert(out@.map_values(|p: HeaderPart| p@) =~= before.map_values(|p: HeaderPart| p@).push(
            spec_header_part(sv[i as int]),
        ));
        assert(sv.take(i + 1) =~= sv.take(i as int).push(sv[i as int]));
        assert(sv.take(i + 1).map_values(|s: Seq<char>| spec_header_part(s)) =~= sv.take(
            i as int,
        ).map_values(|s: Seq<char>| spec_header_part(s)).push(spec_header_part(sv[i as int])));
        i = i + 1;
    }
    assert(sv.take(i as int) =~= sv);
    out
}

/// The index of the first greatest rank among the first `n`.
pub open spec fn first_max_upto(r: Seq<u32>, n: nat) -> int
    decreases n,
{
    if n <= 1 {
        0
    } else {
        let j = first_max_upto(r, (n - 1) as nat);
        if r[n - 1] > r[j] {
            n - 1
        } else {
            j
        }
    }
}

/// The index of the first greatest rank.
pub open spec fn first_max(r: Seq<u32>) -> int {
    first_max_upto(r, r.len())
}

/// The languages of the parts, taken part by part from the highest rank
/// down; parts of equal rank keep their order.
pub open spec fn spec_by_rank(langs: Seq<Seq<Seq<char>>>, ranks: Seq<u32>) -> Seq<Seq<char>>
    decreases langs.len(),
{
    if langs.len() == 0 || ranks.len() != langs.len() {
        Seq::empty()
    } else {
        let i = first_max(ranks);
        if 0 <= i < langs.len() {
            langs[i] + spec_by_rank(langs.remove(i), ranks.remove(i))
        } else {
            Seq::empty()
        }
    }
}

pub proof fn lemma_first_max(r: Seq<u32>, n: nat)
    requires
        1 <= n <= r.len(),
    ensures
        0 <= first_max_upto(r, n) < n,
        forall|k: int| 0 <= k < n ==> #[trigger] r[k] <= r[first_max_upto(r, n)],
        forall|k: int| 0 <= k < first_max_upto(r, n) ==> #[trigger] r[k] < r[first_max_upto(r, n)],
    decreases n,
{
    if n > 1 {
        lemma_first_max(r, (n - 1) as nat);
    }
}

/// The languages of the parts from the highest rank down (the rank of a
/// part stands at its index in `ranks`); parts of equal rank keep their
/// order.
pub fn langs_by_rank(parts: Vec<HeaderPart>, ranks: Vec<u32>) -> (res: Vec<String>)
    requires
        parts@.len() == ranks@.len(),
    ensures
        strings_view(res@) == spec_by_rank(parts@.map_values(|p: HeaderPart| p@.1), ranks@),
{
    let ghost all = spec_by_rank(parts@.map_values(|p: HeaderPart| p@.1), ranks@);
    let mut parts = parts;
    let mut ranks = ranks;
    let mut out: Vec<String> = Vec::new();
    while parts.len() > 0
        invariant
            parts@.len() == ranks@.len(),
            all == strings_view(out@) + spec_by_rank(
                parts@.map_values(|p: HeaderPart| p@.1),
                ranks@,
            ),
        decreases parts@.len(),
    {
        let n = ranks.len();
        let mut best: usize = 0;
        let mut k: usize = 1;
        while k < n
            invariant
                n == ranks@.len(),
                1 <= k <= n,
                best == first_max_upto(ranks@, k as nat),
            decreases n - k,
        {
            proof {
                lemma_first_max(ranks@, k as nat);
            }
            if ranks[k] > ranks[best] {
                best = k;
            }
            k = k + 1;
        }
        proof {
            lemma_first_max(ranks@, n as nat);
        }
        let ghost lv = parts@.map_values(|p: HeaderPart| p@.1);
        let ghost before = out@;
        let part = parts.remove(best);
        ranks.remove(best);
        assert(parts@.map_values(|p: HeaderPart| p@.1) =~= lv.remove(best as int));
        assert(part@.1 == lv[best as int]);
        let mut j: usize = 0;
        let langs = part.langs;
        while j < langs.len()
            invariant
                j <= langs@.len(),
                strings_view(out@) == strings_view(before) + strings_view(langs@).take(j as int),
            decreases langs@.len() - j,
        {
            let ghost b2 = out@;
            out.push(to_owned(langs[j].as_str()));
            assert(strings_view(out@) =~= strings_view(b2).push(langs[j as int]@));
            assert(strings_view(langs@).take(j + 1) =~= strings_view(langs@).take(j as int).push(
                langs[j as int]@,
            ));
            j = j + 1;
        }
        assert(strings_view(langs@).take(j as int) =~= strings_view(langs@));
        assert(strings_view(out@) + spec_by_rank(parts@.map_values(|p: HeaderPart| p@.1), ranks@)
            =~= strings_view(before) + (lv[best as int] + spec_by_rank(
            lv.remove(best as int),
            ranks@,
        )));
    }
    assert(spec_by_rank(parts@.map_values(|p: HeaderPart| p@.1), ranks@) =~= Seq::<
        Seq<char>,
    >::empty());
    assert(strings_view(out@) =~= all);
    out
}

impl AcceptedLang {
    /// The accepted languages `langs`, after the cookie's `preffered_lang`.
    pub fn new(langs: Vec<String>, preffered_lang: Option<String>) -> (res: AcceptedLang)
        ensures
            res@.langs == strings_view(langs@),
            res@.preffered_lang == (match preffered_lang {
                Some(p) => Some(p@),
                None => None,
            }),
    {
        AcceptedLang { langs, preffered_lang }
    }

    /// The first of `locales` that the client accepts, going through its
    /// languages in order (the preferred one first); `None` if it accepts
    /// none of them.
    pub fn find_first_lang<'a>(&self, locales: &'a [String]) -> (res: Option<&'a String>)
        ensures
            res is None <==> spec_first_lang(candidates(self@), strings_view(locales@)) is None,
            res matches Some(l) ==> (spec_first_lang(candidates(self@), strings_view(locales@))
                matches Some(i) && l == &locales@[i]),
    {
        let ghost ls = strings_view(locales@);
        let ghost all = candidates(self@);
        let mut start: usize = 0;
        if let Some(p) = &self.preffered_lang {
            match find_index(locales, p.as_str()) {
                Some(i) => {
                    return Some(&locales[i]);
                },
                None => {},
            }
        }
        let ghost skip: int = if self.preffered_lang is Some {
            1
        } else {
            0
        };
        assert(spec_first_lang(all, ls) == spec_first_lang(all.subrange(skip, all.len() as int), ls))
            by {
            if skip == 1 {
                assert(all.drop_first() =~= all.subrange(1, all.len() as int));
            } else {
                assert(all =~= all.subrange(0, all.len() as int));
            }
        }
        let mut k: usize = 0;
        while k < self.langs.len()
            invariant
                ls == strings_view(locales@),
                all == candidates(self@),
                0 <= skip <= 1,
                skip + self@.langs.len() == all.len(),
                forall|j: int| 0 <= j < self@.langs.len() ==> all[skip + j] == self@.langs[j],
                k <= self.langs@.len(),
                spec_first_lang(all, ls) == spec_first_lang(
                    all.subrange(skip + k, all.len() as int),
                    ls,
                ),
            decreases self.langs@.len() - k,
        {
            let ghost rest = all.subrange(skip + k, all.len() as int);
            assert(rest[0] == self@.langs[k as int]);
            assert(rest.drop_first() =~= all.subrange(skip + k + 1, all.len() as int));
            match find_index(locales, self.langs[k].as_str()) {
                Some(i) => {
                    return Some(&locales[i]);
                },
                None => {},
            }
            k = k + 1;
        }
        assert(all.subrange(skip + k, all.len() as int) =~= Seq::<Seq<char>>::empty());
        None
    }
}

} // verus!
