//! The translations of one locale loaded at run time: a language tag and a
//! table from keys to translated strings.

use vstd::prelude::*;
use crate::text::str_eq;

verus! {

/// A locale's translations.
pub struct LocaleInner {
    lang: String,
    translations: Vec<(String, String)>,
}

/// The views of key/value pairs.
pub open spec fn pairs_view(v: Seq<(String, String)>) -> Seq<(Seq<char>, Seq<char>)> {
    v.map_values(|p: (String, String)| (p.0@, p.1@))
}

/// No key occurs twice.
pub open spec fn keys_distinct(s: Seq<(Seq<char>, Seq<char>)>) -> bool {
    forall|i: int, j: int| 0 <= i < j < s.len() ==> s[i].0 != s[j].0
}

/// The value stored under `k`.
pub open spec fn lookup(s: Seq<(Seq<char>, Seq<char>)>, k: Seq<char>) -> Option<Seq<char>>
    decreases s.len(),
{
    if s.len() == 0 {
        None
    } else if s.last().0 == k {
        Some(s.last().1)
    } else {
        lookup(s.drop_last(), k)
    }
}

/// The table after storing `v` under `k`: the old value of `k` replaced in
/// place, or the pair appended.
pub open spec fn store(s: Seq<(Seq<char>, Seq<char>)>, k: Seq<char>, v: Seq<char>) -> Seq<
    (Seq<char>, Seq<char>),
> {
    if exists|i: int| 0 <= i < s.len() && s[i].0 == k {
        let i = choose|i: int| 0 <= i < s.len() && s[i].0 == k;
        s.update(i, (k, v))
    } else {
        s.push((k, v))
    }
}

/// Where `k` stands in a table with distinct keys, `lookup` finds its value.
pub proof fn lemma_lookup_at(s: Seq<(Seq<char>, Seq<char>)>, i: int)
    requires
        keys_distinct(s),
        0 <= i < s.len(),
    ensures
        lookup(s, s[i].0) == Some(s[i].1),
    decreases s.len(),
{
    if i != s.len() - 1 {
        assert(s.drop_last()[i] == s[i]);
        lemma_lookup_at(s.drop_last(), i);
    }
}

/// A key absent from the table has no value.
pub proof fn lemma_lookup_absent(s: Seq<(Seq<char>, Seq<char>)>, k: Seq<char>)
    requires
        forall|i: int| 0 <= i < s.len() ==> s[i].0 != k,
    ensures
        lookup(s, k) is None,
    decreases s.len(),
{
    if s.len() > 0 {
        assert forall|i: int| 0 <= i < s.drop_last().len() implies s.drop_last()[i].0 != k by {
            assert(s.drop_last()[i] == s[i]);
        }
        lemma_lookup_absent(s.drop_last(), k);
    }
}

/// Storing under `k` gives `k` the stored value and leaves the other keys.
pub proof fn lemma_store(s: Seq<(Seq<char>, Seq<char>)>, k: Seq<char>, v: Seq<char>, k2: Seq<char>)
    requires
        keys_distinct(s),
    ensures
        keys_distinct(store(s, k, v)),
        lookup(store(s, k, v), k) == Some(v),
        k2 != k ==> lookup(store(s, k, v), k2) == lookup(s, k2),
{
    let t = store(s, k, v);
    if exists|i: int| 0 <= i < s.len() && s[i].0 == k {
        let i = choose|i: int| 0 <= i < s.len() && s[i].0 == k;
        assert(keys_distinct(t));
        lemma_lookup_at(t, i);
        if k2 != k {
            if exists|j: int| 0 <= j < s.len() && s[j].0 == k2 {
                let j = choose|j: int| 0 <= j < s.len() && s[j].0 == k2;
                lemma_lookup_at(s, j);
                lemma_lookup_at(t, j);
            } else {
                lemma_lookup_absent(s, k2);
                lemma_lookup_absent(t, k2);
            }
        }
    } else {
        assert(keys_distinct(t));
        lemma_lookup_at(t, s.len() as int);
        if k2 != k {
            assert(t.drop_last() =~= s);
        }
    }
}

impl LocaleInner {
    /// The table as key/value pairs.
    pub closed spec fn table(&self) -> Seq<(Seq<char>, Seq<char>)> {
        pairs_view(self.translations@)
    }

    /// The language tag.
    pub closed spec fn lang_view(&self) -> Seq<char> {
        self.lang@
    }

    /// Its invariant: no key occurs twice.
    pub open spec fn wf(&self) -> bool {
        keys_distinct(self.table())
    }

    /// A locale named `lang` with no translation yet.
    pub fn new(lang: String) -> (res: LocaleInner)
        ensures
            res.wf(),
            res.lang_view() == lang@,
            res.table() == Seq::<(Seq<char>, Seq<char>)>::empty(),
    {
        let res = LocaleInner { lang, translations: Vec::new() };
        assert(res.table() =~= Seq::<(Seq<char>, Seq<char>)>::empty());
        res
    }

    /// The stored key/value pairs.
    pub fn translations(&self) -> (res: &Vec<(String, String)>)
        ensures
            pairs_view(res@) == self.table(),
    {
        &self.translations
    }

    /// The language tag.
    pub fn lang(&self) -> (res: &str)
        ensures
            res@ == self.lang_view(),
    {
        self.lang.as_str()
    }

    /// Stores `value` under `key`, replacing what was there.
    pub fn insert(&mut self, key: String, value: String)
        requires
            old(self).wf(),
        ensures
            final(self).wf(),
            final(self).lang_view() == old(self).lang_view(),
            final(self).table() == store(old(self).table(), key@, value@),
    {
        let ghost t0 = self.table();
        let n = self.translations.len();
        let mut i: usize = 0;
        while i < n
            invariant
                n == self.translations@.len(),
                i <= n,
                self.table() == t0,
                t0 == old(self).table(),
                keys_distinct(t0),
                self.lang@ == old(self).lang@,
                forall|j: int| 0 <= j < i ==> t0[j].0 != key@,
            decreases n - i,
        {
            if str_eq(self.translations[i].0.as_str(), key.as_str()) {
                assert(t0[i as int].0 == key@);
                proof {
                    let c = choose|c: int| 0 <= c < t0.len() && t0[c].0 == key@;
                    assert(c == i as int);
                    assert(store(t0, key@, value@) == t0.update(i as int, (key@, value@)));
                }
                let k2 = key;
                self.translations.set(i, (k2, value));
                assert(self.table() =~= t0.update(i as int, (key@, value@)));
                return;
            }
            i = i + 1;
        }
        self.translations.push((key, value));
        assert(self.table() =~= t0.push((key@, value@)));
    }

    /// The translation stored under `key`.
    pub fn get_by_key(&self, key: &str) -> (res: Option<&str>)
        requires
            self.wf(),
        ensures
            match res {
                Some(v) => lookup(self.table(), key@) == Some(v@),
                None => lookup(self.table(), key@) is None,
            },
    {
        let ghost t = self.table();
        let mut i: usize = 0;
        while i < self.translations.len()
            invariant
                t == self.table(),
                keys_distinct(t),
                i <= self.translations@.len(),
                forall|j: int| 0 <= j < i ==> t[j].0 != key@,
            decreases self.translations@.len() - i,
        {
            if str_eq(self.translations[i].0.as_str(), key) {
                proof {
                    lemma_lookup_at(t, i as int);
                }
                return Some(self.translations[i].1.as_str());
            }
            i = i + 1;
        }
        proof {
            lemma_lookup_absent(t, key@);
        }
        None
    }

    /// The translation stored under `key`, or `default` where there is none.
    pub fn get_by_key_with_default<'a>(&'a self, key: &str, default: &'a str) -> (res: &'a str)
        requires
            self.wf(),
        ensures
            res@ == (match lookup(self.table(), key@) {
                Some(v) => v,
                None => default@,
            }),
    {
        match self.get_by_key(key) {
            Some(v) => v,
            None => default,
        }
    }
}

/// What a lookup reads back of a write: after `insert(k, v)`, the key `k`
/// gives `v` and every other key gives what it gave before.
pub proof fn law_get_after_insert(
    before: Seq<(Seq<char>, Seq<char>)>,
    k: Seq<char>,
    v: Seq<char>,
    other: Seq<char>,
)
    requires
        keys_distinct(before),
    ensures
        lookup(store(before, k, v), k) == Some(v),
        other != k ==> lookup(store(before, k, v), other) == lookup(before, other),
{
    lemma_store(before, k, v, other);
}

/// The locales served, with the default one.
pub struct I18nConfig {
    pub default_index: usize,
    pub locales: Vec<LocaleInner>,
}

/// The last position whose locale is named `lang`.
pub open spec fn last_named(ls: Seq<LocaleInner>, lang: Seq<char>) -> Option<int>
    decreases ls.len(),
{
    if ls.len() == 0 {
        None
    } else if ls.last().lang_view() == lang {
        Some(ls.len() - 1)
    } else {
        last_named(ls.drop_last(), lang)
    }
}

/// The first position whose locale is named `lang`.
pub open spec fn first_named(ls: Seq<LocaleInner>, lang: Seq<char>, i: int) -> Option<int>
    decreases ls.len() - i,
{
    if i < 0 || i >= ls.len() {
        None
    } else if ls[i].lang_view() == lang {
        Some(i)
    } else {
        first_named(ls, lang, i + 1)
    }
}

impl I18nConfig {
    pub open spec fn default_pos(&self) -> int {
        self.default_index as int
    }

    pub open spec fn wf(&self) -> bool {
        0 <= self.default_pos() < self.locales@.len()
    }

    /// The configuration of the loaded locales, the default one being the
    /// last named `default`; `None` when no locale has that name.
    pub fn new(default: &str, locales: Vec<LocaleInner>) -> (res: Option<I18nConfig>)
        ensures
            match res {
                Some(c) => c.wf() && c.locales@ == locales@ && last_named(locales@, default@) == Some(
                    c.default_pos(),
                ),
                None => last_named(locales@, default@) is None,
            },
    {
        let mut i = locales.len();
        assert(locales@.take(i as int) =~= locales@);
        while i > 0
            invariant
                i <= locales@.len(),
                last_named(locales@, default@) == last_named(locales@.take(i as int), default@),
            decreases i,
        {
            let ghost pre = locales@.take(i as int);
            assert(pre.drop_last() =~= locales@.take(i - 1));
            assert(pre.last() == locales@[i - 1]);
            if str_eq(locales[i - 1].lang(), default) {
                return Some(I18nConfig { default_index: i - 1, locales });
            }
            i = i - 1;
        }
        assert(locales@.take(0) =~= Seq::<LocaleInner>::empty());
        None
    }

    /// The default locale.
    pub fn default_locale(&self) -> (res: &LocaleInner)
        requires
            self.wf(),
        ensures
            *res == self.locales@[self.default_pos()],
    {
        &self.locales[self.default_index]
    }

    /// The first locale named `lang`.
    pub fn get_local(&self, lang: &str) -> (res: Option<&LocaleInner>)
        ensures
            match res {
                Some(l) => first_named(self.locales@, lang@, 0) matches Some(i) && *l == self.locales@[i],
                None => first_named(self.locales@, lang@, 0) is None,
            },
    {
        let mut i: usize = 0;
        while i < self.locales.len()
            invariant
                i <= self.locales@.len(),
                first_named(self.locales@, lang@, 0) == first_named(self.locales@, lang@, i as int),
            decreases self.locales@.len() - i,
        {
            if str_eq(self.locales[i].lang(), lang) {
                return Some(&self.locales[i]);
            }
            i = i + 1;
        }
        None
    }
}

} // verus!
