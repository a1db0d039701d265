//! Interning of the literal strings of the translations: each distinct string
//! is stored once and referred to by its position.

use vstd::prelude::*;
use crate::text::{str_eq, to_owned};

verus! {

/// The strings seen so far, each once, in the order of first appearance.
pub struct StringIndexer {
    acc: Vec<String>,
}

/// The views of a vector of strings.
pub open spec fn strings_view(v: Seq<String>) -> Seq<Seq<char>> {
    v.map_values(|s: String| s@)
}

/// No string occurs twice.
pub open spec fn all_distinct(s: Seq<Seq<char>>) -> bool {
    forall|i: int, j: int| 0 <= i < j < s.len() ==> s[i] != s[j]
}

impl View for StringIndexer {
    type V = Seq<Seq<char>>;

    closed spec fn view(&self) -> Seq<Seq<char>> {
        strings_view(self.acc@)
    }
}

impl StringIndexer {
    /// Its invariant: every string is stored once.
    pub open spec fn wf(&self) -> bool {
        all_distinct(self@)
    }

    /// An indexer that holds nothing yet.
    pub fn new() -> (res: StringIndexer)
        ensures
            res@ == Seq::<Seq<char>>::empty(),
            res.wf(),
    {
        let res = StringIndexer { acc: Vec::new() };
        assert(res@ =~= Seq::<Seq<char>>::empty());
        res
    }

    /// The position of `s`: where it already stands, or at the end, where it
    /// is then appended.
    pub fn push_str(&mut self, s: &str) -> (res: usize)
        requires
            old(self).wf(),
        ensures
            final(self).wf(),
            old(self)@.contains(s@) ==> final(self)@ == old(self)@ && res < old(self)@.len()
                && old(self)@[res as int] == s@,
            !old(self)@.contains(s@) ==> final(self)@ == old(self)@.push(s@) && res
                == old(self)@.len(),
    {
        let n = self.acc.len();
        let mut i: usize = 0;
        while i < n
            invariant
                n == self.acc@.len(),
                i <= n,
                self@ == strings_view(self.acc@),
                self@ == old(self)@,
                all_distinct(self@),
                forall|j: int| 0 <= j < i ==> self@[j] != s@,
            decreases n - i,
        {
            if str_eq(self.acc[i].as_str(), s) {
                assert(self@[i as int] == s@);
                return i;
            }
            i = i + 1;
        }
        assert(!self@.contains(s@));
        let ghost before = self@;
        self.acc.push(to_owned(s));
        assert(self@ =~= before.push(s@));
        n
    }

    /// The stored strings, each at its index.
    pub fn get_strings(self) -> (res: Vec<String>)
        ensures
            strings_view(res@) == self@,
    {
        self.acc
    }
}

} // verus!
