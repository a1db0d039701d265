//! Localized routes: reading the locale out of a path, and rewriting a path
//! written with the route segments of one locale into those of another.

use vstd::prelude::*;
use crate::accepted_lang::{find_index, first_index};
use crate::indexer::strings_view;
use crate::key::join_with;
use crate::text::{spec_split, spec_split_once, spec_strip_prefix, split, split_once, str_eq, strip_prefix, to_owned};

verus! {

/// Whether the default locale gets a URL prefix like the others.
#[derive(Debug, Clone, Copy, PartialEq, Eq, Structural, Hash, PartialOrd, Ord)]
pub enum PrefixDefault {
    /// The default locale is served unprefixed (`/path`).
    Never,
    /// Every locale is prefixed, the default one too (`/{def}/path`).
    Always,
}

impl Default for PrefixDefault {
    fn default() -> (res: PrefixDefault)
        ensures
            res == PrefixDefault::Never,
    {
        PrefixDefault::Never
    }
}

/// One segment of a route definition.
#[derive(Debug, Clone, PartialEq)]
pub enum PathSegment {
    Unit,
    Param(String),
    OptionalParam(String),
    Static(String),
    Splat(String),
}

/// View of a route segment.
pub enum SegV {
    Unit,
    Param(Seq<char>),
    OptionalParam(Seq<char>),
    Static(Seq<char>),
    Splat(Seq<char>),
}

impl View for PathSegment {
    type V = SegV;

    open spec fn view(&self) -> SegV {
        match self {
            PathSegment::Unit => SegV::Unit,
            PathSegment::Param(s) => SegV::Param(s@),
            PathSegment::OptionalParam(s) => SegV::OptionalParam(s@),
            PathSegment::Static(s) => SegV::Static(s@),
            PathSegment::Splat(s) => SegV::Splat(s@),
        }
    }
}

pub open spec fn segs_view(s: Seq<PathSegment>) -> Seq<SegV> {
    s.map_values(|x: PathSegment| x@)
}

pub open spec fn strs_view(s: Seq<&str>) -> Seq<Seq<char>> {
    s.map_values(|x: &str| x@)
}

/// `s` without its leading `c`s.
pub open spec fn trim_start_char(s: Seq<char>, c: char) -> Seq<char>
    decreases s.len(),
{
    if s.len() > 0 && s[0] == c {
        trim_start_char(s.drop_first(), c)
    } else {
        s
    }
}

/// `s` without its trailing `c`s.
pub open spec fn trim_end_char(s: Seq<char>, c: char) -> Seq<char>
    decreases s.len(),
{
    if s.len() > 0 && s.last() == c {
        trim_end_char(s.drop_last(), c)
    } else {
        s
    }
}

/// `s` without its leading and trailing `c`s.
pub open spec fn trim_char(s: Seq<char>, c: char) -> Seq<char> {
    trim_end_char(trim_start_char(s, c), c)
}

/// `s` without its leading `c`s.
pub fn trim_start_matches(s: &str, c: char) -> (res: &str)
    ensures
        res@ == trim_start_char(s@, c),
{
    let n = s.unicode_len();
    let mut i: usize = 0;
    assert(s@.skip(0) =~= s@);
    while i < n && s.get_char(i) == c
        invariant
            n == s@.len(),
            i <= n,
            trim_start_char(s@, c) == trim_start_char(s@.skip(i as int), c),
        decreases n - i,
    {
        assert(s@.skip(i as int).drop_first() =~= s@.skip(i + 1));
        i = i + 1;
    }
    let r = s.substring_char(i, n);
    assert(r@ =~= s@.skip(i as int));
    r
}

/// `s` without its leading and trailing `c`s.
pub fn trim_matches(s: &str, c: char) -> (res: &str)
    ensures
        res@ == trim_char(s@, c),
{
    let t = trim_start_matches(s, c);
    let n = t.unicode_len();
    let mut j: usize = n;
    assert(t@.take(n as int) =~= t@);
    while j > 0 && t.get_char(j - 1) == c
        invariant
            n == t@.len(),
            j <= n,
            trim_end_char(t@, c) == trim_end_char(t@.take(j as int), c),
        decreases j,
    {
        assert(t@.take(j as int).drop_last() =~= t@.take(j - 1));
        j = j - 1;
    }
    let r = t.substring_char(0, j);
    assert(r@ =~= t@.take(j as int));
    r
}

/// A path assembled from pieces joined by `/`, starting with `/`.
pub struct PathBuilder<'a>(Vec<&'a str>);

/// The pieces after pushing `s`: it is trimmed of `/`, and kept if not empty.
pub open spec fn push_piece(parts: Seq<Seq<char>>, s: Seq<char>) -> Seq<Seq<char>> {
    let t = trim_char(s, '/');
    if t.len() == 0 {
        parts
    } else {
        parts.push(t)
    }
}

/// The path the pieces make.
pub open spec fn spec_build(parts: Seq<Seq<char>>) -> Seq<char> {
    let s = join_with(parts, "/"@);
    if s.len() == 0 {
        "/"@
    } else {
        s
    }
}

impl<'a> PathBuilder<'a> {
    pub closed spec fn parts(&self) -> Seq<Seq<char>> {
        strs_view(self.0@)
    }

    /// A builder holding the empty first piece.
    pub fn new() -> (res: PathBuilder<'a>)
        ensures
            res.parts() == seq![Seq::<char>::empty()],
    {
        proof {
            reveal_strlit("");
        }
        let mut v: Vec<&str> = Vec::new();
        v.push("");
        assert(v@.len() == 1);
        assert(v@[0]@ =~= Seq::<char>::empty());
        let res = PathBuilder(v);
        assert(res.parts()[0] == v@[0]@);
        assert(res.parts() =~= seq![Seq::<char>::empty()]);
        res
    }

    /// Adds `s`, trimmed of `/`, unless nothing is left of it.
    pub fn push(&mut self, s: &'a str)
        ensures
            final(self).parts() == push_piece(old(self).parts(), s@),
    {
        let t = trim_matches(s, '/');
        if t.unicode_len() > 0 {
            let ghost before = self.0@;
            self.0.push(t);
            assert(strs_view(self.0@) =~= strs_view(before).push(t@));
        }
    }

    /// The pieces joined by `/`; `/` when that is empty.
    pub fn build(&self) -> (res: String)
        ensures
            res@ == spec_build(self.parts()),
    {
        proof {
            reveal_strlit("/");
        }
        let mut s = String::new();
        let n = self.0.len();
        let ghost ps = self.parts();
        let mut i: usize = 0;
        assert(ps.take(0) =~= Seq::<Seq<char>>::empty());
        while i < n
            invariant
                n == self.0@.len(),
                ps == self.parts(),
                ps.len() == n,
                i <= n,
                s@ == join_with(ps.take(i as int), "/"@),
            decreases n - i,
        {
            if i > 0 {
                s.append("/");
            }
            s.append(self.0[i]);
            assert(ps.take(i + 1).drop_last() =~= ps.take(i as int));
            assert(ps[i as int] == self.0@[i as int]@);
            i = i + 1;
        }
        assert(ps.take(n as int) =~= ps);
        if s.unicode_len() == 0 {
            to_owned("/")
        } else {
            s
        }
    }
}

/// Matches the segments of a path against a route definition, from segment
/// `si` and route segment `idx` on; `opts` are the optional parameters
/// matched so far. The result lists those matched optional parameters, or
/// is `None` when the path does not follow the route.
pub open spec fn spec_match(segs: Seq<Seq<char>>, route: Seq<SegV>, si: nat, idx: nat, opts: Seq<nat>) -> Option<
    Seq<nat>,
>
    decreases route.len() - idx,
{
    if si >= segs.len() {
        if idx >= route.len() {
            Some(opts)
        } else {
            None
        }
    } else if idx >= route.len() {
        None
    } else {
        let seg = segs[si as int];
        match route[idx as int] {
            SegV::Unit => spec_match(segs, route, si, idx + 1, opts),
            SegV::Param(_) => spec_match(segs, route, si + 1, idx + 1, opts),
            SegV::OptionalParam(m) => if m == seg {
                spec_match(segs, route, si + 1, idx + 1, opts.push(idx))
            } else {
                spec_match(segs, route, si, idx + 1, opts)
            },
            SegV::Static(m) => if m.len() == 0 {
                spec_match(segs, route, si, idx + 1, opts)
            } else if m == seg {
                spec_match(segs, route, si + 1, idx + 1, opts)
            } else {
                None
            },
            SegV::Splat(_) => Some(opts),
        }
    }
}

/// The optional parameters of `route` that the path segments fill, or
/// `None` when the path does not follow the route.
pub fn match_path_segments(segments: &Vec<&str>, old_segments: &Vec<PathSegment>) -> (res: Option<Vec<usize>>)
    ensures
        match res {
            Some(v) => spec_match(strs_view(segments@), segs_view(old_segments@), 0, 0, seq![]) == Some(
                v@.map_values(|x: usize| x as nat),
            ),
            None => spec_match(strs_view(segments@), segs_view(old_segments@), 0, 0, seq![]) is None,
        },
{
    let ghost sv = strs_view(segments@);
    let ghost rv = segs_view(old_segments@);
    let mut optionals: Vec<usize> = Vec::new();
    let mut si: usize = 0;
    let mut idx: usize = 0;
    let n = segments.len();
    let m = old_segments.len();
    assert(optionals@.map_values(|x: usize| x as nat) =~= Seq::<nat>::empty());
    while si < n
        invariant
            n == segments@.len(),
            m == old_segments@.len(),
            sv == strs_view(segments@),
            rv == segs_view(old_segments@),
            si <= n,
            spec_match(sv, rv, 0, 0, seq![]) == spec_match(
                sv,
                rv,
                si as nat,
                idx as nat,
                optionals@.map_values(|x: usize| x as nat),
            ),
        decreases m - idx, n - si,
    {
        if idx >= m {
            return None;
        }
        let seg = segments[si];
        assert(sv[si as int] == seg@);
        assert(rv[idx as int] == old_segments@[idx as int]@);
        match &old_segments[idx] {
            PathSegment::Unit => {},
            PathSegment::Param(_) => {
                si = si + 1;
            },
            PathSegment::OptionalParam(to_match) => {
                if str_eq(to_match.as_str(), seg) {
                    let ghost before = optionals@;
                    optionals.push(idx);
                    assert(optionals@.map_values(|x: usize| x as nat) =~= before.map_values(
                        |x: usize| x as nat,
                    ).push(idx as nat));
                    si = si + 1;
                }
            },
            PathSegment::Static(to_match) => {
                if to_match.unicode_len() == 0 {
                } else if str_eq(to_match.as_str(), seg) {
                    si = si + 1;
                } else {
                    return None;
                }
            },
            PathSegment::Splat(_) => {
                return Some(optionals);
            },
        }
        idx = idx + 1;
    }
    if idx < m {
        None
    } else {
        Some(optionals)
    }
}

/// Rebuilds the path from segment `si` and route segment `idx` on: the
/// pieces pushed, or `None` where the route runs out before the path.
pub open spec fn spec_construct(
    segs: Seq<Seq<char>>,
    route: Seq<SegV>,
    opts: Seq<nat>,
    si: nat,
    idx: nat,
    parts: Seq<Seq<char>>,
) -> Option<Seq<Seq<char>>>
    decreases route.len() - idx,
{
    if si >= segs.len() {
        Some(parts)
    } else if idx >= route.len() {
        None
    } else {
        let seg = segs[si as int];
        match route[idx as int] {
            SegV::Unit => spec_construct(segs, route, opts, si, idx + 1, parts),
            SegV::Param(_) => spec_construct(segs, route, opts, si + 1, idx + 1, push_piece(parts, seg)),
            SegV::OptionalParam(_) => if opts.contains(idx) {
                spec_construct(segs, route, opts, si + 1, idx + 1, push_piece(parts, seg))
            } else {
                spec_construct(segs, route, opts, si, idx + 1, parts)
            },
            SegV::Static(t) => if t.len() == 0 {
                spec_construct(segs, route, opts, si, idx + 1, parts)
            } else {
                spec_construct(segs, route, opts, si + 1, idx + 1, push_piece(parts, t))
            },
            SegV::Splat(_) => Some(push_all(push_piece(parts, seg), segs.skip((si + 1) as int))),
        }
    }
}

/// Every piece of `rest` pushed in order.
pub open spec fn push_all(parts: Seq<Seq<char>>, rest: Seq<Seq<char>>) -> Seq<Seq<char>>
    decreases rest.len(),
{
    if rest.len() == 0 {
        parts
    } else {
        push_all(push_piece(parts, rest[0]), rest.drop_first())
    }
}

fn contains_usize(v: &Vec<usize>, x: usize) -> (res: bool)
    ensures
        res == v@.map_values(|y: usize| y as nat).contains(x as nat),
{
    let ghost vs = v@.map_values(|y: usize| y as nat);
    let mut i: usize = 0;
    while i < v.len()
        invariant
            vs == v@.map_values(|y: usize| y as nat),
            i <= v@.len(),
            forall|j: int| 0 <= j < i ==> vs[j] != x as nat,
        decreases v@.len() - i,
    {
        if v[i] == x {
            assert(vs[i as int] == x as nat);
            return true;
        }
        i = i + 1;
    }
    false
}

/// Pushes the path segments into `path_builder` following the route
/// `new_segments`: parameters take the path's segment, statics their own
/// text, optional parameters the path's segment where it was matched, a
/// splat the rest of the path.
pub fn construct_path_segments<'b, 'p: 'b>(
    segments: &Vec<&'p str>,
    new_segments: &'p Vec<PathSegment>,
    path_builder: &mut PathBuilder<'b>,
    optionals: &Vec<usize>,
)
    requires
        spec_construct(
            strs_view(segments@),
            segs_view(new_segments@),
            optionals@.map_values(|y: usize| y as nat),
            0,
            0,
            old(path_builder).parts(),
        ) is Some,
    ensures
        final(path_builder).parts() == spec_construct(
            strs_view(segments@),
            segs_view(new_segments@),
            optionals@.map_values(|y: usize| y as nat),
            0,
            0,
            old(path_builder).parts(),
        )->0,
{
    let ghost sv = strs_view(segments@);
    let ghost rv = segs_view(new_segments@);
    let ghost ov = optionals@.map_values(|y: usize| y as nat);
    let ghost goal = spec_construct(sv, rv, ov, 0, 0, path_builder.parts());
    let n = segments.len();
    let m = new_segments.len();
    let mut si: usize = 0;
    let mut idx: usize = 0;
    while si < n
        invariant
            n == segments@.len(),
            m == new_segments@.len(),
            sv == strs_view(segments@),
            rv == segs_view(new_segments@),
            ov == optionals@.map_values(|y: usize| y as nat),
            si <= n,
            goal is Some,
            goal == spec_construct(sv, rv, ov, 0, 0, old(path_builder).parts()),
            goal == spec_construct(sv, rv, ov, si as nat, idx as nat, path_builder.parts()),
        decreases m - idx, n - si,
    {
        if idx >= m {
            proof {
                assert(false);
            }
            return;
        }
        let seg = segments[si];
        assert(sv[si as int] == seg@);
        assert(rv[idx as int] == new_segments@[idx as int]@);
        match &new_segments[idx] {
            PathSegment::Unit => {},
            PathSegment::Param(_) => {
                path_builder.push(seg);
                si = si + 1;
            },
            PathSegment::OptionalParam(_) => {
                if contains_usize(optionals, idx) {
                    path_builder.push(seg);
                    si = si + 1;
                }
            },
            PathSegment::Static(to_push) => {
                if to_push.unicode_len() > 0 {
                    path_builder.push(to_push.as_str());
                    si = si + 1;
                }
            },
            PathSegment::Splat(_) => {
                path_builder.push(seg);
                let mut k = si + 1;
                assert(sv.skip(si + 1) == sv.skip(k as int));
                while k < n
                    invariant
                        n == segments@.len(),
                        sv == strs_view(segments@),
                        si < k <= n,
                        goal == spec_construct(sv, rv, ov, 0, 0, old(path_builder).parts()),
                        goal == Some(push_all(path_builder.parts(), sv.skip(k as int))),
                    decreases n - k,
                {
                    assert(sv.skip(k as int)[0] == segments@[k as int]@);
                    assert(sv.skip(k as int).drop_first() =~= sv.skip(k + 1));
                    path_builder.push(segments[k]);
                    k = k + 1;
                }
                assert(sv.skip(k as int) =~= Seq::<Seq<char>>::empty());
                return;
            },
        }
        idx = idx + 1;
    }
}

/// The non-empty pieces of a path split at `/`.
pub open spec fn path_pieces(path: Seq<char>) -> Seq<Seq<char>> {
    spec_split(path, "/"@).filter(|s: Seq<char>| s.len() > 0)
}

/// The first route among `routes` that the pieces follow, with the
/// optional parameters it fills.
pub open spec fn first_route(segs: Seq<Seq<char>>, routes: Seq<Seq<SegV>>) -> Option<(nat, Seq<nat>)>
    decreases routes.len(),
{
    if routes.len() == 0 {
        None
    } else {
        match first_route(segs, routes.drop_last()) {
            Some(r) => Some(r),
            None => match spec_match(segs, routes.last(), 0, 0, seq![]) {
                Some(o) => Some(((routes.len() - 1) as nat, o)),
                None => None,
            },
        }
    }
}

pub open spec fn routes_view(r: Seq<Vec<PathSegment>>) -> Seq<Seq<SegV>> {
    r.map_values(|v: Vec<PathSegment>| segs_view(v@))
}

/// The pieces `localize_path` pushes, or `None` when no route matches.
pub open spec fn spec_localize(
    path: Seq<char>,
    old_routes: Seq<Seq<SegV>>,
    new_routes: Seq<Seq<SegV>>,
    parts: Seq<Seq<char>>,
) -> Option<Seq<Seq<char>>> {
    let segs = path_pieces(path);
    match first_route(segs, old_routes) {
        None => None,
        Some((pos, opts)) => spec_construct(segs, new_routes[pos as int], opts, 0, 0, parts),
    }
}

/// The path's route index under the old locale and its pieces rebuilt with
/// the route at the same index under the new locale.
pub open spec fn localize_ok(path: Seq<char>, old_routes: Seq<Seq<SegV>>, new_routes: Seq<Seq<SegV>>, parts: Seq<Seq<char>>) -> bool {
    match first_route(path_pieces(path), old_routes) {
        None => true,
        Some((pos, opts)) => pos < new_routes.len() && spec_construct(
            path_pieces(path),
            new_routes[pos as int],
            opts,
            0,
            0,
            parts,
        ) is Some,
    }
}

fn non_empty_pieces<'p>(path: &'p str) -> (res: Vec<&'p str>)
    ensures
        strs_view(res@) == path_pieces(path@),
{
    proof {
        reveal_strlit("/");
    }
    let all = split(path, "/");
    let ghost av = all@.map_values(|x: &str| x@);
    let mut out: Vec<&str> = Vec::new();
    let mut i: usize = 0;
    proof {
        reveal(Seq::filter);
    }
    assert(av.take(0).filter(|s: Seq<char>| s.len() > 0) =~= Seq::<Seq<char>>::empty());
    while i < all.len()
        invariant
            av == all@.map_values(|x: &str| x@),
            i <= all@.len(),
            strs_view(out@) == av.take(i as int).filter(|s: Seq<char>| s.len() > 0),
        decreases all@.len() - i,
    {
        let ghost before = out@;
        let p = all[i];
        assert(av.take(i + 1) =~= av.take(i as int).push(av[i as int]));
        proof {
            reveal(Seq::filter);
            assert(av.take(i + 1).drop_last() =~= av.take(i as int));
            assert(av.take(i + 1).last() == av[i as int]);
        }
        if p.unicode_len() > 0 {
            out.push(p);
            assert(strs_view(out@) =~= strs_view(before).push(p@));
        }
        i = i + 1;
    }
    assert(av.take(i as int) =~= av);
    out
}

/// Rewrites `path`, written with the routes `old_locale_segments`, with the
/// route at the same index in `new_locale_segments`, pushing the pieces to
/// `path_builder`; `None`, with nothing pushed, when no route matches.
pub fn localize_path<'b, 'p: 'b>(
    path: &'p str,
    old_locale_segments: &Vec<Vec<PathSegment>>,
    new_locale_segments: &'p Vec<Vec<PathSegment>>,
    path_builder: &mut PathBuilder<'b>,
) -> (res: Option<()>)
    requires
        localize_ok(path@, routes_view(old_locale_segments@), routes_view(new_locale_segments@), old(path_builder).parts()),
    ensures
        match spec_localize(path@, routes_view(old_locale_segments@), routes_view(new_locale_segments@), old(path_builder).parts()) {
            Some(p) => res is Some && final(path_builder).parts() == p,
            None => res is None && final(path_builder).parts() == old(path_builder).parts(),
        },
{
    let segs = non_empty_pieces(path);
    let ghost sv = strs_view(segs@);
    let ghost ro = routes_view(old_locale_segments@);
    let n = old_locale_segments.len();
    let mut pos: usize = 0;
    while pos < n
        invariant
            n == old_locale_segments@.len(),
            ro == routes_view(old_locale_segments@),
            sv == strs_view(segs@),
            sv == path_pieces(path@),
            pos <= n,
            localize_ok(path@, ro, routes_view(new_locale_segments@), path_builder.parts()),
            path_builder.parts() == old(path_builder).parts(),
            first_route(sv, ro.take(pos as int)) is None,
        decreases n - pos,
    {
        let m = match_path_segments(&segs, &old_locale_segments[pos]);
        assert(ro.take(pos + 1).drop_last() =~= ro.take(pos as int));
        assert(ro.take(pos + 1).last() == segs_view(old_locale_segments@[pos as int]@));
        match m {
            Some(opts) => {
                proof {
                    lemma_first_route_prefix(sv, ro, (pos + 1) as nat);
                    assert(routes_view(new_locale_segments@)[pos as int] == segs_view(
                        new_locale_segments@[pos as int]@,
                    ));
                }
                let new_segments = &new_locale_segments[pos];
                construct_path_segments(&segs, new_segments, path_builder, &opts);
                return Some(());
            },
            None => {},
        }
        pos = pos + 1;
    }
    assert(ro.take(pos as int) =~= ro);
    None
}

/// The first matching route among a prefix that has one is the first among
/// all.
pub proof fn lemma_first_route_prefix(segs: Seq<Seq<char>>, routes: Seq<Seq<SegV>>, k: nat)
    requires
        k <= routes.len(),
        first_route(segs, routes.take(k as int)) is Some,
    ensures
        first_route(segs, routes) == first_route(segs, routes.take(k as int)),
    decreases routes.len() - k,
{
    if k < routes.len() {
        assert(routes.take((k + 1) as int).drop_last() =~= routes.take(k as int));
        lemma_first_route_prefix(segs, routes, k + 1);
    } else {
        assert(routes.take(k as int) =~= routes);
    }
}

/// The locale segment of `path` under `base_path`: the first piece after
/// the base, both read without their leading `/`s; `None` when the path
/// is not under the base.
pub open spec fn spec_path_locale(path: Seq<char>, base_path: Seq<char>) -> Option<Seq<char>> {
    let b = trim_start_char(base_path, '/');
    match spec_strip_prefix(trim_start_char(path, '/'), b) {
        None => None,
        Some(r) => {
            let r2 = trim_start_char(r, '/');
            Some(
                match spec_split_once(r2, "/"@) {
                    Some((a, _)) => a,
                    None => r2,
                },
            )
        },
    }
}

/// The locale of `locales` that `path` names right after `base_path`.
pub fn get_locale_from_path<'a>(path: &str, base_path: &str, locales: &'a [String]) -> (res: Option<&'a String>)
    ensures
        match spec_path_locale(path@, base_path@) {
            None => res is None,
            Some(m) => match first_index(strings_view(locales@), m) {
                None => res is None,
                Some(i) => res == Some(&locales@[i]),
            },
        },
{
    proof {
        reveal_strlit("/");
    }
    let b = trim_start_matches(base_path, '/');
    let r = match strip_prefix(trim_start_matches(path, '/'), b) {
        Some(r) => r,
        None => return None,
    };
    let r2 = trim_start_matches(r, '/');
    let to_match = match split_once(r2, "/") {
        Some((a, _)) => a,
        None => r2,
    };
    match find_index(locales, to_match) {
        Some(i) => Some(&locales[i]),
        None => None,
    }
}

/// The route pieces of the new path, before the query and the fragment.
pub open spec fn new_path_parts(
    path_name: Seq<char>,
    base_path: Seq<char>,
    new_locale: Seq<char>,
    new_is_default: bool,
    locale: Option<Seq<char>>,
    old_routes: Option<Seq<Seq<SegV>>>,
    new_routes: Option<Seq<Seq<SegV>>>,
) -> Seq<Seq<char>> {
    let p0 = push_piece(seq![Seq::<char>::empty()], base_path);
    let p1 = if new_is_default {
        p0
    } else {
        push_piece(p0, new_locale)
    };
    match spec_strip_prefix(path_name, base_path) {
        None => p1,
        Some(rest) => {
            let rest2 = path_rest(rest, locale);
            let loc = match (old_routes, new_routes) {
                (Some(o), Some(n)) => spec_localize(rest2, o, n, p1),
                _ => None,
            };
            match loc {
                Some(p) => p,
                None => push_piece(p1, rest2),
            }
        },
    }
}

/// The rest of the path after the current locale's segment, if it starts
/// with it.
pub open spec fn path_rest(rest: Seq<char>, locale: Option<Seq<char>>) -> Seq<char> {
    match locale {
        None => rest,
        Some(l) => match spec_strip_prefix(rest, l) {
            Some(r) => r,
            None => rest,
        },
    }
}

/// The rewrite of the path can be done: where both locales have routes,
/// the route the old path follows has a counterpart that covers it.
pub open spec fn new_path_ok(
    path_name: Seq<char>,
    base_path: Seq<char>,
    new_locale: Seq<char>,
    new_is_default: bool,
    locale: Option<Seq<char>>,
    old_routes: Option<Seq<Seq<SegV>>>,
    new_routes: Option<Seq<Seq<SegV>>>,
) -> bool {
    let p0 = push_piece(seq![Seq::<char>::empty()], base_path);
    let p1 = if new_is_default {
        p0
    } else {
        push_piece(p0, new_locale)
    };
    match (spec_strip_prefix(path_name, base_path), old_routes, new_routes) {
        (Some(rest), Some(o), Some(n)) => localize_ok(path_rest(rest, locale), o, n, p1),
        _ => true,
    }
}

/// The new path for a switch to `new_locale`: the base path, the new
/// locale's segment (none for the default locale), the rest of the current
/// path rewritten with the new locale's routes (or kept as it is), then
/// the query and the fragment.
pub open spec fn spec_new_path(
    path_name: Seq<char>,
    search: Seq<char>,
    hash: Seq<char>,
    base_path: Seq<char>,
    new_locale: Seq<char>,
    new_is_default: bool,
    locale: Option<Seq<char>>,
    old_routes: Option<Seq<Seq<SegV>>>,
    new_routes: Option<Seq<Seq<SegV>>>,
) -> Seq<char> {
    let s = spec_build(
        new_path_parts(path_name, base_path, new_locale, new_is_default, locale, old_routes, new_routes),
    );
    let s2 = if search.len() > 0 {
        s + "?"@ + search
    } else {
        s
    };
    if hash.len() > 0 {
        s2 + "#"@ + trim_start_char(hash, '#')
    } else {
        s2
    }
}

pub open spec fn opt_routes(r: Option<&Vec<Vec<PathSegment>>>) -> Option<Seq<Seq<SegV>>> {
    match r {
        Some(v) => Some(routes_view(v@)),
        None => None,
    }
}

pub open spec fn opt_str(o: Option<&str>) -> Option<Seq<char>> {
    match o {
        Some(s) => Some(s@),
        None => None,
    }
}

/// The path to navigate to when the locale changes to `new_locale` (see
/// `spec_new_path`); `locale` is the locale the current path is written
/// in, `old_locale_segments` and `new_locale_segments` the routes of the
/// two locales.
pub fn get_new_path<'a>(
    path_name: &'a str,
    search: &str,
    hash: &str,
    base_path: &'a str,
    new_locale: &'a str,
    new_is_default: bool,
    locale: Option<&'a str>,
    old_locale_segments: Option<&'a Vec<Vec<PathSegment>>>,
    new_locale_segments: Option<&'a Vec<Vec<PathSegment>>>,
) -> (res: String)
    requires
        new_path_ok(
            path_name@,
            base_path@,
            new_locale@,
            new_is_default,
            opt_str(locale),
            opt_routes(old_locale_segments),
            opt_routes(new_locale_segments),
        ),
    ensures
        res@ == spec_new_path(
            path_name@,
            search@,
            hash@,
            base_path@,
            new_locale@,
            new_is_default,
            opt_str(locale),
            opt_routes(old_locale_segments),
            opt_routes(new_locale_segments),
        ),
{
    proof {
        reveal_strlit("?");
        reveal_strlit("#");
    }
    let mut path_builder = PathBuilder::new();
    path_builder.push(base_path);
    if !new_is_default {
        path_builder.push(new_locale);
    }
    match strip_prefix(path_name, base_path) {
        Some(rest) => {
            let rest2 = match locale {
                None => rest,
                Some(l) => match strip_prefix(rest, l) {
                    Some(r) => r,
                    None => rest,
                },
            };
            let localized = match (old_locale_segments, new_locale_segments) {
                (Some(o), Some(n)) => localize_path(rest2, o, n, &mut path_builder).is_some(),
                _ => false,
            };
            if !localized {
                path_builder.push(rest2);
            }
        },
        None => {},
    }
    let mut new_path = path_builder.build();
    if search.unicode_len() > 0 {
        new_path.append("?");
        new_path.append(search);
    }
    if hash.unicode_len() > 0 {
        let h = trim_start_matches(hash, '#');
        new_path.append("#");
        new_path.append(h);
    }
    new_path
}

/// A path piece with text and no `/` at either end.
pub open spec fn clean_piece(s: Seq<char>) -> bool {
    s.len() > 0 && s[0] != '/' && s.last() != '/'
}

proof fn lemma_push_clean(parts: Seq<Seq<char>>, s: Seq<char>)
    requires
        clean_piece(s),
    ensures
        push_piece(parts, s) == parts.push(s),
{
    assert(trim_start_char(s, '/') == s);
    assert(trim_end_char(s, '/') == s);
}

proof fn lemma_push_all_clean(parts: Seq<Seq<char>>, rest: Seq<Seq<char>>)
    requires
        forall|i: int| 0 <= i < rest.len() ==> clean_piece(#[trigger] rest[i]),
    ensures
        push_all(parts, rest) == parts + rest,
    decreases rest.len(),
{
    if rest.len() == 0 {
        assert(parts + rest =~= parts);
    } else {
        lemma_push_clean(parts, rest[0]);
        let t = rest.drop_first();
        assert forall|i: int| 0 <= i < t.len() implies clean_piece(#[trigger] t[i]) by {
            assert(t[i] == rest[i + 1]);
        }
        lemma_push_all_clean(parts.push(rest[0]), t);
        assert(parts.push(rest[0]) + t =~= parts + rest);
    }
}

/// A splat in the new route takes the whole rest of the path: every piece
/// from the current one to the last is pushed, in order, and the rebuilt
/// path ends there.
pub proof fn law_splat_takes_rest(
    segs: Seq<Seq<char>>,
    route: Seq<SegV>,
    opts: Seq<nat>,
    si: nat,
    idx: nat,
    parts: Seq<Seq<char>>,
)
    requires
        si < segs.len(),
        idx < route.len(),
        route[idx as int] is Splat,
        forall|i: int| si <= i < segs.len() ==> clean_piece(#[trigger] segs[i]),
    ensures
        spec_construct(segs, route, opts, si, idx, parts) == Some(parts + segs.skip(si as int)),
{
    let seg = segs[si as int];
    lemma_push_clean(parts, seg);
    let rest = segs.skip((si + 1) as int);
    assert forall|i: int| 0 <= i < rest.len() implies clean_piece(#[trigger] rest[i]) by {
        assert(rest[i] == segs[si + 1 + i]);
    }
    lemma_push_all_clean(parts.push(seg), rest);
    assert(parts.push(seg) + rest =~= parts + segs.skip(si as int));
}

/// A route of parameters and statics with text.
pub open spec fn plain_route(route: Seq<SegV>) -> bool {
    forall|i: int|
        0 <= i < route.len() ==> (#[trigger] route[i] is Param || (route[i] matches SegV::Static(t) && clean_piece(t)))
}

/// The pieces a plain route gives a path of as many pieces: a static its
/// own text, a parameter the path's piece at that place.
pub open spec fn plain_rebuild(segs: Seq<Seq<char>>, route: Seq<SegV>) -> Seq<Seq<char>> {
    Seq::new(
        route.len(),
        |i: int|
            match route[i] {
                SegV::Static(t) => t,
                _ => segs[i],
            },
    )
}

proof fn lemma_plain_rebuild(segs: Seq<Seq<char>>, route: Seq<SegV>, opts: Seq<nat>, i: nat, p: Seq<Seq<char>>)
    requires
        segs.len() == route.len(),
        i <= route.len(),
        plain_route(route),
        forall|j: int| 0 <= j < segs.len() ==> clean_piece(#[trigger] segs[j]),
    ensures
        spec_construct(segs, route, opts, i, i, p) == Some(p + plain_rebuild(segs, route).skip(i as int)),
    decreases route.len() - i,
{
    let r = plain_rebuild(segs, route);
    if i == route.len() {
        assert(p + r.skip(i as int) =~= p);
    } else {
        let piece = match route[i as int] {
            SegV::Static(t) => t,
            _ => segs[i as int],
        };
        assert(r[i as int] == piece);
        assert(clean_piece(piece));
        lemma_push_clean(p, piece);
        lemma_plain_rebuild(segs, route, opts, i + 1, p.push(piece));
        assert(p.push(piece) + r.skip((i + 1) as int) =~= p + r.skip(i as int));
    }
}

/// Rebuilding a path of as many pieces as a route of parameters and
/// statics gives, in order, each static's text and, for each parameter,
/// the path's piece at that place.
pub proof fn law_plain_route_rebuild(segs: Seq<Seq<char>>, route: Seq<SegV>, opts: Seq<nat>, parts: Seq<Seq<char>>)
    requires
        segs.len() == route.len(),
        plain_route(route),
        forall|j: int| 0 <= j < segs.len() ==> clean_piece(#[trigger] segs[j]),
    ensures
        spec_construct(segs, route, opts, 0, 0, parts) == Some(parts + plain_rebuild(segs, route)),
{
    lemma_plain_rebuild(segs, route, opts, 0, parts);
    assert(plain_rebuild(segs, route).skip(0) =~= plain_rebuild(segs, route));
}

/// The route a path is read by is the first one it follows: it follows
/// that route (with the optional parameters found), follows none before
/// it, and when no route is found it follows none.
pub proof fn law_first_route_is_first(segs: Seq<Seq<char>>, routes: Seq<Seq<SegV>>)
    ensures
        first_route(segs, routes) matches Some((pos, o)) ==> pos < routes.len() && spec_match(
            segs,
            routes[pos as int],
            0,
            0,
            seq![],
        ) == Some(o) && forall|q: int| 0 <= q < pos ==> spec_match(segs, #[trigger] routes[q], 0, 0, seq![]) is None,
        first_route(segs, routes) is None ==> forall|q: int|
            0 <= q < routes.len() ==> spec_match(segs, #[trigger] routes[q], 0, 0, seq![]) is None,
    decreases routes.len(),
{
    if routes.len() > 0 {
        let init = routes.drop_last();
        law_first_route_is_first(segs, init);
        assert forall|q: int| 0 <= q < init.len() implies #[trigger] routes[q] == init[q] by {}
    }
}

/// What each kind of route segment does with the path's current piece
/// when rebuilding: a unit segment and an empty static take nothing and
/// push nothing; an optional parameter takes and pushes the piece when it
/// was matched, and otherwise takes nothing; a parameter takes and pushes
/// the piece; a static with text takes the piece and pushes its own text.
/// Once the path's pieces are used up, the rebuilt pieces are final.
pub proof fn law_route_segment_steps(
    segs: Seq<Seq<char>>,
    route: Seq<SegV>,
    opts: Seq<nat>,
    si: nat,
    idx: nat,
    parts: Seq<Seq<char>>,
)
    ensures
        si >= segs.len() ==> spec_construct(segs, route, opts, si, idx, parts) == Some(parts),
        si < segs.len() && idx >= route.len() ==> spec_construct(segs, route, opts, si, idx, parts) is None,
        si < segs.len() && idx < route.len() ==> ({
            let rest_same = spec_construct(segs, route, opts, si, idx + 1, parts);
            let took = spec_construct(segs, route, opts, si + 1, idx + 1, push_piece(parts, segs[si as int]));
            let r = spec_construct(segs, route, opts, si, idx, parts);
            &&& route[idx as int] is Unit ==> r == rest_same
            &&& route[idx as int] is Param ==> r == took
            &&& route[idx as int] is OptionalParam ==> r == (if opts.contains(idx) {
                took
            } else {
                rest_same
            })
            &&& route[idx as int] matches SegV::Static(t) ==> r == (if t.len() == 0 {
                rest_same
            } else {
                spec_construct(segs, route, opts, si + 1, idx + 1, push_piece(parts, t))
            })
        }),
{
}

/// The path's pieces from `i` on agree with the statics of the route there.
pub open spec fn statics_agree(segs: Seq<Seq<char>>, route: Seq<SegV>, i: int) -> bool {
    forall|j: int| i <= j < route.len() ==> (#[trigger] route[j] matches SegV::Static(t) ==> segs[j] == t)
}

proof fn lemma_plain_match(segs: Seq<Seq<char>>, route: Seq<SegV>, i: nat, o: Seq<nat>)
    requires
        segs.len() == route.len(),
        i <= route.len(),
        plain_route(route),
    ensures
        spec_match(segs, route, i, i, o) == (if statics_agree(segs, route, i as int) {
            Some(o)
        } else {
            None::<Seq<nat>>
        }),
    decreases route.len() - i,
{
    if i < route.len() {
        lemma_plain_match(segs, route, i + 1, o);
        if statics_agree(segs, route, (i + 1) as int) && !statics_agree(segs, route, i as int) {
            let j = choose|j: int| i <= j < route.len() && !(#[trigger] route[j] matches SegV::Static(t) ==> segs[j] == t);
            if j > i {
                assert(statics_agree(segs, route, (i + 1) as int) ==> (route[j] matches SegV::Static(t) ==> segs[j] == t));
            }
        }
    }
}

/// A path follows a route of parameters and statics of the same length
/// exactly when each static equals the path's piece at its place (the
/// parameters take any piece); it then fills no optional parameter.
pub proof fn law_plain_route_match(segs: Seq<Seq<char>>, route: Seq<SegV>)
    requires
        segs.len() == route.len(),
        plain_route(route),
    ensures
        spec_match(segs, route, 0, 0, seq![]) == (if statics_agree(segs, route, 0) {
            Some(Seq::<nat>::empty())
        } else {
            None::<Seq<nat>>
        }),
{
    lemma_plain_match(segs, route, 0, seq![]);
    assert(seq![] =~= Seq::<nat>::empty());
}

/// A splat matches whatever rest of the path is left, with the optional
/// parameters matched so far; a path with pieces left over after the
/// route is not matched, nor a route left over after the path unless what
/// is left is a splat (not reached) or nothing.
pub proof fn law_match_splat_and_ends(segs: Seq<Seq<char>>, route: Seq<SegV>, si: nat, idx: nat, opts: Seq<nat>)
    ensures
        si < segs.len() && idx < route.len() && route[idx as int] is Splat ==> spec_match(segs, route, si, idx, opts)
            == Some(opts),
        si < segs.len() && idx >= route.len() ==> spec_match(segs, route, si, idx, opts) is None,
        si >= segs.len() ==> (spec_match(segs, route, si, idx, opts) is Some <==> idx >= route.len()),
{
}

} // verus!
