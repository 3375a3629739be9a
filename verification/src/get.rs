//! Resolving what to fetch: the one product a pattern names, the newest of its versions that a
//! requirement admits, and the distinct images that the resolved products need.

use vstd::prelude::*;

use crate::db::{FileUrl, ShortName};
use crate::index::{locations_view, names_view, texts_ascending, versions_ascending, Index, IndexMap};
use crate::text::{
    compare_text, lemma_text_before_total,
    lemma_text_before_transitive, text_before, Precedence,
};
use crate::version::{req_admits, version_before, Version, VersionRequirement};
use glob::{Pattern, PatternError};

verus! {

/// `glob`'s compiled pattern.
#[verifier::external_type_specification]
#[verifier::external_body]
pub struct ExPattern(Pattern);

/// `glob`'s error for a pattern that does not compile.
#[verifier::external_type_specification]
#[verifier::external_body]
pub struct ExPatternError(PatternError);

/// Whether `glob::Pattern::new` compiles the text.
pub uninterp spec fn glob_pattern_valid(pattern: Seq<char>) -> bool;

/// Whether the pattern compiled from the text `pattern` matches `name`
/// (`glob::Pattern::matches`).
pub uninterp spec fn glob_matches(pattern: Seq<char>, name: Seq<char>) -> bool;

/// Calls `glob::Pattern::new` and keeps, with what it compiles, the text it was given: it
/// compiles exactly the texts of `glob_pattern_valid`.
#[verifier::external_body]
fn glob_pattern_new(text: &str) -> (r: Result<GlobPattern, PatternError>)
    ensures
        r is Ok <==> glob_pattern_valid(text@),
        r matches Ok(p) ==> p.text() == text@,
{
    match Pattern::new(text) {
        Ok(compiled) => Ok(GlobPattern { text: text.to_owned(), compiled }),
        Err(e) => Err(e),
    }
}

/// A glob pattern, with the text it was compiled from (a value of this type is only made by
/// `glob_pattern_new`, which compiles that text).
pub struct GlobPattern {
    text: String,
    compiled: Pattern,
}

impl GlobPattern {
    /// The text the pattern was compiled from.
    pub closed spec fn text(&self) -> Seq<char> {
        self.text@
    }

    /// Compiles a glob pattern.
    pub fn new(text: &str) -> (r: Result<Self, PatternError>)
        ensures
            r is Ok <==> glob_pattern_valid(text@),
            r matches Ok(p) ==> p.text() == text@,
    {
        glob_pattern_new(text)
    }

    /// The text the pattern was compiled from.
    pub fn as_str(&self) -> (r: &str)
        ensures
            r@ == self.text(),
    {
        self.text.as_str()
    }
}

/// Calls `glob::Pattern::matches` on the pattern compiled from the pattern's text (a
/// `GlobPattern` is only made by `glob_pattern_new`, which compiles that text).
#[verifier::external_body]
fn pattern_matches(pattern: &GlobPattern, name: &str) -> (r: bool)
    ensures
        r == glob_matches(pattern.text(), name@),
{
    pattern.compiled.matches(name)
}

/// The indexed products whose names the pattern matches, in name order.
pub fn matching_products(index: &Index, pattern: &GlobPattern) -> (r: Vec<ShortName>)
    ensures
        texts_ascending(names_view(r@)),
        forall|k: Seq<char>|
            #[trigger] names_view(r@).contains(k) <==> (index@.contains_key(k) && glob_matches(
                pattern.text(),
                k,
            )),
{
    let all = index.products();
    let ghost names = names_view(all@);
    let mut out: Vec<ShortName> = Vec::new();
    let mut i: usize = 0;
    while i < all.len()
        invariant
            names == names_view(all@),
            texts_ascending(names),
            forall|k: Seq<char>| names.contains(k) <==> #[trigger] index@.contains_key(k),
            i <= all@.len(),
            forall|k: Seq<char>|
                #[trigger] names_view(out@).contains(k) <==> (names.subrange(0, i as int).contains(
                    k,
                ) && glob_matches(pattern.text(), k)),
            forall|a: int, b: int|
                0 <= a < out@.len() && i <= b < names.len() ==> text_before(
                    #[trigger] out@[a]@,
                    #[trigger] names[b],
                ),
            texts_ascending(names_view(out@)),
        decreases all.len() - i,
    {
        let ghost before = names_view(out@);
        let ghost n = names[i as int];
        assert(names.subrange(0, i + 1) =~= names.subrange(0, i as int).push(n));
        let matched: bool = pattern_matches(pattern, all[i].as_str());
        if matched {
            out.push(all[i].clone());
            proof {
                assert(all@[i as int]@ == n);
                assert(glob_matches(pattern.text(), n));
                let now = names_view(out@);
                assert(now =~= before.push(n));
                assert forall|a: int, b: int| 0 <= a < b < now.len() implies text_before(
                    #[trigger] now[a],
                    #[trigger] now[b],
                ) by {
                    if b == now.len() - 1 {
                        assert(now[a] == out@[a]@);
                    } else {
                        assert(now[a] == before[a] && now[b] == before[b]);
                    }
                }
                let g0 = names.subrange(0, i as int);
                let g1 = names.subrange(0, i + 1);
                assert forall|k: Seq<char>| #[trigger] now.contains(k) <==> (g1.contains(k)
                    && glob_matches(pattern.text(), k)) by {
                    if k == n {
                        assert(now[now.len() - 1] == k);
                        assert(g1[i as int] == k);
                    } else {
                        if now.contains(k) {
                            let a = choose|a: int| 0 <= a < now.len() && now[a] == k;
                            assert(before[a] == k);
                            assert(before.contains(k));
                            assert(g0.contains(k));
                            let c = choose|c: int| 0 <= c < g0.len() && g0[c] == k;
                            assert(g1[c] == k);
                        }
                        if g1.contains(k) && glob_matches(pattern.text(), k) {
                            let a = choose|a: int| 0 <= a < g1.len() && g1[a] == k;
                            assert(g0[a] == k);
                            assert(g0.contains(k));
                            assert(before.contains(k));
                            let c = choose|c: int| 0 <= c < before.len() && before[c] == k;
                            assert(now[c] == k);
                        }
                    }
                }
            }
        } else {
            proof {
                assert(all@[i as int]@ == n);
                assert(!glob_matches(pattern.text(), n));
                assert forall|k: Seq<char>| #[trigger] before.contains(k) <==> (names.subrange(
                    0,
                    i + 1,
                ).contains(k) && glob_matches(pattern.text(), k)) by {
                    if names.subrange(0, i + 1).contains(k) && k != n {
                        let g1 = names.subrange(0, i + 1);
                        let a = choose|a: int| 0 <= a < g1.len() && g1[a] == k;
                        assert(names.subrange(0, i as int)[a] == k);
                        assert(names.subrange(0, i as int).contains(k));
                    }
                    if k == n && before.contains(k) {
                        assert(names.subrange(0, i as int).contains(k));
                        assert(names.subrange(0, i + 1)[i as int] == k);
                    }
                }
            }
        }
        i = i + 1;
    }
    assert(names.subrange(0, i as int) =~= names);
    out
}

/// Why a pattern does not name exactly one product.
#[derive(Debug)]
pub enum ProductSelectionError {
    /// No indexed product matches the pattern.
    NoMatch,
    /// More than one does; the products that match.
    Ambiguous(Vec<ShortName>),
}

/// The product that a pattern names: the one that matches it, where exactly one does.
pub fn select_product(matching: Vec<ShortName>) -> (r: Result<ShortName, ProductSelectionError>)
    ensures
        r is Ok <==> matching@.len() == 1,
        r matches Ok(p) ==> p == matching@[0],
        r matches Err(e) ==> match e {
            ProductSelectionError::NoMatch => matching@.len() == 0,
            ProductSelectionError::Ambiguous(all) => matching@.len() >= 2 && all@ == matching@,
        },
{
    if matching.len() == 0 {
        Err(ProductSelectionError::NoMatch)
    } else if matching.len() == 1 {
        let mut matching = matching;
        let p = matching.pop().unwrap();
        Ok(p)
    } else {
        Err(ProductSelectionError::Ambiguous(matching))
    }
}

/// Whether the numbers of `a` are at most those of `b`, compared major first, then minor, then
/// patch.
pub open spec fn numerically_at_most(a: Version, b: Version) -> bool {
    ||| a.major < b.major
    ||| a.major == b.major && a.minor < b.minor
    ||| a.major == b.major && a.minor == b.minor && a.patch <= b.patch
}

/// Whether the requirement admits the version.
pub open spec fn admits(req: &VersionRequirement, v: Version) -> bool {
    req_admits(req.text(), v.major, v.minor, v.patch)
}

/// The newest version of `product` that the requirement admits, with the location of its
/// image; the versions are in order, so the last one admitted is the newest.
pub fn newest_matching(index: &Index, product: &ShortName, req: &VersionRequirement) -> (r: Option<
    (Version, FileUrl),
>)
    ensures
        match r {
            Some(found) => {
                &&& index@.contains_key(product@)
                &&& index@[product@].contains_key(found.0)
                &&& found.1@ == index@[product@][found.0]
                &&& admits(req, found.0)
                &&& forall|w: Version|
                    #[trigger] index@[product@].contains_key(w) && version_before(found.0, w)
                        ==> !admits(req, w)
                &&& forall|w: Version|
                    #[trigger] index@[product@].contains_key(w) && admits(req, w) ==> numerically_at_most(
                        w,
                        found.0,
                    )
            },
            None => !index@.contains_key(product@) || forall|w: Version|
                #[trigger] index@[product@].contains_key(w) ==> !admits(req, w),
        },
{
    let versions = match index.versions(product) {
        Some(vs) => vs,
        None => {
            return None;
        },
    };
    let mut j: usize = versions.len();
    while j > 0
        invariant
            j <= versions@.len(),
            index@.contains_key(product@),
            versions_ascending(versions@),
            forall|v: Version| versions@.contains(v) <==> #[trigger] index@[product@].contains_key(v),
            forall|k: int| j <= k < versions@.len() ==> !admits(req, #[trigger] versions@[k]),
        decreases j,
    {
        j = j - 1;
        let v = versions[j];
        if v.matches(req) {
            assert(versions@.contains(versions@[j as int]));
            proof {
                assert forall|w: Version|
                    #[trigger] index@[product@].contains_key(w) && version_before(v, w) implies !admits(
                    req,
                    w,
                ) by {
                    assert(versions@.contains(w));
                    let k = choose|k: int| 0 <= k < versions@.len() && versions@[k] == w;
                    if k <= j {
                        if k < j {
                            assert(version_before(versions@[k], versions@[j as int]));
                        }
                    }
                }
            }
            match index.get(product, &v) {
                Some(u) => {
                    return Some((v, u.clone()));
                },
                None => {
                    return None;
                },
            }
        }
    }
    proof {
        assert forall|w: Version| #[trigger] index@[product@].contains_key(w) implies !admits(
            req,
            w,
        ) by {
            assert(versions@.contains(w));
            let k = choose|k: int| 0 <= k < versions@.len() && versions@[k] == w;
        }
    }
    None
}

/// Whether `p` is the one indexed product that the pattern text `t` matches.
pub open spec fn sole_match(m: IndexMap, t: Seq<char>, p: Seq<char>) -> bool {
    &&& m.contains_key(p)
    &&& glob_matches(t, p)
    &&& forall|k: Seq<char>| #[trigger] m.contains_key(k) && glob_matches(t, k) ==> k == p
}

/// Whether `v` is the newest of the versions `vs` that the requirement text `q` admits.
pub open spec fn newest_admitted(vs: Map<Version, Seq<char>>, q: Seq<char>, v: Version) -> bool {
    &&& vs.contains_key(v)
    &&& req_admits(q, v.major, v.minor, v.patch)
    &&& forall|w: Version|
        #[trigger] vs.contains_key(w) && version_before(v, w) ==> !req_admits(
            q,
            w.major,
            w.minor,
            w.patch,
        )
}

/// The newest admitted version is the numerically greatest admitted one: every version that the
/// requirement admits has numbers at most its own, major first, then minor, then patch.
pub proof fn lemma_newest_admitted_is_numerically_greatest(
    vs: Map<Version, Seq<char>>,
    q: Seq<char>,
    v: Version,
    w: Version,
)
    requires
        newest_admitted(vs, q, v),
        vs.contains_key(w),
        req_admits(q, w.major, w.minor, w.patch),
    ensures
        numerically_at_most(w, v),
{
    assert(!version_before(v, w));
}

/// Whether the pattern text `t` resolves, under the requirement text `q`, to the location `u`:
/// it names exactly one product, and `u` is the image of its newest admitted version.
pub open spec fn resolves_to(m: IndexMap, t: Seq<char>, q: Seq<char>, u: Seq<char>) -> bool {
    exists|p: Seq<char>, v: Version|
        #![trigger sole_match(m, t, p), newest_admitted(m[p], q, v)]
        sole_match(m, t, p) && newest_admitted(m[p], q, v) && u == m[p][v]
}

/// Whether the pattern text `t` resolves, under the requirement text `q`, to some location.
pub open spec fn resolves(m: IndexMap, t: Seq<char>, q: Seq<char>) -> bool {
    exists|u: Seq<char>| resolves_to(m, t, q, u)
}

/// Why a pattern did not resolve, as a value.
pub enum ResolveFailure {
    NoMatch(Seq<char>),
    Ambiguous(Seq<char>, Seq<Seq<char>>),
    NoVersion(Seq<char>, Seq<char>),
}

/// Why a pattern did not resolve to an image.
#[derive(Debug)]
pub enum ResolveError {
    /// No indexed product matches the pattern; the pattern's text.
    NoMatch(String),
    /// Several do; the pattern's text and the products, in name order.
    Ambiguous(String, Vec<ShortName>),
    /// The one product it names has no version that the requirement admits; that product.
    NoVersion(String, ShortName),
}

impl View for ResolveError {
    type V = ResolveFailure;

    open spec fn view(&self) -> ResolveFailure {
        match self {
            ResolveError::NoMatch(t) => ResolveFailure::NoMatch(t@),
            ResolveError::Ambiguous(t, all) => ResolveFailure::Ambiguous(t@, names_view(all@)),
            ResolveError::NoVersion(t, p) => ResolveFailure::NoVersion(t@, p@),
        }
    }
}

/// Whether the pattern text `t` fails, under the requirement text `q`, with `e`.
pub open spec fn fails_with(m: IndexMap, t: Seq<char>, q: Seq<char>, e: ResolveFailure) -> bool {
    match e {
        ResolveFailure::NoMatch(et) => et == t && forall|k: Seq<char>|
            #[trigger] m.contains_key(k) ==> !glob_matches(t, k),
        ResolveFailure::Ambiguous(et, all) => {
            &&& et == t
            &&& all.len() >= 2
            &&& texts_ascending(all)
            &&& forall|k: Seq<char>| #[trigger] all.contains(k) <==> m.contains_key(k) && glob_matches(t, k)
        },
        ResolveFailure::NoVersion(et, p) => {
            &&& et == t
            &&& sole_match(m, t, p)
            &&& forall|w: Version| #[trigger] m[p].contains_key(w) ==> !req_admits(q, w.major, w.minor, w.patch)
        },
    }
}

/// Resolves one pattern: the image of the newest admitted version of the one product it names.
fn resolve_pattern(index: &Index, pattern: &GlobPattern, req: &VersionRequirement) -> (r: Result<
    FileUrl,
    ResolveError,
>)
    ensures
        match r {
            Ok(u) => resolves_to(index@, pattern.text(), req.text(), u@),
            Err(e) => fails_with(index@, pattern.text(), req.text(), e@),
        },
{
    let matching = matching_products(index, pattern);
    let ghost names = names_view(matching@);
    let ghost t = pattern.text();
    if matching.len() >= 2 {
        proof {
            assert(names.contains(names[0]) && names.contains(names[1]));
        }
        let text = pattern.as_str().to_owned();
        return Err(ResolveError::Ambiguous(text, matching));
    }
    let product = match select_product(matching) {
        Ok(p) => p,
        Err(_) => {
            proof {
                assert forall|k: Seq<char>| #[trigger] index@.contains_key(k) implies !glob_matches(t, k) by {
                    if glob_matches(t, k) {
                        assert(names.contains(k));
                    }
                }
            }
            return Err(ResolveError::NoMatch(pattern.as_str().to_owned()));
        },
    };
    proof {
        assert(names.contains(names[0]));
        assert forall|k: Seq<char>| #[trigger] index@.contains_key(k) && glob_matches(t, k) implies k
            == product@ by {
            assert(names.contains(k));
        }
    }
    match newest_matching(index, &product, req) {
        Some(found) => {
            proof {
                assert(sole_match(index@, t, product@));
                assert(newest_admitted(index@[product@], req.text(), found.0));
            }
            Ok(found.1)
        },
        None => Err(ResolveError::NoVersion(pattern.as_str().to_owned(), product)),
    }
}

/// Resolves every pattern, in order, before anything is fetched: each to the image of the
/// newest admitted version of the one product it names; or the failure of the first pattern
/// that does not resolve.
pub fn resolve_patterns(index: &Index, patterns: &Vec<GlobPattern>, req: &VersionRequirement) -> (r:
    Result<Vec<FileUrl>, ResolveError>)
    ensures
        match r {
            Ok(us) => us@.len() == patterns@.len() && forall|i: int|
                0 <= i < us@.len() ==> resolves_to(
                    index@,
                    #[trigger] patterns@[i].text(),
                    req.text(),
                    us@[i]@,
                ),
            Err(e) => exists|i: int|
                0 <= i < patterns@.len() && fails_with(
                    index@,
                    #[trigger] patterns@[i].text(),
                    req.text(),
                    e@,
                ) && forall|j: int|
                    0 <= j < i ==> resolves(index@, #[trigger] patterns@[j].text(), req.text()),
        },
{
    let mut out: Vec<FileUrl> = Vec::new();
    let mut i: usize = 0;
    while i < patterns.len()
        invariant
            i <= patterns@.len(),
            out@.len() == i,
            forall|j: int|
                0 <= j < i ==> resolves_to(
                    index@,
                    #[trigger] patterns@[j].text(),
                    req.text(),
                    out@[j]@,
                ),
        decreases patterns.len() - i,
    {
        match resolve_pattern(index, &patterns[i], req) {
            Ok(u) => {
                out.push(u);
            },
            Err(e) => {
                proof {
                    assert forall|j: int| 0 <= j < i implies resolves(
                        index@,
                        #[trigger] patterns@[j].text(),
                        req.text(),
                    ) by {
                        assert(resolves_to(index@, patterns@[j].text(), req.text(), out@[j]@));
                    }
                    assert(fails_with(index@, patterns@[i as int].text(), req.text(), e@));
                }
                return Err(e);
            },
        }
        i = i + 1;
    }
    Ok(out)
}

/// The distinct locations among `locations`, in text order, as a set of them holds them: an
/// image that several resolved products share is fetched once.
pub fn distinct_locations(locations: &Vec<FileUrl>) -> (r: Vec<FileUrl>)
    ensures
        texts_ascending(locations_view(r@)),
        forall|t: Seq<char>|
            #[trigger] locations_view(r@).contains(t) <==> locations_view(locations@).contains(t),
{
    let ghost given = locations_view(locations@);
    let mut out: Vec<FileUrl> = Vec::new();
    let mut k: usize = 0;
    while k < locations.len()
        invariant
            given == locations_view(locations@),
            k <= locations@.len(),
            texts_ascending(locations_view(out@)),
            forall|t: Seq<char>|
                #[trigger] locations_view(out@).contains(t) <==> given.subrange(
                    0,
                    k as int,
                ).contains(t),
        decreases locations.len() - k,
    {
        let ghost before = locations_view(out@);
        let ghost t = locations@[k as int]@;
        let mut i: usize = 0;
        while i < out.len() && compare_text(out[i].as_str(), locations[k].as_str())
            == Precedence::Before
            invariant
                before == locations_view(out@),
                t == locations@[k as int]@,
                k < locations@.len(),
                i <= out@.len(),
                forall|a: int| 0 <= a < i ==> text_before(#[trigger] before[a], t),
            decreases out.len() - i,
        {
            i = i + 1;
        }
        let ghost g0 = given.subrange(0, k as int);
        let ghost g1 = given.subrange(0, k + 1);
        assert(g1 =~= g0.push(t));
        if i < out.len() && compare_text(out[i].as_str(), locations[k].as_str())
            == Precedence::Same {
            proof {
                assert(before[i as int] == t);
                assert forall|x: Seq<char>| #[trigger] before.contains(x) <==> g1.contains(x) by {
                    if g1.contains(x) {
                        let a = choose|a: int| 0 <= a < g1.len() && g1[a] == x;
                        if a == k {
                            assert(before[i as int] == x);
                        } else {
                            assert(g0[a] == x);
                            assert(g0.contains(x));
                        }
                    }
                    if before.contains(x) {
                        assert(g0.contains(x));
                        let c = choose|c: int| 0 <= c < g0.len() && g0[c] == x;
                        assert(g1[c] == x);
                    }
                }
            }
        } else {
            proof {
                if i < before.len() {
                    lemma_text_before_total(before[i as int], t);
                    assert(text_before(t, before[i as int]));
                }
            }
            out.insert(i, locations[k].clone());
            proof {
                let now = locations_view(out@);
                assert(now =~= before.insert(i as int, t));
                assert forall|a: int, b: int| 0 <= a < b < now.len() implies text_before(
                    #[trigger] now[a],
                    #[trigger] now[b],
                ) by {
                    if a < i && b < i {
                        assert(now[a] == before[a] && now[b] == before[b]);
                    } else if a < i && b == i {
                        assert(now[a] == before[a]);
                    } else if a < i {
                        assert(now[a] == before[a] && now[b] == before[b - 1]);
                        lemma_text_before_transitive(before[a], t, before[i as int]);
                        if b - 1 > i {
                            lemma_text_before_transitive(before[a], before[i as int], before[b - 1]);
                        }
                    } else if a == i {
                        assert(now[b] == before[b - 1]);
                        if b - 1 > i {
                            lemma_text_before_transitive(t, before[i as int], before[b - 1]);
                        }
                    } else {
                        assert(now[a] == before[a - 1] && now[b] == before[b - 1]);
                    }
                }
                assert forall|x: Seq<char>| #[trigger] now.contains(x) <==> g1.contains(x) by {
                    if now.contains(x) {
                        let a = choose|a: int| 0 <= a < now.len() && now[a] == x;
                        if a == i {
                            assert(g1[k as int] == x);
                        } else {
                            let c = if a < i { a } else { a - 1 };
                            assert(before[c] == x);
                            assert(before.contains(x));
                            assert(g0.contains(x));
                            let d = choose|d: int| 0 <= d < g0.len() && g0[d] == x;
                            assert(g1[d] == x);
                        }
                    }
                    if g1.contains(x) {
                        let a = choose|a: int| 0 <= a < g1.len() && g1[a] == x;
                        if a == k {
                            assert(now[i as int] == x);
                        } else {
                            assert(g0[a] == x);
                            assert(g0.contains(x));
                            assert(before.contains(x));
                            let c = choose|c: int| 0 <= c < before.len() && before[c] == x;
                            if c < i {
                                assert(now[c] == x);
                            } else {
                                assert(now[c + 1] == x);
                            }
                        }
                    }
                }
            }
        }
        k = k + 1;
    }
    assert(given.subrange(0, k as int) =~= given);
    out
}


/// Whether one of the first `n` resolved locations is `t` and not cached.
pub open spec fn uncached_among(
    resolved: Seq<Seq<char>>,
    cached: Seq<bool>,
    n: int,
    t: Seq<char>,
) -> bool {
    exists|j: int| 0 <= j < n && !cached[j] && #[trigger] resolved[j] == t
}

/// The images to fetch for the resolved locations: the distinct ones that are not cached, in
/// order; or, offline, those same images as the error where there is any.
pub fn images_to_fetch(resolved: &Vec<FileUrl>, cached: &Vec<bool>, offline: bool) -> (r: Result<
    Vec<FileUrl>,
    Vec<FileUrl>,
>)
    requires
        cached@.len() == resolved@.len(),
    ensures
        r is Err <==> (offline && exists|j: int|
            0 <= j < resolved@.len() && !#[trigger] cached@[j]),
        match r {
            Ok(f) => texts_ascending(locations_view(f@)) && forall|t: Seq<char>|
                #[trigger] locations_view(f@).contains(t) <==> uncached_among(
                    locations_view(resolved@),
                    cached@,
                    resolved@.len() as int,
                    t,
                ),
            Err(f) => texts_ascending(locations_view(f@)) && forall|t: Seq<char>|
                #[trigger] locations_view(f@).contains(t) <==> uncached_among(
                    locations_view(resolved@),
                    cached@,
                    resolved@.len() as int,
                    t,
                ),
        },
{
    let ghost rv = locations_view(resolved@);
    let mut uncached: Vec<FileUrl> = Vec::new();
    let mut i: usize = 0;
    while i < resolved.len()
        invariant
            rv == locations_view(resolved@),
            cached@.len() == resolved@.len(),
            i <= resolved@.len(),
            forall|t: Seq<char>|
                #[trigger] locations_view(uncached@).contains(t) <==> uncached_among(
                    rv,
                    cached@,
                    i as int,
                    t,
                ),
            uncached@.len() > 0 <==> exists|j: int| 0 <= j < i && !#[trigger] cached@[j],
        decreases resolved.len() - i,
    {
        let ghost before = locations_view(uncached@);
        if !cached[i] {
            uncached.push(resolved[i].clone());
            proof {
                let now = locations_view(uncached@);
                assert(now =~= before.push(rv[i as int]));
                assert forall|t: Seq<char>| #[trigger] now.contains(t) <==> uncached_among(
                    rv,
                    cached@,
                    i + 1,
                    t,
                ) by {
                    if now.contains(t) {
                        let a = choose|a: int| 0 <= a < now.len() && now[a] == t;
                        if a < before.len() {
                            assert(before[a] == t);
                            assert(before.contains(t));
                        } else {
                            assert(rv[i as int] == t);
                        }
                    }
                    if uncached_among(rv, cached@, i + 1, t) {
                        let j = choose|j: int| 0 <= j < i + 1 && !cached@[j] && #[trigger] rv[j] == t;
                        if j < i {
                            assert(uncached_among(rv, cached@, i as int, t));
                            assert(before.contains(t));
                            let a = choose|a: int| 0 <= a < before.len() && before[a] == t;
                            assert(now[a] == t);
                        } else {
                            assert(now[now.len() - 1] == t);
                        }
                    }
                }
                assert(!cached@[i as int]);
            }
        } else {
            proof {
                assert forall|t: Seq<char>| #[trigger] before.contains(t) <==> uncached_among(
                    rv,
                    cached@,
                    i + 1,
                    t,
                ) by {
                    if uncached_among(rv, cached@, i + 1, t) {
                        let j = choose|j: int| 0 <= j < i + 1 && !cached@[j] && #[trigger] rv[j] == t;
                        assert(j < i);
                        assert(uncached_among(rv, cached@, i as int, t));
                    }
                    if uncached_among(rv, cached@, i as int, t) {
                        let j = choose|j: int| 0 <= j < i && !cached@[j] && #[trigger] rv[j] == t;
                        assert(uncached_among(rv, cached@, i + 1, t));
                    }
                }
                if exists|j: int| 0 <= j < i + 1 && !#[trigger] cached@[j] {
                    let j = choose|j: int| 0 <= j < i + 1 && !#[trigger] cached@[j];
                    assert(j < i);
                }
            }
        }
        i = i + 1;
    }
    let missing = distinct_locations(&uncached);
    proof {
        let un = locations_view(uncached@);
        if un.len() > 0 {
            assert(un.contains(un[0]));
            assert(locations_view(missing@).contains(un[0]));
            assert(missing@.len() > 0);
        }
        if missing@.len() > 0 {
            let m = locations_view(missing@);
            assert(m.contains(m[0]));
            assert(un.contains(m[0]));
        }
    }
    if offline && missing.len() > 0 {
        Err(missing)
    } else {
        Ok(missing)
    }
}

} // verus!
