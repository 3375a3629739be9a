//! The index: a map from product name to software version to the location of its image, kept
//! in the order of its keys.

use vstd::prelude::*;

use crate::assoc::{
    assoc_map, has_key, keys_unique, lemma_assoc_at, lemma_assoc_insert, lemma_assoc_replace,
};
use crate::db::{FileUrl, ShortName};
use crate::text::{
    compare_text, lemma_text_before_irreflexive, lemma_text_before_total,
    lemma_text_before_transitive, text_before, Precedence,
};
use crate::version::{version_before, Version};

verus! {

/// What the index holds, as a value: product name to version to location.
pub type IndexMap = Map<Seq<char>, Map<Version, Seq<char>>>;

/// `m` with the location `u` of version `v` of product `p` added, or put in place of the one
/// that was there.
pub open spec fn index_insert(m: IndexMap, p: Seq<char>, v: Version, u: Seq<char>) -> IndexMap {
    m.insert(
        p,
        if m.contains_key(p) {
            m[p]
        } else {
            Map::empty()
        }.insert(v, u),
    )
}

/// `keys` are in strictly increasing text order.
pub open spec fn texts_ascending(keys: Seq<Seq<char>>) -> bool {
    forall|i: int, j: int| 0 <= i < j < keys.len() ==> text_before(#[trigger] keys[i], #[trigger] keys[j])
}

/// `keys` are in strictly increasing version order.
pub open spec fn versions_ascending(keys: Seq<Version>) -> bool {
    forall|i: int, j: int| 0 <= i < j < keys.len() ==> version_before(#[trigger] keys[i], #[trigger] keys[j])
}

/// Product names as values.
pub open spec fn names_view(ns: Seq<ShortName>) -> Seq<Seq<char>> {
    ns.map_values(|n: ShortName| n@)
}

/// Locations as values.
pub open spec fn locations_view(us: Seq<FileUrl>) -> Seq<Seq<char>> {
    us.map_values(|u: FileUrl| u@)
}

/// The versions of one product with their locations, in version order.
struct ProductVersions {
    product: ShortName,
    versions: Vec<(Version, FileUrl)>,
}

/// The pairs of versions and locations, as values.
spec fn entries_view(vs: Seq<(Version, FileUrl)>) -> Seq<(Version, Seq<char>)> {
    vs.map_values(|e: (Version, FileUrl)| (e.0, e.1@))
}

/// The versions of one product, as a value.
spec fn product_view(p: ProductVersions) -> (Seq<char>, Map<Version, Seq<char>>) {
    (p.product@, assoc_map(entries_view(p.versions@)))
}

/// The products of the index, as values.
spec fn products_view(ps: Seq<ProductVersions>) -> Seq<(Seq<char>, Map<Version, Seq<char>>)> {
    ps.map_values(|p: ProductVersions| product_view(p))
}

/// Versions strictly ascending.
spec fn versions_sorted(vs: Seq<(Version, FileUrl)>) -> bool {
    forall|i: int, j: int| 0 <= i < j < vs.len() ==> version_before(#[trigger] vs[i].0, #[trigger] vs[j].0)
}

/// Products strictly ascending by name, and the versions of each strictly ascending.
spec fn products_sorted(ps: Seq<ProductVersions>) -> bool {
    &&& forall|i: int, j: int|
        0 <= i < j < ps.len() ==> text_before(#[trigger] ps[i].product@, #[trigger] ps[j].product@)
    &&& forall|i: int| 0 <= i < ps.len() ==> versions_sorted(#[trigger] ps[i].versions@)
}

proof fn lemma_versions_unique(vs: Seq<(Version, FileUrl)>)
    requires
        versions_sorted(vs),
    ensures
        keys_unique(entries_view(vs)),
{
    let e = entries_view(vs);
    assert forall|i: int, j: int| 0 <= i < e.len() && 0 <= j < e.len() && i != j implies #[trigger] e[i].0
        != #[trigger] e[j].0 by {
        if i < j {
            assert(version_before(vs[i].0, vs[j].0));
        } else {
            assert(version_before(vs[j].0, vs[i].0));
        }
    }
}

proof fn lemma_products_unique(ps: Seq<ProductVersions>)
    requires
        products_sorted(ps),
    ensures
        keys_unique(products_view(ps)),
{
    let e = products_view(ps);
    assert forall|i: int, j: int| 0 <= i < e.len() && 0 <= j < e.len() && i != j implies #[trigger] e[i].0
        != #[trigger] e[j].0 by {
        if i < j {
            assert(text_before(ps[i].product@, ps[j].product@));
        } else {
            assert(text_before(ps[j].product@, ps[i].product@));
        }
        lemma_text_before_irreflexive(ps[i].product@);
    }
}

/// Puts the location `u` of version `v` in its place among `versions`.
fn insert_version(versions: &mut Vec<(Version, FileUrl)>, v: Version, u: FileUrl) -> (r: Option<
    FileUrl,
>)
    requires
        versions_sorted(old(versions)@),
    ensures
        versions_sorted(final(versions)@),
        final(versions)@.len() > 0,
        assoc_map(entries_view(final(versions)@)) == assoc_map(entries_view(old(versions)@)).insert(
            v,
            u@,
        ),
        r is Some <==> assoc_map(entries_view(old(versions)@)).contains_key(v),
        r matches Some(o) ==> o@ == assoc_map(entries_view(old(versions)@))[v],
{
    let ghost old_vs = versions@;
    proof {
        lemma_versions_unique(old_vs);
    }
    let mut i: usize = 0;
    while i < versions.len() && versions[i].0.compare(&v) == Precedence::Before
        invariant
            versions@ == old_vs,
            i <= versions@.len(),
            forall|k: int| 0 <= k < i ==> version_before(#[trigger] versions@[k].0, v),
        decreases versions.len() - i,
    {
        i = i + 1;
    }
    let ghost ev = entries_view(old_vs);
    if i < versions.len() && versions[i].0.compare(&v) == Precedence::Same {
        let old_entry = versions.remove(i);
        versions.insert(i, (v, u));
        proof {
            assert(versions@ =~= old_vs.update(i as int, (v, u)));
            assert(entries_view(versions@) =~= ev.update(i as int, (ev[i as int].0, u@)));
            lemma_assoc_at(ev, i as int);
            lemma_assoc_replace(ev, i as int, u@);
            assert forall|a: int, b: int| 0 <= a < b < versions@.len() implies version_before(
                #[trigger] versions@[a].0,
                #[trigger] versions@[b].0,
            ) by {
                assert(versions@[a].0 == old_vs[a].0);
                assert(versions@[b].0 == old_vs[b].0);
            }
        }
        Some(old_entry.1)
    } else {
        proof {
            assert forall|k: int| 0 <= k < ev.len() implies #[trigger] ev[k].0 != v by {
                if k < i {
                    assert(version_before(old_vs[k].0, v));
                } else {
                    assert(i < old_vs.len());
                    assert(version_before(v, old_vs[i as int].0));
                    if k > i {
                        assert(version_before(old_vs[i as int].0, old_vs[k].0));
                    }
                }
            }
            lemma_assoc_insert(ev, i as int, v, u@);
        }
        versions.insert(i, (v, u));
        proof {
            assert(entries_view(versions@) =~= ev.insert(i as int, (v, u@)));
            assert forall|a: int, b: int| 0 <= a < b < versions@.len() implies version_before(
                #[trigger] versions@[a].0,
                #[trigger] versions@[b].0,
            ) by {
                if a < i && b < i {
                    assert(versions@[a] == old_vs[a] && versions@[b] == old_vs[b]);
                } else if a < i && b == i {
                    assert(versions@[a] == old_vs[a]);
                } else if a < i {
                    assert(versions@[a] == old_vs[a] && versions@[b] == old_vs[b - 1]);
                    assert(version_before(old_vs[a].0, v));
                    assert(version_before(v, old_vs[i as int].0));
                } else if a == i {
                    assert(versions@[b] == old_vs[b - 1]);
                    assert(version_before(v, old_vs[i as int].0));
                } else {
                    assert(versions@[a] == old_vs[a - 1] && versions@[b] == old_vs[b - 1]);
                }
            }
        }
        None
    }
}

/// A map from product name to software version to fimage location.
pub struct Index {
    products: Vec<ProductVersions>,
}

impl View for Index {
    type V = IndexMap;

    closed spec fn view(&self) -> IndexMap {
        assoc_map(products_view(self.products@))
    }
}

impl Index {
    /// Products in name order, versions of each in version order.
    #[verifier::type_invariant]
    closed spec fn wf(self) -> bool {
        products_sorted(self.products@)
    }

    /// The empty index.
    pub fn new() -> (r: Self)
        ensures
            r@ == IndexMap::empty(),
    {
        let r = Index { products: Vec::new() };
        assert(r@ =~= IndexMap::empty());
        r
    }

    /// Adds the location `fileurl` of `version` of `product`, or puts it in place of the one
    /// that was there, which it returns.
    pub fn insert(&mut self, product: ShortName, version: Version, fileurl: FileUrl) -> (r: Option<
        FileUrl,
    >)
        ensures
            final(self)@ == index_insert(old(self)@, product@, version, fileurl@),
            r is Some <==> (old(self)@.contains_key(product@) && old(self)@[product@].contains_key(
                version,
            )),
            r matches Some(o) ==> o@ == old(self)@[product@][version],
    {
        proof {
            use_type_invariant(&*self);
        }
        let mut products: Vec<ProductVersions> = Vec::new();
        std::mem::swap(&mut products, &mut self.products);
        let ghost old_ps = products@;
        let ghost pv = products_view(old_ps);
        proof {
            lemma_products_unique(old_ps);
        }
        let mut i: usize = 0;
        while i < products.len() && compare_text(products[i].product.as_str(), product.as_str())
            == Precedence::Before
            invariant
                products@ == old_ps,
                i <= products@.len(),
                forall|k: int| 0 <= k < i ==> text_before(#[trigger] products@[k].product@, product@),
            decreases products.len() - i,
        {
            i = i + 1;
        }
        if i < products.len() && compare_text(products[i].product.as_str(), product.as_str())
            == Precedence::Same {
            let mut entry = products.remove(i);
            proof {
                assert(products_sorted(old_ps));
                assert(versions_sorted(old_ps[i as int].versions@));
                lemma_assoc_at(pv, i as int);
            }
            let replaced = insert_version(&mut entry.versions, version, fileurl);
            let ghost new_entry = entry;
            products.insert(i, entry);
            proof {
                assert(products@ =~= old_ps.update(i as int, new_entry));
                assert(products_view(products@) =~= pv.update(
                    i as int,
                    (pv[i as int].0, product_view(new_entry).1),
                ));
                lemma_assoc_replace(pv, i as int, product_view(new_entry).1);
                assert forall|a: int, b: int| 0 <= a < b < products@.len() implies text_before(
                    #[trigger] products@[a].product@,
                    #[trigger] products@[b].product@,
                ) by {
                    assert(products@[a].product@ == old_ps[a].product@);
                    assert(products@[b].product@ == old_ps[b].product@);
                }
                assert forall|a: int| 0 <= a < products@.len() implies versions_sorted(
                    #[trigger] products@[a].versions@,
                ) by {
                    if a != i {
                        assert(products@[a] == old_ps[a]);
                    }
                }
            }
            self.products = products;
            proof {
                assert(self@ =~= index_insert(old(self)@, product@, version, fileurl@));
            }
            replaced
        } else {
            let ghost p = product@;
            let ghost u = fileurl@;
            let mut versions: Vec<(Version, FileUrl)> = Vec::new();
            versions.push((version, fileurl));
            let new_entry = ProductVersions { product, versions };
            proof {
                assert(entries_view(new_entry.versions@) =~= seq![(version, u)]);
                lemma_assoc_insert(Seq::<(Version, Seq<char>)>::empty(), 0, version, u);
                assert(seq![(version, u)] =~= Seq::<(Version, Seq<char>)>::empty().insert(
                    0,
                    (version, u),
                ));
                assert(assoc_map(Seq::<(Version, Seq<char>)>::empty()) =~= Map::<
                    Version,
                    Seq<char>,
                >::empty());
                assert forall|k: int| 0 <= k < pv.len() implies #[trigger] pv[k].0 != p by {
                    if k < i {
                        assert(text_before(old_ps[k].product@, p));
                        lemma_text_before_irreflexive(p);
                    } else {
                        assert(i < old_ps.len());
                        lemma_text_before_total(old_ps[i as int].product@, p);
                        assert(text_before(p, old_ps[i as int].product@));
                        if k > i {
                            assert(text_before(old_ps[i as int].product@, old_ps[k].product@));
                            lemma_text_before_transitive(
                                p,
                                old_ps[i as int].product@,
                                old_ps[k].product@,
                            );
                        }
                        lemma_text_before_irreflexive(p);
                    }
                }
                lemma_assoc_insert(pv, i as int, p, product_view(new_entry).1);
            }
            products.insert(i, new_entry);
            proof {
                assert(products_view(products@) =~= pv.insert(
                    i as int,
                    (p, product_view(new_entry).1),
                ));
                assert forall|a: int, b: int| 0 <= a < b < products@.len() implies text_before(
                    #[trigger] products@[a].product@,
                    #[trigger] products@[b].product@,
                ) by {
                    if i < old_ps.len() {
                        lemma_text_before_total(old_ps[i as int].product@, p);
                    }
                    if a < i && b < i {
                        assert(products@[a] == old_ps[a] && products@[b] == old_ps[b]);
                    } else if a < i && b == i {
                        assert(products@[a] == old_ps[a]);
                    } else if a < i {
                        assert(products@[a] == old_ps[a] && products@[b] == old_ps[b - 1]);
                        lemma_text_before_transitive(old_ps[a].product@, p, old_ps[i as int].product@);
                        if b - 1 > i {
                            lemma_text_before_transitive(
                                old_ps[a].product@,
                                old_ps[i as int].product@,
                                old_ps[b - 1].product@,
                            );
                        }
                    } else if a == i {
                        assert(products@[b] == old_ps[b - 1]);
                        if b - 1 > i {
                            lemma_text_before_transitive(
                                p,
                                old_ps[i as int].product@,
                                old_ps[b - 1].product@,
                            );
                        }
                    } else {
                        assert(products@[a] == old_ps[a - 1] && products@[b] == old_ps[b - 1]);
                    }
                }
                assert forall|a: int| 0 <= a < products@.len() implies versions_sorted(
                    #[trigger] products@[a].versions@,
                ) by {
                    if a < i {
                        assert(products@[a] == old_ps[a]);
                    } else if a > i {
                        assert(products@[a] == old_ps[a - 1]);
                    }
                }
            }
            self.products = products;
            proof {
                assert(self@ =~= index_insert(old(self)@, product@, version, fileurl@));
            }
            None
        }
    }

    /// The position of `product` among the products, if the index has it.
    fn find_product(&self, product: &ShortName) -> (r: Option<usize>)
        ensures
            match r {
                Some(i) => i < self.products@.len() && self.products@[i as int].product@ == product@,
                None => !self@.contains_key(product@),
            },
    {
        let mut i: usize = 0;
        while i < self.products.len()
            invariant
                i <= self.products@.len(),
                forall|k: int| 0 <= k < i ==> #[trigger] self.products@[k].product@ != product@,
            decreases self.products.len() - i,
        {
            if compare_text(self.products[i].product.as_str(), product.as_str()) == Precedence::Same {
                return Some(i);
            }
            i = i + 1;
        }
        proof {
            let pv = products_view(self.products@);
            assert forall|k: int| 0 <= k < pv.len() implies #[trigger] pv[k].0 != product@ by {
                assert(pv[k].0 == self.products@[k].product@);
            }
        }
        None
    }

    /// The product names, in order.
    pub fn products(&self) -> (r: Vec<ShortName>)
        ensures
            texts_ascending(names_view(r@)),
            forall|k: Seq<char>|
                names_view(r@).contains(k) <==> #[trigger] self@.contains_key(k),
    {
        proof {
            use_type_invariant(self);
        }
        let ghost pv = products_view(self.products@);
        let mut out: Vec<ShortName> = Vec::new();
        let mut i: usize = 0;
        while i < self.products.len()
            invariant
                pv == products_view(self.products@),
                i <= self.products@.len(),
                out@.len() == i,
                forall|k: int| 0 <= k < i ==> #[trigger] out@[k]@ == self.products@[k].product@,
            decreases self.products.len() - i,
        {
            out.push(self.products[i].product.clone());
            i = i + 1;
        }
        proof {
            let names = names_view(out@);
            assert forall|a: int, b: int| 0 <= a < b < names.len() implies text_before(
                #[trigger] names[a],
                #[trigger] names[b],
            ) by {
                assert(names[a] == self.products@[a].product@);
                assert(names[b] == self.products@[b].product@);
            }
            assert forall|k: Seq<char>| names.contains(k) <==> #[trigger] self@.contains_key(k) by {
                if names.contains(k) {
                    let a = choose|a: int| 0 <= a < names.len() && names[a] == k;
                    assert(pv[a].0 == k);
                }
                if self@.contains_key(k) {
                    let a = choose|a: int| 0 <= a < pv.len() && #[trigger] pv[a].0 == k;
                    assert(names[a] == k);
                }
            }
        }
        out
    }

    /// The versions of `product`, in order, if the index has the product.
    pub fn versions(&self, product: &ShortName) -> (r: Option<Vec<Version>>)
        ensures
            r is Some <==> self@.contains_key(product@),
            r matches Some(vs) ==> versions_ascending(vs@) && forall|v: Version|
                vs@.contains(v) <==> #[trigger] self@[product@].contains_key(v),
    {
        proof {
            use_type_invariant(self);
            lemma_products_unique(self.products@);
        }
        match self.find_product(product) {
            None => None,
            Some(i) => {
                let entries = &self.products[i].versions;
                let ghost ev = entries_view(entries@);
                proof {
                    lemma_assoc_at(products_view(self.products@), i as int);
                    assert(versions_sorted(self.products@[i as int].versions@));
                    lemma_versions_unique(entries@);
                }
                let mut out: Vec<Version> = Vec::new();
                let mut j: usize = 0;
                while j < entries.len()
                    invariant
                        ev == entries_view(entries@),
                        j <= entries@.len(),
                        out@.len() == j,
                        forall|k: int| 0 <= k < j ==> #[trigger] out@[k] == entries@[k].0,
                    decreases entries.len() - j,
                {
                    out.push(entries[j].0);
                    j = j + 1;
                }
                proof {
                    assert forall|a: int, b: int| 0 <= a < b < out@.len() implies version_before(
                        #[trigger] out@[a],
                        #[trigger] out@[b],
                    ) by {
                        assert(out@[a] == entries@[a].0);
                        assert(out@[b] == entries@[b].0);
                    }
                    assert forall|v: Version| out@.contains(v) <==> #[trigger] assoc_map(
                        ev,
                    ).contains_key(v) by {
                        if out@.contains(v) {
                            let a = choose|a: int| 0 <= a < out@.len() && out@[a] == v;
                            assert(ev[a].0 == v);
                        }
                        if has_key(ev, v) {
                            let a = choose|a: int| 0 <= a < ev.len() && #[trigger] ev[a].0 == v;
                            assert(out@[a] == v);
                        }
                    }
                }
                Some(out)
            },
        }
    }

    /// The location of `version` of `product`, if the index has it.
    pub fn get(&self, product: &ShortName, version: &Version) -> (r: Option<&FileUrl>)
        ensures
            r is Some <==> (self@.contains_key(product@) && self@[product@].contains_key(*version)),
            r matches Some(u) ==> u@ == self@[product@][*version],
    {
        proof {
            use_type_invariant(self);
            lemma_products_unique(self.products@);
        }
        match self.find_product(product) {
            None => None,
            Some(i) => {
                let entries = &self.products[i].versions;
                let ghost ev = entries_view(entries@);
                proof {
                    lemma_assoc_at(products_view(self.products@), i as int);
                    assert(versions_sorted(self.products@[i as int].versions@));
                    lemma_versions_unique(entries@);
                }
                let mut j: usize = 0;
                while j < entries.len()
                    invariant
                        ev == entries_view(entries@),
                        keys_unique(ev),
                        self@.contains_key(product@),
                        self@[product@] == assoc_map(ev),
                        j <= entries@.len(),
                        forall|k: int| 0 <= k < j ==> #[trigger] entries@[k].0 != *version,
                    decreases entries.len() - j,
                {
                    if entries[j].0.compare(version) == Precedence::Same {
                        proof {
                            assert(ev[j as int] == (entries@[j as int].0, entries@[j as int].1@));
                            lemma_assoc_at(ev, j as int);
                        }
                        return Some(&entries[j].1);
                    }
                    j = j + 1;
                }
                proof {
                    assert forall|k: int| 0 <= k < ev.len() implies #[trigger] ev[k].0 != *version by {
                        assert(ev[k].0 == entries@[k].0);
                    }
                }
                None
            },
        }
    }
}


/// A lookup after an insert gives the inserted location for its product and version, and what
/// it gave before for every other product and version.
pub proof fn lemma_index_insert_then_lookup(
    m: IndexMap,
    p: Seq<char>,
    v: Version,
    u: Seq<char>,
    q: Seq<char>,
    w: Version,
)
    ensures
        index_insert(m, p, v, u).contains_key(p),
        index_insert(m, p, v, u)[p].contains_key(v),
        index_insert(m, p, v, u)[p][v] == u,
        (q != p || w != v) ==> ((index_insert(m, p, v, u).contains_key(q) && index_insert(
            m,
            p,
            v,
            u,
        )[q].contains_key(w)) <==> (m.contains_key(q) && m[q].contains_key(w))),
        (q != p || w != v) && m.contains_key(q) && m[q].contains_key(w) ==> index_insert(
            m,
            p,
            v,
            u,
        )[q][w] == m[q][w],
{
}

} // verus!
