//! Building the index from the catalog.

use vstd::prelude::*;

use crate::catalog::{
    catalog_outcome, entries_view, parse_catalog, CatalogEntry, CatalogEntryView, CatalogError,
    CatalogFailure,
};
use crate::db::{file_url_outcome, normalized_name, FileUrl, ShortName};
use crate::index::{index_insert, Index, IndexMap};
use crate::version::{coerce_revision, Version};

verus! {

/// Where a catalog entry goes in the index: its product number, version and location; or
/// nothing, where its revision is not a version or its location is refused.
pub open spec fn indexed_entry(e: CatalogEntryView) -> Option<(Seq<char>, Version, Seq<char>)> {
    match coerce_revision(e.revision) {
        Err(_) => None,
        Ok(v) => match file_url_outcome(e.fileurl) {
            Err(_) => None,
            Ok(u) => Some((normalized_name(e.product), v, u)),
        },
    }
}

/// The index of a catalog: its entries added in catalog order, each in place of an earlier one
/// with the same product number and version.
pub open spec fn index_of_catalog(entries: Seq<CatalogEntryView>) -> IndexMap
    decreases entries.len(),
{
    if entries.len() == 0 {
        IndexMap::empty()
    } else {
        let m = index_of_catalog(entries.drop_last());
        match indexed_entry(entries.last()) {
            Some(t) => index_insert(m, t.0, t.1, t.2),
            None => m,
        }
    }
}

/// Builds the index from the catalog. Entries whose revision is not a version, or whose
/// location is refused, are skipped; models are folded onto the product number a device reports;
/// revisions that differ only in a component the version type drops collide, and as the catalog
/// lists them oldest-first, the newest of them wins.
pub fn index_from_catalog(catalog: Vec<CatalogEntry>) -> (r: Index)
    ensures
        r@ == index_of_catalog(entries_view(catalog@)),
{
    let ghost all = entries_view(catalog@);
    let mut index = Index::new();
    let mut i: usize = 0;
    assert(all.subrange(0, 0) =~= Seq::<CatalogEntryView>::empty());
    while i < catalog.len()
        invariant
            all == entries_view(catalog@),
            i <= catalog@.len(),
            index@ == index_of_catalog(all.subrange(0, i as int)),
        decreases catalog.len() - i,
    {
        let entry = &catalog[i];
        proof {
            assert(all.subrange(0, i + 1).drop_last() =~= all.subrange(0, i as int));
            assert(all.subrange(0, i + 1).last() == entry@);
        }
        match Version::try_coerced(entry.revision.as_str()) {
            Err(_) => {},
            Ok(version) => match FileUrl::new(entry.fileurl.as_str()) {
                Err(_) => {},
                Ok(fileurl) => {
                    let product = ShortName::new_normalized(entry.product.as_str());
                    index.insert(product, version, fileurl);
                },
            },
        }
        i = i + 1;
    }
    assert(all.subrange(0, i as int) =~= all);
    index
}


/// Whether the catalog entry `e` goes to product number `p` and version `v` in the index.
pub open spec fn goes_to(e: CatalogEntryView, p: Seq<char>, v: Version) -> bool {
    match indexed_entry(e) {
        Some(t) => t.0 == p && t.1 == v,
        None => false,
    }
}

/// Whether the catalog entry `e` goes to product number `p` in the index.
pub open spec fn goes_to_product(e: CatalogEntryView, p: Seq<char>) -> bool {
    match indexed_entry(e) {
        Some(t) => t.0 == p,
        None => false,
    }
}

/// The newest entry wins: where a catalog entry is the last one that goes to its product number
/// and version, the index gives its location there.
pub proof fn lemma_index_last_entry_wins(
    entries: Seq<CatalogEntryView>,
    i: int,
    p: Seq<char>,
    v: Version,
    u: Seq<char>,
)
    requires
        0 <= i < entries.len(),
        indexed_entry(entries[i]) == Some((p, v, u)),
        forall|j: int| i < j < entries.len() ==> !goes_to(#[trigger] entries[j], p, v),
    ensures
        index_of_catalog(entries).contains_key(p),
        index_of_catalog(entries)[p].contains_key(v),
        index_of_catalog(entries)[p][v] == u,
    decreases entries.len(),
{
    let rest = entries.drop_last();
    let k = entries.len() - 1;
    assert(entries.last() == entries[k]);
    if i < k {
        assert forall|j: int| i < j < rest.len() implies !goes_to(#[trigger] rest[j], p, v) by {
            assert(rest[j] == entries[j]);
        }
        assert(rest[i] == entries[i]);
        lemma_index_last_entry_wins(rest, i, p, v, u);
        assert(!goes_to(entries[k], p, v));
    }
}

/// Only the catalog goes into the index: each product number and version that the index holds
/// is that of some catalog entry.
pub proof fn lemma_index_holds_only_catalog_entries(
    entries: Seq<CatalogEntryView>,
    p: Seq<char>,
    v: Version,
)
    requires
        index_of_catalog(entries).contains_key(p),
        index_of_catalog(entries)[p].contains_key(v),
    ensures
        exists|i: int| 0 <= i < entries.len() && goes_to(#[trigger] entries[i], p, v),
    decreases entries.len(),
{
    let rest = entries.drop_last();
    let k = entries.len() - 1;
    assert(entries.last() == entries[k]);
    if goes_to(entries[k], p, v) {
    } else {
        let m = index_of_catalog(rest);
        assert(m.contains_key(p) && m[p].contains_key(v));
        lemma_index_holds_only_catalog_entries(rest, p, v);
        let i = choose|i: int| 0 <= i < rest.len() && goes_to(#[trigger] rest[i], p, v);
        assert(rest[i] == entries[i]);
    }
}

/// Every product number in the index is that of some catalog entry, so models folded onto one
/// product number share one key.
pub proof fn lemma_index_products_come_from_catalog(entries: Seq<CatalogEntryView>, p: Seq<char>)
    requires
        index_of_catalog(entries).contains_key(p),
    ensures
        exists|i: int| 0 <= i < entries.len() && goes_to_product(#[trigger] entries[i], p),
    decreases entries.len(),
{
    let rest = entries.drop_last();
    let k = entries.len() - 1;
    assert(entries.last() == entries[k]);
    if goes_to_product(entries[k], p) {
    } else {
        lemma_index_products_come_from_catalog(rest, p);
        let i = choose|i: int| 0 <= i < rest.len() && goes_to_product(#[trigger] rest[i], p);
        assert(rest[i] == entries[i]);
    }
}


/// Refreshes the index from the firmware catalog.
pub struct UpdateCommand {}

/// Why the index could not be refreshed.
#[derive(Debug)]
pub enum UpdateError {
    /// The catalog cannot be fetched when offline.
    Offline,
    /// The catalog could not be read.
    Catalog(CatalogError),
}

impl UpdateCommand {
    /// Whether the update may go ahead: it needs the catalog, which is not to be had offline.
    pub fn check_online(&self, offline: bool) -> (r: Result<(), UpdateError>)
        ensures
            r is Err <==> offline,
            r matches Err(e) ==> e is Offline,
    {
        if offline {
            Err(UpdateError::Offline)
        } else {
            Ok(())
        }
    }

    /// The index that the fetched catalog text makes.
    pub fn build_index(&self, xml: &str) -> (r: Result<Index, UpdateError>)
        ensures
            match r {
                Ok(index) => catalog_outcome(xml@) is Ok && index@ == index_of_catalog(
                    catalog_outcome(xml@)->Ok_0,
                ),
                Err(e) => e matches UpdateError::Catalog(c) && catalog_outcome(xml@) == Err::<
                    Seq<CatalogEntryView>,
                    CatalogFailure,
                >(c@),
            },
    {
        match parse_catalog(xml) {
            Err(e) => Err(UpdateError::Catalog(e)),
            Ok(entries) => {
                let index = index_from_catalog(entries);
                Ok(index)
            },
        }
    }
}

} // verus!
