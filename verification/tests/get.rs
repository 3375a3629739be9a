use firmware_inventory::catalog::CatalogEntry;
use firmware_inventory::db::{FileUrl, ShortName};
use firmware_inventory::get::{
    distinct_locations, images_to_fetch, matching_products, newest_matching, resolve_patterns,
    select_product, GlobPattern, ProductSelectionError, ResolveError,
};
use firmware_inventory::update::index_from_catalog;
use firmware_inventory::version::{Version, VersionRequirement};

fn entry(product: &str, revision: &str, fileurl: &str) -> CatalogEntry {
    CatalogEntry {
        product: product.to_string(),
        revision: revision.to_string(),
        fileurl: fileurl.to_string(),
    }
}

#[test]
fn a_pattern_matches_products_in_name_order() {
    let index = index_from_catalog(vec![
        entry("AXIS P1275", "12.9.57", "/p/x.bin"),
        entry("AXIS P1265", "12.9.57", "/p/x.bin"),
        entry("AXIS M1075-L", "12.9.57", "/m/x.bin"),
    ]);
    let names: Vec<String> = matching_products(&index, &GlobPattern::new("P12*").unwrap())
        .iter()
        .map(|p| p.to_string())
        .collect();
    assert_eq!(names, ["P1265", "P1275"]);
    assert!(matching_products(&index, &GlobPattern::new("Q*").unwrap()).is_empty());
}

#[test]
fn a_pattern_must_name_exactly_one_product() {
    let one = vec![ShortName::new_normalized("AXIS P1265")];
    assert_eq!(select_product(one).unwrap().as_str(), "P1265");
    assert!(matches!(select_product(Vec::new()), Err(ProductSelectionError::NoMatch)));
    let two = vec![
        ShortName::new_normalized("AXIS P1265"),
        ShortName::new_normalized("AXIS P1275"),
    ];
    match select_product(two) {
        Err(ProductSelectionError::Ambiguous(all)) => assert_eq!(all.len(), 2),
        other => panic!("unexpected {other:?}"),
    }
}

#[test]
fn the_newest_version_that_the_requirement_admits_is_chosen() {
    let index = index_from_catalog(vec![
        entry("AXIS Q1", "10.12.0", "/q/10_12_0.bin"),
        entry("AXIS Q1", "11.0.0", "/q/11_0_0.bin"),
        entry("AXIS Q1", "11.11.0", "/q/11_11_0.bin"),
        entry("AXIS Q1", "12.0.0", "/q/12_0_0.bin"),
    ]);
    let product = ShortName::new_normalized("Q1");
    let req = VersionRequirement::parse("^11").unwrap();
    let (version, fileurl) = newest_matching(&index, &product, &req).unwrap();
    assert_eq!(version, Version::new(11, 11, 0));
    assert_eq!(fileurl.as_str(), "q/11_11_0.bin");
    let none = VersionRequirement::parse("^13").unwrap();
    assert!(newest_matching(&index, &product, &none).is_none());
    assert!(newest_matching(&index, &ShortName::new_normalized("Q2"), &req).is_none());
}

#[test]
fn an_image_shared_by_products_is_fetched_once() {
    let locations = vec![
        FileUrl::new("/p/b.bin").unwrap(),
        FileUrl::new("/p/a.bin").unwrap(),
        FileUrl::new("p/b.bin").unwrap(),
    ];
    let distinct: Vec<String> = distinct_locations(&locations).iter().map(|u| u.to_string()).collect();
    assert_eq!(distinct, ["p/a.bin", "p/b.bin"]);
    assert!(distinct_locations(&Vec::new()).is_empty());
}

#[test]
fn a_pattern_keeps_its_text_and_refuses_a_malformed_one() {
    assert_eq!(GlobPattern::new("P12*").unwrap().as_str(), "P12*");
    assert!(GlobPattern::new("P[12").is_err());
}

#[test]
fn a_pattern_matches_the_whole_name_with_wildcards() {
    let index = index_from_catalog(vec![
        entry("AXIS P1265", "12.9.57", "/p/x.bin"),
        entry("AXIS P1265-LE", "12.9.57", "/p/y.bin"),
        entry("AXIS Q1", "12.9.57", "/q/x.bin"),
    ]);
    let names = |text: &str| -> Vec<String> {
        matching_products(&index, &GlobPattern::new(text).unwrap())
            .iter()
            .map(|p| p.to_string())
            .collect()
    };
    assert_eq!(names("P1265"), ["P1265"]);
    assert_eq!(names("P1265*"), ["P1265", "P1265-LE"]);
    assert_eq!(names("?1*"), ["P1265", "P1265-LE", "Q1"]);
    assert!(names("1265").is_empty());
}

#[test]
fn only_uncached_images_are_fetched_each_once() {
    let a = FileUrl::new("/p/a.bin").unwrap();
    let b = FileUrl::new("/p/b.bin").unwrap();
    let resolved = vec![b.clone(), a.clone(), b.clone()];
    let fetch = images_to_fetch(&resolved, &vec![false, true, false], false).unwrap();
    assert_eq!(fetch, vec![b.clone()]);
    assert_eq!(images_to_fetch(&resolved, &vec![true, true, true], true).unwrap(), Vec::<FileUrl>::new());
    let missing = images_to_fetch(&resolved, &vec![false, false, false], true).unwrap_err();
    assert_eq!(missing, vec![a, b]);
}

#[test]
fn every_pattern_resolves_to_the_newest_admitted_image_or_the_first_failure_is_reported() {
    let index = index_from_catalog(vec![
        entry("AXIS P1265", "11.11.0", "/p/11.bin"),
        entry("AXIS P1265", "12.9.57", "/p/12.bin"),
        entry("AXIS P1275", "11.0.0", "/q/11.bin"),
        entry("AXIS M1075-L", "10.6.0", "/m/10.bin"),
    ]);
    let patterns = |texts: &[&str]| -> Vec<GlobPattern> {
        texts.iter().map(|t| GlobPattern::new(t).unwrap()).collect()
    };
    let req = VersionRequirement::parse("^11").unwrap();
    let resolved = resolve_patterns(&index, &patterns(&["P1265", "P1275", "P1265"]), &req).unwrap();
    let texts: Vec<String> = resolved.iter().map(|u| u.to_string()).collect();
    assert_eq!(texts, ["p/11.bin", "q/11.bin", "p/11.bin"]);
    assert!(resolve_patterns(&index, &Vec::new(), &req).unwrap().is_empty());

    match resolve_patterns(&index, &patterns(&["P1265", "Q*", "P12*"]), &req) {
        Err(ResolveError::NoMatch(p)) => assert_eq!(p, "Q*"),
        other => panic!("unexpected {other:?}"),
    }
    match resolve_patterns(&index, &patterns(&["P12*", "Q*"]), &req) {
        Err(ResolveError::Ambiguous(p, all)) => {
            assert_eq!(p, "P12*");
            let names: Vec<String> = all.iter().map(|n| n.to_string()).collect();
            assert_eq!(names, ["P1265", "P1275"]);
        }
        other => panic!("unexpected {other:?}"),
    }
    match resolve_patterns(&index, &patterns(&["P1265", "M1075*"]), &req) {
        Err(ResolveError::NoVersion(p, product)) => {
            assert_eq!(p, "M1075*");
            assert_eq!(product.as_str(), "M1075-L");
        }
        other => panic!("unexpected {other:?}"),
    }
}
