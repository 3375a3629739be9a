use firmware_inventory::catalog::CatalogEntry;
use firmware_inventory::db::{FileUrl, ShortName};
use firmware_inventory::index::Index;
use firmware_inventory::update::{index_from_catalog, UpdateCommand, UpdateError};
use firmware_inventory::version::Version;

fn entry(product: &str, directory: &str, revision: &str) -> CatalogEntry {
    let underscored = revision.replace('.', "_");
    CatalogEntry {
        product: product.to_string(),
        revision: revision.to_string(),
        fileurl: format!("/MPQT/{directory}/{underscored}/{directory}_{underscored}.bin"),
    }
}

fn products(index: &Index) -> Vec<String> {
    index.products().iter().map(|p| p.to_string()).collect()
}

fn versions(index: &Index, product: &str) -> Vec<String> {
    index
        .versions(&ShortName::new_normalized(product))
        .unwrap()
        .iter()
        .map(|v| v.to_string())
        .collect()
}

#[test]
fn index_from_catalog_merges_the_models_of_one_product() {
    let index = index_from_catalog(vec![
        entry("AXIS P8815-2", "P8815-2", "10.6.0"),
        entry(
            "AXIS P8815-2 3D People Counter",
            "P8815-2_3D_People_Counter",
            "11.11.192",
        ),
        entry("AXIS P8815-2", "P8815-2", "11.11.220"),
    ]);
    assert_eq!(products(&index), ["P8815-2"]);
    assert_eq!(
        versions(&index, "P8815-2"),
        ["10.6.0", "11.11.192", "11.11.220"]
    );
}

#[test]
fn index_from_catalog_keeps_the_location_the_catalog_gave() {
    let index = index_from_catalog(vec![entry(
        "AXIS P8815-2 3D People Counter",
        "P8815-2_3D_People_Counter",
        "11.11.192",
    )]);
    let product = ShortName::new_normalized("P8815-2");
    let version = Version::try_coerced("11.11.192").unwrap();
    assert_eq!(
        index.get(&product, &version).unwrap().as_str(),
        "MPQT/P8815-2_3D_People_Counter/11_11_192/P8815-2_3D_People_Counter_11_11_192.bin"
    );
}

#[test]
fn index_from_catalog_gives_models_that_share_a_directory_an_entry_each() {
    let index = index_from_catalog(vec![
        entry("AXIS P1265", "P12_MkII", "12.9.57"),
        entry("AXIS P1275", "P12_MkII", "12.9.57"),
    ]);
    assert_eq!(products(&index), ["P1265", "P1275"]);
    // ...pointing at the one image they share, so it is fetched and kept once.
    let version = Version::try_coerced("12.9.57").unwrap();
    assert_eq!(
        index.get(&ShortName::new_normalized("P1265"), &version),
        index.get(&ShortName::new_normalized("P1275"), &version)
    );
    assert!(index.get(&ShortName::new_normalized("P1265"), &version).is_some());
}

#[test]
fn index_from_catalog_drops_a_revision_that_is_not_a_version() {
    let index = index_from_catalog(vec![
        entry("AXIS M1075-L", "M1075-L", "12.9.57"),
        entry("AXIS M1075-L", "M1075-L", "latest"),
    ]);
    assert_eq!(versions(&index, "M1075-L"), ["12.9.57"]);
}

#[test]
fn index_from_catalog_lets_the_last_of_two_colliding_revisions_win() {
    // The version type keeps three components, so these two revisions are one key.
    let index = index_from_catalog(vec![
        entry("AXIS C1004-E", "C1004-E", "10.0.2.1"),
        entry("AXIS C1004-E", "C1004-E", "10.0.2.2"),
    ]);
    assert_eq!(versions(&index, "C1004-E"), ["10.0.2"]);
    let product = ShortName::new_normalized("C1004-E");
    let version = Version::try_coerced("10.0.2").unwrap();
    assert!(index.get(&product, &version).unwrap().as_str().ends_with("10_0_2_2.bin"));
}

#[test]
fn index_from_catalog_drops_a_location_outside_the_software_root() {
    let index = index_from_catalog(vec![
        CatalogEntry {
            product: "AXIS M1075-L".to_string(),
            revision: "12.9.57".to_string(),
            fileurl: "/MPQT/../../etc/passwd".to_string(),
        },
        entry("AXIS M1075-L", "M1075-L", "12.9.58"),
    ]);
    assert_eq!(versions(&index, "M1075-L"), ["12.9.58"]);
}

#[test]
fn index_from_catalog_orders_products_and_versions() {
    let index = index_from_catalog(vec![
        entry("AXIS Q1", "Q1", "2.0.0"),
        entry("AXIS M1", "M1", "10.0.0"),
        entry("AXIS Q1", "Q1", "1.10.0"),
        entry("AXIS Q1", "Q1", "1.9.0"),
        entry("AXIS M10", "M10", "1.0.0"),
        entry("ExCam XF", "ExCam", "1.0.0"),
    ]);
    assert_eq!(products(&index), ["ExCam XF", "M1", "M10", "Q1"]);
    assert_eq!(versions(&index, "Q1"), ["1.9.0", "1.10.0", "2.0.0"]);
    assert!(index.versions(&ShortName::new_normalized("Q2")).is_none());
    assert_eq!(index_from_catalog(Vec::new()).products().len(), 0);
}

#[test]
fn an_index_insert_replaces_and_returns_what_was_there() {
    let mut index = Index::new();
    let p = ShortName::new_normalized("AXIS Q1");
    let v = Version::new(1, 2, 3);
    assert_eq!(index.insert(p.clone(), v, FileUrl::new("/a.bin").unwrap()), None);
    assert_eq!(
        index.insert(p.clone(), v, FileUrl::new("/b.bin").unwrap()),
        Some(FileUrl::new("a.bin").unwrap())
    );
    assert_eq!(index.get(&p, &v).unwrap().as_str(), "b.bin");
    assert_eq!(index.get(&p, &Version::new(1, 2, 4)), None);
}

#[test]
fn an_update_needs_to_be_online() {
    let command = UpdateCommand {};
    assert!(matches!(command.check_online(true), Err(UpdateError::Offline)));
    assert!(command.check_online(false).is_ok());
}

#[test]
fn an_update_builds_the_index_from_the_catalog_text() {
    let command = UpdateCommand {};
    let index = command
        .build_index(
            r#"<document><boxmodel name="AXIS C1004-E"><software fileurl="/MPQT/C1004-E/x_1.bin" revision="10.0.2.1"/><software fileurl="/MPQT/C1004-E/x_2.bin" revision="10.0.2.2"/></boxmodel></document>"#,
        )
        .unwrap();
    let product = ShortName::new_normalized("C1004-E");
    assert_eq!(
        index.get(&product, &Version::new(10, 0, 2)).unwrap().as_str(),
        "MPQT/C1004-E/x_2.bin"
    );
    assert!(matches!(
        command.build_index("<document><boxmodel></document>"),
        Err(UpdateError::Catalog(_))
    ));
}
