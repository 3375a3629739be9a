use firmware_inventory::catalog::{
    catalog_from_items, parse_catalog, CatalogEntry, CatalogError, CatalogItem, CatalogScan,
};

#[test]
fn parse_catalog_attributes_software_to_the_model_it_is_nested_in() {
    let entries = parse_catalog(
        r#"
<document>
    <boxtype name="CameraServer">
        <boxmodel name="AXIS P8815-2">
            <software fileurl="/MPQT/P8815-2/10_6_0/P8815-2_10_6_0.bin" revision="10.6.0"/>
        </boxmodel>
        <boxmodel name="AXIS P8815-2 3D People Counter">
            <software fileurl="/MPQT/P8815-2_3D_People_Counter/11_11_192/P8815-2_3D_People_Counter_11_11_192.bin" revision="11.11.192"/>
        </boxmodel>
    </boxtype>
</document>
"#,
    )
    .unwrap();
    assert_eq!(
        entries,
        [
            CatalogEntry {
                product: "AXIS P8815-2".to_string(),
                revision: "10.6.0".to_string(),
                fileurl: "/MPQT/P8815-2/10_6_0/P8815-2_10_6_0.bin".to_string(),
            },
            CatalogEntry {
                product: "AXIS P8815-2 3D People Counter".to_string(),
                revision: "11.11.192".to_string(),
                fileurl: "/MPQT/P8815-2_3D_People_Counter/11_11_192/P8815-2_3D_People_Counter_11_11_192.bin".to_string(),
            },
        ]
    );
}

#[test]
fn parse_catalog_keeps_models_that_share_a_directory_apart() {
    // The whole P12 Mk II line publishes out of one directory, so the file url cannot say which
    // product a fimage is for, but the model it is nested in can.
    let entries = parse_catalog(
        r#"
<document>
    <boxtype name="CameraServer">
        <boxmodel name="AXIS P1265">
            <software fileurl="/MPQT/P12_MkII/12_9_57/P12_MkII_12_9_57.bin" revision="12.9.57"/>
        </boxmodel>
        <boxmodel name="AXIS P1275">
            <software fileurl="/MPQT/P12_MkII/12_9_57/P12_MkII_12_9_57.bin" revision="12.9.57"/>
        </boxmodel>
    </boxtype>
</document>
"#,
    )
    .unwrap();
    let products: Vec<_> = entries.iter().map(|e| e.product.as_str()).collect();
    assert_eq!(products, ["AXIS P1265", "AXIS P1275"]);
}

#[test]
fn parse_catalog_skips_software_it_cannot_place() {
    let entries = parse_catalog(
        r#"
<document>
    <boxtype name="CameraServer">
        <boxmodel name="AXIS M1075-L">
            <software fileurl="/MPQT/M1075-L/12_9_57/M1075-L_12_9_57.bin"/>
            <software revision="12.9.57"/>
        </boxmodel>
    </boxtype>
    <software fileurl="/MPQT/M1075-L/12_9_57/M1075-L_12_9_57.bin" revision="12.9.57"/>
</document>
"#,
    )
    .unwrap();
    assert_eq!(entries, []);
}

#[test]
fn parse_catalog_forgets_the_model_once_it_closes() {
    let entries = parse_catalog(
        r#"<document><boxmodel name="AXIS A"><software fileurl="/a.bin" revision="1.0.0"/></boxmodel><software fileurl="/b.bin" revision="2.0.0"/><boxmodel><software fileurl="/c.bin" revision="3.0.0"/></boxmodel></document>"#,
    )
    .unwrap();
    assert_eq!(
        entries,
        [CatalogEntry {
            product: "AXIS A".to_string(),
            revision: "1.0.0".to_string(),
            fileurl: "/a.bin".to_string(),
        }]
    );
}

#[test]
fn parse_catalog_decodes_escaped_attribute_values() {
    let entries = parse_catalog(
        r#"<boxmodel name="AXIS Q &amp; R"><software fileurl="/q&amp;r.bin" revision="1.0.0"></software></boxmodel>"#,
    )
    .unwrap();
    assert_eq!(entries.len(), 1);
    assert_eq!(entries[0].product, "AXIS Q & R");
    assert_eq!(entries[0].fileurl, "/q&r.bin");
}

#[test]
fn parse_catalog_refuses_malformed_xml() {
    assert!(matches!(
        parse_catalog("<document><boxmodel name=\"AXIS A\"></document>"),
        Err(CatalogError::Xml(_))
    ));
}

#[test]
fn parse_catalog_refuses_an_attribute_it_reads_that_has_no_value() {
    match parse_catalog("<document><software fileurl revision=\"1.0.0\"/></document>") {
        Err(CatalogError::Attribute(key, _)) => assert_eq!(key, "fileurl"),
        other => panic!("unexpected {other:?}"),
    }
}

#[test]
fn catalog_from_items_attributes_software_to_the_open_model() {
    let items = vec![
        CatalogItem::Software(Some("/x.bin".to_string()), Some("1.0.0".to_string())),
        CatalogItem::ModelStart(Some("AXIS M".to_string())),
        CatalogItem::Other,
        CatalogItem::Software(Some("/m.bin".to_string()), Some("2.0.0".to_string())),
        CatalogItem::Software(Some("/n.bin".to_string()), None),
        CatalogItem::ModelEnd,
        CatalogItem::Software(Some("/y.bin".to_string()), Some("3.0.0".to_string())),
        CatalogItem::ModelStart(None),
        CatalogItem::Software(Some("/z.bin".to_string()), Some("4.0.0".to_string())),
    ];
    assert_eq!(
        catalog_from_items(&items),
        [CatalogEntry {
            product: "AXIS M".to_string(),
            revision: "2.0.0".to_string(),
            fileurl: "/m.bin".to_string(),
        }]
    );
}

#[test]
fn catalog_scan_feeds_one_item_at_a_time() {
    let mut scan = CatalogScan::new();
    scan.feed(&CatalogItem::ModelStart(Some("AXIS P1265".to_string())));
    scan.feed(&CatalogItem::Software(Some("/p.bin".to_string()), Some("12.9.57".to_string())));
    scan.feed(&CatalogItem::ModelStart(Some("AXIS P1275".to_string())));
    scan.feed(&CatalogItem::Software(Some("/p.bin".to_string()), Some("12.9.57".to_string())));
    let products: Vec<_> = scan.into_entries().into_iter().map(|e| e.product).collect();
    assert_eq!(products, ["AXIS P1265", "AXIS P1275"]);
}
