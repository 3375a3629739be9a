use firmware_inventory::db::{software_root, FileUrl, FileUrlError, ShortName};

#[test]
fn new_normalized_drops_the_brand() {
    assert_eq!(
        ShortName::new_normalized("AXIS M1075-L").as_str(),
        "M1075-L"
    );
}

#[test]
fn new_normalized_leaves_a_model_that_carries_no_brand_alone() {
    assert_eq!(
        ShortName::new_normalized("ExCam XF P1377").as_str(),
        "ExCam XF P1377"
    );
}

#[test]
fn new_normalized_folds_the_3d_people_counter_onto_its_product_number() {
    assert_eq!(
        ShortName::new_normalized("AXIS P8815-2 3D People Counter").as_str(),
        "P8815-2"
    );
    assert_eq!(
        ShortName::new_normalized("AXIS P8815-2").as_str(),
        "P8815-2"
    );
}

#[test]
fn new_normalized_keeps_a_hardware_revision_apart_from_its_predecessor() {
    assert_eq!(
        ShortName::new_normalized("AXIS M1075-L Mk II").as_str(),
        "M1075-L Mk II"
    );
}

#[test]
fn new_normalized_strips_the_brand_once_and_only_in_front() {
    assert_eq!(ShortName::new_normalized("AXIS AXIS Q1").as_str(), "AXIS Q1");
    assert_eq!(ShortName::new_normalized("Q1 AXIS ").as_str(), "Q1 AXIS ");
    assert_eq!(ShortName::new_normalized("AXIS").as_str(), "AXIS");
    assert_eq!(ShortName::new_normalized("P8815-2 3D People Counter").as_str(), "P8815-2");
    assert_eq!(ShortName::new_normalized("").to_string(), "");
}

#[test]
fn a_fileurl_drops_the_leading_slash_the_catalog_writes() {
    let fileurl = FileUrl::new("/MPQT/M1075-L/12_9_57/M1075-L_12_9_57.bin").unwrap();
    assert_eq!(fileurl.as_str(), "MPQT/M1075-L/12_9_57/M1075-L_12_9_57.bin");
}

#[test]
fn a_fileurl_resolves_against_the_software_root() {
    let fileurl = FileUrl::new("/MPQT/M1075-L/12_9_57/M1075-L_12_9_57.bin").unwrap();
    assert_eq!(
        fileurl.url().unwrap().as_str(),
        "https://www.axis.com/ftp/pub/axis/software/MPQT/M1075-L/12_9_57/M1075-L_12_9_57.bin"
    );
}

#[test]
fn a_fileurl_refuses_to_name_a_file_outside_the_directory_it_is_joined_to() {
    for escape in [
        "/MPQT/../../../etc/passwd",
        "/MPQT/./M1075-L/12_9_57/x.bin",
        "/MPQT//12_9_57/x.bin",
        "/",
        "",
        "C:/windows/system32/x.bin",
        "MPQT/a\\..\\..\\b.bin",
    ] {
        assert!(
            FileUrl::new(escape).is_err(),
            "{escape:?} was accepted as a fileurl"
        );
    }
}

#[test]
fn a_fileurl_names_the_first_component_it_refuses() {
    assert_eq!(
        FileUrl::new("/MPQT/../../../etc/passwd"),
        Err(FileUrlError::DotComponent("..".to_string()))
    );
    assert_eq!(
        FileUrl::new("/MPQT/./M1075-L/x.bin"),
        Err(FileUrlError::DotComponent(".".to_string()))
    );
    assert_eq!(FileUrl::new("/MPQT//x.bin"), Err(FileUrlError::EmptyComponent));
    assert_eq!(FileUrl::new("MPQT/x.bin/"), Err(FileUrlError::EmptyComponent));
    assert_eq!(FileUrl::new("///"), Err(FileUrlError::EmptyComponent));
    assert_eq!(
        FileUrl::new("C:/windows/x.bin"),
        Err(FileUrlError::NotAFileName("C:".to_string()))
    );
    assert_eq!(
        FileUrl::new("MPQT/a\\..\\..\\b.bin"),
        Err(FileUrlError::NotAFileName("a\\..\\..\\b.bin".to_string()))
    );
    assert_eq!(
        FileUrl::new("/a/../C:"),
        Err(FileUrlError::DotComponent("..".to_string()))
    );
}

#[test]
fn a_fileurl_accepts_dots_inside_names() {
    let fileurl = FileUrl::new("//a/.b/c../...").unwrap();
    assert_eq!(fileurl.as_str(), "a/.b/c../...");
    assert_eq!(fileurl.to_string(), "a/.b/c../...");
}

#[test]
fn a_fileurl_reads_back_as_itself() {
    let fileurl = FileUrl::new("/MPQT/M1075-L/12_9_57/M1075-L_12_9_57.bin").unwrap();
    assert_eq!(FileUrl::new(fileurl.as_str()).unwrap(), fileurl);
    assert_eq!(fileurl.clone(), fileurl);
}

#[test]
fn a_fileurl_splits_into_the_components_it_is_joined_by() {
    let fileurl = FileUrl::new("/MPQT/M1075-L/12_9_57/M1075-L_12_9_57.bin").unwrap();
    assert_eq!(
        fileurl.components(),
        ["MPQT", "M1075-L", "12_9_57", "M1075-L_12_9_57.bin"]
    );
    assert_eq!(FileUrl::new("x.bin").unwrap().components(), ["x.bin"]);
}

#[test]
fn the_software_root_is_a_url() {
    assert_eq!(
        software_root().unwrap().as_str(),
        "https://www.axis.com/ftp/pub/axis/software/"
    );
}
