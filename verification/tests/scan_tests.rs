use app_scan::entry::DirChild;
use app_scan::scan::{accept_child, scan_listings, ScanVariant};

fn child(path: &str, is_dir: bool) -> DirChild {
    DirChild { path: path.to_string(), is_dir }
}

#[test]
fn bundle_scenario_sorted() {
    let listings = vec![vec![
        child("/Applications/Notes.app", true),
        child("/Applications/Calculator.app", true),
    ]];
    let r = scan_listings(&ScanVariant::BundleDirectory, &listings);
    assert_eq!(r.len(), 2);
    assert_eq!(r[0].name, "Calculator");
    assert_eq!(r[0].path, "/Applications/Calculator.app");
    assert_eq!(r[1].name, "Notes");
    assert_eq!(r[1].path, "/Applications/Notes.app");
}

#[test]
fn sorted_case_insensitively() {
    let listings = vec![vec![
        child("/Applications/banana.app", true),
        child("/Applications/cherry.app", true),
        child("/Applications/Apple.app", true),
    ]];
    let r = scan_listings(&ScanVariant::BundleDirectory, &listings);
    assert_eq!(r.len(), 3);
    assert_eq!(r[0].name, "Apple");
    assert_eq!(r[1].name, "banana");
    assert_eq!(r[2].name, "cherry");
}

#[test]
fn equal_names_keep_root_order() {
    let listings = vec![
        vec![child("/Applications/Notes.app", true)],
        vec![child("/System/Applications/Notes.app", true)],
    ];
    let r = scan_listings(&ScanVariant::BundleDirectory, &listings);
    assert_eq!(r.len(), 2);
    assert_eq!(r[0].path, "/Applications/Notes.app");
    assert_eq!(r[1].path, "/System/Applications/Notes.app");
}

#[test]
fn nested_bundle_is_not_reached() {
    // Only direct children of a root are handed to the scan: a bundle two
    // levels down is represented by its plain parent directory, which the
    // bundle predicate rejects.
    let listings = vec![vec![
        child("/Applications/Extras", true),
        child("/Applications/notes.txt", false),
    ]];
    let r = scan_listings(&ScanVariant::BundleDirectory, &listings);
    assert_eq!(r.len(), 0);
}

#[test]
fn plain_file_with_bundle_suffix_rejected() {
    let listings = vec![vec![child("/Applications/Fake.app", false)]];
    let r = scan_listings(&ScanVariant::BundleDirectory, &listings);
    assert_eq!(r.len(), 0);
}

#[test]
fn missing_root_reads_as_empty_listing() {
    let listings = vec![
        Vec::new(),
        vec![child("/System/Applications/Calculator.app", true)],
    ];
    let r = scan_listings(&ScanVariant::BundleDirectory, &listings);
    assert_eq!(r.len(), 1);
    assert_eq!(r[0].name, "Calculator");
}

#[test]
fn scan_is_deterministic() {
    let listings = vec![vec![
        child("/Applications/Notes.app", true),
        child("/Applications/Calculator.app", true),
        child("/Applications/skipped", true),
    ]];
    let a = scan_listings(&ScanVariant::BundleDirectory, &listings);
    let b = scan_listings(&ScanVariant::BundleDirectory, &listings);
    assert_eq!(a, b);
}

#[test]
fn empty_scan_is_empty() {
    let listings: Vec<Vec<DirChild>> = Vec::new();
    let r = scan_listings(&ScanVariant::BundleDirectory, &listings);
    assert_eq!(r.len(), 0);
}

#[test]
fn accept_shortcut_file() {
    let r = accept_child(
        &ScanVariant::ShortcutFile,
        &child("C:\\Programs\\Word.lnk", false),
    );
    let e = r.unwrap();
    assert_eq!(e.name, "Word");
    assert_eq!(e.path, "C:\\Programs\\Word.lnk");
}

#[test]
fn accept_rejects_shortcut_directory() {
    let r = accept_child(
        &ScanVariant::ShortcutFile,
        &child("C:\\Programs\\Word.lnk", true),
    );
    assert!(r.is_none());
}

#[test]
fn accept_rejects_wrong_suffix() {
    let r = accept_child(
        &ScanVariant::ShortcutFile,
        &child("C:\\Programs\\Word.exe", false),
    );
    assert!(r.is_none());
}

#[test]
fn stem_keeps_inner_dots() {
    let r = accept_child(
        &ScanVariant::ShortcutFile,
        &child("C:\\Programs\\archive.tar.lnk", false),
    );
    let e = r.unwrap();
    assert_eq!(e.name, "archive.tar");
}

#[test]
fn leading_dot_is_no_extension() {
    // A name whose only dot leads it is a hidden file, not a file with an
    // extension; it can never match the suffix.
    let r = accept_child(&ScanVariant::ShortcutFile, &child("C:\\Programs\\.lnk", false));
    assert!(r.is_none());
}

#[test]
fn trailing_dot_is_empty_extension() {
    let r = accept_child(&ScanVariant::ShortcutFile, &child("C:\\Programs\\note.", false));
    assert!(r.is_none());
}

#[test]
fn name_with_spaces_kept() {
    let listings = vec![vec![child("/Applications/Visual Studio Code.app", true)]];
    let r = scan_listings(&ScanVariant::BundleDirectory, &listings);
    assert_eq!(r.len(), 1);
    assert_eq!(r[0].name, "Visual Studio Code");
}

#[test]
fn uppercase_sorts_with_its_lowercase() {
    // "Banana" must sort after "almond": by raw code points the capital
    // letter would come first, so this fails unless names are lowercased
    // before comparison.
    let listings = vec![vec![
        child("/Applications/Banana.app", true),
        child("/Applications/almond.app", true),
    ]];
    let r = scan_listings(&ScanVariant::BundleDirectory, &listings);
    assert_eq!(r.len(), 2);
    assert_eq!(r[0].name, "almond");
    assert_eq!(r[1].name, "Banana");
}

#[test]
fn non_ascii_names_sort_by_unicode_lowercase() {
    // Cyrillic: the capital letter's code point precedes the whole
    // lowercase block, so raw code points would order it first; its
    // lowercase form orders it last.
    let listings = vec![vec![
        child("/Applications/Яблоко.app", true),
        child("/Applications/арбуз.app", true),
    ]];
    let r = scan_listings(&ScanVariant::BundleDirectory, &listings);
    assert_eq!(r.len(), 2);
    assert_eq!(r[0].name, "арбуз");
    assert_eq!(r[1].name, "Яблоко");
}

#[test]
fn unicode_case_ties_keep_discovery_order() {
    // Two names equal under Unicode lowercasing but different in their
    // raw code points stay in discovery order.
    let listings = vec![vec![
        child("/Applications/ΩMeter.app", true),
        child("/Applications/ωmeter.app", true),
    ]];
    let r = scan_listings(&ScanVariant::BundleDirectory, &listings);
    assert_eq!(r.len(), 2);
    assert_eq!(r[0].name, "ΩMeter");
    assert_eq!(r[1].name, "ωmeter");
}
