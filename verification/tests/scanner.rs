use updater::scanner::{parse_candidate, release_dir_path, scan_candidates};

#[test]
fn release_directory_follows_the_convention() {
    assert_eq!(
        release_dir_path("/data/cdn", "known", "darwin", "x86_64"),
        "/data/cdn/releases/known/latest/darwin/x86_64/"
    );
}

#[test]
fn signature_file_yields_candidate() {
    let c = parse_candidate("known_1.1.0.dmg.sig").unwrap();
    assert_eq!(c.file_name, "known_1.1.0.dmg.sig");
    assert_eq!(c.version, "1.1.0");
}

#[test]
fn version_stops_at_first_non_numeric_segment() {
    let c = parse_candidate("app_1.2.0.dmg.sig").unwrap();
    assert_eq!(c.version, "1.2.0");
    let c = parse_candidate("tool_2.0_x86.dmg.sig").unwrap();
    assert_eq!(c.version, "2.0");
}

#[test]
fn name_without_underscore_is_skipped() {
    assert!(parse_candidate("app").is_none());
    assert!(parse_candidate("app.sig").is_none());
}

#[test]
fn name_without_sig_suffix_is_skipped() {
    assert!(parse_candidate("app_1.2.0.dmg").is_none());
    assert!(parse_candidate("app_1.2.0").is_none());
    assert!(parse_candidate(".sig").is_none());
}

#[test]
fn name_without_numeric_version_is_skipped() {
    assert!(parse_candidate("app_beta.dmg.sig").is_none());
    assert!(parse_candidate("app_.dmg.sig").is_none());
}

#[test]
fn scan_keeps_only_well_formed_entries() {
    let listing = vec![
        "app".to_string(),
        "app_1.0.0.dmg.sig".to_string(),
        "app_1.0.0.dmg".to_string(),
        "readme.txt".to_string(),
        "app_2.1.dmg.sig".to_string(),
    ];
    let found = scan_candidates(&listing);
    assert_eq!(found.len(), 2);
    assert_eq!(found[0].file_name, "app_1.0.0.dmg.sig");
    assert_eq!(found[0].version, "1.0.0");
    assert_eq!(found[1].file_name, "app_2.1.dmg.sig");
    assert_eq!(found[1].version, "2.1");
}
