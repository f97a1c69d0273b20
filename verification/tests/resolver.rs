use updater::resolver::resolve;
use updater::scanner::Candidate;

fn candidate(name: &str, version: &str) -> Candidate {
    Candidate {
        file_name: name.to_string(),
        version: version.to_string(),
    }
}

#[test]
fn resolves_to_maximal_newer_version() {
    let cands = vec![
        candidate("app_1.0.0.dmg.sig", "1.0.0"),
        candidate("app_1.2.0.dmg.sig", "1.2.0"),
        candidate("app_1.1.5.dmg.sig", "1.1.5"),
    ];
    let i = resolve(&cands, "1.0.5").unwrap();
    assert_eq!(cands[i].version, "1.2.0");
}

#[test]
fn no_update_when_nothing_is_newer() {
    let cands = vec![
        candidate("app_1.0.0.dmg.sig", "1.0.0"),
        candidate("app_1.2.0.dmg.sig", "1.2.0"),
        candidate("app_1.1.5.dmg.sig", "1.1.5"),
    ];
    assert!(resolve(&cands, "1.2.0").is_none());
    assert!(resolve(&cands, "2.0").is_none());
    assert!(resolve(&cands, "1.2").is_none());
}

#[test]
fn no_update_from_empty_candidate_set() {
    let cands: Vec<Candidate> = Vec::new();
    assert!(resolve(&cands, "1.0.0").is_none());
}

#[test]
fn malformed_current_version_never_updates() {
    let cands = vec![candidate("app_9.9.9.dmg.sig", "9.9.9")];
    assert!(resolve(&cands, "not-a-version").is_none());
}

#[test]
fn version_tie_breaks_by_file_name() {
    let cands = vec![
        candidate("b_1.2.0.dmg.sig", "1.2.0"),
        candidate("a_1.2.0.dmg.sig", "1.2.0"),
    ];
    let i = resolve(&cands, "1.0.0").unwrap();
    assert_eq!(cands[i].file_name, "a_1.2.0.dmg.sig");
}

#[test]
fn tie_break_covers_equal_versions_spelled_differently() {
    let cands = vec![
        candidate("b_1.2.dmg.sig", "1.2"),
        candidate("a_1.2.0.dmg.sig", "1.2.0"),
    ];
    let i = resolve(&cands, "1.1").unwrap();
    assert_eq!(cands[i].file_name, "a_1.2.0.dmg.sig");
}
