use updater::response::finish_update;
use updater::service::{plan_update, ResolutionOutcome, UpdatePlan};

fn allowed() -> Vec<String> {
    vec!["known".to_string()]
}

#[test]
fn end_to_end_offer() {
    let listing = vec!["known_1.1.0.dmg.sig".to_string()];
    let plan = plan_update("known", "darwin", "x86_64", "1.0.0", &listing, &allowed());
    match plan {
        UpdatePlan::Fetch { file_name, version } => {
            assert_eq!(file_name, "known_1.1.0.dmg.sig");
            assert_eq!(version, "1.1.0");
            let d = finish_update(
                "known",
                "darwin",
                "x86_64",
                &file_name,
                &version,
                "sig-bytes".to_string(),
                Some((0, 0)),
            );
            assert_eq!(d.version, "1.1.0");
            assert!(d.url.ends_with("known_1.1.0.dmg"));
            assert_eq!(
                d.url,
                "https://cdn.fabianlars.de/releases/known/latest/darwin/x86_64/known_1.1.0.dmg"
            );
            let outcome = ResolutionOutcome::Available(d);
            assert_eq!(outcome.status_code(), 200);
        }
        _ => panic!("expected an offer"),
    }
}

#[test]
fn unknown_app_is_rejected_whatever_the_directory_holds() {
    let listing = vec!["unknown-app_9.9.9.dmg.sig".to_string()];
    let plan = plan_update(
        "unknown-app",
        "darwin",
        "x86_64",
        "1.0.0",
        &listing,
        &allowed(),
    );
    assert!(matches!(plan, UpdatePlan::NotSupported));
    assert_eq!(ResolutionOutcome::NotSupported.status_code(), 404);
}

#[test]
fn unsupported_platform_or_arch_is_rejected() {
    let listing = vec!["known_1.1.0.dmg.sig".to_string()];
    let plan = plan_update("known", "win64", "x86_64", "1.0.0", &listing, &allowed());
    assert!(matches!(plan, UpdatePlan::NotSupported));
    let plan = plan_update("known", "windows", "armv7", "1.0.0", &listing, &allowed());
    assert!(matches!(plan, UpdatePlan::NotSupported));
    let plan = plan_update("known", "windows", "aarch64", "1.0.0", &listing, &allowed());
    assert!(!matches!(plan, UpdatePlan::NotSupported));
}

#[test]
fn directory_of_malformed_names_means_no_update_not_an_error() {
    let listing = vec!["app".to_string(), "app.sig".to_string()];
    let plan = plan_update("known", "darwin", "x86_64", "1.0.0", &listing, &allowed());
    assert!(matches!(plan, UpdatePlan::NoUpdate));
    assert_eq!(ResolutionOutcome::NoUpdate.status_code(), 204);
}

#[test]
fn up_to_date_client_gets_no_update() {
    let listing = vec!["known_1.1.0.dmg.sig".to_string()];
    let plan = plan_update("known", "darwin", "x86_64", "1.1.0", &listing, &allowed());
    assert!(matches!(plan, UpdatePlan::NoUpdate));
}
