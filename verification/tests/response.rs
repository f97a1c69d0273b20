use updater::response::{artifact_name, build_url, finish_update};

#[test]
fn url_final_segment_is_artifact_name() {
    let url = build_url("app", "darwin", "x86_64", "app_1.2.0.dmg");
    assert_eq!(
        url,
        "https://cdn.fabianlars.de/releases/app/latest/darwin/x86_64/app_1.2.0.dmg"
    );
    assert_eq!(url.rsplit('/').next().unwrap(), "app_1.2.0.dmg");
}

#[test]
fn artifact_name_strips_signature_suffix() {
    assert_eq!(artifact_name("app_1.2.0.dmg.sig"), "app_1.2.0.dmg");
    assert_eq!(artifact_name("a.sig"), "a");
}

#[test]
fn descriptor_carries_fields_verbatim() {
    let d = finish_update(
        "app",
        "linux",
        "aarch64",
        "app_1.2.0.dmg.sig",
        "1.2.0",
        "untrusted comment: signature".to_string(),
        None,
    );
    assert_eq!(
        d.url,
        "https://cdn.fabianlars.de/releases/app/latest/linux/aarch64/app_1.2.0.dmg"
    );
    assert_eq!(d.version, "1.2.0");
    assert_eq!(d.signature, "untrusted comment: signature");
    assert_eq!(
        d.notes,
        "No patch notes provided. You might want to check the project page on GitHub."
    );
    assert_eq!(d.pub_date, "");
}

#[test]
fn timestamp_renders_as_rfc3339() {
    let d = finish_update(
        "app",
        "darwin",
        "x86_64",
        "app_1.0.0.dmg.sig",
        "1.0.0",
        String::new(),
        Some((0, 0)),
    );
    assert_eq!(d.pub_date, "1970-01-01T00:00:00+00:00");

    let d = finish_update(
        "app",
        "darwin",
        "x86_64",
        "app_1.0.0.dmg.sig",
        "1.0.0",
        String::new(),
        Some((1431648000, 0)),
    );
    assert_eq!(d.pub_date, "2015-05-15T00:00:00+00:00");
}

#[test]
fn out_of_range_timestamp_degrades_to_empty_date() {
    let d = finish_update(
        "app",
        "darwin",
        "x86_64",
        "app_1.0.0.dmg.sig",
        "1.0.0",
        String::new(),
        Some((i64::MAX, 0)),
    );
    assert_eq!(d.pub_date, "");
}
