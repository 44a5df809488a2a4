//! Bundles in zip form.
use newtua_core::archive::{Confidence, FormatHandler, FormatId};
use newtua_core::format::bundle::{all_zip_bundles, zip_bundles, ZipBundleHandler};

fn h() -> ZipBundleHandler {
    ZipBundleHandler::new(".apk", FormatId::Apk)
}

#[test]
fn probe_pk_plus_matching_ext_is_magic() {
    assert_eq!(
        h().probe(b"PK\x03\x04xx", Some("game.apk")),
        Confidence::magic()
    );
}

#[test]
fn bundle_probe_is_case_insensitive() {
    assert_eq!(
        h().probe(b"PK\x03\x04xx", Some("GAME.APK")),
        Confidence::magic()
    );
}

#[test]
fn probe_pk_wrong_ext_is_none() {
    assert_eq!(
        h().probe(b"PK\x03\x04xx", Some("plain.zip")),
        Confidence::none()
    );
}

#[test]
fn probe_matching_ext_without_pk_is_none() {
    assert_eq!(h().probe(b"not-a-zip", Some("game.apk")), Confidence::none());
}

#[test]
fn bundle_probe_no_name_is_none() {
    assert_eq!(h().probe(b"PK\x03\x04xx", None), Confidence::none());
}

#[test]
fn table_covers_ten_bundle_formats() {
    assert_eq!(zip_bundles().len(), 10);
    for want in [
        FormatId::Jar,
        FormatId::Apk,
        FormatId::Ipa,
        FormatId::Epub,
        FormatId::Docx,
        FormatId::Xlsx,
        FormatId::Pptx,
        FormatId::Odt,
        FormatId::Ods,
        FormatId::Odp,
    ] {
        assert!(
            zip_bundles().iter().any(|b| b.1 == want),
            "table missing {want:?}"
        );
    }
}

#[test]
fn the_other_containers_follow_the_ten() {
    let all = all_zip_bundles();
    assert_eq!(all[..10], zip_bundles()[..]);
    assert_eq!(all[10..], [(".war", FormatId::War), (".appx", FormatId::Appx), (".xpi", FormatId::Xpi)]);
}
