use antigravity_sdk_rust::version::{bump_manifest_version, BumpError};

const MANIFEST: &str = "[package]\nname = \"antigravity-sdk-rust\"\nversion = \"0.1.0\"\nedition = \"2021\"\n\n[dependencies]\nserde = \"1\"\n";

#[test]
fn patch_is_bumped_by_default() {
    let b = bump_manifest_version(MANIFEST, None).unwrap();
    assert_eq!(b.old_version, "0.1.0");
    assert_eq!(b.new_version, "0.1.1");
    assert_eq!(
        b.manifest,
        "[package]\nname = \"antigravity-sdk-rust\"\nversion = \"0.1.1\"\nedition = \"2021\"\n\n[dependencies]\nserde = \"1\"\n"
    );
}

#[test]
fn requested_version_is_trimmed_and_used() {
    let b = bump_manifest_version(MANIFEST, Some("  2.0.0-beta \n")).unwrap();
    assert_eq!(b.old_version, "0.1.0");
    assert_eq!(b.new_version, "2.0.0-beta");
    assert!(b.manifest.contains("version = \"2.0.0-beta\"\n"));
    // A blank request bumps the patch.
    let b = bump_manifest_version(MANIFEST, Some("   ")).unwrap();
    assert_eq!(b.new_version, "0.1.1");
}

#[test]
fn patch_carries_over_digits() {
    let b = bump_manifest_version("[package]\nversion = \"1.9.99\"", None).unwrap();
    assert_eq!(b.new_version, "1.9.100");
    // The last line gains its line end.
    assert_eq!(b.manifest, "[package]\nversion = \"1.9.100\"\n");
    let b = bump_manifest_version("[package]\nversion = \"1.2.+5\"\n", None).unwrap();
    assert_eq!(b.new_version, "1.2.6");
}

#[test]
fn spacing_and_quotes_of_the_line_are_kept() {
    let b = bump_manifest_version("  [package]  \n  version   =   \"3.4.5\"   # release\n", None).unwrap();
    assert_eq!(b.manifest, "  [package]  \n  version   =   \"3.4.6\"   # release\n");
}

#[test]
fn crlf_lines_come_back_with_line_feeds() {
    let b = bump_manifest_version("[package]\r\nversion = \"0.0.9\"\r\n", None).unwrap();
    assert_eq!(b.manifest, "[package]\nversion = \"0.0.10\"\n");
}

#[test]
fn only_the_package_section_counts() {
    assert_eq!(
        bump_manifest_version("[dependencies]\nversion = \"1.0.0\"\n", None).err(),
        Some(BumpError::VersionNotFound)
    );
    assert_eq!(
        bump_manifest_version("[package]\nname = \"a\"\n[lib]\nversion = \"1.0.0\"\n", None).err(),
        Some(BumpError::VersionNotFound)
    );
    // A version line without quotes is passed over.
    let b = bump_manifest_version("[package]\nversion_note = none\nversion = \"1.0.0\"\n", None).unwrap();
    assert_eq!(b.old_version, "1.0.0");
    assert_eq!(b.manifest, "[package]\nversion_note = none\nversion = \"1.0.1\"\n");
    // The section may open again later.
    let b = bump_manifest_version("[lib]\n[package]\nversion = \"0.3.1\"\n", Some("0.4.0")).unwrap();
    assert_eq!(b.new_version, "0.4.0");
}

#[test]
fn errors_name_the_version() {
    let e = bump_manifest_version("[package]\nversion = \"1.2\"\n", None).err().unwrap();
    assert_eq!(e, BumpError::NotSemver { version: "1.2".to_string() });
    assert_eq!(e.message(), "Current version '1.2' is not in standard X.Y.Z semver format.");
    let e = bump_manifest_version("[package]\nversion = \"1.2.x\"\n", None).err().unwrap();
    assert_eq!(e, BumpError::PatchNotInteger { patch: "x".to_string(), version: "1.2.x".to_string() });
    assert_eq!(e.message(), "Patch version part 'x' in '1.2.x' is not an integer.");
    let e = bump_manifest_version("[package]\nversion = \"1.2.4294967296\"\n", None).err().unwrap();
    assert!(matches!(e, BumpError::PatchNotInteger { .. }));
    let e = bump_manifest_version("[package]\nversion = \"1.2.4294967295\"\n", None).err().unwrap();
    assert!(matches!(e, BumpError::PatchOverflow { .. }));
    assert_eq!(
        BumpError::VersionNotFound.message(),
        "Could not find version in [package] section of Cargo.toml"
    );
    // A requested version needs no X.Y.Z current one.
    let b = bump_manifest_version("[package]\nversion = \"1.2\"\n", Some("1.3.0")).unwrap();
    assert_eq!(b.new_version, "1.3.0");
}
