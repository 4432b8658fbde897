use apk_compare::ignore::IgnoreSet;

#[test]
fn standard_policy_holds_the_eight_paths() {
    let ignore = IgnoreSet::standard();
    for path in [
        "META-INF/UPLOAD.RSA",
        "META-INF/UPLOAD.SF",
        "assets/Database/db",
        "META-INF/MANIFEST.MF",
        "META-INF/GOOGPLAY.RSA",
        "META-INF/GOOGPLAY.SF",
        "stamp-cert-sha256",
        "assets/dexopt/baseline.profm",
    ] {
        assert!(ignore.is_ignored(path), "{path}");
    }
}

#[test]
fn membership_is_exact_and_case_sensitive() {
    let ignore = IgnoreSet::standard();
    assert!(!ignore.is_ignored("meta-inf/upload.rsa"));
    assert!(!ignore.is_ignored("META-INF/UPLOAD.RSA "));
    assert!(!ignore.is_ignored("META-INF/"));
    assert!(!ignore.is_ignored("classes.dex"));
    assert!(!ignore.is_ignored(""));
}

#[test]
fn empty_policy_ignores_nothing() {
    let ignore = IgnoreSet::new();
    assert!(!ignore.is_ignored("META-INF/UPLOAD.RSA"));
}

#[test]
fn inserted_path_is_ignored() {
    let mut ignore = IgnoreSet::new();
    ignore.insert("res/raw/build_id");
    assert!(ignore.is_ignored("res/raw/build_id"));
    assert!(!ignore.is_ignored("res/raw/build_id2"));
}
