use apk_compare::archive::Archive;
use apk_compare::contents::canonical_manifest;
use apk_compare::contents::compare_apks;
use apk_compare::contents::compare_entry;
use apk_compare::contents::compare_entry_contents;
use apk_compare::contents::compare_entry_pair;
use apk_compare::contents::CompareError;
use apk_compare::contents::Side;
use apk_compare::ignore::IgnoreSet;
use apk_compare::names::compare_entry_names;
use apk_compare::report::Diff;
use apk_compare::report::Report;

const ANDROID: &str = "http://schemas.android.com/apk/res/android";
const NONE: u32 = 0xffff_ffff;

fn le16(v: u16) -> Vec<u8> {
    v.to_le_bytes().to_vec()
}

fn le32(v: u32) -> Vec<u8> {
    v.to_le_bytes().to_vec()
}

fn string_pool(strings: &[&str], utf8: bool) -> Vec<u8> {
    let mut offsets = Vec::new();
    let mut data = Vec::new();
    for s in strings {
        offsets.extend(le32(data.len() as u32));
        if utf8 {
            data.push(s.chars().count() as u8);
            data.push(s.len() as u8);
            data.extend(s.as_bytes());
            data.push(0);
        } else {
            let units: Vec<u16> = s.encode_utf16().collect();
            data.extend(le16(units.len() as u16));
            for unit in units {
                data.extend(le16(unit));
            }
            data.extend(le16(0));
        }
    }
    while data.len() % 4 != 0 {
        data.push(0);
    }
    let start = 28 + offsets.len() as u32;
    let mut chunk = Vec::new();
    chunk.extend(le16(0x0001));
    chunk.extend(le16(28));
    chunk.extend(le32(start + data.len() as u32));
    chunk.extend(le32(strings.len() as u32));
    chunk.extend(le32(0));
    chunk.extend(le32(if utf8 { 0x100 } else { 0 }));
    chunk.extend(le32(start));
    chunk.extend(le32(0));
    chunk.extend(offsets);
    chunk.extend(data);
    chunk
}

fn resource_map(ids: &[u32]) -> Vec<u8> {
    let mut chunk = Vec::new();
    chunk.extend(le16(0x0180));
    chunk.extend(le16(8));
    chunk.extend(le32(8 + 4 * ids.len() as u32));
    for id in ids {
        chunk.extend(le32(*id));
    }
    chunk
}

fn node(kind: u16, body: Vec<u8>) -> Vec<u8> {
    let mut chunk = Vec::new();
    chunk.extend(le16(kind));
    chunk.extend(le16(16));
    chunk.extend(le32(16 + body.len() as u32));
    chunk.extend(le32(1));
    chunk.extend(le32(NONE));
    chunk.extend(body);
    chunk
}

fn start_namespace(prefix: u32, uri: u32) -> Vec<u8> {
    node(0x0100, [le32(prefix), le32(uri)].concat())
}

fn end_namespace(prefix: u32, uri: u32) -> Vec<u8> {
    node(0x0101, [le32(prefix), le32(uri)].concat())
}

fn start_element(name: u32, attributes: &[(u32, u32, u8, u32)]) -> Vec<u8> {
    let mut body = Vec::new();
    body.extend(le32(NONE));
    body.extend(le32(name));
    body.extend(le16(20));
    body.extend(le16(20));
    body.extend(le16(attributes.len() as u16));
    body.extend(le16(0));
    body.extend(le16(0));
    body.extend(le16(0));
    for (ns, name, kind, data) in attributes {
        body.extend(le32(*ns));
        body.extend(le32(*name));
        body.extend(le32(if *kind == 3 { *data } else { NONE }));
        body.extend(le16(8));
        body.push(0);
        body.push(*kind);
        body.extend(le32(*data));
    }
    node(0x0102, body)
}

fn end_element(name: u32) -> Vec<u8> {
    node(0x0103, [le32(NONE), le32(name)].concat())
}

fn cdata(text: u32) -> Vec<u8> {
    node(0x0104, [le32(text), le16(8), vec![0, 0], le32(0)].concat())
}

fn document(pool: Vec<u8>, map: Vec<u8>, nodes: Vec<Vec<u8>>) -> Vec<u8> {
    let nodes = nodes.concat();
    let mut bytes = Vec::new();
    bytes.extend(le16(0x0003));
    bytes.extend(le16(8));
    bytes.extend(le32((8 + pool.len() + map.len() + nodes.len()) as u32));
    bytes.extend(pool);
    bytes.extend(map);
    bytes.extend(nodes);
    bytes
}

/// `<manifest android:versionCode=42 package="io.example"><application>hello</application></manifest>`
fn sample(utf8: bool) -> Vec<u8> {
    let pool = string_pool(
        &["versionCode", "android", ANDROID, "manifest", "package", "io.example", "application", "hello"],
        utf8,
    );
    document(
        pool,
        resource_map(&[0x0101_021b]),
        vec![
            start_namespace(1, 2),
            start_element(3, &[(2, 0, 0x10, 42), (NONE, 4, 3, 5)]),
            start_element(6, &[]),
            cdata(7),
            end_element(6),
            end_element(3),
            end_namespace(1, 2),
        ],
    )
}


/// The sample document with the string pool in another order, the attributes
/// of the root in the other physical order and the strings in UTF-16.
fn sample_rearranged() -> Vec<u8> {
    let pool = string_pool(
        &["versionCode", "hello", "application", "io.example", "package", "manifest", ANDROID, "android"],
        false,
    );
    document(
        pool,
        resource_map(&[0x0101_021b]),
        vec![
            start_namespace(7, 6),
            start_element(5, &[(NONE, 4, 3, 3), (6, 0, 0x10, 42)]),
            start_element(2, &[]),
            cdata(1),
            end_element(2),
            end_element(5),
            end_namespace(7, 6),
        ],
    )
}

/// The sample document with its two attributes and another version code.
fn sample_of_version(version: u32) -> Vec<u8> {
    let pool = string_pool(
        &["versionCode", "android", ANDROID, "manifest", "package", "io.example", "application", "hello"],
        true,
    );
    document(
        pool,
        resource_map(&[0x0101_021b]),
        vec![
            start_namespace(1, 2),
            start_element(3, &[(2, 0, 0x10, version), (NONE, 4, 3, 5)]),
            start_element(6, &[]),
            cdata(7),
            end_element(6),
            end_element(3),
            end_namespace(1, 2),
        ],
    )
}

fn package(manifest: Vec<u8>) -> Archive {
    let mut archive = Archive::new();
    archive.insert("AndroidManifest.xml", manifest);
    archive.insert("classes.dex", vec![0x64, 0x65, 0x78, 0x0a, 0x30, 0x33, 0x35, 0x00]);
    archive.insert("res/a.png", vec![0x89, 0x50, 0x4e, 0x47]);
    archive
}

fn diffs(report: &Report) -> Vec<&Diff> {
    (0..report.len()).map(|i| report.get(i)).collect()
}

#[test]
fn an_archive_compared_with_itself_passes() {
    let ignore = IgnoreSet::standard();
    let archive = package(sample(true));
    assert!(compare_entry_names(&archive, &archive, &ignore));
    let contents = compare_entry_contents(&archive, &archive, &ignore).unwrap();
    assert!(contents.passed());
    let report = compare_apks(&archive, &archive, &ignore).unwrap();
    assert!(report.passed());
    assert_eq!(report.len(), 0);
    assert_eq!(report.verdict(), "APKs match!");
    assert_eq!(report.transcript(), vec!["APKs match!".to_string()]);
}

#[test]
fn an_archive_without_entries_compared_with_itself_passes() {
    let report = compare_apks(&Archive::new(), &Archive::new(), &IgnoreSet::standard()).unwrap();
    assert!(report.passed());
}

#[test]
fn an_archive_with_a_malformed_manifest_fails_on_itself() {
    let archive = package(b"no binary xml".to_vec());
    let error = compare_apks(&archive, &archive, &IgnoreSet::standard()).unwrap_err();
    match &error {
        CompareError::MalformedBinaryXml { name, side } => {
            assert_eq!(name, "AndroidManifest.xml");
            assert_eq!(*side, Side::First);
        }
    }
    assert_eq!(error.message(), "Entry AndroidManifest.xml of the first APK is malformed binary XML");
}

#[test]
fn an_ignored_entry_on_one_side_only_does_not_count() {
    let ignore = IgnoreSet::standard();
    let first = package(sample(true));
    let mut second = package(sample(true));
    second.insert("META-INF/GOOGPLAY.RSA", vec![1, 2, 3]);
    let report = compare_apks(&first, &second, &ignore).unwrap();
    assert!(report.passed());
    assert_eq!(report.len(), 0);
    let report = compare_apks(&second, &first, &ignore).unwrap();
    assert!(report.passed());
    assert_eq!(report.len(), 0);
}

#[test]
fn one_changed_byte_is_one_content_mismatch() {
    let ignore = IgnoreSet::standard();
    let first = package(sample(true));
    let mut second = package(sample(true));
    second.insert("classes.dex", vec![0x64, 0x65, 0x78, 0x0a, 0x30, 0x33, 0x36, 0x00]);
    assert!(compare_entry_names(&first, &second, &ignore));
    let report = compare_apks(&first, &second, &ignore).unwrap();
    assert!(!report.passed());
    assert_eq!(diffs(&report), vec![&Diff::ContentMismatch("classes.dex".to_string())]);
    assert_eq!(
        report.transcript(),
        vec!["APKs differ on file classes.dex!".to_string(), "APKs don't match!".to_string()]
    );
}

#[test]
fn a_manifest_encoded_differently_is_no_mismatch() {
    let ignore = IgnoreSet::standard();
    let first = package(sample(true));
    let second = package(sample_rearranged());
    assert_ne!(first.get("AndroidManifest.xml"), second.get("AndroidManifest.xml"));
    let outcome = compare_entry("AndroidManifest.xml", &sample(true), &second).unwrap();
    assert_eq!(outcome, None);
    let report = compare_apks(&first, &second, &ignore).unwrap();
    assert!(report.passed());
    assert_eq!(report.len(), 0);
}

#[test]
fn an_entry_missing_from_the_second_archive_is_reported() {
    let ignore = IgnoreSet::standard();
    let first = package(sample(true));
    let mut second = Archive::new();
    second.insert("AndroidManifest.xml", sample(true));
    second.insert("classes.dex", vec![0x64, 0x65, 0x78, 0x0a, 0x30, 0x33, 0x35, 0x00]);
    assert!(!compare_entry_names(&first, &second, &ignore));
    let contents = compare_entry_contents(&first, &second, &ignore).unwrap();
    assert_eq!(diffs(&contents), vec![&Diff::MissingFromSecond("res/a.png".to_string())]);
    let report = compare_apks(&first, &second, &ignore).unwrap();
    assert!(!report.passed());
    assert_eq!(
        diffs(&report),
        vec![&Diff::NameSetMismatch, &Diff::MissingFromSecond("res/a.png".to_string())]
    );
    assert_eq!(
        report.transcript(),
        vec![
            "Manifests differ in content or length".to_string(),
            "File res/a.png not found in the second APK!".to_string(),
            "APKs don't match!".to_string(),
        ]
    );
}

#[test]
fn an_entry_of_the_second_archive_only_is_found_by_the_comparison_of_names() {
    let ignore = IgnoreSet::standard();
    let first = package(sample(true));
    let mut second = package(sample(true));
    second.insert("lib/extra.so", vec![7]);
    let contents = compare_entry_contents(&first, &second, &ignore).unwrap();
    assert!(contents.passed());
    let report = compare_apks(&first, &second, &ignore).unwrap();
    assert_eq!(
        diffs(&report),
        vec![&Diff::NameSetMismatch, &Diff::ExtraInSecond("lib/extra.so".to_string())]
    );
    assert_eq!(
        report.transcript(),
        vec![
            "Manifests differ in content or length".to_string(),
            "File lib/extra.so not found in the first APK!".to_string(),
            "APKs don't match!".to_string(),
        ]
    );
}

#[test]
fn manifests_of_different_documents_are_a_mismatch() {
    let ignore = IgnoreSet::standard();
    let first = package(sample_of_version(42));
    let second = package(sample_of_version(43));
    let report = compare_apks(&first, &second, &ignore).unwrap();
    assert_eq!(diffs(&report), vec![&Diff::ManifestMismatch]);
    assert_eq!(
        report.transcript(),
        vec!["AndroidManifest.xml is different!".to_string(), "APKs don't match!".to_string()]
    );
}

#[test]
fn every_divergence_is_reported_in_the_order_of_the_first_archive() {
    let ignore = IgnoreSet::standard();
    let mut first = Archive::new();
    first.insert("res/z.png", vec![1]);
    first.insert("META-INF/UPLOAD.SF", vec![1]);
    first.insert("classes.dex", vec![1]);
    first.insert("AndroidManifest.xml", sample_of_version(1));
    first.insert("res/a.png", vec![1]);
    first.insert("res/same.png", vec![5]);
    let mut second = Archive::new();
    second.insert("AndroidManifest.xml", sample_of_version(2));
    second.insert("res/a.png", vec![2]);
    second.insert("res/same.png", vec![5]);
    second.insert("classes.dex", vec![1, 0]);
    second.insert("META-INF/UPLOAD.SF", vec![2]);
    let contents = compare_entry_contents(&first, &second, &ignore).unwrap();
    assert_eq!(
        diffs(&contents),
        vec![
            &Diff::MissingFromSecond("res/z.png".to_string()),
            &Diff::ContentMismatch("classes.dex".to_string()),
            &Diff::ManifestMismatch,
            &Diff::ContentMismatch("res/a.png".to_string()),
        ]
    );
}

#[test]
fn an_ignored_entry_is_never_named() {
    let ignore = IgnoreSet::standard();
    let ignored = [
        "META-INF/UPLOAD.RSA",
        "META-INF/UPLOAD.SF",
        "assets/Database/db",
        "META-INF/MANIFEST.MF",
        "META-INF/GOOGPLAY.RSA",
        "META-INF/GOOGPLAY.SF",
        "stamp-cert-sha256",
        "assets/dexopt/baseline.profm",
    ];
    let mut first = package(sample(true));
    let mut second = package(sample(true));
    for (i, name) in ignored.iter().enumerate() {
        if i % 3 != 0 {
            first.insert(name, vec![i as u8]);
        }
        if i % 3 != 1 {
            second.insert(name, vec![0xff, i as u8]);
        }
    }
    second.insert("classes.dex", vec![0]);
    second.insert("lib/extra.so", vec![0]);
    let report = compare_apks(&first, &second, &ignore).unwrap();
    assert_eq!(
        diffs(&report),
        vec![
            &Diff::NameSetMismatch,
            &Diff::ExtraInSecond("lib/extra.so".to_string()),
            &Diff::ContentMismatch("classes.dex".to_string()),
        ]
    );
}

#[test]
fn an_ignored_manifest_is_not_decoded() {
    let mut ignore = IgnoreSet::standard();
    ignore.insert("AndroidManifest.xml");
    let first = package(b"broken".to_vec());
    let second = package(b"broken in another way".to_vec());
    let report = compare_apks(&first, &second, &ignore).unwrap();
    assert!(report.passed());
}

#[test]
fn without_ignore_policy_every_entry_counts() {
    let ignore = IgnoreSet::new();
    let mut first = package(sample(true));
    first.insert("META-INF/MANIFEST.MF", vec![1]);
    let mut second = package(sample(true));
    second.insert("META-INF/MANIFEST.MF", vec![2]);
    let report = compare_apks(&first, &second, &ignore).unwrap();
    assert_eq!(diffs(&report), vec![&Diff::ContentMismatch("META-INF/MANIFEST.MF".to_string())]);
}

#[test]
fn a_malformed_manifest_ends_the_comparison_with_its_side() {
    let ignore = IgnoreSet::standard();
    let good = package(sample(true));
    let bad = package(vec![3, 0, 8, 0, 0, 0, 0, 0]);
    match compare_entry_contents(&bad, &good, &ignore) {
        Err(CompareError::MalformedBinaryXml { name, side }) => {
            assert_eq!(name, "AndroidManifest.xml");
            assert_eq!(side, Side::First);
        }
        Ok(_) => panic!("the first manifest is malformed"),
    }
    match compare_apks(&good, &bad, &ignore) {
        Err(error) => {
            assert_eq!(
                error.message(),
                "Entry AndroidManifest.xml of the second APK is malformed binary XML"
            );
            match error {
                CompareError::MalformedBinaryXml { side, .. } => assert_eq!(side, Side::Second),
            }
        }
        Ok(_) => panic!("the second manifest is malformed"),
    }
}

#[test]
fn a_manifest_missing_from_the_second_archive_is_not_decoded() {
    let ignore = IgnoreSet::standard();
    let mut first = Archive::new();
    first.insert("AndroidManifest.xml", b"broken".to_vec());
    let second = Archive::new();
    let report = compare_entry_contents(&first, &second, &ignore).unwrap();
    assert_eq!(diffs(&report), vec![&Diff::MissingFromSecond("AndroidManifest.xml".to_string())]);
}

#[test]
fn one_entry_is_compared_by_its_kind() {
    let second = package(sample(true));
    assert_eq!(compare_entry("res/a.png", &[0x89, 0x50, 0x4e, 0x47], &second).unwrap(), None);
    assert_eq!(
        compare_entry("res/a.png", &[0x89, 0x50, 0x4e], &second).unwrap(),
        Some(Diff::ContentMismatch("res/a.png".to_string()))
    );
    assert_eq!(
        compare_entry("res/b.png", &[], &second).unwrap(),
        Some(Diff::MissingFromSecond("res/b.png".to_string()))
    );
    assert_eq!(
        compare_entry("AndroidManifest.xml", &sample_of_version(7), &second).unwrap(),
        Some(Diff::ManifestMismatch)
    );
    assert!(compare_entry("AndroidManifest.xml", &[], &second).is_err());
    // Only an entry of exactly the manifest's name is compared as a document.
    let mut other = Archive::new();
    other.insert("androidmanifest.xml", sample_rearranged());
    assert_eq!(
        compare_entry("androidmanifest.xml", &sample(true), &other).unwrap(),
        Some(Diff::ContentMismatch("androidmanifest.xml".to_string()))
    );
}

#[test]
fn the_canonical_text_of_a_manifest() {
    assert_eq!(canonical_manifest(&sample(true)), canonical_manifest(&sample_rearranged()));
    assert_ne!(canonical_manifest(&sample(true)), canonical_manifest(&sample_of_version(7)));
    assert_eq!(canonical_manifest(b"broken"), None);
    assert_eq!(
        canonical_manifest(&sample_of_version(7)).unwrap(),
        "<\"manifest\" \"android:versionCode\"=\"7\" \"package\"=\"io.example\" \
         \"xmlns:android\"=\"http://schemas.android.com/apk/res/android\">\
         <\"application\">\"hello\"</></>"
    );
}

#[test]
fn a_report_is_built_finding_by_finding() {
    let mut report = Report::new();
    assert!(report.passed());
    assert_eq!(report.verdict(), "APKs match!");
    report.push(Diff::ManifestMismatch);
    let mut more = Report::new();
    more.push(Diff::ExtraInSecond("x".to_string()));
    more.push(Diff::NameSetMismatch);
    report.append(more);
    assert!(!report.passed());
    assert_eq!(report.len(), 3);
    assert_eq!(report.get(1), &Diff::ExtraInSecond("x".to_string()));
    assert_eq!(report.verdict(), "APKs don't match!");
    assert_eq!(Diff::MissingFromSecond("a b".to_string()).message(), "File a b not found in the second APK!");
    assert_eq!(Diff::ExtraInSecond("a".to_string()).message(), "File a not found in the first APK!");
    assert_eq!(Diff::ContentMismatch("a".to_string()).message(), "APKs differ on file a!");
    assert_eq!(Diff::ManifestMismatch.message(), "AndroidManifest.xml is different!");
    assert_eq!(Diff::NameSetMismatch.message(), "Manifests differ in content or length");
}

#[test]
fn two_contents_are_compared_without_an_archive() {
    assert_eq!(compare_entry_pair("lib/a.so", &[1, 2], Some(&[1, 2])).unwrap(), None);
    assert_eq!(
        compare_entry_pair("lib/a.so", &[1, 2], Some(&[1, 3])).unwrap(),
        Some(Diff::ContentMismatch("lib/a.so".to_string()))
    );
    assert_eq!(
        compare_entry_pair("lib/a.so", &[1, 2], None).unwrap(),
        Some(Diff::MissingFromSecond("lib/a.so".to_string()))
    );
    assert_eq!(
        compare_entry_pair("AndroidManifest.xml", &sample(true), Some(&sample_rearranged())).unwrap(),
        None
    );
    assert_eq!(
        compare_entry_pair("AndroidManifest.xml", &sample(true), Some(&sample_of_version(9))).unwrap(),
        Some(Diff::ManifestMismatch)
    );
    assert_eq!(
        compare_entry_pair("AndroidManifest.xml", b"broken", None).unwrap(),
        Some(Diff::MissingFromSecond("AndroidManifest.xml".to_string()))
    );
    match compare_entry_pair("AndroidManifest.xml", &sample(true), Some(b"broken")) {
        Err(CompareError::MalformedBinaryXml { name, side }) => {
            assert_eq!(name, "AndroidManifest.xml");
            assert_eq!(side, Side::Second);
        }
        Ok(_) => panic!("the second manifest is malformed"),
    }
    match compare_entry_pair("AndroidManifest.xml", b"broken", Some(b"broken")) {
        Err(CompareError::MalformedBinaryXml { side, .. }) => assert_eq!(side, Side::First),
        Ok(_) => panic!("both manifests are malformed"),
    }
}
