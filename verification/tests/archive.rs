use apk_compare::archive::Archive;

#[test]
fn new_archive_is_empty() {
    let archive = Archive::new();
    assert_eq!(archive.len(), 0);
    assert_eq!(archive.find("classes.dex"), None);
    assert!(archive.get("classes.dex").is_none());
}

#[test]
fn entries_keep_their_order() {
    let mut archive = Archive::new();
    archive.insert("b", vec![2]);
    archive.insert("a", vec![1]);
    archive.insert("c", vec![3]);
    assert_eq!(archive.len(), 3);
    assert_eq!(archive.name(0), "b");
    assert_eq!(archive.name(1), "a");
    assert_eq!(archive.name(2), "c");
    assert_eq!(archive.content(1), &[1u8][..]);
    assert_eq!(archive.find("c"), Some(2));
    assert_eq!(archive.get("b"), Some(&[2u8][..]));
}

#[test]
fn a_name_listed_twice_is_held_once_and_the_last_content_wins() {
    let mut archive = Archive::new();
    archive.insert("classes.dex", vec![1, 2, 3]);
    archive.insert("res/a.png", vec![9]);
    archive.insert("classes.dex", vec![4, 5]);
    assert_eq!(archive.len(), 2);
    assert_eq!(archive.name(0), "classes.dex");
    assert_eq!(archive.content(0), &[4u8, 5][..]);
    assert_eq!(archive.name(1), "res/a.png");
}

#[test]
fn lookup_is_exact() {
    let mut archive = Archive::new();
    archive.insert("res/a.png", vec![]);
    assert_eq!(archive.find("res/A.png"), None);
    assert_eq!(archive.find("res/a.pn"), None);
    assert_eq!(archive.find("res/a.png"), Some(0));
    assert_eq!(archive.get("res/a.png"), Some(&[][..]));
}
