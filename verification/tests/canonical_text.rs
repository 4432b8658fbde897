use apk_compare::xml::Element;
use apk_compare::xml::XmlDocument;
use apk_compare::xml::XmlNode;

fn leaf(tag: &str) -> XmlNode {
    XmlNode::Element(Element::new(tag))
}

#[test]
fn character_data_is_quoted() {
    assert_eq!(XmlNode::Cdata("hello".to_string()).to_canonical_text(), "\"hello\"");
    assert_eq!(XmlNode::Cdata(String::new()).to_canonical_text(), "\"\"");
}

#[test]
fn quotes_and_backslashes_are_escaped() {
    let node = XmlNode::Cdata("say \"hi\" \\ bye".to_string());
    assert_eq!(node.to_canonical_text(), "\"say \\\"hi\\\" \\\\ bye\"");
}

#[test]
fn other_characters_stand_for_themselves() {
    let node = XmlNode::Cdata("<a b='c'>&é日本\n</a>".to_string());
    assert_eq!(node.to_canonical_text(), "\"<a b='c'>&é日本\n</a>\"");
}

#[test]
fn an_empty_element() {
    assert_eq!(Element::new("application").to_canonical_text(), "<\"application\"></>");
    assert_eq!(leaf("application").to_canonical_text(), "<\"application\"></>");
}

#[test]
fn attributes_come_in_the_order_of_their_names() {
    let mut element = Element::new("manifest");
    element.set_attribute("package", "io.example");
    element.set_attribute("xmlns:android", "http://schemas.android.com/apk/res/android");
    element.set_attribute("android:versionCode", "42");
    element.set_attribute("Zed", "upper case sorts first");
    assert_eq!(
        element.to_canonical_text(),
        "<\"manifest\" \"Zed\"=\"upper case sorts first\" \"android:versionCode\"=\"42\" \
         \"package\"=\"io.example\" \
         \"xmlns:android\"=\"http://schemas.android.com/apk/res/android\"></>"
    );
}

#[test]
fn reordering_attributes_does_not_change_the_text() {
    let pairs = [("b", "2"), ("a", "1"), ("c", "3"), ("aa", "11")];
    let mut forward = Element::new("e");
    for (name, value) in pairs {
        forward.set_attribute(name, value);
    }
    let mut backward = Element::new("e");
    for (name, value) in pairs.iter().rev() {
        backward.set_attribute(name, value);
    }
    assert_eq!(forward.to_canonical_text(), backward.to_canonical_text());
    assert_eq!(
        forward.to_canonical_text(),
        "<\"e\" \"a\"=\"1\" \"aa\"=\"11\" \"b\"=\"2\" \"c\"=\"3\"></>"
    );
}

#[test]
fn setting_an_attribute_again_replaces_its_value() {
    let mut element = Element::new("e");
    element.set_attribute("a", "1");
    element.set_attribute("b", "2");
    element.set_attribute("a", "3");
    assert_eq!(element.attribute("a"), Some("3"));
    assert_eq!(element.attribute("b"), Some("2"));
    assert_eq!(element.attribute("c"), None);
    assert_eq!(element.to_canonical_text(), "<\"e\" \"a\"=\"3\" \"b\"=\"2\"></>");
}

#[test]
fn children_come_in_document_order() {
    let mut root = Element::new("manifest");
    root.push_child(leaf("uses-sdk"));
    root.push_child(XmlNode::Cdata("text".to_string()));
    root.push_child(leaf("application"));
    assert_eq!(root.child_count(), 3);
    assert_eq!(root.tag(), "manifest");
    assert_eq!(
        root.to_canonical_text(),
        "<\"manifest\"><\"uses-sdk\"></>\"text\"<\"application\"></></>"
    );
    assert_eq!(root.child(1).to_canonical_text(), "\"text\"");
}

#[test]
fn reordering_siblings_changes_the_text() {
    let mut one = Element::new("manifest");
    one.push_child(leaf("uses-sdk"));
    one.push_child(leaf("application"));
    let mut other = Element::new("manifest");
    other.push_child(leaf("application"));
    other.push_child(leaf("uses-sdk"));
    assert_ne!(one.to_canonical_text(), other.to_canonical_text());
}

#[test]
fn nesting_shows_in_the_text() {
    let mut inner = Element::new("activity");
    inner.set_attribute("android:name", ".Main");
    let mut middle = Element::new("application");
    middle.push_child(XmlNode::Element(inner));
    let mut nested = Element::new("manifest");
    nested.push_child(XmlNode::Element(middle));

    let mut flat = Element::new("manifest");
    flat.push_child(leaf("application"));
    let mut activity = Element::new("activity");
    activity.set_attribute("android:name", ".Main");
    flat.push_child(XmlNode::Element(activity));

    assert_eq!(
        nested.to_canonical_text(),
        "<\"manifest\"><\"application\"><\"activity\" \"android:name\"=\".Main\"></></></>"
    );
    assert_eq!(
        flat.to_canonical_text(),
        "<\"manifest\"><\"application\"></><\"activity\" \"android:name\"=\".Main\"></></>"
    );
}

#[test]
fn text_that_looks_like_markup_stays_apart_from_markup() {
    let mut with_child = Element::new("a");
    with_child.push_child(leaf("b"));
    let mut with_text = Element::new("a");
    with_text.push_child(XmlNode::Cdata("<\"b\"></>".to_string()));
    assert_eq!(with_child.to_canonical_text(), "<\"a\"><\"b\"></></>");
    assert_eq!(with_text.to_canonical_text(), "<\"a\">\"<\\\"b\\\"></>\"</>");
}

#[test]
fn a_document_has_the_text_of_its_root() {
    let mut root = Element::new("manifest");
    root.set_attribute("package", "io.example");
    let doc = XmlDocument::new(XmlNode::Element(root));
    assert_eq!(doc.to_canonical_text(), "<\"manifest\" \"package\"=\"io.example\"></>");
    assert_eq!(doc.root().to_canonical_text(), doc.to_canonical_text());
}

#[test]
fn a_document_needs_a_root() {
    assert!(XmlDocument::from_root(None).is_err());
    let doc = XmlDocument::from_root(Some(leaf("manifest")));
    assert_eq!(doc.unwrap().to_canonical_text(), "<\"manifest\"></>");
}
