//! Decoding of binary XML documents.
//!
//! The decoding itself is the work of the `axmldecoder` crate. This module
//! keeps from it the inputs whose layout is not in order, and hands on what
//! it returns as a tree of the library's own.

use crate::layout::check_layout;
use crate::layout::layout_ok;
use crate::xml::canonical_text;
use crate::xml::Element;
use crate::xml::MalformedBinaryXml;
use crate::xml::Tree;
use crate::xml::XmlDocument;
use crate::xml::XmlNode;
use vstd::prelude::*;

verus! {

/// `axmldecoder::Node`, a node of a document as the decoder returns it. Its
/// content is read through the decoder's own accessors only.
#[verifier::external_type_specification]
#[verifier::external_body]
pub struct ExAxmlNode(axmldecoder::Node);

/// The root of the document that `axmldecoder::parse` decodes from `bytes`,
/// or `None` where it reports an error or finds no root.
pub uninterp spec fn axml_tree(bytes: Seq<u8>) -> Option<Tree>;

/// The node of the library that holds what `node` holds.
///
/// Reads an `axmldecoder::Node` through `Element::get_tag`,
/// `Element::get_attributes`, `Element::get_children` and `Cdata::get_data`,
/// and copies tag, attributes, children and text, each in its order.
#[verifier::external_body]
fn convert_node(node: &axmldecoder::Node) -> XmlNode {
    match node {
        axmldecoder::Node::Element(e) => XmlNode::Element(
            Element {
                tag: e.get_tag().to_string(),
                attributes: e.get_attributes().iter().map(|(k, v)| (k.clone(), v.clone())).collect(),
                children: e.get_children().iter().map(convert_node).collect(),
            },
        ),
        axmldecoder::Node::Cdata(c) => XmlNode::Cdata(c.get_data().to_string()),
    }
}

/// Decodes a document whose layout is in order.
///
/// Calls `axmldecoder::parse` and takes the root of the document that it
/// returns, converted by `convert_node`. The contract claims three things.
///
/// On an input whose layout is in order the call returns. On other inputs
/// the decoder may panic: where the pool declares styles; where the pool, the
/// offsets of its strings, its string data or a string reaches beyond what
/// holds it; where a string has a length of the long form; where the
/// resource map or the node chunks reach beyond the input; where a declared
/// size is smaller than what it is to hold, so that a subtraction falls
/// below zero; where a resource identifier is below `0x0101_0000`; where an
/// attribute's string value is no string of the pool; and where an element
/// ends or character data stands while no element is open. Elements nested
/// without limit may exhaust the stack, here and where the decoder's tree is
/// dropped. `layout_ok` rules each of these out.
///
/// What the call returns depends on the bytes alone. (This holds on a
/// little-endian machine: the decoder reads integers in the byte order of
/// the machine.)
///
/// No element that it returns has two attributes of one name: the decoder
/// keeps the attributes of an element in a map keyed by name.
#[verifier::external_body]
fn parse_tree(bytes: &[u8]) -> (root: Option<XmlNode>)
    requires
        layout_ok(bytes@),
    ensures
        root matches Some(node) ==> node.wf() && axml_tree(bytes@) == Some(node.tree()),
        root is None ==> axml_tree(bytes@) is None,
{
    match axmldecoder::parse(bytes) {
        Ok(document) => document.get_root().as_ref().map(convert_node),
        Err(_) => None,
    }
}

/// The tree of the document that `bytes` encode, if they encode one: their
/// layout is in order, and the decoder finds a root.
pub open spec fn decoded(bytes: Seq<u8>) -> Option<Tree> {
    if layout_ok(bytes) {
        axml_tree(bytes)
    } else {
        None
    }
}

/// Decodes a binary XML document. Fails where the layout of the input is
/// not in order, where the decoder rejects it, and where it holds no root
/// element.
pub fn decode(bytes: &[u8]) -> (doc: Result<XmlDocument, MalformedBinaryXml>)
    ensures
        doc is Ok <==> decoded(bytes@) is Some,
        doc matches Ok(d) ==> decoded(bytes@) == Some(d.tree()),
{
    if !check_layout(bytes) {
        return Err(MalformedBinaryXml);
    }
    XmlDocument::from_root(parse_tree(bytes))
}

/// The value of the attribute `android:versionCode` of the root of `tree`,
/// if the root is an element and has that attribute.
pub open spec fn version_code(tree: Tree) -> Option<Seq<char>> {
    match tree {
        Tree::Element { tag, attributes, children } => if attributes.dom().contains(
            "android:versionCode"@,
        ) {
            Some(attributes["android:versionCode"@])
        } else {
            None
        },
        Tree::Cdata { text } => None,
    }
}

/// The version code of a decoded manifest, if it states one.
pub fn document_version(doc: &XmlDocument) -> (version: Option<String>)
    ensures
        version is Some <==> version_code(doc.tree()) is Some,
        version matches Some(v) ==> version_code(doc.tree()) == Some(v@),
{
    match doc.root() {
        XmlNode::Element(element) => {
            match element.attribute("android:versionCode") {
                Some(value) => Some(value.to_owned()),
                None => None,
            }
        },
        XmlNode::Cdata(_) => None,
    }
}

/// The version code that a binary manifest states: `None` where the manifest
/// cannot be decoded, and where its root states none.
pub fn get_android_version(manifest: &[u8]) -> (version: Option<String>)
    ensures
        version is Some <==> (decoded(manifest@) matches Some(tree) && version_code(tree) is Some),
        version matches Some(v) ==> version_code(decoded(manifest@)->0) == Some(v@),
{
    match decode(manifest) {
        Ok(doc) => document_version(&doc),
        Err(_) => None,
    }
}

/// Two inputs that encode one document have one canonical text, however the
/// encodings differ.
pub proof fn lemma_same_document_same_text(first: Seq<u8>, second: Seq<u8>)
    requires
        decoded(first) is Some,
        decoded(first) == decoded(second),
    ensures
        canonical_text(decoded(first)->0) == canonical_text(decoded(second)->0),
{
}

} // verus!
