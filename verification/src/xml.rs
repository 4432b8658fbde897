//! The document tree of a manifest and its canonical text.
//!
//! The canonical text of a document is a rendering that depends on the
//! document alone, not on how it was encoded. Character data is written
//! between quotes, with a backslash before each quote and each backslash. An
//! element is written as `<`, the quoted tag, for each attribute a space and
//! `"name"="value"`, `>`, the children, and `</>`. Attributes come in the
//! order of their names, children in document order:
//!
//! ```text
//! <"manifest" "package"="io.example"><"application">"some text"</></>
//! ```

use crate::attributes::attribute_map;
use crate::attributes::attribute_names;
use crate::attributes::lemma_attribute_map_finite;
use crate::attributes::lemma_attribute_map_pair;
use crate::attributes::lemma_finite_attributes_listed;
use crate::attributes::lemma_ordered_attributes_unique;
use crate::attributes::lists_attributes;
use crate::attributes::ordered_attributes;
use crate::text::lemma_rearranged_distinct;
use crate::text::lemma_sorted_distinct;
use crate::text::sort_names;
use crate::text::text_eq;
use crate::text::texts;
use vstd::prelude::*;

verus! {

/// A document tree, as mathematics: attributes are a map, so their order in
/// an encoding does not show; children are a sequence, so theirs does.
pub enum Tree {
    /// An element with its tag, attributes and children.
    Element { tag: Seq<char>, attributes: Map<Seq<char>, Seq<char>>, children: Seq<Tree> },
    /// Character data.
    Cdata { text: Seq<char> },
}

/// What one character becomes between quotes: a quote or a backslash gets a
/// backslash in front, every other character stands for itself.
pub open spec fn escape_char(c: char) -> Seq<char> {
    if c == '"' || c == '\\' {
        seq!['\\', c]
    } else {
        seq![c]
    }
}

/// The characters of `text`, each as `escape_char` gives it.
pub open spec fn escaped(text: Seq<char>) -> Seq<char>
    decreases text.len(),
{
    if text.len() == 0 {
        Seq::empty()
    } else {
        escaped(text.drop_last()) + escape_char(text.last())
    }
}

/// `text` between quotes, escaped.
pub open spec fn quoted(text: Seq<char>) -> Seq<char> {
    seq!['"'] + escaped(text) + seq!['"']
}

/// The text of a list of attributes: for each, a space, the quoted name, an
/// equals sign and the quoted value.
pub open spec fn attributes_text(list: Seq<(Seq<char>, Seq<char>)>) -> Seq<char>
    decreases list.len(),
{
    if list.len() == 0 {
        Seq::empty()
    } else {
        attributes_text(list.drop_last()) + seq![' '] + quoted(list.last().0) + seq!['=']
            + quoted(list.last().1)
    }
}

/// The canonical text of a tree. Character data is its quoted text. An
/// element is `<`, the quoted tag, the attributes in the order of their names,
/// `>`, the children in document order, and `</>`.
pub open spec fn canonical_text(tree: Tree) -> Seq<char>
    decreases tree, 0nat,
{
    match tree {
        Tree::Cdata { text } => quoted(text),
        Tree::Element { tag, attributes, children } => seq!['<'] + quoted(tag) + attributes_text(
            ordered_attributes(attributes),
        ) + seq!['>'] + children_text(children, children.len()) + seq!['<', '/', '>'],
    }
}

/// The canonical texts of the first `count` trees of `children`, one after
/// the other.
pub open spec fn children_text(children: Seq<Tree>, count: nat) -> Seq<char>
    decreases children, count,
{
    if count == 0 || count > children.len() {
        Seq::empty()
    } else {
        children_text(children, (count - 1) as nat) + canonical_text(children[count - 1])
    }
}

/// A tree whose canonical text shows all of it: each element, however deep,
/// has finitely many attributes, so that they can be listed in the order of
/// their names.
pub open spec fn listed(tree: Tree) -> bool
    decreases tree,
{
    match tree {
        Tree::Cdata { text } => true,
        Tree::Element { tag, attributes, children } => {
            &&& lists_attributes(ordered_attributes(attributes), attributes)
            &&& forall|i: int| 0 <= i < children.len() ==> listed(#[trigger] children[i])
        },
    }
}

/// A node of a decoded document.
#[derive(Debug)]
pub enum XmlNode {
    /// An element.
    Element(Element),
    /// Character data.
    Cdata(String),
}

/// An element: a tag, attributes in the order in which they were added, and
/// children in document order.
#[derive(Debug)]
pub struct Element {
    pub(crate) tag: String,
    pub(crate) attributes: Vec<(String, String)>,
    pub(crate) children: Vec<XmlNode>,
}

/// The names and values of `attributes` as text.
pub open spec fn attribute_texts(attributes: Seq<(String, String)>) -> Seq<(Seq<char>, Seq<char>)> {
    Seq::new(attributes.len(), |i: int| (attributes[i].0@, attributes[i].1@))
}

impl XmlNode {
    /// The tree that this node stands for.
    pub open spec fn tree(&self) -> Tree
        decreases self,
    {
        match self {
            XmlNode::Element(e) => e.tree(),
            XmlNode::Cdata(text) => Tree::Cdata { text: text@ },
        }
    }

    /// The canonical text of the tree of a node shows all of it.
    pub proof fn lemma_tree_listed(&self)
        ensures
            listed(self.tree()),
        decreases self,
    {
        match self {
            XmlNode::Element(e) => e.lemma_tree_listed(),
            XmlNode::Cdata(_) => {},
        }
    }

    /// No element of this node, however deep, has two attributes of one name.
    pub open spec fn wf(&self) -> bool
        decreases self,
    {
        match self {
            XmlNode::Element(e) => e.wf(),
            XmlNode::Cdata(_) => true,
        }
    }

    /// The canonical text of this node.
    pub fn to_canonical_text(&self) -> (text: String)
        requires
            self.wf(),
        ensures
            text@ == canonical_text(self.tree()),
    {
        let mut out = String::new();
        write_node(self, &mut out);
        assert(out@ =~= canonical_text(self.tree()));
        out
    }
}

impl Element {
    /// The tree that this element stands for.
    pub closed spec fn tree(&self) -> Tree
        decreases self,
    {
        Tree::Element {
            tag: self.tag@,
            attributes: attribute_map(attribute_texts(self.attributes@)),
            children: Seq::new(
                self.children@.len(),
                |i: int|
                    if 0 <= i < self.children@.len() {
                        self.children@[i].tree()
                    } else {
                        Tree::Cdata { text: Seq::empty() }
                    },
            ),
        }
    }

    /// Neither this element nor one below it has two attributes of one name.
    pub closed spec fn wf(&self) -> bool
        decreases self,
    {
        &&& attribute_names(attribute_texts(self.attributes@)).no_duplicates()
        &&& forall|i: int| 0 <= i < self.children@.len() ==> (#[trigger] self.children@[i]).wf()
    }

    /// The canonical text of the tree of an element shows all of it.
    pub proof fn lemma_tree_listed(&self)
        ensures
            listed(self.tree()),
        decreases self,
    {
        let tree = self.tree();
        lemma_attribute_map_finite(attribute_texts(self.attributes@));
        lemma_finite_attributes_listed(tree->attributes);
        assert forall|i: int| 0 <= i < tree->children.len() implies listed(
            #[trigger] tree->children[i],
        ) by {
            self.children@[i].lemma_tree_listed();
        }
    }

    /// An element with the given tag, without attributes or children.
    pub fn new(tag: &str) -> (e: Element)
        ensures
            e.wf(),
            e.tree() == (Tree::Element {
                tag: tag@,
                attributes: Map::<Seq<char>, Seq<char>>::empty(),
                children: Seq::<Tree>::empty(),
            }),
    {
        let e = Element { tag: tag.to_owned(), attributes: Vec::new(), children: Vec::new() };
        assert(e.tree()->attributes =~= Map::<Seq<char>, Seq<char>>::empty());
        assert(e.tree()->children =~= Seq::<Tree>::empty());
        e
    }

    /// The tag.
    pub fn tag(&self) -> (tag: &str)
        ensures
            self.tree() is Element,
            tag@ == self.tree()->tag,
    {
        self.tag.as_str()
    }

    /// The position of the attribute called `name`, if there is one.
    fn attribute_position(&self, name: &str) -> (found: Option<usize>)
        ensures
            found matches Some(i) ==> i < self.attributes@.len() && self.attributes@[i as int].0@
                == name@,
            found is None ==> forall|j: int|
                0 <= j < self.attributes@.len() ==> self.attributes@[j].0@ != name@,
    {
        let mut i: usize = 0;
        while i < self.attributes.len()
            invariant
                i <= self.attributes.len(),
                forall|j: int| 0 <= j < i ==> self.attributes@[j].0@ != name@,
            decreases self.attributes.len() - i,
        {
            if text_eq(self.attributes[i].0.as_str(), name) {
                return Some(i);
            }
            i += 1;
        }
        None
    }

    /// The value of the attribute called `name`, if there is one.
    pub fn attribute(&self, name: &str) -> (value: Option<&str>)
        requires
            self.wf(),
        ensures
            self.tree() is Element,
            value matches Some(v) ==> self.tree()->attributes.contains_pair(name@, v@),
            value is None ==> !self.tree()->attributes.dom().contains(name@),
    {
        match self.attribute_position(name) {
            Some(i) => {
                proof {
                    lemma_attribute_map_pair(attribute_texts(self.attributes@), i as int);
                }
                Some(self.attributes[i].1.as_str())
            },
            None => {
                proof {
                    let list = attribute_texts(self.attributes@);
                    if attribute_map(list).dom().contains(name@) {
                        let j = choose|j: int| 0 <= j < list.len() && list[j].0 == name@;
                        assert(self.attributes@[j].0@ == name@);
                    }
                }
                None
            },
        }
    }

    /// Gives the attribute called `name` the value `value`, whether the
    /// element has such an attribute yet or not.
    pub fn set_attribute(&mut self, name: &str, value: &str)
        requires
            old(self).wf(),
        ensures
            final(self).wf(),
            final(self).tree() == (Tree::Element {
                tag: old(self).tree()->tag,
                attributes: old(self).tree()->attributes.insert(name@, value@),
                children: old(self).tree()->children,
            }),
    {
        let found = self.attribute_position(name);
        let ghost before = attribute_texts(self.attributes@);
        match found {
            Some(i) => {
                self.attributes.set(i, (name.to_owned(), value.to_owned()));
            },
            None => {
                self.attributes.push((name.to_owned(), value.to_owned()));
            },
        }
        proof {
            let after = attribute_texts(self.attributes@);
            let p: int = if found is Some {
                found->0 as int
            } else {
                before.len() as int
            };
            assert(after.len() == if found is Some {
                before.len()
            } else {
                before.len() + 1
            });
            assert(after[p] == (name@, value@));
            assert forall|j: int| 0 <= j < after.len() && j != p implies after[j] == before[j]
                && before[j].0 != name@ by {
                if found is Some {
                    assert(attribute_names(before)[j] != attribute_names(before)[p]);
                }
            }
            assert(attribute_names(after).no_duplicates()) by {
                assert forall|a: int, b: int|
                    0 <= a < after.len() && 0 <= b < after.len() && a != b implies attribute_names(
                    after,
                )[a] != attribute_names(after)[b] by {
                    if a != p && b != p {
                        assert(attribute_names(before)[a] != attribute_names(before)[b]);
                    }
                }
            }
            let m_after = attribute_map(after);
            let m_want = attribute_map(before).insert(name@, value@);
            assert forall|k: Seq<char>| m_after.dom().contains(k) <==> m_want.dom().contains(
                k,
            ) by {
                if m_after.dom().contains(k) {
                    let j = choose|j: int| 0 <= j < after.len() && after[j].0 == k;
                    if j != p {
                        assert(before[j].0 == k);
                    }
                }
                if m_want.dom().contains(k) && k != name@ {
                    let j = choose|j: int| 0 <= j < before.len() && before[j].0 == k;
                    assert(after[j].0 == k);
                }
            }
            assert forall|k: Seq<char>| m_after.dom().contains(k) implies m_after[k] == m_want[k] by {
                let j = choose|j: int| 0 <= j < after.len() && after[j].0 == k;
                lemma_attribute_map_pair(after, j);
                if j != p {
                    lemma_attribute_map_pair(before, j);
                }
            }
            assert(m_after =~= m_want);
            assert(self.tree()->children =~= old(self).tree()->children);
        }
    }

    /// Adds `child` behind the children that the element has.
    pub fn push_child(&mut self, child: XmlNode)
        requires
            old(self).wf(),
            child.wf(),
        ensures
            final(self).wf(),
            final(self).tree() == (Tree::Element {
                tag: old(self).tree()->tag,
                attributes: old(self).tree()->attributes,
                children: old(self).tree()->children.push(child.tree()),
            }),
    {
        self.children.push(child);
        proof {
            assert(self.tree()->children =~= old(self).tree()->children.push(child.tree()));
        }
    }

    /// The number of children.
    pub fn child_count(&self) -> (n: usize)
        ensures
            self.tree() is Element,
            n == self.tree()->children.len(),
    {
        self.children.len()
    }

    /// The child at `index`.
    pub fn child(&self, index: usize) -> (child: &XmlNode)
        requires
            self.wf(),
            index < self.tree()->children.len(),
        ensures
            child.wf(),
            child.tree() == self.tree()->children[index as int],
    {
        &self.children[index]
    }

    /// The attributes in the order of their names.
    fn ordered_pairs(&self) -> (ordered: Vec<(String, String)>)
        requires
            self.wf(),
        ensures
            self.tree() is Element,
            lists_attributes(attribute_texts(ordered@), self.tree()->attributes),
    {
        let ghost input = attribute_texts(self.attributes@);
        let mut names: Vec<String> = Vec::new();
        let mut i: usize = 0;
        while i < self.attributes.len()
            invariant
                i <= self.attributes.len(),
                input == attribute_texts(self.attributes@),
                texts(names@) == attribute_names(input).take(i as int),
            decreases self.attributes.len() - i,
        {
            let ghost before = texts(names@);
            names.push(self.attributes[i].0.clone());
            assert(texts(names@) =~= before.push(input[i as int].0));
            assert(texts(names@) =~= attribute_names(input).take(i + 1));
            i += 1;
        }
        assert(texts(names@) =~= attribute_names(input));
        let in_order = sort_names(&names);
        let ghost list = texts(in_order@);
        proof {
            lemma_rearranged_distinct(attribute_names(input), list);
            lemma_sorted_distinct(list);
        }
        let mut ordered: Vec<(String, String)> = Vec::new();
        let mut j: usize = 0;
        while j < in_order.len()
            invariant
                j <= in_order.len(),
                self.wf(),
                input == attribute_texts(self.attributes@),
                list == texts(in_order@),
                list.to_set() == attribute_names(input).to_set(),
                ordered@.len() == j,
                attribute_names(attribute_texts(ordered@)) == list.take(j as int),
                forall|k: int|
                    0 <= k < j ==> attribute_map(input).contains_pair(
                        #[trigger] attribute_texts(ordered@)[k].0,
                        attribute_texts(ordered@)[k].1,
                    ),
            decreases in_order.len() - j,
        {
            let ghost before = attribute_texts(ordered@);
            let found = self.attribute_position(in_order[j].as_str());
            proof {
                if found is None {
                    assert(list.contains(list[j as int]));
                    assert(attribute_names(input).to_set().contains(list[j as int]));
                    let k = choose|k: int|
                        0 <= k < attribute_names(input).len() && attribute_names(input)[k]
                            == list[j as int];
                    assert(self.attributes@[k].0@ == list[j as int]);
                }
            }
            if let Some(p) = found {
                ordered.push((self.attributes[p].0.clone(), self.attributes[p].1.clone()));
                proof {
                    let after = attribute_texts(ordered@);
                    assert(after =~= before.push(input[p as int]));
                    assert(input[p as int].0 == list[j as int]);
                    lemma_attribute_map_pair(input, p as int);
                    assert(attribute_names(after) =~= attribute_names(before).push(
                        list[j as int],
                    ));
                    assert(attribute_names(after) =~= list.take(j + 1));
                    assert forall|k: int| 0 <= k < j + 1 implies attribute_map(
                        input,
                    ).contains_pair(#[trigger] after[k].0, after[k].1) by {
                        if k < j {
                            assert(after[k] == before[k]);
                        }
                    }
                }
            }
            j += 1;
        }
        proof {
            let result = attribute_texts(ordered@);
            assert(list.take(list.len() as int) =~= list);
            assert forall|name: Seq<char>| #[trigger]
                attribute_map(input).dom().contains(name) implies exists|k: int|
                0 <= k < result.len() && result[k].0 == name by {
                let q = choose|q: int| 0 <= q < input.len() && input[q].0 == name;
                assert(attribute_names(input)[q] == name);
                assert(attribute_names(input).contains(name));
                assert(list.to_set().contains(name));
                let k = choose|k: int| 0 <= k < list.len() && list[k] == name;
                assert(attribute_names(result)[k] == name);
            }
        }
        ordered
    }

    /// The canonical text of this element.
    pub fn to_canonical_text(&self) -> (text: String)
        requires
            self.wf(),
        ensures
            text@ == canonical_text(self.tree()),
    {
        let mut out = String::new();
        write_element(self, &mut out);
        assert(out@ =~= canonical_text(self.tree()));
        out
    }
}

/// Appends one character to a string.
///
/// Calls `String::push`, which adds `c` at the end of the string.
#[verifier::external_body]
fn push_char(out: &mut String, c: char)
    ensures
        final(out)@ == old(out)@.push(c),
{
    out.push(c)
}

/// Appends `text` between quotes, escaped, to `out`.
fn write_quoted(out: &mut String, text: &str)
    ensures
        final(out)@ == old(out)@ + quoted(text@),
{
    push_char(out, '"');
    let ghost start = out@;
    for c in it: text.chars()
        invariant
            it.seq() == text@,
            out@ == start + escaped(text@.take(it.index() as int)),
    {
        let ghost i = it.index() as int;
        assert(text@.take(i + 1).drop_last() =~= text@.take(i));
        assert(text@.take(i + 1).last() == c);
        if c == '"' || c == '\\' {
            push_char(out, '\\');
        }
        push_char(out, c);
        assert(out@ =~= start + escaped(text@.take(i + 1)));
    }
    assert(text@.take(text@.len() as int) =~= text@);
    push_char(out, '"');
    assert(out@ =~= old(out)@ + quoted(text@));
}

/// Appends the canonical text of `node` to `out`.
fn write_node(node: &XmlNode, out: &mut String)
    requires
        node.wf(),
    ensures
        final(out)@ == old(out)@ + canonical_text(node.tree()),
    decreases node, 1nat,
{
    match node {
        XmlNode::Element(e) => write_element(e, out),
        XmlNode::Cdata(text) => write_quoted(out, text.as_str()),
    }
}

/// Appends the canonical text of `element` to `out`.
fn write_element(element: &Element, out: &mut String)
    requires
        element.wf(),
    ensures
        final(out)@ == old(out)@ + canonical_text(element.tree()),
    decreases element, 0nat,
{
    let ghost tree = element.tree();
    let ghost children = tree->children;
    push_char(out, '<');
    write_quoted(out, element.tag.as_str());
    let ordered = element.ordered_pairs();
    let ghost list = attribute_texts(ordered@);
    proof {
        lemma_ordered_attributes_unique(list, tree->attributes);
    }
    let ghost start = out@;
    let mut j: usize = 0;
    while j < ordered.len()
        invariant
            j <= ordered.len(),
            list == attribute_texts(ordered@),
            out@ == start + attributes_text(list.take(j as int)),
        decreases ordered.len() - j,
    {
        assert(list.take(j + 1).drop_last() =~= list.take(j as int));
        assert(list.take(j + 1).last() == list[j as int]);
        push_char(out, ' ');
        write_quoted(out, ordered[j].0.as_str());
        push_char(out, '=');
        write_quoted(out, ordered[j].1.as_str());
        assert(out@ =~= start + attributes_text(list.take(j + 1)));
        j += 1;
    }
    assert(list.take(list.len() as int) =~= list);
    push_char(out, '>');
    let ghost middle = out@;
    let mut i: usize = 0;
    while i < element.children.len()
        invariant
            i <= element.children.len(),
            element.wf(),
            children == element.tree()->children,
            children.len() == element.children@.len(),
            out@ == middle + children_text(children, i as nat),
        decreases element.children.len() - i,
    {
        assert(element.children@[i as int].wf());
        write_node(&element.children[i], out);
        assert(out@ =~= middle + children_text(children, (i + 1) as nat));
        i += 1;
    }
    push_char(out, '<');
    push_char(out, '/');
    push_char(out, '>');
    assert(out@ =~= old(out)@ + canonical_text(tree));
}

/// The error of decoding: the input is no well-formed binary XML document.
#[derive(Debug, Clone, Copy, PartialEq, Eq)]
pub struct MalformedBinaryXml;

/// A decoded document: a tree with one root.
#[derive(Debug)]
pub struct XmlDocument {
    root: XmlNode,
}

impl XmlDocument {
    /// What holds of every document: no element has two attributes of one name.
    #[verifier::type_invariant]
    pub closed spec fn wf(self) -> bool {
        self.root.wf()
    }

    /// The tree of the document.
    pub closed spec fn tree(&self) -> Tree {
        self.root.tree()
    }

    /// The document with the given root.
    pub fn new(root: XmlNode) -> (doc: XmlDocument)
        requires
            root.wf(),
        ensures
            doc.tree() == root.tree(),
    {
        XmlDocument { root }
    }

    /// The document with the given root, if there is one: a document has
    /// exactly one root.
    pub fn from_root(root: Option<XmlNode>) -> (doc: Result<XmlDocument, MalformedBinaryXml>)
        requires
            root matches Some(node) ==> node.wf(),
        ensures
            doc is Ok <==> root is Some,
            doc matches Ok(d) ==> d.tree() == root->0.tree(),
    {
        match root {
            Some(node) => Ok(XmlDocument::new(node)),
            None => Err(MalformedBinaryXml),
        }
    }

    /// The root of the document.
    pub fn root(&self) -> (root: &XmlNode)
        ensures
            root.wf(),
            root.tree() == self.tree(),
    {
        proof {
            use_type_invariant(self);
        }
        &self.root
    }

    /// The canonical text of the document.
    pub fn to_canonical_text(&self) -> (text: String)
        ensures
            text@ == canonical_text(self.tree()),
    {
        proof {
            use_type_invariant(self);
        }
        self.root.to_canonical_text()
    }
}

/// The order in which the attributes of an element are listed does not show
/// in its canonical text: two lists of the same pairs stand for one map, and
/// so for one text.
pub proof fn lemma_attribute_order_is_irrelevant(
    tag: Seq<char>,
    first: Seq<(Seq<char>, Seq<char>)>,
    second: Seq<(Seq<char>, Seq<char>)>,
    children: Seq<Tree>,
)
    requires
        attribute_names(first).no_duplicates(),
        attribute_names(second).no_duplicates(),
        first.to_multiset() == second.to_multiset(),
    ensures
        attribute_map(first) == attribute_map(second),
        canonical_text(Tree::Element { tag, attributes: attribute_map(first), children })
            == canonical_text(Tree::Element { tag, attributes: attribute_map(second), children }),
{
    first.to_multiset_ensures();
    second.to_multiset_ensures();
    let m1 = attribute_map(first);
    let m2 = attribute_map(second);
    assert forall|k: Seq<char>| m1.dom().contains(k) <==> m2.dom().contains(k) by {
        if m1.dom().contains(k) {
            let i = choose|i: int| 0 <= i < first.len() && first[i].0 == k;
            assert(first.contains(first[i]));
            assert(first.to_multiset().count(first[i]) > 0);
            assert(second.to_multiset().count(first[i]) > 0);
            assert(second.contains(first[i]));
            let j = choose|j: int| 0 <= j < second.len() && second[j] == first[i];
            assert(second[j].0 == k);
        }
        if m2.dom().contains(k) {
            let i = choose|i: int| 0 <= i < second.len() && second[i].0 == k;
            assert(second.contains(second[i]));
            assert(second.to_multiset().count(second[i]) > 0);
            assert(first.to_multiset().count(second[i]) > 0);
            assert(first.contains(second[i]));
            let j = choose|j: int| 0 <= j < first.len() && first[j] == second[i];
            assert(first[j].0 == k);
        }
    }
    assert forall|k: Seq<char>| m1.dom().contains(k) implies m1[k] == m2[k] by {
        let i = choose|i: int| 0 <= i < first.len() && first[i].0 == k;
        assert(first.contains(first[i]));
        assert(first.to_multiset().count(first[i]) > 0);
        assert(second.to_multiset().count(first[i]) > 0);
        assert(second.contains(first[i]));
        let j = choose|j: int| 0 <= j < second.len() && second[j] == first[i];
        lemma_attribute_map_pair(first, i);
        lemma_attribute_map_pair(second, j);
    }
    assert(m1 =~= m2);
}

} // verus!
