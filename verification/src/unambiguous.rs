//! Canonical text is unambiguous: a text is the canonical text of one tree at
//! most. So two documents have the same canonical text only if they are the
//! same document, and the order of the children of an element shows in it.

use crate::attributes::lemma_listed_attributes_unique;
use crate::attributes::ordered_attributes;
use crate::xml::attributes_text;
use crate::xml::canonical_text;
use crate::xml::children_text;
use crate::xml::Element;
use crate::xml::escape_char;
use crate::xml::escaped;
use crate::xml::listed;
use crate::xml::quoted;
use crate::xml::Tree;
use vstd::prelude::*;

verus! {

/// The escaped form of a text that is not empty is the escaped form of its
/// first character and, behind it, that of the rest.
pub proof fn lemma_escaped_head(text: Seq<char>)
    requires
        text.len() > 0,
    ensures
        escaped(text) == escape_char(text[0]) + escaped(text.drop_first()),
    decreases text.len(),
{
    if text.len() == 1 {
        assert(text.drop_last() =~= Seq::<char>::empty());
        assert(text.drop_first() =~= Seq::<char>::empty());
        assert(escaped(text.drop_last()) =~= Seq::<char>::empty());
        assert(escaped(text) =~= escape_char(text[0]) + escaped(text.drop_first()));
    } else {
        lemma_escaped_head(text.drop_last());
        assert(text.drop_last().drop_first() =~= text.drop_first().drop_last());
        assert(text.drop_first().last() == text.last());
        assert(text.drop_last()[0] == text[0]);
        assert(escaped(text) =~= escape_char(text[0]) + escaped(text.drop_first()));
    }
}

/// An escaped text and the quote that ends it can be told from what follows:
/// two texts that agree up to and beyond their closing quotes are the same
/// text with the same text behind it.
pub proof fn lemma_escaped_unique(a: Seq<char>, r1: Seq<char>, b: Seq<char>, r2: Seq<char>)
    requires
        escaped(a) + seq!['"'] + r1 == escaped(b) + seq!['"'] + r2,
    ensures
        a == b,
        r1 == r2,
    decreases a.len(),
{
    let lhs = escaped(a) + seq!['"'] + r1;
    let rhs = escaped(b) + seq!['"'] + r2;
    if a.len() == 0 {
        assert(lhs[0] == '"');
        if b.len() == 0 {
            assert(r1 =~= lhs.skip(1));
            assert(r2 =~= rhs.skip(1));
            assert(a =~= b);
        } else {
            lemma_escaped_head(b);
            assert(rhs[0] == escape_char(b[0])[0]);
            assert(false);
        }
    } else {
        lemma_escaped_head(a);
        let a0 = escape_char(a[0]);
        assert(lhs[0] == a0[0]);
        if b.len() == 0 {
            assert(rhs[0] == '"');
            assert(false);
        } else {
            lemma_escaped_head(b);
            let b0 = escape_char(b[0]);
            assert(rhs[0] == b0[0]);
            if a0.len() == 2 {
                assert(lhs[1] == a[0]);
                assert(b0.len() == 2);
                assert(rhs[1] == b[0]);
            }
            assert(a[0] == b[0]);
            let k = a0.len() as int;
            assert(lhs.skip(k) =~= escaped(a.drop_first()) + seq!['"'] + r1);
            assert(rhs.skip(k) =~= escaped(b.drop_first()) + seq!['"'] + r2);
            lemma_escaped_unique(a.drop_first(), r1, b.drop_first(), r2);
            assert(a =~= seq![a[0]] + a.drop_first());
            assert(b =~= seq![b[0]] + b.drop_first());
        }
    }
}

/// A quoted text can be told from what follows it.
pub proof fn lemma_quoted_unique(a: Seq<char>, r1: Seq<char>, b: Seq<char>, r2: Seq<char>)
    requires
        quoted(a) + r1 == quoted(b) + r2,
    ensures
        a == b,
        r1 == r2,
{
    let lhs = quoted(a) + r1;
    let rhs = quoted(b) + r2;
    assert(lhs.skip(1) =~= escaped(a) + seq!['"'] + r1);
    assert(rhs.skip(1) =~= escaped(b) + seq!['"'] + r2);
    lemma_escaped_unique(a, r1, b, r2);
}

/// The text of a list of attributes that is not empty is the text of its
/// first attribute and, behind it, that of the rest.
pub proof fn lemma_attributes_head(list: Seq<(Seq<char>, Seq<char>)>)
    requires
        list.len() > 0,
    ensures
        attributes_text(list) == seq![' '] + quoted(list[0].0) + seq!['='] + quoted(list[0].1)
            + attributes_text(list.drop_first()),
    decreases list.len(),
{
    if list.len() == 1 {
        assert(list.drop_last() =~= Seq::<(Seq<char>, Seq<char>)>::empty());
        assert(list.drop_first() =~= Seq::<(Seq<char>, Seq<char>)>::empty());
        assert(attributes_text(list.drop_last()) =~= Seq::<char>::empty());
        assert(attributes_text(list) =~= seq![' '] + quoted(list[0].0) + seq!['='] + quoted(
            list[0].1,
        ) + attributes_text(list.drop_first()));
    } else {
        lemma_attributes_head(list.drop_last());
        assert(list.drop_last().drop_first() =~= list.drop_first().drop_last());
        assert(list.drop_first().last() == list.last());
        assert(list.drop_last()[0] == list[0]);
        assert(attributes_text(list) =~= seq![' '] + quoted(list[0].0) + seq!['='] + quoted(
            list[0].1,
        ) + attributes_text(list.drop_first()));
    }
}

/// The text of a list of attributes that is not empty, with its `>` and
/// what follows, read from the left: a space, the quoted name, `=`, the
/// quoted value, and the text of the other attributes with what follows.
pub proof fn lemma_attributes_text_split(list: Seq<(Seq<char>, Seq<char>)>, rest: Seq<char>)
    requires
        list.len() > 0,
    ensures
        (attributes_text(list) + seq!['>'] + rest)[0] == ' ',
        (attributes_text(list) + seq!['>'] + rest).skip(1) == quoted(list[0].0) + (seq!['=']
            + quoted(list[0].1) + (attributes_text(list.drop_first()) + seq!['>'] + rest)),
        (seq!['='] + quoted(list[0].1) + (attributes_text(list.drop_first()) + seq!['>']
            + rest)).skip(1) == quoted(list[0].1) + (attributes_text(list.drop_first()) + seq![
            '>',
        ] + rest),
{
    lemma_attributes_head(list);
    let whole = attributes_text(list) + seq!['>'] + rest;
    let tail = attributes_text(list.drop_first()) + seq!['>'] + rest;
    let value = seq!['='] + quoted(list[0].1) + tail;
    assert(whole =~= seq![' '] + (quoted(list[0].0) + value));
    assert(whole.skip(1) =~= quoted(list[0].0) + value);
    assert(value.skip(1) =~= quoted(list[0].1) + tail);
}

/// The text of a list of attributes and the `>` that ends it can be told from
/// what follows.
pub proof fn lemma_attributes_unique(
    l1: Seq<(Seq<char>, Seq<char>)>,
    r1: Seq<char>,
    l2: Seq<(Seq<char>, Seq<char>)>,
    r2: Seq<char>,
)
    requires
        attributes_text(l1) + seq!['>'] + r1 == attributes_text(l2) + seq!['>'] + r2,
    ensures
        l1 == l2,
        r1 == r2,
    decreases l1.len(),
{
    let lhs = attributes_text(l1) + seq!['>'] + r1;
    let rhs = attributes_text(l2) + seq!['>'] + r2;
    if l1.len() == 0 {
        assert(lhs[0] == '>');
        if l2.len() == 0 {
            assert(r1 =~= lhs.skip(1));
            assert(r2 =~= rhs.skip(1));
            assert(l1 =~= l2);
        } else {
            lemma_attributes_text_split(l2, r2);
            assert(false);
        }
    } else {
        lemma_attributes_text_split(l1, r1);
        if l2.len() == 0 {
            assert(rhs[0] == '>');
            assert(false);
        } else {
            lemma_attributes_text_split(l2, r2);
            let t1 = attributes_text(l1.drop_first()) + seq!['>'] + r1;
            let t2 = attributes_text(l2.drop_first()) + seq!['>'] + r2;
            let v1 = seq!['='] + quoted(l1[0].1) + t1;
            let v2 = seq!['='] + quoted(l2[0].1) + t2;
            lemma_quoted_unique(l1[0].0, v1, l2[0].0, v2);
            lemma_quoted_unique(l1[0].1, t1, l2[0].1, t2);
            lemma_attributes_unique(l1.drop_first(), r1, l2.drop_first(), r2);
            assert(l1 =~= seq![l1[0]] + l1.drop_first());
            assert(l2 =~= seq![l2[0]] + l2.drop_first());
        }
    }
}

/// The canonical texts of the trees of `children` from position `from` on,
/// one after the other.
pub open spec fn children_tail(children: Seq<Tree>, from: nat) -> Seq<char>
    decreases children.len() - from,
{
    if from >= children.len() {
        Seq::empty()
    } else {
        canonical_text(children[from as int]) + children_tail(children, from + 1)
    }
}

/// The text of the first `count` children and the text of the children
/// behind them make the text of all children.
pub proof fn lemma_children_split(children: Seq<Tree>, count: nat)
    requires
        count <= children.len(),
    ensures
        children_text(children, count) + children_tail(children, count) == children_tail(
            children,
            0,
        ),
    decreases count,
{
    if count == 0 {
        assert(children_text(children, 0) + children_tail(children, 0) =~= children_tail(
            children,
            0,
        ));
    } else {
        lemma_children_split(children, (count - 1) as nat);
        assert(children_text(children, count) + children_tail(children, count) =~= children_text(
            children,
            (count - 1) as nat,
        ) + children_tail(children, (count - 1) as nat));
    }
}

/// The text of all children, read from the first child on.
pub proof fn lemma_children_text_is_tail(children: Seq<Tree>)
    ensures
        children_text(children, children.len()) == children_tail(children, 0),
{
    lemma_children_split(children, children.len());
    assert(children_tail(children, children.len()) =~= Seq::<char>::empty());
    assert(children_text(children, children.len()) + Seq::<char>::empty() =~= children_text(
        children,
        children.len(),
    ));
}

/// How a canonical text starts: character data with a quote, an element with
/// `<` and a quote.
pub proof fn lemma_canonical_text_start(tree: Tree)
    ensures
        canonical_text(tree).len() >= 2,
        tree is Cdata ==> canonical_text(tree)[0] == '"',
        tree is Element ==> canonical_text(tree)[0] == '<' && canonical_text(tree)[1] == '"',
{
}

/// The canonical text of an element, with what follows it, read from the
/// left: `<`, the quoted tag, the attributes with their `>`, the children with
/// their `</>`, and what follows.
pub proof fn lemma_element_text(
    tag: Seq<char>,
    attributes: Map<Seq<char>, Seq<char>>,
    children: Seq<Tree>,
    rest: Seq<char>,
)
    ensures
        (canonical_text(Tree::Element { tag, attributes, children }) + rest)[0] == '<',
        (canonical_text(Tree::Element { tag, attributes, children }) + rest).skip(1) == quoted(tag)
            + (attributes_text(ordered_attributes(attributes)) + seq!['>'] + (children_tail(
            children,
            0,
        ) + seq!['<', '/', '>'] + rest)),
{
    lemma_children_text_is_tail(children);
    let text = canonical_text(Tree::Element { tag, attributes, children });
    let inner = children_tail(children, 0) + seq!['<', '/', '>'] + rest;
    let middle = attributes_text(ordered_attributes(attributes)) + seq!['>'] + inner;
    assert(text =~= seq!['<'] + quoted(tag) + attributes_text(ordered_attributes(attributes))
        + seq!['>'] + children_tail(children, 0) + seq!['<', '/', '>']);
    assert((text + rest).skip(1) =~= quoted(tag) + middle);
}

/// A canonical text can be told from what follows it: two trees whose texts
/// agree, with what follows them, are one tree, followed by one text.
pub proof fn lemma_canonical_text_unique(t1: Tree, r1: Seq<char>, t2: Tree, r2: Seq<char>)
    requires
        listed(t1),
        listed(t2),
        canonical_text(t1) + r1 == canonical_text(t2) + r2,
    ensures
        t1 == t2,
        r1 == r2,
    decreases t1, 0nat,
{
    let lhs = canonical_text(t1) + r1;
    let rhs = canonical_text(t2) + r2;
    lemma_canonical_text_start(t1);
    lemma_canonical_text_start(t2);
    assert(lhs[0] == canonical_text(t1)[0]);
    assert(rhs[0] == canonical_text(t2)[0]);
    match t1 {
        Tree::Cdata { text } => {
            assert(t2 is Cdata);
            lemma_quoted_unique(text, r1, t2->text, r2);
        },
        Tree::Element { tag, attributes, children } => {
            assert(t2 is Element);
            let tag2 = t2->tag;
            let attributes2 = t2->attributes;
            let children2 = t2->children;
            assert(t2 == Tree::Element { tag: tag2, attributes: attributes2, children: children2 });
            let l1 = ordered_attributes(attributes);
            let l2 = ordered_attributes(attributes2);
            let c1 = children_tail(children, 0) + seq!['<', '/', '>'] + r1;
            let c2 = children_tail(children2, 0) + seq!['<', '/', '>'] + r2;
            let a1 = attributes_text(l1) + seq!['>'] + c1;
            let a2 = attributes_text(l2) + seq!['>'] + c2;
            lemma_element_text(tag, attributes, children, r1);
            lemma_element_text(tag2, attributes2, children2, r2);
            assert(quoted(tag) + a1 == quoted(tag2) + a2);
            lemma_quoted_unique(tag, a1, tag2, a2);
            lemma_attributes_unique(l1, c1, l2, c2);
            lemma_listed_attributes_unique(l1, attributes, attributes2);
            lemma_children_unique(children, 0, r1, children2, 0, r2);
            assert(children =~= children.skip(0));
            assert(children2 =~= children2.skip(0));
        },
    }
}

/// The texts of the children of an element and the `</>` that ends them can
/// be told from what follows: two runs of children whose texts agree are one
/// run.
pub proof fn lemma_children_unique(
    c1: Seq<Tree>,
    from1: nat,
    r1: Seq<char>,
    c2: Seq<Tree>,
    from2: nat,
    r2: Seq<char>,
)
    requires
        from1 <= c1.len(),
        from2 <= c2.len(),
        forall|i: int| 0 <= i < c1.len() ==> listed(#[trigger] c1[i]),
        forall|i: int| 0 <= i < c2.len() ==> listed(#[trigger] c2[i]),
        children_tail(c1, from1) + seq!['<', '/', '>'] + r1 == children_tail(c2, from2) + seq![
            '<',
            '/',
            '>',
        ] + r2,
    ensures
        c1.skip(from1 as int) == c2.skip(from2 as int),
        r1 == r2,
    decreases c1, c1.len() - from1,
{
    let end = seq!['<', '/', '>'];
    let lhs = children_tail(c1, from1) + end + r1;
    let rhs = children_tail(c2, from2) + end + r2;
    if from1 == c1.len() {
        assert(children_tail(c1, from1) =~= Seq::<char>::empty());
        assert(lhs[0] == '<' && lhs[1] == '/');
        if from2 == c2.len() {
            assert(children_tail(c2, from2) =~= Seq::<char>::empty());
            assert(r1 =~= lhs.skip(3));
            assert(r2 =~= rhs.skip(3));
            assert(c1.skip(from1 as int) =~= c2.skip(from2 as int));
        } else {
            lemma_canonical_text_start(c2[from2 as int]);
            let head = canonical_text(c2[from2 as int]);
            assert(rhs[0] == head[0] && rhs[1] == head[1]);
            assert(false);
        }
    } else {
        let first = c1[from1 as int];
        lemma_canonical_text_start(first);
        let head1 = canonical_text(first);
        assert(lhs[0] == head1[0] && lhs[1] == head1[1]);
        if from2 == c2.len() {
            assert(children_tail(c2, from2) =~= Seq::<char>::empty());
            assert(rhs[0] == '<' && rhs[1] == '/');
            assert(false);
        } else {
            let second = c2[from2 as int];
            let t1 = children_tail(c1, from1 + 1) + end + r1;
            let t2 = children_tail(c2, from2 + 1) + end + r2;
            assert(lhs =~= canonical_text(first) + t1);
            assert(rhs =~= canonical_text(second) + t2);
            lemma_canonical_text_unique(first, t1, second, t2);
            lemma_children_unique(c1, from1 + 1, r1, c2, from2 + 1, r2);
            assert(c1.skip(from1 as int) =~= seq![first] + c1.skip(from1 as int + 1));
            assert(c2.skip(from2 as int) =~= seq![second] + c2.skip(from2 as int + 1));
        }
    }
}

/// Two trees with one canonical text are one tree.
pub proof fn lemma_canonical_text_injective(t1: Tree, t2: Tree)
    requires
        listed(t1),
        listed(t2),
        canonical_text(t1) == canonical_text(t2),
    ensures
        t1 == t2,
{
    lemma_canonical_text_unique(t1, Seq::empty(), t2, Seq::empty());
}

/// The order of the children of an element shows in its canonical text:
/// exchanging two children that differ changes the text.
pub proof fn lemma_child_order_shows(
    tag: Seq<char>,
    attributes: Map<Seq<char>, Seq<char>>,
    children: Seq<Tree>,
    i: int,
    j: int,
)
    requires
        listed(Tree::Element { tag, attributes, children }),
        0 <= i < children.len(),
        0 <= j < children.len(),
        children[i] != children[j],
    ensures
        canonical_text(Tree::Element { tag, attributes, children }) != canonical_text(
            Tree::Element {
                tag,
                attributes,
                children: children.update(i, children[j]).update(j, children[i]),
            },
        ),
{
    let exchanged = children.update(i, children[j]).update(j, children[i]);
    let one = Tree::Element { tag, attributes, children };
    let other = Tree::Element { tag, attributes, children: exchanged };
    assert(listed(one));
    assert(one->children == children);
    assert forall|k: int| 0 <= k < children.len() implies listed(children[k]) by {
        assert(listed(#[trigger] one->children[k]));
    }
    assert forall|k: int| 0 <= k < exchanged.len() implies listed(#[trigger] exchanged[k]) by {
        if k == j {
            assert(listed(children[i]));
        } else if k == i {
            assert(listed(children[j]));
        } else {
            assert(listed(children[k]));
        }
    }
    assert(listed(other));
    if canonical_text(one) == canonical_text(other) {
        lemma_canonical_text_injective(one, other);
        assert(exchanged[j] == children[j]);
    }
}

} // verus!
