//! The attributes of an element: a map from names to values, and the list
//! of its pairs in the order of their names.

use crate::text::lemma_lex_le_total;
use crate::text::lemma_lex_le_trans;
use crate::text::lemma_sorted_sequences_of_one_set;
use crate::text::strictly_sorted;
use crate::text::text_le;
use crate::text::text_lt;
use vstd::prelude::*;
use vstd::utf8::encode_utf8;

verus! {

/// The names of a list of attributes.
pub open spec fn attribute_names(list: Seq<(Seq<char>, Seq<char>)>) -> Seq<Seq<char>> {
    Seq::new(list.len(), |i: int| list[i].0)
}

/// The position of an attribute called `name` in a list, where there is one.
pub open spec fn attribute_index(attributes: Seq<(Seq<char>, Seq<char>)>, name: Seq<char>) -> int {
    choose|i: int| 0 <= i < attributes.len() && attributes[i].0 == name
}

/// The map that a list of attributes stands for. Where a name occurs more
/// than once, one of its values is taken.
pub open spec fn attribute_map(attributes: Seq<(Seq<char>, Seq<char>)>) -> Map<
    Seq<char>,
    Seq<char>,
> {
    Map::new(
        |name: Seq<char>| exists|i: int| 0 <= i < attributes.len() && attributes[i].0 == name,
        |name: Seq<char>| attributes[attribute_index(attributes, name)].1,
    )
}

/// In a list of attributes with distinct names, each pair is a pair of the
/// map that the list stands for.
pub proof fn lemma_attribute_map_pair(list: Seq<(Seq<char>, Seq<char>)>, i: int)
    requires
        attribute_names(list).no_duplicates(),
        0 <= i < list.len(),
    ensures
        attribute_map(list).contains_pair(list[i].0, list[i].1),
{
    let name = list[i].0;
    let names = attribute_names(list);
    assert(attribute_map(list).dom().contains(name));
    let j = attribute_index(list, name);
    assert(names[i] == names[j]);
    if i != j {
        assert(names[i] != names[j]);
    }
}

/// The map that a list of attributes stands for is finite.
pub proof fn lemma_attribute_map_finite(list: Seq<(Seq<char>, Seq<char>)>)
    ensures
        attribute_map(list).dom().finite(),
{
    let names = attribute_names(list);
    vstd::seq_lib::seq_to_set_is_finite(names);
    assert forall|k: Seq<char>| attribute_map(list).dom().contains(k) <==> names.to_set().contains(
        k,
    ) by {
        if attribute_map(list).dom().contains(k) {
            let i = choose|i: int| 0 <= i < list.len() && list[i].0 == k;
            assert(names[i] == k);
        }
        if names.contains(k) {
            let i = choose|i: int| 0 <= i < names.len() && names[i] == k;
            assert(list[i].0 == k);
        }
    }
    assert(attribute_map(list).dom() =~= names.to_set());
}

/// `list` holds the pairs of `attributes`, each once, in the order of their
/// names.
pub open spec fn lists_attributes(
    list: Seq<(Seq<char>, Seq<char>)>,
    attributes: Map<Seq<char>, Seq<char>>,
) -> bool {
    &&& strictly_sorted(attribute_names(list))
    &&& forall|i: int|
        0 <= i < list.len() ==> attributes.contains_pair(#[trigger] list[i].0, list[i].1)
    &&& forall|name: Seq<char>| #[trigger]
        attributes.dom().contains(name) ==> exists|i: int| 0 <= i < list.len() && list[i].0 == name
}

/// The pairs of `attributes` in the order of their names.
pub open spec fn ordered_attributes(attributes: Map<Seq<char>, Seq<char>>) -> Seq<
    (Seq<char>, Seq<char>),
> {
    choose|list: Seq<(Seq<char>, Seq<char>)>| lists_attributes(list, attributes)
}

/// A map has one list of its pairs in the order of their names, at most.
pub proof fn lemma_ordered_attributes_unique(
    list: Seq<(Seq<char>, Seq<char>)>,
    attributes: Map<Seq<char>, Seq<char>>,
)
    requires
        lists_attributes(list, attributes),
    ensures
        ordered_attributes(attributes) == list,
{
    let other = ordered_attributes(attributes);
    let n1 = attribute_names(list);
    let n2 = attribute_names(other);
    assert forall|x: Seq<char>| n1.to_set().contains(x) <==> n2.to_set().contains(x) by {
        if n1.contains(x) {
            let i = choose|i: int| 0 <= i < n1.len() && n1[i] == x;
            assert(attributes.contains_pair(list[i].0, list[i].1));
            let j = choose|j: int| 0 <= j < other.len() && other[j].0 == x;
            assert(n2[j] == x);
        }
        if n2.contains(x) {
            let i = choose|i: int| 0 <= i < n2.len() && n2[i] == x;
            assert(attributes.contains_pair(other[i].0, other[i].1));
            let j = choose|j: int| 0 <= j < list.len() && list[j].0 == x;
            assert(n1[j] == x);
        }
    }
    assert(n1.to_set() =~= n2.to_set());
    lemma_sorted_sequences_of_one_set(n1, n2);
    assert forall|i: int| 0 <= i < list.len() implies list[i] == other[i] by {
        assert(n1[i] == n2[i]);
        assert(attributes.contains_pair(list[i].0, list[i].1));
        assert(attributes.contains_pair(other[i].0, other[i].1));
    }
    assert(list.len() == n1.len() && other.len() == n2.len());
    assert(list =~= other);
}

/// Two maps with one list of their pairs are one map.
pub proof fn lemma_listed_attributes_unique(
    list: Seq<(Seq<char>, Seq<char>)>,
    m1: Map<Seq<char>, Seq<char>>,
    m2: Map<Seq<char>, Seq<char>>,
)
    requires
        lists_attributes(list, m1),
        lists_attributes(list, m2),
    ensures
        m1 == m2,
{
    assert forall|k: Seq<char>| m1.dom().contains(k) <==> m2.dom().contains(k) by {
        if m1.dom().contains(k) {
            let i = choose|i: int| 0 <= i < list.len() && list[i].0 == k;
            assert(m2.contains_pair(list[i].0, list[i].1));
        }
        if m2.dom().contains(k) {
            let i = choose|i: int| 0 <= i < list.len() && list[i].0 == k;
            assert(m1.contains_pair(list[i].0, list[i].1));
        }
    }
    assert forall|k: Seq<char>| m1.dom().contains(k) implies m1[k] == m2[k] by {
        let i = choose|i: int| 0 <= i < list.len() && list[i].0 == k;
        assert(m1.contains_pair(list[i].0, list[i].1));
        assert(m2.contains_pair(list[i].0, list[i].1));
    }
    assert(m1 =~= m2);
}

/// `list` with `pair` put where its name belongs in the order of names.
pub open spec fn insert_pair(list: Seq<(Seq<char>, Seq<char>)>, pair: (Seq<char>, Seq<char>)) -> Seq<
    (Seq<char>, Seq<char>),
>
    decreases list.len(),
{
    if list.len() == 0 {
        seq![pair]
    } else if text_le(list.last().0, pair.0) {
        list.push(pair)
    } else {
        insert_pair(list.drop_last(), pair).push(list.last())
    }
}

/// Putting a pair with a new name into a list in the order of names gives a
/// list in the order of names, of the pairs of the list and the new one.
pub proof fn lemma_insert_pair(list: Seq<(Seq<char>, Seq<char>)>, pair: (Seq<char>, Seq<char>))
    requires
        strictly_sorted(attribute_names(list)),
        forall|i: int| 0 <= i < list.len() ==> (#[trigger] list[i]).0 != pair.0,
    ensures
        strictly_sorted(attribute_names(insert_pair(list, pair))),
        forall|x: (Seq<char>, Seq<char>)| #[trigger]
            insert_pair(list, pair).contains(x) <==> (x == pair || list.contains(x)),
    decreases list.len(),
{
    let r = insert_pair(list, pair);
    if list.len() == 0 {
        assert(r[0] == pair);
        assert forall|x: (Seq<char>, Seq<char>)| #[trigger]
            r.contains(x) <==> (x == pair || list.contains(x)) by {
            if r.contains(x) {
                let q = choose|q: int| 0 <= q < r.len() && r[q] == x;
            }
        }
    } else if text_le(list.last().0, pair.0) {
        let n = list.len() as int;
        assert forall|a: int, b: int| 0 <= a < b < r.len() implies text_lt(
            attribute_names(r)[a],
            attribute_names(r)[b],
        ) by {
            if b < n {
                assert(text_lt(attribute_names(list)[a], attribute_names(list)[b]));
            } else {
                assert(list[a].0 != pair.0);
                if a < n - 1 {
                    assert(text_lt(attribute_names(list)[a], attribute_names(list)[n - 1]));
                    lemma_lex_le_trans(
                        encode_utf8(list[a].0),
                        encode_utf8(list[n - 1].0),
                        encode_utf8(pair.0),
                    );
                }
            }
        }
        assert forall|x: (Seq<char>, Seq<char>)| #[trigger]
            r.contains(x) <==> (x == pair || list.contains(x)) by {
            if r.contains(x) {
                let q = choose|q: int| 0 <= q < r.len() && r[q] == x;
                if q < n {
                    assert(list[q] == x);
                }
            }
            if list.contains(x) {
                let q = choose|q: int| 0 <= q < list.len() && list[q] == x;
                assert(r[q] == x);
            }
            if x == pair {
                assert(r[n] == x);
            }
        }
    } else {
        let init = list.drop_last();
        let last = list.last();
        let n = list.len() as int;
        assert(strictly_sorted(attribute_names(init))) by {
            assert forall|a: int, b: int| 0 <= a < b < init.len() implies text_lt(
                attribute_names(init)[a],
                attribute_names(init)[b],
            ) by {
                assert(text_lt(attribute_names(list)[a], attribute_names(list)[b]));
            }
        }
        assert forall|i: int| 0 <= i < init.len() implies (#[trigger] init[i]).0 != pair.0 by {
            assert(list[i].0 != pair.0);
        }
        lemma_insert_pair(init, pair);
        let r0 = insert_pair(init, pair);
        assert(r =~= r0.push(last));
        lemma_lex_le_total(encode_utf8(last.0), encode_utf8(pair.0));
        assert(list[n - 1].0 != pair.0);
        assert forall|a: int, b: int| 0 <= a < b < r.len() implies text_lt(
            attribute_names(r)[a],
            attribute_names(r)[b],
        ) by {
            if b < r0.len() {
                assert(text_lt(attribute_names(r0)[a], attribute_names(r0)[b]));
            } else {
                assert(r0.contains(r0[a]));
                if r0[a] != pair {
                    assert(init.contains(r0[a]));
                    let q = choose|q: int| 0 <= q < init.len() && init[q] == r0[a];
                    assert(text_lt(attribute_names(list)[q], attribute_names(list)[n - 1]));
                }
            }
        }
        assert forall|x: (Seq<char>, Seq<char>)| #[trigger]
            r.contains(x) <==> (x == pair || list.contains(x)) by {
            if r.contains(x) {
                let q = choose|q: int| 0 <= q < r.len() && r[q] == x;
                if q < r0.len() {
                    assert(r0.contains(x));
                    if x != pair {
                        assert(init.contains(x));
                        let p = choose|p: int| 0 <= p < init.len() && init[p] == x;
                        assert(list[p] == x);
                    }
                } else {
                    assert(list[n - 1] == x);
                }
            }
            if list.contains(x) {
                let q = choose|q: int| 0 <= q < list.len() && list[q] == x;
                if q < n - 1 {
                    assert(init[q] == x);
                    assert(init.contains(x));
                    assert(r0.contains(x));
                    let p = choose|p: int| 0 <= p < r0.len() && r0[p] == x;
                    assert(r[p] == x);
                } else {
                    assert(r[r0.len() as int] == x);
                }
            }
            if x == pair {
                assert(r0.contains(x));
                let p = choose|p: int| 0 <= p < r0.len() && r0[p] == x;
                assert(r[p] == x);
            }
        }
    }
}

/// The pairs of a finite map can be listed in the order of their names.
pub proof fn lemma_finite_attributes_listed(attributes: Map<Seq<char>, Seq<char>>)
    requires
        attributes.dom().finite(),
    ensures
        lists_attributes(ordered_attributes(attributes), attributes),
    decreases attributes.dom().len(),
{
    if attributes.dom().len() == 0 {
        attributes.dom().lemma_len0_is_empty();
        let list = Seq::<(Seq<char>, Seq<char>)>::empty();
        assert(lists_attributes(list, attributes));
    } else {
        let name = attributes.dom().choose();
        assert(attributes.dom().contains(name)) by {
            if attributes.dom() =~= Set::<Seq<char>>::empty() {
                assert(attributes.dom().len() == 0);
            }
        }
        let rest = attributes.remove(name);
        lemma_finite_attributes_listed(rest);
        let before = ordered_attributes(rest);
        let pair = (name, attributes[name]);
        assert forall|i: int| 0 <= i < before.len() implies (#[trigger] before[i]).0 != name by {
            assert(rest.contains_pair(before[i].0, before[i].1));
        }
        lemma_insert_pair(before, pair);
        let list = insert_pair(before, pair);
        assert forall|i: int| 0 <= i < list.len() implies attributes.contains_pair(
            #[trigger] list[i].0,
            list[i].1,
        ) by {
            assert(list.contains(list[i]));
            if list[i] != pair {
                assert(before.contains(list[i]));
                let q = choose|q: int| 0 <= q < before.len() && before[q] == list[i];
                assert(rest.contains_pair(before[q].0, before[q].1));
            }
        }
        assert forall|k: Seq<char>| #[trigger] attributes.dom().contains(k) implies exists|i: int|
            0 <= i < list.len() && list[i].0 == k by {
            if k == name {
                assert(list.contains(pair));
                let q = choose|q: int| 0 <= q < list.len() && list[q] == pair;
                assert(list[q].0 == k);
            } else {
                assert(rest.dom().contains(k));
                let p = choose|p: int| 0 <= p < before.len() && before[p].0 == k;
                assert(before.contains(before[p]));
                assert(list.contains(before[p]));
                let q = choose|q: int| 0 <= q < list.len() && list[q] == before[p];
                assert(list[q].0 == k);
            }
        }
        assert(lists_attributes(list, attributes));
    }
}

} // verus!
