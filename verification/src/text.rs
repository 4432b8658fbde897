//! Equality and ordering of byte strings and of text.
//!
//! Text is ordered as Rust orders `str`: lexicographically by the bytes of its
//! UTF-8 encoding.

use vstd::prelude::*;
use vstd::string::StringSliceAdditionalSpecFns;
use vstd::utf8::encode_utf8;
use vstd::utf8::encode_utf8_decode_utf8;

verus! {

/// Lexicographic "less than or equal" on byte sequences.
pub open spec fn lex_le(a: Seq<u8>, b: Seq<u8>) -> bool
    decreases a.len(),
{
    if a.len() == 0 {
        true
    } else if b.len() == 0 {
        false
    } else if a[0] != b[0] {
        a[0] < b[0]
    } else {
        lex_le(a.drop_first(), b.drop_first())
    }
}

/// The order of text: that of its UTF-8 bytes.
pub open spec fn text_le(a: Seq<char>, b: Seq<char>) -> bool {
    lex_le(encode_utf8(a), encode_utf8(b))
}

/// Strictly before, in the order of text.
pub open spec fn text_lt(a: Seq<char>, b: Seq<char>) -> bool {
    text_le(a, b) && a != b
}

/// Every byte sequence is at most itself.
pub proof fn lemma_lex_le_refl(a: Seq<u8>)
    ensures
        lex_le(a, a),
    decreases a.len(),
{
    if a.len() > 0 {
        lemma_lex_le_refl(a.drop_first());
    }
}

/// Two byte sequences that are each at most the other are equal.
pub proof fn lemma_lex_le_antisym(a: Seq<u8>, b: Seq<u8>)
    requires
        lex_le(a, b),
        lex_le(b, a),
    ensures
        a == b,
    decreases a.len(),
{
    if a.len() == 0 {
        assert(b.len() == 0);
        assert(a =~= b);
    } else {
        lemma_lex_le_antisym(a.drop_first(), b.drop_first());
        assert(a =~= seq![a[0]] + a.drop_first());
        assert(b =~= seq![b[0]] + b.drop_first());
    }
}

/// The lexicographic order is transitive.
pub proof fn lemma_lex_le_trans(a: Seq<u8>, b: Seq<u8>, c: Seq<u8>)
    requires
        lex_le(a, b),
        lex_le(b, c),
    ensures
        lex_le(a, c),
    decreases a.len(),
{
    if a.len() > 0 && a[0] == b[0] && b[0] == c[0] {
        lemma_lex_le_trans(a.drop_first(), b.drop_first(), c.drop_first());
    }
}

/// Of two byte sequences one is at most the other.
pub proof fn lemma_lex_le_total(a: Seq<u8>, b: Seq<u8>)
    ensures
        lex_le(a, b) || lex_le(b, a),
    decreases a.len(),
{
    if a.len() > 0 && b.len() > 0 && a[0] == b[0] {
        lemma_lex_le_total(a.drop_first(), b.drop_first());
    }
}

/// Text is determined by its UTF-8 bytes.
pub proof fn lemma_encoding_injective(a: Seq<char>, b: Seq<char>)
    requires
        encode_utf8(a) == encode_utf8(b),
    ensures
        a == b,
{
    encode_utf8_decode_utf8(a);
    encode_utf8_decode_utf8(b);
}

/// The order of text is antisymmetric.
pub proof fn lemma_text_le_antisym(a: Seq<char>, b: Seq<char>)
    requires
        text_le(a, b),
        text_le(b, a),
    ensures
        a == b,
{
    lemma_lex_le_antisym(encode_utf8(a), encode_utf8(b));
    lemma_encoding_injective(a, b);
}

/// Tells whether two byte strings hold the same bytes.
pub fn bytes_eq(a: &[u8], b: &[u8]) -> (r: bool)
    ensures
        r == (a@ == b@),
{
    if a.len() != b.len() {
        return false;
    }
    let mut i: usize = 0;
    while i < a.len()
        invariant
            a.len() == b.len(),
            i <= a.len(),
            forall|j: int| 0 <= j < i ==> a@[j] == b@[j],
        decreases a.len() - i,
    {
        if a[i] != b[i] {
            return false;
        }
        i += 1;
    }
    assert(a@ =~= b@);
    true
}

/// Tells whether `a` comes at or before `b` in lexicographic order.
pub fn bytes_le(a: &[u8], b: &[u8]) -> (r: bool)
    ensures
        r == lex_le(a@, b@),
{
    let mut i: usize = 0;
    assert(a@.skip(0) =~= a@ && b@.skip(0) =~= b@);
    while i < a.len() && i < b.len()
        invariant
            i <= a.len(),
            i <= b.len(),
            lex_le(a@, b@) == lex_le(a@.skip(i as int), b@.skip(i as int)),
        decreases a.len() - i,
    {
        let ghost sa = a@.skip(i as int);
        let ghost sb = b@.skip(i as int);
        assert(sa[0] == a@[i as int] && sb[0] == b@[i as int]);
        assert(sa.drop_first() =~= a@.skip(i + 1));
        assert(sb.drop_first() =~= b@.skip(i + 1));
        if a[i] != b[i] {
            return a[i] < b[i];
        }
        i += 1;
    }
    assert(a@.skip(i as int).len() == a.len() - i);
    assert(b@.skip(i as int).len() == b.len() - i);
    i == a.len()
}

/// Tells whether two pieces of text are the same.
pub fn text_eq(a: &str, b: &str) -> (r: bool)
    ensures
        r == (a@ == b@),
{
    let r = bytes_eq(a.as_bytes(), b.as_bytes());
    proof {
        if r {
            lemma_encoding_injective(a@, b@);
        }
    }
    r
}

/// Tells whether `a` comes at or before `b` in the order of text.
pub fn text_at_most(a: &str, b: &str) -> (r: bool)
    ensures
        r == text_le(a@, b@),
{
    bytes_le(a.as_bytes(), b.as_bytes())
}

/// Each element comes at or before the ones behind it, in the order of text.
pub open spec fn sorted(names: Seq<Seq<char>>) -> bool {
    forall|i: int, j: int| 0 <= i < j < names.len() ==> text_le(names[i], names[j])
}

/// Each element comes strictly before the ones behind it, in the order of text.
pub open spec fn strictly_sorted(names: Seq<Seq<char>>) -> bool {
    forall|i: int, j: int| 0 <= i < j < names.len() ==> text_lt(names[i], names[j])
}

/// A sorted sequence without duplicates is strictly sorted.
pub proof fn lemma_sorted_distinct(names: Seq<Seq<char>>)
    requires
        sorted(names),
        names.no_duplicates(),
    ensures
        strictly_sorted(names),
{
}

/// Two strictly sorted sequences with the same elements are the same sequence.
pub proof fn lemma_sorted_sequences_of_one_set(s1: Seq<Seq<char>>, s2: Seq<Seq<char>>)
    requires
        strictly_sorted(s1),
        strictly_sorted(s2),
        s1.to_set() == s2.to_set(),
    ensures
        s1 == s2,
    decreases s1.len(),
{
    if s1.len() == 0 {
        if s2.len() > 0 {
            assert(s2.contains(s2[0]));
            assert(s1.to_set().contains(s2[0]));
            assert(s1.contains(s2[0]));
        }
        assert(s1 =~= s2);
    } else {
        assert(s1.contains(s1[0]));
        assert(s2.to_set().contains(s1[0]));
        assert(s2.contains(s1[0]));
        let j = choose|j: int| 0 <= j < s2.len() && s2[j] == s1[0];
        assert(s2.contains(s2[0]));
        assert(s1.to_set().contains(s2[0]));
        assert(s1.contains(s2[0]));
        let i = choose|i: int| 0 <= i < s1.len() && s1[i] == s2[0];
        lemma_lex_le_refl(encode_utf8(s1[0]));
        assert(text_le(s1[0], s2[0])) by {
            if i > 0 {
                assert(text_lt(s1[0], s1[i]));
            }
        }
        assert(text_le(s2[0], s1[0])) by {
            if j > 0 {
                assert(text_lt(s2[0], s2[j]));
            }
        }
        lemma_text_le_antisym(s1[0], s2[0]);
        let t1 = s1.drop_first();
        let t2 = s2.drop_first();
        assert forall|x: Seq<char>| t1.to_set().contains(x) <==> t2.to_set().contains(x) by {
            if t1.contains(x) {
                let k = choose|k: int| 0 <= k < t1.len() && t1[k] == x;
                assert(s1[k + 1] == x);
                assert(text_lt(s1[0], s1[k + 1]));
                assert(s1.contains(x));
                assert(s2.to_set().contains(x));
                assert(s2.contains(x));
                let m = choose|m: int| 0 <= m < s2.len() && s2[m] == x;
                assert(m != 0);
                assert(t2[m - 1] == x);
            }
            if t2.contains(x) {
                let k = choose|k: int| 0 <= k < t2.len() && t2[k] == x;
                assert(s2[k + 1] == x);
                assert(text_lt(s2[0], s2[k + 1]));
                assert(s2.contains(x));
                assert(s1.to_set().contains(x));
                assert(s1.contains(x));
                let m = choose|m: int| 0 <= m < s1.len() && s1[m] == x;
                assert(m != 0);
                assert(t1[m - 1] == x);
            }
        }
        assert(t1.to_set() =~= t2.to_set());
        assert(strictly_sorted(t1)) by {
            assert forall|a: int, b: int| 0 <= a < b < t1.len() implies text_lt(t1[a], t1[b]) by {
                assert(text_lt(s1[a + 1], s1[b + 1]));
            }
        }
        assert(strictly_sorted(t2)) by {
            assert forall|a: int, b: int| 0 <= a < b < t2.len() implies text_lt(t2[a], t2[b]) by {
                assert(text_lt(s2[a + 1], s2[b + 1]));
            }
        }
        lemma_sorted_sequences_of_one_set(t1, t2);
        assert(s1 =~= seq![s1[0]] + t1);
        assert(s2 =~= seq![s2[0]] + t2);
    }
}

/// A rearrangement of a sequence without duplicates has no duplicates and
/// the same elements.
pub proof fn lemma_rearranged_distinct(names: Seq<Seq<char>>, other: Seq<Seq<char>>)
    requires
        names.no_duplicates(),
        names.to_multiset() == other.to_multiset(),
    ensures
        other.no_duplicates(),
        other.to_set() == names.to_set(),
{
    names.to_multiset_ensures();
    other.to_multiset_ensures();
    names.lemma_multiset_has_no_duplicates();
    other.lemma_multiset_has_no_duplicates_conv();
    assert forall|x: Seq<char>| other.to_set().contains(x) <==> names.to_set().contains(x) by {
        assert(other.contains(x) <==> other.to_multiset().count(x) > 0);
        assert(names.contains(x) <==> names.to_multiset().count(x) > 0);
    }
    assert(other.to_set() =~= names.to_set());
}

/// The text of each string of `names`.
pub open spec fn texts(names: Seq<String>) -> Seq<Seq<char>> {
    Seq::new(names.len(), |i: int| names[i]@)
}

/// Sorts `names` in the order of text: the result holds the names of `names`,
/// each as often as `names` holds it, in that order.
pub fn sort_names(names: &Vec<String>) -> (result: Vec<String>)
    ensures
        sorted(texts(result@)),
        texts(result@).to_multiset() == texts(names@).to_multiset(),
{
    let mut result: Vec<String> = Vec::new();
    let ghost input = texts(names@);
    let mut i: usize = 0;
    assert(texts(result@) =~= input.take(0));
    while i < names.len()
        invariant
            i <= names.len(),
            input == texts(names@),
            sorted(texts(result@)),
            texts(result@).to_multiset() == input.take(i as int).to_multiset(),
        decreases names.len() - i,
    {
        let name = names[i].clone();
        let ghost before = texts(result@);
        let mut p: usize = 0;
        while p < result.len() && text_at_most(result[p].as_str(), name.as_str())
            invariant
                p <= result.len(),
                before == texts(result@),
                forall|q: int| 0 <= q < p ==> text_le(before[q], name@),
            decreases result.len() - p,
        {
            p += 1;
        }
        result.insert(p, name);
        proof {
            let after = texts(result@);
            assert(after =~= before.insert(p as int, name@));
            vstd::seq_lib::to_multiset_insert(before, p as int, name@);
            assert(input.take(i + 1) =~= input.take(i as int).push(name@));
            vstd::seq_lib::to_multiset_build(input.take(i as int), name@);
            assert(sorted(after)) by {
                assert forall|a: int, b: int| 0 <= a < b < after.len() implies text_le(
                    after[a],
                    after[b],
                ) by {
                    if b < p {
                        assert(text_le(before[a], before[b]));
                    } else if b == p {
                        assert(text_le(before[a], name@));
                    } else if a < p {
                        assert(text_le(before[a], before[b - 1]));
                    } else if a == p {
                        assert(!text_le(before[p as int], name@));
                        lemma_lex_le_total(encode_utf8(before[p as int]), encode_utf8(name@));
                        if b - 1 > p {
                            assert(text_le(before[p as int], before[b - 1]));
                            lemma_lex_le_trans(
                                encode_utf8(name@),
                                encode_utf8(before[p as int]),
                                encode_utf8(before[b - 1]),
                            );
                        }
                    } else {
                        assert(text_le(before[a - 1], before[b - 1]));
                    }
                }
            }
        }
        i += 1;
    }
    assert(input.take(names.len() as int) =~= input);
    result
}

/// Tells whether two lists of names are the same list.
pub fn same_names(first: &Vec<String>, second: &Vec<String>) -> (same: bool)
    ensures
        same == (texts(first@) == texts(second@)),
{
    if first.len() != second.len() {
        assert(texts(first@).len() != texts(second@).len());
        return false;
    }
    let mut i: usize = 0;
    while i < first.len()
        invariant
            first.len() == second.len(),
            i <= first.len(),
            forall|k: int| 0 <= k < i ==> first@[k]@ == second@[k]@,
        decreases first.len() - i,
    {
        if !text_eq(first[i].as_str(), second[i].as_str()) {
            assert(texts(first@)[i as int] != texts(second@)[i as int]);
            return false;
        }
        i += 1;
    }
    assert(texts(first@) =~= texts(second@));
    true
}

} // verus!
