//! The entry index comparator: do two archives list the same names, the
//! ignored ones apart?

use crate::archive::Archive;
use crate::archive::distinct_names;
use crate::archive::has_name;
use crate::archive::name_set;
use crate::ignore::IgnoreSet;
use crate::report::Diff;
use crate::report::Finding;
use crate::report::named_entry;
use crate::report::Report;
use crate::text::lemma_rearranged_distinct;
use crate::text::lemma_sorted_distinct;
use crate::text::lemma_sorted_sequences_of_one_set;
use crate::text::same_names;
use crate::text::sort_names;
use crate::text::texts;
use vstd::prelude::*;

verus! {

/// The names of `entries` that `ignore` does not hold.
pub open spec fn kept_names(entries: Seq<(Seq<char>, Seq<u8>)>, ignore: Set<Seq<char>>) -> Set<
    Seq<char>,
> {
    name_set(entries).difference(ignore)
}

/// The two archives list the same names, the ignored ones apart.
pub open spec fn names_match(
    first: Seq<(Seq<char>, Seq<u8>)>,
    second: Seq<(Seq<char>, Seq<u8>)>,
    ignore: Set<Seq<char>>,
) -> bool {
    kept_names(first, ignore) == kept_names(second, ignore)
}

/// The names of the first `count` entries of `entries` that `ignore` does
/// not hold, in their order.
pub open spec fn kept_sequence(
    entries: Seq<(Seq<char>, Seq<u8>)>,
    ignore: Set<Seq<char>>,
    count: nat,
) -> Seq<Seq<char>>
    decreases count,
{
    if count == 0 || count > entries.len() {
        Seq::empty()
    } else {
        let before = kept_sequence(entries, ignore, (count - 1) as nat);
        if ignore.contains(entries[count - 1].0) {
            before
        } else {
            before.push(entries[count - 1].0)
        }
    }
}

/// The kept names of entries with distinct names are distinct, and they are
/// the names of the entries that are not ignored.
pub proof fn lemma_kept_sequence(
    entries: Seq<(Seq<char>, Seq<u8>)>,
    ignore: Set<Seq<char>>,
    count: nat,
)
    requires
        distinct_names(entries),
        count <= entries.len(),
    ensures
        kept_sequence(entries, ignore, count).no_duplicates(),
        forall|x: Seq<char>| #[trigger]
            kept_sequence(entries, ignore, count).contains(x) <==> (!ignore.contains(x)
                && exists|k: int| 0 <= k < count && entries[k].0 == x),
        count == entries.len() ==> kept_sequence(entries, ignore, count).to_set() == kept_names(
            entries,
            ignore,
        ),
    decreases count,
{
    let kept = kept_sequence(entries, ignore, count);
    if count > 0 {
        let before = kept_sequence(entries, ignore, (count - 1) as nat);
        lemma_kept_sequence(entries, ignore, (count - 1) as nat);
        let name = entries[count - 1].0;
        assert(!before.contains(name)) by {
            if before.contains(name) {
                let k = choose|k: int| 0 <= k < count - 1 && entries[k].0 == name;
                assert(entries[k].0 != entries[count - 1].0);
            }
        }
        assert forall|x: Seq<char>| #[trigger]
            kept.contains(x) <==> (!ignore.contains(x) && exists|k: int|
                0 <= k < count && entries[k].0 == x) by {
            if kept.contains(x) {
                let p = choose|p: int| 0 <= p < kept.len() && kept[p] == x;
                if p < before.len() {
                    assert(before[p] == x);
                    assert(before.contains(x));
                    let k = choose|k: int| 0 <= k < count - 1 && entries[k].0 == x;
                    assert(0 <= k < count && entries[k].0 == x);
                } else {
                    assert(entries[count - 1].0 == x);
                }
            }
            if !ignore.contains(x) && exists|k: int| 0 <= k < count && entries[k].0 == x {
                let k = choose|k: int| 0 <= k < count && entries[k].0 == x;
                if k < count - 1 {
                    assert(before.contains(x));
                    let p = choose|p: int| 0 <= p < before.len() && before[p] == x;
                    assert(kept[p] == x);
                } else {
                    assert(kept[before.len() as int] == x);
                }
            }
        }
        assert(kept.no_duplicates()) by {
            assert forall|i: int, j: int|
                0 <= i < kept.len() && 0 <= j < kept.len() && i != j implies kept[i]
                != kept[j] by {
                if i < before.len() && j < before.len() {
                    assert(before[i] != before[j]);
                } else if i < before.len() {
                    assert(before.contains(before[i]));
                } else if j < before.len() {
                    assert(before.contains(before[j]));
                }
            }
        }
    }
    if count == entries.len() {
        assert forall|x: Seq<char>| kept.to_set().contains(x) <==> kept_names(
            entries,
            ignore,
        ).contains(x) by {
            if kept.contains(x) {
                let k = choose|k: int| 0 <= k < count && entries[k].0 == x;
                assert(has_name(entries, x));
            }
            if kept_names(entries, ignore).contains(x) {
                assert(has_name(entries, x));
            }
        }
        assert(kept.to_set() =~= kept_names(entries, ignore));
    }
}

/// The names of `archive` that `ignore` does not hold, in archive order.
pub fn kept_entry_names(archive: &Archive, ignore: &IgnoreSet) -> (names: Vec<String>)
    ensures
        texts(names@) == kept_sequence(archive@, ignore@, archive@.len()),
{
    let n = archive.len();
    let mut names: Vec<String> = Vec::new();
    let mut i: usize = 0;
    assert(texts(names@) =~= kept_sequence(archive@, ignore@, 0));
    while i < n
        invariant
            n == archive@.len(),
            i <= n,
            texts(names@) == kept_sequence(archive@, ignore@, i as nat),
        decreases n - i,
    {
        let name = archive.name(i);
        if !ignore.is_ignored(name) {
            let ghost before = texts(names@);
            names.push(name.to_owned());
            assert(texts(names@) =~= before.push(name@));
        }
        i += 1;
    }
    names
}

/// Compares the names that the two archives list, the ignored ones apart.
/// The names of each archive are filtered, sorted in the order of text and
/// compared as sequences, so the order of the entries in an archive does not
/// count.
pub fn compare_entry_names(first: &Archive, second: &Archive, ignore: &IgnoreSet) -> (same: bool)
    ensures
        same == names_match(first@, second@, ignore@),
{
    let first_kept = kept_entry_names(first, ignore);
    let second_kept = kept_entry_names(second, ignore);
    let first_names = sort_names(&first_kept);
    let second_names = sort_names(&second_kept);
    let same = same_names(&first_names, &second_names);
    proof {
        use_type_invariant(first);
        use_type_invariant(second);
        lemma_kept_sequence(first@, ignore@, first@.len());
        lemma_kept_sequence(second@, ignore@, second@.len());
        lemma_rearranged_distinct(texts(first_kept@), texts(first_names@));
        lemma_rearranged_distinct(texts(second_kept@), texts(second_names@));
        lemma_sorted_distinct(texts(first_names@));
        lemma_sorted_distinct(texts(second_names@));
        if !same && names_match(first@, second@, ignore@) {
            lemma_sorted_sequences_of_one_set(texts(first_names@), texts(second_names@));
        }
    }
    same
}

/// What the second archive holds beyond the first: for each of the first
/// `count` entries of `second`, in their order, that is neither ignored nor
/// present in `first`, a finding that names it.
pub open spec fn extra_findings(
    first: Seq<(Seq<char>, Seq<u8>)>,
    second: Seq<(Seq<char>, Seq<u8>)>,
    ignore: Set<Seq<char>>,
    count: nat,
) -> Seq<Finding>
    decreases count,
{
    if count == 0 || count > second.len() {
        Seq::empty()
    } else {
        let before = extra_findings(first, second, ignore, (count - 1) as nat);
        let name = second[count - 1].0;
        if ignore.contains(name) || has_name(first, name) {
            before
        } else {
            before.push(Finding::ExtraInSecond(name))
        }
    }
}

/// The findings of the comparison of names: none where the names match;
/// otherwise the mismatch, and behind it what the second archive holds beyond
/// the first.
pub open spec fn name_findings(
    first: Seq<(Seq<char>, Seq<u8>)>,
    second: Seq<(Seq<char>, Seq<u8>)>,
    ignore: Set<Seq<char>>,
) -> Seq<Finding> {
    if names_match(first, second, ignore) {
        Seq::empty()
    } else {
        seq![Finding::NameSetMismatch] + extra_findings(first, second, ignore, second.len())
    }
}

/// Compares the names that the two archives list, and reports how they
/// diverge.
pub fn report_entry_names(first: &Archive, second: &Archive, ignore: &IgnoreSet) -> (report:
    Report)
    ensures
        report@ == name_findings(first@, second@, ignore@),
{
    let mut report = Report::new();
    if compare_entry_names(first, second, ignore) {
        return report;
    }
    report.push(Diff::NameSetMismatch);
    let n = second.len();
    let mut i: usize = 0;
    while i < n
        invariant
            n == second@.len(),
            i <= n,
            report@ == seq![Finding::NameSetMismatch] + extra_findings(
                first@,
                second@,
                ignore@,
                i as nat,
            ),
        decreases n - i,
    {
        let name = second.name(i);
        if !ignore.is_ignored(name) && first.find(name).is_none() {
            report.push(Diff::ExtraInSecond(name.to_owned()));
        }
        i += 1;
    }
    report
}

/// The comparison of names is symmetric: it does not matter which of the two
/// archives comes first.
pub proof fn lemma_names_match_symmetric(
    first: Seq<(Seq<char>, Seq<u8>)>,
    second: Seq<(Seq<char>, Seq<u8>)>,
    ignore: Set<Seq<char>>,
)
    ensures
        names_match(first, second, ignore) == names_match(second, first, ignore),
{
}

/// An archive lists the names that it lists.
pub proof fn lemma_names_match_reflexive(
    archive: Seq<(Seq<char>, Seq<u8>)>,
    ignore: Set<Seq<char>>,
)
    ensures
        names_match(archive, archive, ignore),
        name_findings(archive, archive, ignore) == Seq::<Finding>::empty(),
{
}

/// Two archives without entries that are not ignored list the same names.
pub proof fn lemma_nothing_kept_matches(
    first: Seq<(Seq<char>, Seq<u8>)>,
    second: Seq<(Seq<char>, Seq<u8>)>,
    ignore: Set<Seq<char>>,
)
    requires
        forall|i: int| 0 <= i < first.len() ==> ignore.contains(#[trigger] first[i].0),
        forall|i: int| 0 <= i < second.len() ==> ignore.contains(#[trigger] second[i].0),
    ensures
        names_match(first, second, ignore),
{
    assert(kept_names(first, ignore) =~= kept_names(second, ignore));
}

/// Each finding about what the second archive holds beyond the first names
/// an entry of the second archive that is neither ignored nor in the first.
pub proof fn lemma_extra_findings(
    first: Seq<(Seq<char>, Seq<u8>)>,
    second: Seq<(Seq<char>, Seq<u8>)>,
    ignore: Set<Seq<char>>,
    count: nat,
    k: int,
)
    requires
        0 <= k < extra_findings(first, second, ignore, count).len(),
    ensures
        extra_findings(first, second, ignore, count)[k] matches Finding::ExtraInSecond(name)
            && !ignore.contains(name) && !has_name(first, name) && has_name(second, name),
    decreases count,
{
    if count > 0 && count <= second.len() {
        let before = extra_findings(first, second, ignore, (count - 1) as nat);
        if k < before.len() {
            lemma_extra_findings(first, second, ignore, (count - 1) as nat, k);
        }
    }
}

/// No finding of the comparison of names names an ignored entry.
pub proof fn lemma_name_findings_respect_ignore(
    first: Seq<(Seq<char>, Seq<u8>)>,
    second: Seq<(Seq<char>, Seq<u8>)>,
    ignore: Set<Seq<char>>,
    k: int,
)
    requires
        0 <= k < name_findings(first, second, ignore).len(),
    ensures
        named_entry(name_findings(first, second, ignore)[k]) matches Some(name)
            ==> !ignore.contains(name),
{
    if k > 0 {
        lemma_extra_findings(first, second, ignore, second.len(), k - 1);
    }
}

} // verus!
