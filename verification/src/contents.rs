//! The content comparator and the comparison of two archives as a whole.
//!
//! Every entry of the first archive that is not ignored is looked up in the
//! second. The manifest is compared by the canonical text of the document it
//! encodes; every other entry byte for byte.

use crate::archive::Archive;
use crate::archive::content_of;
use crate::archive::distinct_names;
use crate::archive::has_name;
use crate::archive::lemma_position_unique;
use crate::decode::decode;
use crate::decode::decoded;
use crate::ignore::IgnoreSet;
use crate::names::lemma_name_findings_respect_ignore;
use crate::names::lemma_names_match_reflexive;
use crate::names::name_findings;
use crate::names::names_match;
use crate::names::report_entry_names;
use crate::report::Diff;
use crate::report::Finding;
use crate::report::named_entry;
use crate::report::Report;
use crate::text::bytes_eq;
use crate::text::text_eq;
use crate::unambiguous::lemma_canonical_text_injective;
use crate::xml::canonical_text;
use crate::xml::listed;
use crate::xml::MalformedBinaryXml;
use vstd::prelude::*;
use vstd::string::StringExecFns;

verus! {

/// The name of the entry that holds the manifest.
pub open spec fn manifest_name() -> Seq<char> {
    "AndroidManifest.xml"@
}

/// One of the two archives of a comparison.
#[derive(Debug, Clone, Copy, PartialEq, Eq, Structural)]
pub enum Side {
    /// The first archive: the rebuilt package.
    First,
    /// The second archive: the reference package.
    Second,
}

/// A failure that ends a comparison: an input could not be trusted, which is
/// something else than a divergence between the two archives.
#[derive(Debug)]
pub enum CompareError {
    /// The entry called `name` of the archive on `side` is no well-formed
    /// binary XML document.
    MalformedBinaryXml { name: String, side: Side },
}

impl CompareError {
    /// The entry that the failure is about.
    pub open spec fn entry(&self) -> Seq<char> {
        match self {
            CompareError::MalformedBinaryXml { name, side } => name@,
        }
    }

    /// The archive that the failure is about.
    pub open spec fn side(&self) -> Side {
        match self {
            CompareError::MalformedBinaryXml { name, side } => *side,
        }
    }

    /// The line that reports the failure.
    pub fn message(&self) -> (line: String)
        ensures
            line@ == "Entry "@ + self.entry() + (match self.side() {
                Side::First => " of the first APK is malformed binary XML"@,
                Side::Second => " of the second APK is malformed binary XML"@,
            }),
    {
        match self {
            CompareError::MalformedBinaryXml { name, side } => {
                let head = String::from_str("Entry ").concat(name.as_str());
                match side {
                    Side::First => head.concat(" of the first APK is malformed binary XML"),
                    Side::Second => head.concat(" of the second APK is malformed binary XML"),
                }
            },
        }
    }
}

/// The canonical text of the document that `bytes` encode, if they encode
/// one.
pub open spec fn manifest_text(bytes: Seq<u8>) -> Option<Seq<char>> {
    match decoded(bytes) {
        Some(tree) => Some(canonical_text(tree)),
        None => None,
    }
}

/// What the comparison of the content of an entry of the first archive with
/// the content of the entry of its name in the second archive gives, if the
/// second archive has such an entry: a finding, nothing, or the side whose
/// manifest cannot be decoded.
pub open spec fn pair_outcome(name: Seq<char>, first: Seq<u8>, second: Option<Seq<u8>>) -> Result<
    Option<Finding>,
    Side,
> {
    match second {
        None => Ok(Some(Finding::MissingFromSecond(name))),
        Some(other) => if name == manifest_name() {
            match (manifest_text(first), manifest_text(other)) {
                (None, _) => Err(Side::First),
                (Some(_), None) => Err(Side::Second),
                (Some(a), Some(b)) => if a == b {
                    Ok(None)
                } else {
                    Ok(Some(Finding::ManifestMismatch))
                },
            }
        } else if first == other {
            Ok(None)
        } else {
            Ok(Some(Finding::ContentMismatch(name)))
        },
    }
}

/// What the comparison of one entry of the first archive with the second
/// archive gives.
pub open spec fn entry_outcome(
    name: Seq<char>,
    content: Seq<u8>,
    second: Seq<(Seq<char>, Seq<u8>)>,
) -> Result<Option<Finding>, Side> {
    pair_outcome(
        name,
        content,
        if has_name(second, name) {
            Some(content_of(second, name))
        } else {
            None
        },
    )
}

/// The findings of the comparison of the first `count` entries of `first`,
/// in their order. Ignored entries give none, and neither does an entry whose
/// manifest cannot be decoded.
pub open spec fn content_findings(
    first: Seq<(Seq<char>, Seq<u8>)>,
    second: Seq<(Seq<char>, Seq<u8>)>,
    ignore: Set<Seq<char>>,
    count: nat,
) -> Seq<Finding>
    decreases count,
{
    if count == 0 || count > first.len() {
        Seq::empty()
    } else {
        let before = content_findings(first, second, ignore, (count - 1) as nat);
        let entry = first[count - 1];
        if ignore.contains(entry.0) {
            before
        } else {
            match entry_outcome(entry.0, entry.1, second) {
                Ok(Some(finding)) => before.push(finding),
                _ => before,
            }
        }
    }
}

/// The first of the first `count` entries of `first` that is not ignored and
/// whose comparison fails, with the side that it fails on; `None` where there
/// is no such entry.
pub open spec fn content_failure(
    first: Seq<(Seq<char>, Seq<u8>)>,
    second: Seq<(Seq<char>, Seq<u8>)>,
    ignore: Set<Seq<char>>,
    count: nat,
) -> Option<(Seq<char>, Side)>
    decreases count,
{
    if count == 0 || count > first.len() {
        None
    } else {
        let entry = first[count - 1];
        match content_failure(first, second, ignore, (count - 1) as nat) {
            Some(failure) => Some(failure),
            None => if ignore.contains(entry.0) {
                None
            } else {
                match entry_outcome(entry.0, entry.1, second) {
                    Err(side) => Some((entry.0, side)),
                    _ => None,
                }
            },
        }
    }
}

/// The canonical text of the document that `bytes` encode.
pub fn canonical_manifest(bytes: &[u8]) -> (text: Option<String>)
    ensures
        text is Some <==> manifest_text(bytes@) is Some,
        text matches Some(t) ==> manifest_text(bytes@) == Some(t@),
{
    match decode(bytes) {
        Ok(doc) => Some(doc.to_canonical_text()),
        Err(_) => None,
    }
}

/// The bytes of a content, if there is one.
pub open spec fn bytes_of(content: Option<&[u8]>) -> Option<Seq<u8>> {
    match content {
        Some(bytes) => Some(bytes@),
        None => None,
    }
}

/// Compares the content of the entry called `name` in the first archive with
/// the content of the entry of that name in the second archive, if it has
/// one. The manifest is compared by its canonical text, every other entry
/// byte for byte.
pub fn compare_entry_pair(name: &str, first: &[u8], second: Option<&[u8]>) -> (outcome: Result<
    Option<Diff>,
    CompareError,
>)
    ensures
        match outcome {
            Ok(None) => pair_outcome(name@, first@, bytes_of(second)) == Ok::<
                Option<Finding>,
                Side,
            >(None),
            Ok(Some(diff)) => pair_outcome(name@, first@, bytes_of(second)) == Ok::<
                Option<Finding>,
                Side,
            >(Some(diff@)),
            Err(error) => pair_outcome(name@, first@, bytes_of(second)) == Err::<
                Option<Finding>,
                Side,
            >(error.side()) && error.entry() == name@,
        },
{
    let other = match second {
        Some(other) => other,
        None => {
            return Ok(Some(Diff::MissingFromSecond(name.to_owned())));
        },
    };
    if text_eq(name, "AndroidManifest.xml") {
        let first_text = match canonical_manifest(first) {
            Some(text) => text,
            None => {
                return Err(
                    CompareError::MalformedBinaryXml { name: name.to_owned(), side: Side::First },
                );
            },
        };
        let second_text = match canonical_manifest(other) {
            Some(text) => text,
            None => {
                return Err(
                    CompareError::MalformedBinaryXml { name: name.to_owned(), side: Side::Second },
                );
            },
        };
        if text_eq(first_text.as_str(), second_text.as_str()) {
            Ok(None)
        } else {
            Ok(Some(Diff::ManifestMismatch))
        }
    } else if bytes_eq(first, other) {
        Ok(None)
    } else {
        Ok(Some(Diff::ContentMismatch(name.to_owned())))
    }
}

/// Compares the entry called `name`, with the given content, to the entry of
/// that name in `second`.
pub fn compare_entry(name: &str, content: &[u8], second: &Archive) -> (outcome: Result<
    Option<Diff>,
    CompareError,
>)
    ensures
        match outcome {
            Ok(None) => entry_outcome(name@, content@, second@) == Ok::<Option<Finding>, Side>(
                None,
            ),
            Ok(Some(diff)) => entry_outcome(name@, content@, second@) == Ok::<
                Option<Finding>,
                Side,
            >(Some(diff@)),
            Err(error) => entry_outcome(name@, content@, second@) == Err::<Option<Finding>, Side>(
                error.side(),
            ) && error.entry() == name@,
        },
{
    compare_entry_pair(name, content, second.get(name))
}

/// Compares the content of every entry of `first` that is not ignored with
/// the entry of its name in `second`. A manifest that cannot be decoded ends
/// the comparison with an error; every other divergence is collected, and the
/// comparison goes on.
pub fn compare_entry_contents(first: &Archive, second: &Archive, ignore: &IgnoreSet) -> (outcome:
    Result<Report, CompareError>)
    ensures
        match outcome {
            Ok(report) => content_failure(first@, second@, ignore@, first@.len()) is None
                && report@ == content_findings(first@, second@, ignore@, first@.len()),
            Err(error) => content_failure(first@, second@, ignore@, first@.len()) == Some(
                (error.entry(), error.side()),
            ),
        },
{
    let mut report = Report::new();
    let n = first.len();
    let mut i: usize = 0;
    while i < n
        invariant
            n == first@.len(),
            i <= n,
            content_failure(first@, second@, ignore@, i as nat) is None,
            report@ == content_findings(first@, second@, ignore@, i as nat),
        decreases n - i,
    {
        let name = first.name(i);
        if !ignore.is_ignored(name) {
            match compare_entry(name, first.content(i), second) {
                Ok(None) => {},
                Ok(Some(diff)) => {
                    report.push(diff);
                },
                Err(error) => {
                    proof {
                        lemma_failure_stays(first@, second@, ignore@, (i + 1) as nat, n as nat);
                    }
                    return Err(error);
                },
            }
        }
        i += 1;
    }
    Ok(report)
}

/// A failure among the first `count` entries is the failure among the first
/// `more` entries, for every `more` that is at least `count`.
pub proof fn lemma_failure_stays(
    first: Seq<(Seq<char>, Seq<u8>)>,
    second: Seq<(Seq<char>, Seq<u8>)>,
    ignore: Set<Seq<char>>,
    count: nat,
    more: nat,
)
    requires
        count <= more <= first.len(),
        content_failure(first, second, ignore, count) is Some,
    ensures
        content_failure(first, second, ignore, more) == content_failure(
            first,
            second,
            ignore,
            count,
        ),
    decreases more,
{
    if count < more {
        lemma_failure_stays(first, second, ignore, count, (more - 1) as nat);
    }
}

/// The findings of the whole comparison: those of the names, and behind them
/// those of the contents.
pub open spec fn all_findings(
    first: Seq<(Seq<char>, Seq<u8>)>,
    second: Seq<(Seq<char>, Seq<u8>)>,
    ignore: Set<Seq<char>>,
) -> Seq<Finding> {
    name_findings(first, second, ignore) + content_findings(first, second, ignore, first.len())
}

/// Compares two archives: first the names they list, then the contents of
/// their entries. Both comparisons are always made. The report passes exactly
/// when the names match and no content diverges.
pub fn compare_apks(first: &Archive, second: &Archive, ignore: &IgnoreSet) -> (outcome: Result<
    Report,
    CompareError,
>)
    ensures
        match outcome {
            Ok(report) => content_failure(first@, second@, ignore@, first@.len()) is None
                && report@ == all_findings(first@, second@, ignore@),
            Err(error) => content_failure(first@, second@, ignore@, first@.len()) == Some(
                (error.entry(), error.side()),
            ),
        },
{
    let mut report = report_entry_names(first, second, ignore);
    match compare_entry_contents(first, second, ignore) {
        Ok(contents) => {
            report.append(contents);
            Ok(report)
        },
        Err(error) => Err(error),
    }
}

/// The whole comparison has no finding exactly when the names match and the
/// comparison of contents has no finding.
pub proof fn lemma_no_finding_means_match(
    first: Seq<(Seq<char>, Seq<u8>)>,
    second: Seq<(Seq<char>, Seq<u8>)>,
    ignore: Set<Seq<char>>,
)
    ensures
        all_findings(first, second, ignore).len() == 0 <==> names_match(first, second, ignore)
            && content_findings(first, second, ignore, first.len()).len() == 0,
{
}

/// Each finding of the comparison of contents that names an entry names one
/// of the first archive that is not ignored.
pub proof fn lemma_content_findings_respect_ignore(
    first: Seq<(Seq<char>, Seq<u8>)>,
    second: Seq<(Seq<char>, Seq<u8>)>,
    ignore: Set<Seq<char>>,
    count: nat,
    k: int,
)
    requires
        0 <= k < content_findings(first, second, ignore, count).len(),
    ensures
        named_entry(content_findings(first, second, ignore, count)[k]) matches Some(name)
            ==> !ignore.contains(name) && has_name(first, name),
    decreases count,
{
    if count > 0 && count <= first.len() {
        let before = content_findings(first, second, ignore, (count - 1) as nat);
        if k < before.len() {
            lemma_content_findings_respect_ignore(first, second, ignore, (count - 1) as nat, k);
        }
    }
}

/// No finding of a comparison names an ignored entry, whatever the two
/// archives hold under that name.
pub proof fn lemma_findings_respect_ignore(
    first: Seq<(Seq<char>, Seq<u8>)>,
    second: Seq<(Seq<char>, Seq<u8>)>,
    ignore: Set<Seq<char>>,
    k: int,
)
    requires
        0 <= k < all_findings(first, second, ignore).len(),
    ensures
        named_entry(all_findings(first, second, ignore)[k]) matches Some(name)
            ==> !ignore.contains(name),
{
    let names = name_findings(first, second, ignore);
    if k < names.len() {
        lemma_name_findings_respect_ignore(first, second, ignore, k);
    } else {
        lemma_content_findings_respect_ignore(
            first,
            second,
            ignore,
            first.len(),
            k - names.len(),
        );
    }
}

/// No comparison fails on an ignored entry: the entry that a failure names is
/// the manifest of the first archive, and it is not ignored.
pub proof fn lemma_failure_respects_ignore(
    first: Seq<(Seq<char>, Seq<u8>)>,
    second: Seq<(Seq<char>, Seq<u8>)>,
    ignore: Set<Seq<char>>,
    count: nat,
)
    ensures
        content_failure(first, second, ignore, count) matches Some(failure)
            ==> !ignore.contains(failure.0) && failure.0 == manifest_name() && has_name(
            first,
            failure.0,
        ),
    decreases count,
{
    if count > 0 && count <= first.len() {
        lemma_failure_respects_ignore(first, second, ignore, (count - 1) as nat);
    }
}

/// The comparison of contents has no finding about an archive and itself,
/// and does not fail on it, where its manifest can be decoded.
pub proof fn lemma_same_contents(
    archive: Seq<(Seq<char>, Seq<u8>)>,
    ignore: Set<Seq<char>>,
    count: nat,
)
    requires
        distinct_names(archive),
        count <= archive.len(),
        has_name(archive, manifest_name()) && !ignore.contains(manifest_name()) ==> manifest_text(
            content_of(archive, manifest_name()),
        ) is Some,
    ensures
        content_failure(archive, archive, ignore, count) is None,
        content_findings(archive, archive, ignore, count) == Seq::<Finding>::empty(),
    decreases count,
{
    if count > 0 {
        lemma_same_contents(archive, ignore, (count - 1) as nat);
        lemma_position_unique(archive, count - 1);
    }
}

/// Comparing an archive with itself gives a report without findings, where
/// its manifest can be decoded. (Where it cannot, the comparison fails on
/// it.)
pub proof fn lemma_self_comparison_passes(
    archive: Seq<(Seq<char>, Seq<u8>)>,
    ignore: Set<Seq<char>>,
)
    requires
        distinct_names(archive),
        has_name(archive, manifest_name()) && !ignore.contains(manifest_name()) ==> manifest_text(
            content_of(archive, manifest_name()),
        ) is Some,
    ensures
        names_match(archive, archive, ignore),
        content_failure(archive, archive, ignore, archive.len()) is None,
        all_findings(archive, archive, ignore) == Seq::<Finding>::empty(),
{
    lemma_names_match_reflexive(archive, ignore);
    lemma_same_contents(archive, ignore, archive.len());
}

/// Two manifests that encode one document are not reported as different,
/// whatever their bytes.
pub proof fn lemma_same_document_no_mismatch(content: Seq<u8>, second: Seq<(Seq<char>, Seq<u8>)>)
    requires
        has_name(second, manifest_name()),
        decoded(content) is Some,
        decoded(content) == decoded(content_of(second, manifest_name())),
    ensures
        entry_outcome(manifest_name(), content, second) == Ok::<Option<Finding>, Side>(None),
{
}

/// Two manifests are reported as different exactly when they encode
/// different documents.
pub proof fn lemma_manifest_mismatch_is_another_document(
    content: Seq<u8>,
    second: Seq<(Seq<char>, Seq<u8>)>,
)
    requires
        has_name(second, manifest_name()),
        decoded(content) is Some,
        decoded(content_of(second, manifest_name())) is Some,
        listed(decoded(content)->0),
        listed(decoded(content_of(second, manifest_name()))->0),
    ensures
        entry_outcome(manifest_name(), content, second) == (if decoded(content) == decoded(
            content_of(second, manifest_name()),
        ) {
            Ok::<Option<Finding>, Side>(None)
        } else {
            Ok::<Option<Finding>, Side>(Some(Finding::ManifestMismatch))
        }),
{
    let one = decoded(content)->0;
    let other = decoded(content_of(second, manifest_name()))->0;
    if canonical_text(one) == canonical_text(other) {
        lemma_canonical_text_injective(one, other);
    }
}

} // verus!
