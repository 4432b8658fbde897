//! Findings of a comparison and the report that collects them.

use vstd::prelude::*;
use vstd::string::StringExecFns;

verus! {

/// What a finding says, over plain text.
pub enum Finding {
    /// An entry of the first archive has no counterpart in the second.
    MissingFromSecond(Seq<char>),
    /// An entry of the second archive has no counterpart in the first.
    ExtraInSecond(Seq<char>),
    /// The two archives do not list the same names.
    NameSetMismatch,
    /// An entry holds different bytes in the two archives.
    ContentMismatch(Seq<char>),
    /// The two manifests differ in structure.
    ManifestMismatch,
}

/// One divergence between two archives.
#[derive(Debug, PartialEq, Eq)]
pub enum Diff {
    /// An entry of the first archive has no counterpart in the second.
    MissingFromSecond(String),
    /// An entry of the second archive has no counterpart in the first.
    ExtraInSecond(String),
    /// The two archives do not list the same names.
    NameSetMismatch,
    /// An entry holds different bytes in the two archives.
    ContentMismatch(String),
    /// The two manifests differ in structure.
    ManifestMismatch,
}

impl View for Diff {
    type V = Finding;

    open spec fn view(&self) -> Finding {
        match self {
            Diff::MissingFromSecond(name) => Finding::MissingFromSecond(name@),
            Diff::ExtraInSecond(name) => Finding::ExtraInSecond(name@),
            Diff::NameSetMismatch => Finding::NameSetMismatch,
            Diff::ContentMismatch(name) => Finding::ContentMismatch(name@),
            Diff::ManifestMismatch => Finding::ManifestMismatch,
        }
    }
}

/// The entry that a finding names, if it names one.
pub open spec fn named_entry(finding: Finding) -> Option<Seq<char>> {
    match finding {
        Finding::MissingFromSecond(name) => Some(name),
        Finding::ExtraInSecond(name) => Some(name),
        Finding::NameSetMismatch => None,
        Finding::ContentMismatch(name) => Some(name),
        Finding::ManifestMismatch => None,
    }
}

/// The diagnostic line of a finding.
pub open spec fn message_of(finding: Finding) -> Seq<char> {
    match finding {
        Finding::MissingFromSecond(name) => "File "@ + name + " not found in the second APK!"@,
        Finding::ExtraInSecond(name) => "File "@ + name + " not found in the first APK!"@,
        Finding::NameSetMismatch => "Manifests differ in content or length"@,
        Finding::ContentMismatch(name) => "APKs differ on file "@ + name + "!"@,
        Finding::ManifestMismatch => "AndroidManifest.xml is different!"@,
    }
}

/// The line that states the verdict.
pub open spec fn verdict_of(passed: bool) -> Seq<char> {
    if passed {
        "APKs match!"@
    } else {
        "APKs don't match!"@
    }
}

impl Diff {
    /// The diagnostic line of this divergence.
    pub fn message(&self) -> (line: String)
        ensures
            line@ == message_of(self@),
    {
        match self {
            Diff::MissingFromSecond(name) => {
                String::from_str("File ").concat(name.as_str()).concat(
                    " not found in the second APK!",
                )
            },
            Diff::ExtraInSecond(name) => {
                String::from_str("File ").concat(name.as_str()).concat(
                    " not found in the first APK!",
                )
            },
            Diff::NameSetMismatch => String::from_str("Manifests differ in content or length"),
            Diff::ContentMismatch(name) => {
                String::from_str("APKs differ on file ").concat(name.as_str()).concat("!")
            },
            Diff::ManifestMismatch => String::from_str("AndroidManifest.xml is different!"),
        }
    }
}

/// The findings of one comparison run, in the order in which they were made.
/// The verdict is a pass exactly when there is no finding.
#[derive(Debug)]
pub struct Report {
    diffs: Vec<Diff>,
}

impl View for Report {
    type V = Seq<Finding>;

    /// The findings in order.
    closed spec fn view(&self) -> Seq<Finding> {
        Seq::new(self.diffs.len() as nat, |i: int| self.diffs[i]@)
    }
}

impl Report {
    /// The report without findings.
    pub fn new() -> (r: Report)
        ensures
            r@ == Seq::<Finding>::empty(),
    {
        let r = Report { diffs: Vec::new() };
        assert(r@ =~= Seq::<Finding>::empty());
        r
    }

    /// Adds a finding at the end.
    pub fn push(&mut self, diff: Diff)
        ensures
            final(self)@ == old(self)@.push(diff@),
    {
        self.diffs.push(diff);
        assert(self@ =~= old(self)@.push(diff@));
    }

    /// Adds the findings of `other` at the end, in their order.
    pub fn append(&mut self, other: Report)
        ensures
            final(self)@ == old(self)@ + other@,
    {
        let mut other = other;
        let ghost added = other@;
        self.diffs.append(&mut other.diffs);
        assert(self@ =~= old(self)@ + added);
    }

    /// The number of findings.
    pub fn len(&self) -> (n: usize)
        ensures
            n == self@.len(),
    {
        self.diffs.len()
    }

    /// The finding at `index`.
    pub fn get(&self, index: usize) -> (diff: &Diff)
        requires
            index < self@.len(),
        ensures
            diff@ == self@[index as int],
    {
        &self.diffs[index]
    }

    /// Tells whether the report holds no finding.
    pub fn passed(&self) -> (ok: bool)
        ensures
            ok == (self@.len() == 0),
    {
        self.diffs.len() == 0
    }

    /// The line that states the verdict.
    pub fn verdict(&self) -> (line: String)
        ensures
            line@ == verdict_of(self@.len() == 0),
    {
        if self.passed() {
            String::from_str("APKs match!")
        } else {
            String::from_str("APKs don't match!")
        }
    }

    /// The transcript: one diagnostic line for each finding, in order, and
    /// the verdict line at the end.
    pub fn transcript(&self) -> (lines: Vec<String>)
        ensures
            lines@.len() == self@.len() + 1,
            forall|i: int| 0 <= i < self@.len() ==> (#[trigger] lines@[i])@ == message_of(self@[i]),
            lines@[self@.len() as int]@ == verdict_of(self@.len() == 0),
    {
        let mut lines: Vec<String> = Vec::new();
        let mut i: usize = 0;
        while i < self.diffs.len()
            invariant
                i <= self.diffs.len(),
                lines@.len() == i,
                forall|k: int| 0 <= k < i ==> (#[trigger] lines@[k])@ == message_of(self@[k]),
            decreases self.diffs.len() - i,
        {
            lines.push(self.diffs[i].message());
            i += 1;
        }
        lines.push(self.verdict());
        lines
    }
}

} // verus!
