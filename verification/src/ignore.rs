//! The ignore policy: the archive paths that are exempt from comparison.

use crate::text::text_eq;
use vstd::prelude::*;

verus! {

/// The paths that independent builds of one package are expected to differ in:
/// signature files, the manifest of manifests, the cold database, the
/// certificate stamp and the baseline profile.
pub open spec fn standard_paths() -> Set<Seq<char>> {
    set![
        "META-INF/UPLOAD.RSA"@,
        "META-INF/UPLOAD.SF"@,
        "assets/Database/db"@,
        "META-INF/MANIFEST.MF"@,
        "META-INF/GOOGPLAY.RSA"@,
        "META-INF/GOOGPLAY.SF"@,
        "stamp-cert-sha256"@,
        "assets/dexopt/baseline.profm"@,
    ]
}

/// A set of exact paths. Membership is by exact match: no patterns, and case
/// counts.
#[derive(Debug)]
pub struct IgnoreSet {
    paths: Vec<String>,
}

impl View for IgnoreSet {
    type V = Set<Seq<char>>;

    /// The paths in the set.
    closed spec fn view(&self) -> Set<Seq<char>> {
        Set::new(|p: Seq<char>| exists|i: int| 0 <= i < self.paths.len() && self.paths[i]@ == p)
    }
}

impl IgnoreSet {
    /// The set without paths: nothing is ignored.
    pub fn new() -> (s: IgnoreSet)
        ensures
            s@ == Set::<Seq<char>>::empty(),
    {
        let s = IgnoreSet { paths: Vec::new() };
        assert(s@ =~= Set::<Seq<char>>::empty());
        s
    }

    /// The standard policy for rebuilt packages.
    pub fn standard() -> (s: IgnoreSet)
        ensures
            s@ == standard_paths(),
    {
        let mut s = IgnoreSet::new();
        s.insert("META-INF/UPLOAD.RSA");
        s.insert("META-INF/UPLOAD.SF");
        s.insert("assets/Database/db");
        s.insert("META-INF/MANIFEST.MF");
        s.insert("META-INF/GOOGPLAY.RSA");
        s.insert("META-INF/GOOGPLAY.SF");
        s.insert("stamp-cert-sha256");
        s.insert("assets/dexopt/baseline.profm");
        assert(s@ =~= standard_paths());
        s
    }

    /// Adds `path` to the set.
    pub fn insert(&mut self, path: &str)
        ensures
            final(self)@ == old(self)@.insert(path@),
    {
        let ghost before = self.paths@;
        self.paths.push(path.to_owned());
        proof {
            let after = self.paths@;
            assert forall|p: Seq<char>| self@.contains(p) <==> old(self)@.insert(path@).contains(
                p,
            ) by {
                if old(self)@.contains(p) {
                    let i = choose|i: int| 0 <= i < before.len() && before[i]@ == p;
                    assert(after[i]@ == p);
                }
                if p == path@ {
                    assert(after[before.len() as int]@ == p);
                }
            }
            assert(self@ =~= old(self)@.insert(path@));
        }
    }

    /// Tells whether `path` is exempt from comparison.
    pub fn is_ignored(&self, path: &str) -> (r: bool)
        ensures
            r == self@.contains(path@),
    {
        let mut i: usize = 0;
        while i < self.paths.len()
            invariant
                i <= self.paths.len(),
                forall|j: int| 0 <= j < i ==> self.paths[j]@ != path@,
            decreases self.paths.len() - i,
        {
            if text_eq(self.paths[i].as_str(), path) {
                return true;
            }
            i += 1;
        }
        false
    }
}

} // verus!
