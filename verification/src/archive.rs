//! Archives: ordered collections of named byte-string entries.
//!
//! An archive holds each name at most once. Adding a name that is already
//! present replaces the content stored under it and keeps its position: the
//! entry listed last wins.

use crate::text::text_eq;
use vstd::prelude::*;

verus! {

/// No name occurs twice in `entries`.
pub open spec fn distinct_names(entries: Seq<(Seq<char>, Seq<u8>)>) -> bool {
    forall|i: int, j: int| 0 <= i < j < entries.len() ==> entries[i].0 != entries[j].0
}

/// Some entry of `entries` is called `name`.
pub open spec fn has_name(entries: Seq<(Seq<char>, Seq<u8>)>, name: Seq<char>) -> bool {
    exists|i: int| 0 <= i < entries.len() && entries[i].0 == name
}

/// The position of an entry called `name`, where there is one.
pub open spec fn position_of(entries: Seq<(Seq<char>, Seq<u8>)>, name: Seq<char>) -> int {
    choose|i: int| 0 <= i < entries.len() && entries[i].0 == name
}

/// The content stored under `name`, where there is such an entry.
pub open spec fn content_of(entries: Seq<(Seq<char>, Seq<u8>)>, name: Seq<char>) -> Seq<u8> {
    entries[position_of(entries, name)].1
}

/// The names of `entries`, as a set.
pub open spec fn name_set(entries: Seq<(Seq<char>, Seq<u8>)>) -> Set<Seq<char>> {
    Set::new(|n: Seq<char>| has_name(entries, n))
}

/// In a sequence of distinct names, a name fixes its position.
pub proof fn lemma_position_unique(entries: Seq<(Seq<char>, Seq<u8>)>, i: int)
    requires
        distinct_names(entries),
        0 <= i < entries.len(),
    ensures
        has_name(entries, entries[i].0),
        position_of(entries, entries[i].0) == i,
        content_of(entries, entries[i].0) == entries[i].1,
{
    let p = position_of(entries, entries[i].0);
    if p < i {
        assert(entries[p].0 != entries[i].0);
    } else if i < p {
        assert(entries[i].0 != entries[p].0);
    }
}

/// One named entry of an archive.
#[derive(Debug)]
struct Entry {
    name: String,
    content: Vec<u8>,
}

impl View for Entry {
    type V = (Seq<char>, Seq<u8>);

    /// The name and the content.
    closed spec fn view(&self) -> (Seq<char>, Seq<u8>) {
        (self.name@, self.content@)
    }
}

/// An ordered collection of entries with distinct names.
#[derive(Debug)]
pub struct Archive {
    entries: Vec<Entry>,
}

impl View for Archive {
    type V = Seq<(Seq<char>, Seq<u8>)>;

    /// The entries in archive order, each as its name and its content.
    closed spec fn view(&self) -> Seq<(Seq<char>, Seq<u8>)> {
        Seq::new(self.entries.len() as nat, |i: int| self.entries[i]@)
    }
}

impl Archive {
    /// What holds of every archive: no name occurs twice.
    #[verifier::type_invariant]
    pub open spec fn wf(self) -> bool {
        distinct_names(self@)
    }

    /// The archive without entries.
    pub fn new() -> (a: Archive)
        ensures
            a@ == Seq::<(Seq<char>, Seq<u8>)>::empty(),
            a.wf(),
    {
        let a = Archive { entries: Vec::new() };
        assert(a@ =~= Seq::<(Seq<char>, Seq<u8>)>::empty());
        a
    }

    /// The number of entries.
    pub fn len(&self) -> (n: usize)
        ensures
            n == self@.len(),
            self.wf(),
    {
        proof {
            use_type_invariant(self);
        }
        self.entries.len()
    }

    /// The name of the entry at `index`.
    pub fn name(&self, index: usize) -> (name: &str)
        requires
            index < self@.len(),
        ensures
            name@ == self@[index as int].0,
    {
        self.entries[index].name.as_str()
    }

    /// The content of the entry at `index`.
    pub fn content(&self, index: usize) -> (content: &[u8])
        requires
            index < self@.len(),
        ensures
            content@ == self@[index as int].1,
    {
        self.entries[index].content.as_slice()
    }

    /// The position of the entry called `name`, if there is one.
    pub fn find(&self, name: &str) -> (found: Option<usize>)
        ensures
            self.wf(),
            found is Some <==> has_name(self@, name@),
            found matches Some(i) ==> i < self@.len() && self@[i as int].0 == name@ && i
                == position_of(self@, name@),
    {
        proof {
            use_type_invariant(self);
        }
        let mut i: usize = 0;
        while i < self.entries.len()
            invariant
                i <= self.entries.len(),
                distinct_names(self@),
                forall|j: int| 0 <= j < i ==> self@[j].0 != name@,
            decreases self.entries.len() - i,
        {
            if text_eq(self.entries[i].name.as_str(), name) {
                proof {
                    lemma_position_unique(self@, i as int);
                }
                return Some(i);
            }
            i += 1;
        }
        None
    }

    /// The content stored under `name`, if there is such an entry.
    pub fn get(&self, name: &str) -> (content: Option<&[u8]>)
        ensures
            content is Some <==> has_name(self@, name@),
            content matches Some(c) ==> c@ == content_of(self@, name@),
    {
        match self.find(name) {
            Some(i) => Some(self.entries[i].content.as_slice()),
            None => None,
        }
    }

    /// Stores `content` under `name`. Where the archive already holds that
    /// name, the new content replaces the old one in place; otherwise the
    /// entry is added at the end.
    pub fn insert(&mut self, name: &str, content: Vec<u8>)
        ensures
            final(self).wf(),
            has_name(old(self)@, name@) ==> final(self)@ == old(self)@.update(
                position_of(old(self)@, name@),
                (name@, content@),
            ),
            !has_name(old(self)@, name@) ==> final(self)@ == old(self)@.push((name@, content@)),
    {
        let found = self.find(name);
        let ghost before = self@;
        let mut taken = Archive::new();
        core::mem::swap(self, &mut taken);
        let mut entries = taken.entries;
        let entry = Entry { name: name.to_owned(), content };
        match found {
            Some(i) => {
                entries.set(i, entry);
            },
            None => {
                entries.push(entry);
            },
        }
        let ghost after = Seq::new(entries.len() as nat, |k: int| entries[k]@);
        proof {
            if found is Some {
                assert(after =~= before.update(found->0 as int, (name@, content@)));
            } else {
                assert(after =~= before.push((name@, content@)));
            }
        }
        *self = Archive { entries };
    }
}

} // verus!
