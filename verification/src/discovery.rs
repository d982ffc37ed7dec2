//! The bookkeeping of the directory walker: which of the files it meets are
//! of a catalogued extension, and how many files and bytes each extension has.

use vstd::prelude::*;
use crate::aggregate::make_extension_metadata;
use crate::domain::{Extension, ExtensionMetadata};
use crate::name_map::NameMap;
use crate::text::{extension_of, get_file_extension};
use crate::totals::{by_files, lemma_total_update, lemma_total_zero, total_of};

verus! {

/// What the walker has seen so far.
pub struct Discovery {
    total_files: usize,
    relevant_files: usize,
    metadata: NameMap<ExtensionMetadata>,
}

impl Discovery {
    /// The number of files met, relevant or not.
    pub closed spec fn total_files(&self) -> nat {
        self.total_files as nat
    }

    /// The number of files met whose extension is in the catalog.
    pub closed spec fn relevant_files(&self) -> nat {
        self.relevant_files as nat
    }

    /// The counters of each extension.
    pub closed spec fn metadata(&self) -> NameMap<ExtensionMetadata> {
        self.metadata
    }

    /// The counters are well formed, their file counts add up to the number of
    /// relevant files, and no more files are relevant than were met.
    pub open spec fn wf(&self) -> bool {
        &&& self.metadata().wf()
        &&& total_of(self.metadata().values(), by_files()) == self.relevant_files()
        &&& self.relevant_files() <= self.total_files() <= usize::MAX
    }

    /// The catalogued extension of the file that `path` names, if it has one.
    pub open spec fn relevant_extension(&self, path: Seq<char>) -> Option<Seq<char>> {
        match extension_of(path) {
            Some(e) => if self.metadata()@.dom().contains(e) {
                Some(e)
            } else {
                None
            },
            None => None,
        }
    }

    /// Whether one more file at `path`, of `bytes` bytes, can be counted
    /// within `usize`.
    pub open spec fn can_visit(&self, path: Seq<char>, bytes: usize) -> bool {
        &&& self.total_files() < usize::MAX
        &&& match self.relevant_extension(path) {
            Some(e) => self.metadata()@[e].bytes + bytes <= usize::MAX,
            None => true,
        }
    }

    /// Nothing seen yet: a zero counter for every extension of the catalog.
    pub fn new(catalog: &NameMap<Extension>) -> (d: Discovery)
        requires
            catalog.wf(),
        ensures
            d.wf(),
            d.total_files() == 0,
            d.relevant_files() == 0,
            d.metadata().names() == catalog.names(),
            forall|i: int|
                0 <= i < d.metadata().values().len() ==> (#[trigger] d.metadata().values()[i])
                    == (ExtensionMetadata { files: 0, bytes: 0 }),
    {
        let metadata = make_extension_metadata(catalog);
        proof {
            lemma_total_zero(metadata.values(), by_files());
        }
        Discovery { total_files: 0, relevant_files: 0, metadata }
    }

    /// Records one file that the walker met. Where its extension is in the
    /// catalog, the file is counted under it at once, with its size, and the
    /// result tells the walker to queue the path.
    pub fn visit_file(&mut self, path: &str, bytes: usize) -> (relevant: bool)
        requires
            old(self).wf(),
            old(self).can_visit(path@, bytes),
        ensures
            final(self).wf(),
            final(self).total_files() == old(self).total_files() + 1,
            final(self).metadata().names() == old(self).metadata().names(),
            relevant == old(self).relevant_extension(path@).is_some(),
            match old(self).relevant_extension(path@) {
                Some(e) => {
                    &&& final(self).relevant_files() == old(self).relevant_files() + 1
                    &&& final(self).metadata()@ == old(self).metadata()@.insert(
                        e,
                        ExtensionMetadata {
                            files: (old(self).metadata()@[e].files + 1) as usize,
                            bytes: (old(self).metadata()@[e].bytes + bytes) as usize,
                        },
                    )
                },
                None => {
                    &&& final(self).relevant_files() == old(self).relevant_files()
                    &&& final(self).metadata() == old(self).metadata()
                },
            },
    {
        self.total_files += 1;
        let extension = get_file_extension(path);
        match extension {
            Some(e) => {
                match self.metadata.index_of(e) {
                    Some(at) => {
                        let ghost before = self.metadata;
                        proof {
                            before.lemma_view_at(at as int);
                            lemma_total_update(
                                before.values(),
                                at as int,
                                before.values()[at as int],
                                by_files(),
                            );
                        }
                        let mut counter = *self.metadata.value_at(at);
                        counter.add_file_meta(bytes);
                        proof {
                            lemma_total_update(before.values(), at as int, counter, by_files());
                        }
                        self.metadata.replace_at(at, counter);
                        self.relevant_files += 1;
                        true
                    },
                    None => false,
                }
            },
            None => false,
        }
    }

    /// The number of files met, and how many of them are relevant.
    pub fn counts(&self) -> (r: (usize, usize))
        ensures
            r.0 == self.total_files(),
            r.1 == self.relevant_files(),
    {
        (self.total_files, self.relevant_files)
    }

    /// The counters of each extension.
    pub fn extensions_metadata(&self) -> (table: &NameMap<ExtensionMetadata>)
        ensures
            *table == self.metadata(),
    {
        &self.metadata
    }

    /// Gives up the bookkeeping for its counters.
    pub fn into_metadata(self) -> (table: NameMap<ExtensionMetadata>)
        ensures
            table == self.metadata(),
    {
        self.metadata
    }
}

} // verus!
