//! The bundler's state: the file store that bundles are made from.
use vstd::prelude::*;
use crate::filesystem::{InMemFileLoader, InMemFileSystem};
use crate::graph::{module_table, plan_bundle, BundleError};

verus! {

/// Makes bundles out of the files of its store.
pub struct Bundler {
    fs: InMemFileSystem,
}

impl Bundler {
    /// The files that bundles are made from.
    pub closed spec fn files_view(&self) -> Map<Seq<char>, Seq<char>> {
        self.fs@
    }

    pub closed spec fn wf(&self) -> bool {
        self.fs.wf()
    }

    /// A bundler over the files of `fs`.
    pub fn new(fs: InMemFileSystem) -> (r: Self)
        requires
            fs.wf(),
        ensures
            r.wf(),
            r.files_view() == fs@,
    {
        Bundler { fs }
    }

    /// The store.
    pub fn fs(&self) -> (r: &InMemFileSystem)
        requires
            self.wf(),
        ensures
            r.wf(),
            r@ == self.files_view(),
    {
        &self.fs
    }

    /// Stores `content` under `filename`, replacing what was there.
    pub fn save_file(&mut self, filename: &str, content: &str)
        requires
            old(self).wf(),
        ensures
            final(self).wf(),
            final(self).files_view() == old(self).files_view().insert(filename@, content@),
    {
        self.fs.save(filename, content);
    }

    /// A loader over the files as they are now.
    pub fn loader(&self) -> (r: InMemFileLoader)
        requires
            self.wf(),
        ensures
            r.wf(),
            r.files_view() == self.files_view(),
    {
        InMemFileLoader::new(self.fs.snapshot())
    }

    /// The stored files, each path once, in the order that `plan` expects
    /// their parse results.
    pub fn sources(&self) -> (r: Vec<(String, String)>)
        requires
            self.wf(),
        ensures
            crate::filesystem::keys_unique(crate::filesystem::entries_view(r@)),
            crate::filesystem::map_of(crate::filesystem::entries_view(r@)) == self.files_view(),
    {
        self.fs.files()
    }

    /// Plans a bundle from `entries`, given `sources` as `sources()` returned
    /// them and, for each of them in the same order, the specifiers that it
    /// imports or why it did not parse.
    pub fn plan(
        &self,
        sources: &Vec<(String, String)>,
        parsed: Vec<Result<Vec<String>, String>>,
        entries: &Vec<String>,
    ) -> (r: Result<Vec<String>, BundleError>)
        requires
            crate::filesystem::keys_unique(crate::filesystem::entries_view(sources@)),
            sources@.len() == parsed@.len(),
        ensures
            crate::graph::plan_outcome(crate::graph::table_of(sources@, parsed@), entries@, r),
    {
        let mods = module_table(sources, parsed);
        plan_bundle(&mods, entries)
    }
}

} // verus!
