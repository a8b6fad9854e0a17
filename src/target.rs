use vstd::prelude::*;

verus! {

/// One tracked file: a node of the build graph.
///
/// `deps` and `dependents` hold indices of other nodes of the same graph:
/// the files this one includes, and the files that include it.
/// `last_modified` is in milliseconds since the Unix epoch.
#[derive(Debug)]
pub struct FileMeta {
    pub path: String,
    pub hash: String,
    pub last_modified: i64,
    pub deps: Vec<usize>,
    pub dependents: Vec<usize>,
    pub dirty: bool,
}

impl FileMeta {
    /// A record for a newly seen file: no hash yet, no edges, and dirty.
    pub fn new(path: String, last_modified: i64) -> (r: FileMeta)
        ensures
            r.path@ == path@,
            r.hash@ == Seq::<char>::empty(),
            r.last_modified == last_modified,
            r.deps@ == Seq::<usize>::empty(),
            r.dependents@ == Seq::<usize>::empty(),
            r.dirty,
    {
        FileMeta {
            path,
            hash: String::new(),
            last_modified,
            deps: Vec::new(),
            dependents: Vec::new(),
            dirty: true,
        }
    }

    /// Records what was just observed on disk: the content digest and the
    /// modification time. Nothing else changes.
    pub fn refresh(&mut self, hash: String, last_modified: i64)
        ensures
            final(self).hash@ == hash@,
            final(self).last_modified == last_modified,
            final(self).path == old(self).path,
            final(self).deps == old(self).deps,
            final(self).dependents == old(self).dependents,
            final(self).dirty == old(self).dirty,
    {
        self.hash = hash;
        self.last_modified = last_modified;
    }
}

} // verus!
