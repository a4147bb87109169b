//! An immutable picture of the directories the tree may read.
//!
//! The library never touches the filesystem. Whoever drives it enumerates the
//! directories of interest and hands the result over as an [`FsSnapshot`]: a
//! list of directory listings keyed by absolute path. A directory missing
//! from the snapshot reads as unreadable, exactly like a failing directory
//! enumeration.

use vstd::prelude::*;

use crate::paths::str_eq;

verus! {

/// One directory entry as the scan reported it: its bare name and whether it
/// is itself a directory.
pub struct EntryInfo {
    pub name: String,
    pub is_dir: bool,
}

impl EntryInfo {
    pub fn new(name: String, is_dir: bool) -> (r: EntryInfo)
        ensures
            r.name == name,
            r.is_dir == is_dir,
    {
        EntryInfo { name, is_dir }
    }
}

/// The scanned contents of one directory.
pub struct DirListing {
    pub path: String,
    pub entries: Vec<EntryInfo>,
}

/// Directory listings keyed by path; the first listing for a path wins.
pub struct FsSnapshot {
    pub dirs: Vec<DirListing>,
}

/// The entries recorded for `p`, or `None` when `p` was not scanned.
pub open spec fn find_listing(dirs: Seq<DirListing>, p: Seq<char>) -> Option<Seq<EntryInfo>>
    decreases dirs.len(),
{
    if dirs.len() == 0 {
        None
    } else if dirs[0].path@ == p {
        Some(dirs[0].entries@)
    } else {
        find_listing(dirs.drop_first(), p)
    }
}

proof fn lemma_find_listing_step(dirs: Seq<DirListing>, p: Seq<char>, i: int)
    requires
        0 <= i <= dirs.len(),
        forall|j: int| 0 <= j < i ==> dirs[j].path@ != p,
    ensures
        find_listing(dirs, p) == find_listing(dirs.skip(i), p),
    decreases i,
{
    if i > 0 {
        lemma_find_listing_step(dirs, p, i - 1);
        assert(dirs.skip(i - 1).drop_first() =~= dirs.skip(i));
        assert(dirs.skip(i - 1)[0] == dirs[i - 1]);
    } else {
        assert(dirs.skip(0) =~= dirs);
    }
}

impl FsSnapshot {
    pub open spec fn has_listing(self, p: Seq<char>) -> bool {
        find_listing(self.dirs@, p) is Some
    }

    pub open spec fn listing_seq(self, p: Seq<char>) -> Seq<EntryInfo> {
        find_listing(self.dirs@, p)->0
    }

    pub fn new() -> (r: FsSnapshot)
        ensures
            r.dirs@.len() == 0,
    {
        FsSnapshot { dirs: Vec::new() }
    }

    /// Record the scan of one directory. Recording a path twice leaves the
    /// first listing in force.
    pub fn add_dir(&mut self, path: String, entries: Vec<EntryInfo>)
        ensures
            final(self).dirs@ == old(self).dirs@.push(DirListing { path, entries }),
    {
        self.dirs.push(DirListing { path, entries });
    }

    /// Look the listing for `path` up, first match first.
    pub fn listing(&self, path: &str) -> (r: Option<&Vec<EntryInfo>>)
        ensures
            r is Some ==> self.has_listing(path@) && r->0@ == self.listing_seq(path@),
            r is None ==> !self.has_listing(path@),
    {
        let n = self.dirs.len();
        let mut i: usize = 0;
        while i < n
            invariant
                n == self.dirs@.len(),
                i <= n,
                forall|j: int| 0 <= j < i ==> self.dirs@[j].path@ != path@,
            decreases n - i,
        {
            if str_eq(self.dirs[i].path.as_str(), path) {
                proof {
                    lemma_find_listing_step(self.dirs@, path@, i as int);
                    assert(self.dirs@.skip(i as int)[0] == self.dirs@[i as int]);
                }
                return Some(&self.dirs[i].entries);
            }
            i += 1;
        }
        proof {
            lemma_find_listing_step(self.dirs@, path@, n as int);
        }
        None
    }
}

} // verus!
