//! Clipboard state and the vocabulary of filesystem operations.
//!
//! The library never touches the disk. Mutating workflows return
//! [`FsAction`] values describing exactly what should be done; whoever
//! drives the library carries them out and reports the outcome back.

use vstd::prelude::*;

use crate::paths::{
    lemma_numbered_name_inj, name_seq, name_of, numbered_name, numbered_name_seq, str_eq,
};

verus! {

/// The clipboard payload: a set of absolute paths to copy, or one to move.
#[derive(Debug, Clone, PartialEq)]
pub enum ClipboardContent {
    Copy(Vec<String>),
    Cut(Vec<String>),
}

/// At most one payload; recording a copy set replaces a cut set and the
/// other way round.
#[derive(Debug, Clone, PartialEq)]
pub struct Clipboard {
    pub content: Option<ClipboardContent>,
}

impl Clipboard {
    pub fn copy(&mut self, paths: Vec<String>)
        ensures
            final(self).content == Some(ClipboardContent::Copy(paths)),
    {
        self.content = Some(ClipboardContent::Copy(paths));
    }

    pub fn cut(&mut self, paths: Vec<String>)
        ensures
            final(self).content == Some(ClipboardContent::Cut(paths)),
    {
        self.content = Some(ClipboardContent::Cut(paths));
    }

    pub fn clear(&mut self)
        ensures
            final(self).content is None,
    {
        self.content = None;
    }

    pub fn is_empty(&self) -> (r: bool)
        ensures
            r == (self.content is None),
    {
        self.content.is_none()
    }
}

impl Default for Clipboard {
    fn default() -> (r: Clipboard)
        ensures
            r.content is None,
    {
        Clipboard { content: None }
    }
}

/// One filesystem operation for the caller to carry out.
#[derive(Debug, Clone, PartialEq)]
pub enum FsAction {
    CopyInto { src: String, dest_dir: String },
    MoveInto { src: String, dest_dir: String },
    DeletePath { path: String },
    RenamePath { path: String, new_name: String },
    CreateFile { dir: String, name: String },
    CreateDir { dir: String, name: String },
}

/// What a committed input-mode buffer asks the caller to do, and which
/// completion call the outcome belongs to.
#[derive(Debug, Clone, PartialEq)]
pub enum PendingOp {
    DoNothing,
    Rename(FsAction),
    Create(FsAction),
    Delete(Vec<FsAction>),
    Drop(Vec<FsAction>),
    RunCommand(String),
}

/// Some entry of `taken` is called `n`.
pub open spec fn name_taken(taken: Seq<String>, n: Seq<char>) -> bool {
    exists|i: int| 0 <= i < taken.len() && (#[trigger] taken[i])@ == n
}

pub fn name_in_list(taken: &Vec<String>, n: &str) -> (r: bool)
    ensures
        r == name_taken(taken@, n@),
{
    let len = taken.len();
    let mut i: usize = 0;
    while i < len
        invariant
            len == taken@.len(),
            i <= len,
            forall|j: int| 0 <= j < i ==> (#[trigger] taken@[j])@ != n@,
        decreases len - i,
    {
        if str_eq(taken[i].as_str(), n) {
            return true;
        }
        i += 1;
    }
    false
}

/// A map from `n + 1` values into `n` slots repeats a slot.
proof fn lemma_pigeonhole(f: spec_fn(int) -> int, n: int)
    requires
        n >= 1,
        forall|i: int| 0 <= i <= n ==> 0 <= #[trigger] f(i) < n,
    ensures
        exists|i: int, j: int| 0 <= i < j <= n && #[trigger] f(i) == #[trigger] f(j),
    decreases n,
{
    let v = f(n);
    if exists|i: int| 0 <= i < n && #[trigger] f(i) == v {
        let i = choose|i: int| 0 <= i < n && #[trigger] f(i) == v;
        assert(0 <= i < n <= n && f(i) == f(n));
    } else if n == 1 {
        assert(f(0) != v);
        assert(0 <= f(0) < 1 && 0 <= v < 1);
        assert(false);
    } else if v == n - 1 {
        assert forall|i: int| 0 <= i <= n - 1 implies 0 <= #[trigger] f(i) < n - 1 by {
            assert(f(i) != v);
        }
        lemma_pigeonhole(f, n - 1);
        let (i, j) = choose|i: int, j: int|
            0 <= i < j <= n - 1 && #[trigger] f(i) == #[trigger] f(j);
        assert(0 <= i < j <= n && f(i) == f(j));
    } else {
        let g = |i: int|
            if f(i) == n - 1 {
                v
            } else {
                f(i)
            };
        assert forall|i: int| 0 <= i <= n - 1 implies 0 <= #[trigger] g(i) < n - 1 by {
            if f(i) == n - 1 {
                assert(g(i) == v);
            } else {
                assert(g(i) == f(i));
            }
        }
        lemma_pigeonhole(g, n - 1);
        let (i, j) = choose|i: int, j: int|
            0 <= i < j <= n - 1 && #[trigger] g(i) == #[trigger] g(j);
        if f(i) == f(j) {
            assert(0 <= i < j <= n && f(i) == f(j));
        } else if f(i) == n - 1 {
            assert(g(i) == v && g(j) == f(j));
            assert(f(j) == f(n));
            assert(0 <= j < n <= n && f(j) == f(n));
        } else {
            assert(g(i) == f(i));
            assert(f(j) == n - 1 && g(j) == v);
            assert(f(i) == f(n));
            assert(0 <= i < n <= n && f(i) == f(n));
        }
    }
}

/// The destination name a copy or move uses so that nothing is overwritten:
/// the original name when it is free, else the first of `stem_1.ext`,
/// `stem_2.ext`, ... that is free. Some candidate is always free: the
/// numbered names are pairwise distinct, so the taken list cannot hold one
/// more of them than it has entries.
pub fn unique_name(name: &str, taken: &Vec<String>) -> (r: Option<String>)
    requires
        taken@.len() < usize::MAX - 1,
    ensures
        r is Some,
        !name_taken(taken@, name@) ==> (r matches Some(s) && s@ == name@),
        r matches Some(s) ==> !name_taken(taken@, s@) && (s@ != name@ ==> {
            &&& name_taken(taken@, name@)
            &&& exists|k: int|
                1 <= k && s@ == numbered_name_seq(name@, k) && (forall|j: int|
                    1 <= j < k ==> name_taken(taken@, numbered_name_seq(name@, j)))
        }),
{
    if !name_in_list(taken, name) {
        return Some(String::from_str(name));
    }
    let bound: u64 = (taken.len() as u64) + 2;
    let mut k: u64 = 1;
    while k < bound
        invariant
            1 <= k <= bound,
            bound == taken@.len() + 2,
            name_taken(taken@, name@),
            forall|j: int| 1 <= j < k ==> name_taken(taken@, numbered_name_seq(name@, j)),
        decreases bound - k,
    {
        let candidate = numbered_name(name, k);
        if !name_in_list(taken, candidate.as_str()) {
            proof {
                assert(1 <= k as int && candidate@ == numbered_name_seq(name@, k as int));
            }
            return Some(candidate);
        }
        k += 1;
    }
    proof {
        let len = taken@.len() as int;
        assert(len >= 1) by {
            let t = choose|t: int| 0 <= t < taken@.len() && (#[trigger] taken@[t])@ == name@;
        }
        let f = |i: int|
            choose|t: int|
                0 <= t < len && (#[trigger] taken@[t])@ == numbered_name_seq(name@, i + 1);
        assert forall|i: int| 0 <= i <= len implies 0 <= #[trigger] f(i) < len by {
            assert(name_taken(taken@, numbered_name_seq(name@, i + 1)));
        }
        lemma_pigeonhole(f, len);
        let (i, j) = choose|i: int, j: int| 0 <= i < j <= len && #[trigger] f(i) == #[trigger] f(j);
        assert(taken@[f(i)]@ == numbered_name_seq(name@, i + 1));
        assert(taken@[f(j)]@ == numbered_name_seq(name@, j + 1));
        lemma_numbered_name_inj(name@, i + 1, j + 1);
        assert(false);
    }
    None
}

/// Decide a rename: renaming a path to its current name succeeds outright
/// and asks for no filesystem work; any other name must be attempted on
/// disk (which alone can detect a collision race-free).
pub fn rename_decision(path: &str, new_name: &str) -> (r: Option<FsAction>)
    ensures
        r is None <==> new_name@ == name_seq(path@),
        r matches Some(a) ==> (a matches FsAction::RenamePath { path: p, new_name: n } && p@
            == path@ && n@ == new_name@),
{
    let current = name_of(path);
    if str_eq(current.as_str(), new_name) {
        None
    } else {
        Some(
            FsAction::RenamePath {
                path: String::from_str(path),
                new_name: String::from_str(new_name),
            },
        )
    }
}

} // verus!
