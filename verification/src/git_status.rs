//! Version-control status overlay.
//!
//! The core only consumes a path-to-status lookup used for display coloring.
//! Running the external tool is the caller's business; this module parses
//! the porcelain-format output it hands over and aggregates directory
//! statuses from the files beneath them.

use vstd::prelude::*;

use crate::paths::{parent_of, str_eq};

verus! {

#[derive(Debug, Clone, Copy, PartialEq, Eq, Structural, Default)]
pub enum GitStatus {
    #[default]
    Clean,
    Modified,
    Added,
    Deleted,
    Renamed,
    Untracked,
    Ignored,
    Conflict,
}

/// What a two-letter porcelain status pair means.
pub open spec fn parse_status_spec(index: char, worktree: char) -> GitStatus {
    if index == '?' && worktree == '?' {
        GitStatus::Untracked
    } else if index == '!' && worktree == '!' {
        GitStatus::Ignored
    } else if index == 'U' || worktree == 'U' || (index == 'A' && worktree == 'A') || (index == 'D'
        && worktree == 'D') {
        GitStatus::Conflict
    } else if index == 'R' {
        GitStatus::Renamed
    } else if index == 'A' {
        GitStatus::Added
    } else if index == 'D' || worktree == 'D' {
        GitStatus::Deleted
    } else if index == 'M' || worktree == 'M' {
        GitStatus::Modified
    } else {
        GitStatus::Clean
    }
}

pub fn parse_status(index: char, worktree: char) -> (r: GitStatus)
    ensures
        r == parse_status_spec(index, worktree),
{
    if index == '?' && worktree == '?' {
        GitStatus::Untracked
    } else if index == '!' && worktree == '!' {
        GitStatus::Ignored
    } else if index == 'U' || worktree == 'U' || (index == 'A' && worktree == 'A') || (index == 'D'
        && worktree == 'D') {
        GitStatus::Conflict
    } else if index == 'R' {
        GitStatus::Renamed
    } else if index == 'A' {
        GitStatus::Added
    } else if index == 'D' || worktree == 'D' {
        GitStatus::Deleted
    } else if index == 'M' || worktree == 'M' {
        GitStatus::Modified
    } else {
        GitStatus::Clean
    }
}

/// A ` -> ` separator starts at `i` in `s`.
pub open spec fn is_arrow_at(s: Seq<char>, i: int) -> bool {
    0 <= i && i + 4 <= s.len() && s[i] == ' ' && s[i + 1] == '-' && s[i + 2] == '>' && s[i + 3]
        == ' '
}

/// Position of the last ` -> ` at or before `i`, or `-1`.
pub open spec fn last_arrow_from(s: Seq<char>, i: int) -> int
    decreases i + 1,
{
    if i < 0 {
        -1
    } else if is_arrow_at(s, i) {
        i
    } else {
        last_arrow_from(s, i - 1)
    }
}

/// The rename target: everything after the last ` -> ` separator, or the
/// whole text when none occurs.
pub open spec fn arrow_target(s: Seq<char>) -> Seq<char> {
    let k = last_arrow_from(s, s.len() - 4);
    if k < 0 {
        s
    } else {
        s.subrange(k + 4, s.len() as int)
    }
}

proof fn lemma_last_arrow_from_unique(s: Seq<char>, i: int, k: int)
    requires
        is_arrow_at(s, k),
        k <= i,
        forall|j: int| k < j <= i ==> !is_arrow_at(s, j),
    ensures
        last_arrow_from(s, i) == k,
    decreases i + 1,
{
    if i >= 0 && !is_arrow_at(s, i) {
        lemma_last_arrow_from_unique(s, i - 1, k);
    }
}

proof fn lemma_last_arrow_from_none(s: Seq<char>, i: int)
    requires
        forall|j: int| j <= i ==> !is_arrow_at(s, j),
    ensures
        last_arrow_from(s, i) == -1,
    decreases i + 1,
{
    if i >= 0 {
        lemma_last_arrow_from_none(s, i - 1);
    }
}

fn after_last_arrow(s: &str) -> (r: String)
    ensures
        r@ == arrow_target(s@),
{
    let n = s.unicode_len();
    let mut best: Option<usize> = None;
    let mut i: usize = 0;
    while i < n
        invariant
            n == s@.len(),
            i <= n,
            best matches Some(b) ==> is_arrow_at(s@, b as int) && (forall|j: int|
                b < j < i ==> !is_arrow_at(s@, j)),
            best is None ==> forall|j: int| j < i ==> !is_arrow_at(s@, j),
            forall|j: int| j < 0 ==> !is_arrow_at(s@, j),
        decreases n - i,
    {
        if n - i >= 4 && s.get_char(i) == ' ' && s.get_char(i + 1) == '-' && s.get_char(i + 2)
            == '>' && s.get_char(i + 3) == ' ' {
            best = Some(i);
        } else {
            proof {
                assert(!is_arrow_at(s@, i as int));
            }
        }
        i += 1;
    }
    proof {
        assert(forall|j: int| j >= n ==> !is_arrow_at(s@, j));
        match best {
            Some(b) => {
                lemma_last_arrow_from_unique(s@, s@.len() - 4, b as int);
            },
            None => {
                lemma_last_arrow_from_none(s@, s@.len() - 4);
            },
        }
    }
    match best {
        Some(b) => String::from_str(s.substring_char(b + 4, n)),
        None => String::from_str(s),
    }
}

/// One porcelain line: two status characters, a space, then the path
/// (possibly `old -> new` for renames). Shorter lines carry nothing.
pub fn parse_porcelain_line(line: &str) -> (r: Option<(String, GitStatus)>)
    ensures
        r is Some <==> line@.len() >= 4,
        r matches Some(e) ==> e.1 == parse_status_spec(line@[0], line@[1]) && e.0@ == arrow_target(
            line@.subrange(3, line@.len() as int),
        ),
{
    let n = line.unicode_len();
    if n < 4 {
        return None;
    }
    let status = parse_status(line.get_char(0), line.get_char(1));
    let rest = line.substring_char(3, n);
    let path = after_last_arrow(rest);
    Some((path, status))
}

/// The pieces of `s` between newlines, a partial final piece only when it
/// is nonempty, starting from an already accumulated `cur`.
pub open spec fn split_on_newline(s: Seq<char>, cur: Seq<char>) -> Seq<Seq<char>>
    decreases s.len(),
{
    if s.len() == 0 {
        if cur.len() > 0 {
            seq![cur]
        } else {
            Seq::empty()
        }
    } else if s[0] == '\n' {
        seq![cur] + split_on_newline(s.skip(1), Seq::empty())
    } else {
        split_on_newline(s.skip(1), cur.push(s[0]))
    }
}

/// Split on newlines; no trailing empty piece for a trailing newline.
pub fn split_lines(s: &str) -> (r: Vec<String>)
    ensures
        r@.map_values(|x: String| x@) == split_on_newline(s@, Seq::empty()),
{
    let n = s.unicode_len();
    let mut out: Vec<String> = Vec::new();
    let mut start: usize = 0;
    let mut i: usize = 0;
    proof {
        assert(s@.skip(0) =~= s@);
        assert(s@.subrange(0, 0) =~= Seq::<char>::empty());
        assert(out@.map_values(|x: String| x@) + split_on_newline(s@, Seq::empty())
            =~= split_on_newline(s@, Seq::empty()));
    }
    while i < n
        invariant
            n == s@.len(),
            start <= i <= n,
            split_on_newline(s@, Seq::empty()) == out@.map_values(|x: String| x@)
                + split_on_newline(s@.skip(i as int), s@.subrange(start as int, i as int)),
        decreases n - i,
    {
        let ghost rem = s@.skip(i as int);
        let ghost cur = s@.subrange(start as int, i as int);
        let ghost prev_out = out@;
        proof {
            assert(rem[0] == s@[i as int]);
            assert(rem.skip(1) =~= s@.skip(i + 1));
        }
        if s.get_char(i) == '\n' {
            let piece = String::from_str(s.substring_char(start, i));
            out.push(piece);
            start = i + 1;
            proof {
                assert(split_on_newline(rem, cur) == seq![cur] + split_on_newline(
                    s@.skip(i + 1),
                    Seq::empty(),
                ));
                assert(out@.map_values(|x: String| x@) =~= prev_out.map_values(|x: String| x@)
                    + seq![cur]);
                assert(prev_out.map_values(|x: String| x@) + (seq![cur] + split_on_newline(
                    s@.skip(i + 1),
                    Seq::empty(),
                )) =~= out@.map_values(|x: String| x@) + split_on_newline(
                    s@.skip(i + 1),
                    Seq::empty(),
                ));
                assert(s@.subrange(i + 1, i + 1) =~= Seq::<char>::empty());
            }
        } else {
            proof {
                assert(cur.push(s@[i as int]) =~= s@.subrange(start as int, i + 1));
                assert(split_on_newline(rem, cur) == split_on_newline(
                    s@.skip(i + 1),
                    s@.subrange(start as int, i + 1),
                ));
            }
        }
        i += 1;
    }
    proof {
        assert(s@.skip(n as int) =~= Seq::<char>::empty());
    }
    if start < n {
        let piece = String::from_str(s.substring_char(start, n));
        let ghost prev_out = out@;
        out.push(piece);
        proof {
            assert(out@.map_values(|x: String| x@) =~= prev_out.map_values(|x: String| x@) + seq![
                s@.subrange(start as int, n as int),
            ]);
        }
    } else {
        proof {
            assert(s@.subrange(start as int, n as int).len() == 0);
            assert(out@.map_values(|x: String| x@) + Seq::<Seq<char>>::empty() =~= out@.map_values(
                |x: String| x@,
            ));
        }
    }
    out
}

/// First value recorded under key `p`.
pub open spec fn assoc_lookup(entries: Seq<(String, GitStatus)>, p: Seq<char>) -> Option<GitStatus>
    decreases entries.len(),
{
    if entries.len() == 0 {
        None
    } else if entries.first().0@ == p {
        Some(entries.first().1)
    } else {
        assoc_lookup(entries.drop_first(), p)
    }
}

proof fn lemma_assoc_lookup_skip(entries: Seq<(String, GitStatus)>, p: Seq<char>, i: int)
    requires
        0 <= i <= entries.len(),
        forall|j: int| 0 <= j < i ==> (#[trigger] entries[j]).0@ != p,
    ensures
        assoc_lookup(entries, p) == assoc_lookup(entries.skip(i), p),
    decreases i,
{
    if i > 0 {
        lemma_assoc_lookup_skip(entries, p, i - 1);
        assert(entries.skip(i - 1).drop_first() =~= entries.skip(i));
        assert(entries.skip(i - 1).first() == entries[i - 1]);
    } else {
        assert(entries.skip(0) =~= entries);
    }
}

/// Linear scan deciding `assoc_lookup`.
fn assoc_find(entries: &Vec<(String, GitStatus)>, p: &str) -> (r: Option<GitStatus>)
    ensures
        r == assoc_lookup(entries@, p@),
{
    let n = entries.len();
    let mut i: usize = 0;
    while i < n
        invariant
            n == entries@.len(),
            i <= n,
            forall|j: int| 0 <= j < i ==> (#[trigger] entries@[j]).0@ != p@,
        decreases n - i,
    {
        if str_eq(entries[i].0.as_str(), p) {
            proof {
                lemma_assoc_lookup_skip(entries@, p@, i as int);
                assert(entries@.skip(i as int).first() == entries@[i as int]);
            }
            return Some(entries[i].1);
        }
        i += 1;
    }
    proof {
        lemma_assoc_lookup_skip(entries@, p@, n as int);
    }
    None
}

/// Record `v` under `p`, replacing an earlier record.
fn assoc_put(entries: &mut Vec<(String, GitStatus)>, p: String, v: GitStatus)
    ensures
        final(entries)@ == old(entries)@.insert(0, (p, v)),
        assoc_lookup(final(entries)@, p@) == Some(v),
        forall|q: Seq<char>|
            q != p@ ==> #[trigger] assoc_lookup(final(entries)@, q) == assoc_lookup(
                old(entries)@,
                q,
            ),
{
    let ghost before = entries@;
    entries.insert(0, (p, v));
    proof {
        assert(entries@.first() == entries@[0]);
        assert(entries@.drop_first() =~= before);
    }
}

/// The keys and statuses an entry table holds, in lookup order.
pub open spec fn statuses_view(v: Seq<(String, GitStatus)>) -> Seq<(Seq<char>, GitStatus)> {
    v.map_values(|e: (String, GitStatus)| (e.0@, e.1))
}

/// The entry one plain status line contributes, if any.
pub open spec fn porcelain_entry(l: Seq<char>, root: Seq<char>) -> Option<(Seq<char>, GitStatus)> {
    if l.len() >= 4 {
        Some(
            (
                crate::paths::join_seq(root, arrow_target(l.subrange(3, l.len() as int))),
                parse_status_spec(l[0], l[1]),
            ),
        )
    } else {
        None
    }
}

/// The table after recording each plain status line, newest first.
pub open spec fn porcelain_fold(
    lines: Seq<Seq<char>>,
    root: Seq<char>,
    acc: Seq<(Seq<char>, GitStatus)>,
) -> Seq<(Seq<char>, GitStatus)>
    decreases lines.len(),
{
    if lines.len() == 0 {
        acc
    } else {
        porcelain_fold(
            lines.drop_first(),
            root,
            match porcelain_entry(lines.first(), root) {
                Some(e) => seq![e] + acc,
                None => acc,
            },
        )
    }
}

/// The entry one ignored-listing line contributes, if any.
pub open spec fn ignored_entry(l: Seq<char>, root: Seq<char>) -> Option<(Seq<char>, GitStatus)> {
    if l.len() >= 3 && l[0] == '!' && l[1] == '!' && l[2] == ' ' {
        Some((crate::paths::join_seq(root, l.subrange(3, l.len() as int)), GitStatus::Ignored))
    } else {
        None
    }
}

/// The table after recording each ignored-listing line, newest first.
pub open spec fn ignored_fold(
    lines: Seq<Seq<char>>,
    root: Seq<char>,
    acc: Seq<(Seq<char>, GitStatus)>,
) -> Seq<(Seq<char>, GitStatus)>
    decreases lines.len(),
{
    if lines.len() == 0 {
        acc
    } else {
        ignored_fold(
            lines.drop_first(),
            root,
            match ignored_entry(lines.first(), root) {
                Some(e) => seq![e] + acc,
                None => acc,
            },
        )
    }
}

/// `d` lies on the parent chain of `p`.
pub open spec fn in_parent_chain(d: Seq<char>, p: Seq<char>) -> bool
    decreases p.len(),
    via in_parent_chain_decreases
{
    match crate::paths::parent_seq(p) {
        None => false,
        Some(q) => q == d || in_parent_chain(d, q),
    }
}

#[via_fn]
proof fn in_parent_chain_decreases(d: Seq<char>, p: Seq<char>) {
    crate::paths::lemma_last_index_of_char(p, '/');
}

/// Walking on from a chain member stays in the chain.
proof fn lemma_parent_chain_step(p: Seq<char>, c: Seq<char>, n: Seq<char>)
    requires
        in_parent_chain(c, p),
        crate::paths::parent_seq(c) == Some(n),
    ensures
        in_parent_chain(n, p),
    decreases p.len(),
{
    crate::paths::lemma_last_index_of_char(p, '/');
    match crate::paths::parent_seq(p) {
        None => {},
        Some(q) => {
            if q == c {
                assert(in_parent_chain(n, c));
            } else {
                lemma_parent_chain_step(q, c, n);
            }
        },
    }
}

/// A found value sits in some slot under its key.
proof fn lemma_assoc_lookup_witness(entries: Seq<(String, GitStatus)>, p: Seq<char>)
    requires
        assoc_lookup(entries, p) is Some,
    ensures
        exists|i: int|
            0 <= i < entries.len() && (#[trigger] entries[i]).0@ == p && entries[i].1
                == assoc_lookup(entries, p)->0,
    decreases entries.len(),
{
    if entries.first().0@ == p {
        assert(entries[0] == entries.first());
    } else {
        lemma_assoc_lookup_witness(entries.drop_first(), p);
        let i = choose|i: int|
            0 <= i < entries.drop_first().len() && (#[trigger] entries.drop_first()[i]).0@ == p
                && entries.drop_first()[i].1 == assoc_lookup(entries.drop_first(), p)->0;
        assert(entries[i + 1] == entries.drop_first()[i]);
    }
}

/// A parent is a strictly shorter path.
proof fn lemma_parent_shorter(p: Seq<char>)
    ensures
        crate::paths::parent_seq(p) matches Some(q) ==> q.len() < p.len(),
{
    crate::paths::lemma_last_index_of_char(p, '/');
}

/// Every directory above entry `j` is cached, as `Modified` when the entry
/// itself is of a modifying kind.
pub open spec fn cache_covers(
    cache: Seq<(String, GitStatus)>,
    sts: Seq<(String, GitStatus)>,
    j: int,
) -> bool {
    forall|d: Seq<char>| #[trigger]
        in_parent_chain(d, sts[j].0@) ==> assoc_lookup(cache, d) is Some && (is_modifying(
            sts[j].1,
        ) ==> assoc_lookup(cache, d) == Some(GitStatus::Modified))
}

/// A cache entry is justified: a recorded path beneath the directory
/// carries a status of the matching kind.
pub open spec fn cache_entry_ok(
    e: (String, GitStatus),
    sts: Seq<(String, GitStatus)>,
) -> bool {
    &&& (e.1 == GitStatus::Modified ==> exists|j: int|
        0 <= j < sts.len() && is_modifying((#[trigger] sts[j]).1) && in_parent_chain(
            e.0@,
            sts[j].0@,
        ))
    &&& (e.1 == GitStatus::Untracked ==> exists|j: int|
        0 <= j < sts.len() && (#[trigger] sts[j]).1 == GitStatus::Untracked && in_parent_chain(
            e.0@,
            sts[j].0@,
        ))
    &&& (e.1 == GitStatus::Modified || e.1 == GitStatus::Untracked)
}

/// Whether this status promotes an ancestor directory to `Modified`.
pub open spec fn is_modifying(s: GitStatus) -> bool {
    s == GitStatus::Modified || s == GitStatus::Added || s == GitStatus::Deleted || s
        == GitStatus::Renamed || s == GitStatus::Conflict
}

/// The status overlay: per-path statuses parsed from porcelain output, and a
/// cache of directory statuses aggregated from the files beneath them.
pub struct GitRepo {
    pub root: Option<String>,
    pub statuses: Vec<(String, GitStatus)>,
    pub dir_status_cache: Vec<(String, GitStatus)>,
    pub branch: Option<String>,
}

impl GitRepo {
    /// Rebuild the overlay from the tool's output: `status_output` from a
    /// plain porcelain status listing, `ignored_output` from one that also
    /// reports ignored entries. With no repository root, the overlay is
    /// empty.
    pub fn refresh(
        &mut self,
        root: Option<String>,
        status_output: &str,
        ignored_output: &str,
        branch: Option<String>,
    )
        ensures
            final(self).root == root,
            final(self).branch == branch,
            root is None ==> final(self).statuses@.len() == 0 && final(self).dir_status_cache@.len() == 0,
            root matches Some(r) ==> statuses_view(final(self).statuses@) == ignored_fold(
                split_on_newline(ignored_output@, Seq::empty()),
                r@,
                porcelain_fold(
                    split_on_newline(status_output@, Seq::empty()),
                    r@,
                    Seq::empty(),
                ),
            ),
            forall|i: int|
                0 <= i < final(self).dir_status_cache@.len() ==> cache_entry_ok(
                    #[trigger] final(self).dir_status_cache@[i],
                    final(self).statuses@,
                ),
            forall|j: int|
                0 <= j < final(self).statuses@.len() && (is_modifying(
                    (#[trigger] final(self).statuses@[j]).1,
                ) || final(self).statuses@[j].1 == GitStatus::Untracked) ==> cache_covers(
                    final(self).dir_status_cache@,
                    final(self).statuses@,
                    j,
                ),
    {
        self.statuses = Vec::new();
        self.dir_status_cache = Vec::new();
        self.branch = None;
        match root {
            None => {
                self.root = None;
            },
            Some(r) => {
                proof {
                    assert(statuses_view(self.statuses@) =~= Seq::empty());
                }
                self.load_statuses(r.as_str(), status_output, ignored_output);
                self.build_directory_cache();
                self.root = Some(r);
            },
        }
        self.branch = branch;
    }

    pub fn new(
        root: Option<String>,
        status_output: &str,
        ignored_output: &str,
        branch: Option<String>,
    ) -> (r: GitRepo)
        ensures
            r.root == root,
            r.branch == branch,
            root is None ==> r.statuses@.len() == 0 && r.dir_status_cache@.len() == 0,
            root matches Some(rt) ==> statuses_view(r.statuses@) == ignored_fold(
                split_on_newline(ignored_output@, Seq::empty()),
                rt@,
                porcelain_fold(split_on_newline(status_output@, Seq::empty()), rt@, Seq::empty()),
            ),
            forall|i: int|
                0 <= i < r.dir_status_cache@.len() ==> cache_entry_ok(
                    #[trigger] r.dir_status_cache@[i],
                    r.statuses@,
                ),
            forall|j: int|
                0 <= j < r.statuses@.len() && (is_modifying((#[trigger] r.statuses@[j]).1)
                    || r.statuses@[j].1 == GitStatus::Untracked) ==> cache_covers(
                    r.dir_status_cache@,
                    r.statuses@,
                    j,
                ),
    {
        let mut repo = GitRepo {
            root: None,
            statuses: Vec::new(),
            dir_status_cache: Vec::new(),
            branch: None,
        };
        repo.refresh(root, status_output, ignored_output, branch);
        repo
    }

    /// Parse both outputs into the per-path status table. Paths are made
    /// absolute against `root`; a renamed entry is recorded under its new
    /// name; ignored entries come from the second listing.
    pub fn load_statuses(&mut self, root: &str, status_output: &str, ignored_output: &str)
        ensures
            final(self).root == old(self).root,
            final(self).branch == old(self).branch,
            final(self).dir_status_cache == old(self).dir_status_cache,
            statuses_view(final(self).statuses@) == ignored_fold(
                split_on_newline(ignored_output@, Seq::empty()),
                root@,
                porcelain_fold(
                    split_on_newline(status_output@, Seq::empty()),
                    root@,
                    statuses_view(old(self).statuses@),
                ),
            ),
    {
        let lines = split_lines(status_output);
        let ghost line_views = split_on_newline(status_output@, Seq::empty());
        let ghost init = statuses_view(old(self).statuses@);
        let n = lines.len();
        let mut i: usize = 0;
        proof {
            assert(line_views.skip(0) =~= line_views);
        }
        while i < n
            invariant
                self.root == old(self).root,
                self.branch == old(self).branch,
                self.dir_status_cache == old(self).dir_status_cache,
                i <= n,
                n == lines@.len(),
                n == line_views.len(),
                forall|k: int| 0 <= k < n ==> (#[trigger] lines@[k])@ == line_views[k],
                porcelain_fold(line_views, root@, init) == porcelain_fold(
                    line_views.skip(i as int),
                    root@,
                    statuses_view(self.statuses@),
                ),
            decreases n - i,
        {
            let ghost rem = line_views.skip(i as int);
            let ghost acc = statuses_view(self.statuses@);
            proof {
                assert(rem.first() == line_views[i as int]);
                assert(rem.drop_first() =~= line_views.skip(i + 1));
            }
            match parse_porcelain_line(lines[i].as_str()) {
                Some(entry) => {
                    let full = crate::paths::join_path(root, entry.0.as_str());
                    let ghost before = self.statuses@;
                    assoc_put(&mut self.statuses, full, entry.1);
                    proof {
                        assert(statuses_view(self.statuses@) =~= seq![
                            (full@, entry.1),
                        ] + statuses_view(before));
                        assert(porcelain_entry(rem.first(), root@) == Some((full@, entry.1)));
                    }
                },
                None => {},
            }
            i += 1;
        }
        proof {
            assert(line_views.skip(n as int) =~= Seq::<Seq<char>>::empty());
        }
        let ignored_lines = split_lines(ignored_output);
        let ghost ignored_views = split_on_newline(ignored_output@, Seq::empty());
        let ghost mid = statuses_view(self.statuses@);
        let m = ignored_lines.len();
        let mut j: usize = 0;
        proof {
            assert(ignored_views.skip(0) =~= ignored_views);
        }
        while j < m
            invariant
                self.root == old(self).root,
                self.branch == old(self).branch,
                self.dir_status_cache == old(self).dir_status_cache,
                j <= m,
                m == ignored_lines@.len(),
                m == ignored_views.len(),
                forall|k: int| 0 <= k < m ==> (#[trigger] ignored_lines@[k])@ == ignored_views[k],
                ignored_fold(ignored_views, root@, mid) == ignored_fold(
                    ignored_views.skip(j as int),
                    root@,
                    statuses_view(self.statuses@),
                ),
            decreases m - j,
        {
            let ghost rem = ignored_views.skip(j as int);
            proof {
                assert(rem.first() == ignored_views[j as int]);
                assert(rem.drop_first() =~= ignored_views.skip(j + 1));
            }
            let line = &ignored_lines[j];
            let ln = line.as_str().unicode_len();
            if ln >= 3 && line.as_str().get_char(0) == '!' && line.as_str().get_char(1) == '!'
                && line.as_str().get_char(2) == ' ' {
                let rel = line.as_str().substring_char(3, ln);
                let full = crate::paths::join_path(root, rel);
                let ghost before = self.statuses@;
                assoc_put(&mut self.statuses, full, GitStatus::Ignored);
                proof {
                    assert(statuses_view(self.statuses@) =~= seq![
                        (full@, GitStatus::Ignored),
                    ] + statuses_view(before));
                    assert(ignored_entry(rem.first(), root@) == Some(
                        (full@, GitStatus::Ignored),
                    ));
                }
            } else {
                proof {
                    assert(ignored_entry(rem.first(), root@) is None);
                }
            }
            j += 1;
        }
        proof {
            assert(ignored_views.skip(m as int) =~= Seq::<Seq<char>>::empty());
        }
    }

    /// Walk each recorded path's ancestor chain and mark every directory on
    /// it: `Modified` wins over `Untracked`; other statuses leave no mark.
    /// Every cached entry is justified by some recorded path beneath it,
    /// and every directory above a recorded path is cached.
    pub fn build_directory_cache(&mut self)
        ensures
            final(self).root == old(self).root,
            final(self).branch == old(self).branch,
            final(self).statuses == old(self).statuses,
            forall|i: int|
                0 <= i < final(self).dir_status_cache@.len() ==> cache_entry_ok(
                    #[trigger] final(self).dir_status_cache@[i],
                    final(self).statuses@,
                ),
            forall|j: int|
                0 <= j < final(self).statuses@.len() && (is_modifying(
                    (#[trigger] final(self).statuses@[j]).1,
                ) || final(self).statuses@[j].1 == GitStatus::Untracked) ==> cache_covers(
                    final(self).dir_status_cache@,
                    final(self).statuses@,
                    j,
                ),
    {
        let mut cache: Vec<(String, GitStatus)> = Vec::new();
        let n = self.statuses.len();
        let mut i: usize = 0;
        while i < n
            invariant
                i <= n,
                n == self.statuses@.len(),
                forall|k: int|
                    0 <= k < cache@.len() ==> cache_entry_ok(
                        #[trigger] cache@[k],
                        self.statuses@,
                    ),
                forall|j: int|
                    0 <= j < i && (is_modifying((#[trigger] self.statuses@[j]).1)
                        || self.statuses@[j].1 == GitStatus::Untracked) ==> cache_covers(
                        cache@,
                        self.statuses@,
                        j,
                    ),
            decreases n - i,
        {
            let ghost witness = self.statuses@[i as int];
            let status = self.statuses[i].1;
            let promotes = is_modifying_exec(status);
            let untracked = matches!(status, GitStatus::Untracked);
            if promotes || untracked {
                let mut current = parent_of(self.statuses[i].0.as_str());
                let mut guard: usize = self.statuses[i].0.as_str().unicode_len();
                proof {
                    crate::paths::lemma_last_index_of_char(witness.0@, '/');
                    lemma_parent_shorter(witness.0@);
                }
                loop
                    invariant
                        0 <= i < n,
                        n == self.statuses@.len(),
                        witness == self.statuses@[i as int],
                        forall|k: int|
                            0 <= k < cache@.len() ==> cache_entry_ok(
                                #[trigger] cache@[k],
                                self.statuses@,
                            ),
                        forall|j: int|
                            0 <= j < i && (is_modifying((#[trigger] self.statuses@[j]).1)
                                || self.statuses@[j].1 == GitStatus::Untracked) ==> cache_covers(
                                cache@,
                                self.statuses@,
                                j,
                            ),
                        promotes == is_modifying(witness.1),
                        untracked == (witness.1 == GitStatus::Untracked),
                        promotes || untracked,
                        current matches Some(c) ==> in_parent_chain(c@, witness.0@) && c@.len()
                            <= guard,
                        current matches Some(c) ==> forall|d: Seq<char>| #[trigger]
                            in_parent_chain(d, witness.0@) && d != c@ && !in_parent_chain(d, c@)
                                ==> assoc_lookup(cache@, d) is Some && (promotes ==> assoc_lookup(
                                cache@,
                                d,
                            ) == Some(GitStatus::Modified)),
                        current is None ==> forall|d: Seq<char>| #[trigger]
                            in_parent_chain(d, witness.0@) ==> assoc_lookup(cache@, d) is Some && (
                            promotes ==> assoc_lookup(cache@, d) == Some(GitStatus::Modified)),
                    ensures
                        current is None,
                    decreases guard,
                {
                    match current {
                        None => {
                            break ;
                        },
                        Some(dir) => {
                            let existing = assoc_find(&cache, dir.as_str());
                            let merged = if promotes {
                                GitStatus::Modified
                            } else {
                                match existing {
                                    Some(GitStatus::Modified) => GitStatus::Modified,
                                    _ => GitStatus::Untracked,
                                }
                            };
                            let next = parent_of(dir.as_str());
                            let ghost prev_cache = cache@;
                            let ghost merged_spec = merged;
                            let ghost dir_spec = dir@;
                            let ghost existing_spec = assoc_lookup(prev_cache, dir_spec);
                            proof {
                                if !(promotes) && existing == Some(GitStatus::Modified) {
                                    lemma_assoc_lookup_witness(prev_cache, dir_spec);
                                }
                                if next is Some {
                                    lemma_parent_chain_step(witness.0@, dir_spec, next->0@);
                                }
                                lemma_parent_shorter(dir_spec);
                            }
                            assoc_put(&mut cache, dir, merged);
                            proof {
                                assert forall|k: int|
                                    0 <= k < cache@.len() implies cache_entry_ok(
                                    #[trigger] cache@[k],
                                    self.statuses@,
                                ) by {
                                    if k == 0 {
                                        assert(cache@[0] == (cache@[0].0, merged_spec));
                                        assert(cache@[0].0@ == dir_spec);
                                        if merged_spec == GitStatus::Untracked {
                                            assert(witness.1 == GitStatus::Untracked);
                                        }
                                        if merged_spec == GitStatus::Modified && !promotes {
                                            let w = choose|w: int|
                                                0 <= w < prev_cache.len() && (#[trigger] prev_cache[
                                                    w
                                                ]).0@ == dir_spec && prev_cache[w].1
                                                    == GitStatus::Modified;
                                            assert(cache_entry_ok(
                                                prev_cache[w],
                                                self.statuses@,
                                            ));
                                        }
                                    } else {
                                        assert(cache@[k] == prev_cache[k - 1]);
                                    }
                                }
                                // the new record never downgrades a directory
                                assert(assoc_lookup(cache@, dir_spec) == Some(merged_spec));
                                assert(existing_spec == Some(GitStatus::Modified)
                                    ==> merged_spec == GitStatus::Modified);
                                // older entries keep their coverage
                                assert forall|j: int|
                                    0 <= j < i && (is_modifying(
                                        (#[trigger] self.statuses@[j]).1,
                                    ) || self.statuses@[j].1 == GitStatus::Untracked) implies cache_covers(
                                    cache@,
                                    self.statuses@,
                                    j,
                                ) by {
                                    assert forall|d: Seq<char>| #[trigger]
                                        in_parent_chain(d, self.statuses@[j].0@) implies assoc_lookup(
                                        cache@,
                                        d,
                                    ) is Some && (is_modifying(self.statuses@[j].1)
                                        ==> assoc_lookup(cache@, d) == Some(
                                        GitStatus::Modified,
                                    )) by {
                                        if d != dir_spec {
                                            assert(assoc_lookup(cache@, d) == assoc_lookup(
                                                prev_cache,
                                                d,
                                            ));
                                        }
                                    }
                                }
                                // the region below the new cursor is covered
                                let p = witness.0@;
                                if next is Some {
                                    let nxv = next->0@;
                                    assert forall|d: Seq<char>| #[trigger]
                                        in_parent_chain(d, p) && d != nxv && !in_parent_chain(
                                        d,
                                        nxv,
                                    ) implies assoc_lookup(cache@, d) is Some && (promotes
                                        ==> assoc_lookup(cache@, d) == Some(
                                        GitStatus::Modified,
                                    )) by {
                                        if d != dir_spec {
                                            assert(!in_parent_chain(d, dir_spec));
                                            assert(assoc_lookup(cache@, d) == assoc_lookup(
                                                prev_cache,
                                                d,
                                            ));
                                        }
                                    }
                                } else {
                                    assert forall|d: Seq<char>| #[trigger]
                                        in_parent_chain(d, p) implies assoc_lookup(
                                        cache@,
                                        d,
                                    ) is Some && (promotes ==> assoc_lookup(cache@, d) == Some(
                                        GitStatus::Modified,
                                    )) by {
                                        if d != dir_spec {
                                            assert(!in_parent_chain(d, dir_spec));
                                            assert(assoc_lookup(cache@, d) == assoc_lookup(
                                                prev_cache,
                                                d,
                                            ));
                                        }
                                    }
                                }
                            }
                            current = next;
                            proof {
                                if guard == 0 && current is Some {
                                    assert(false);
                                }
                            }
                            if guard == 0 {
                                break ;
                            }
                            guard -= 1;
                        },
                    }
                }
                proof {
                    assert(cache_covers(cache@, self.statuses@, i as int));
                }
            }
            i += 1;
        }
        self.dir_status_cache = cache;
    }

    /// The status shown for a path: its own recorded status first, else, for
    /// directories, the aggregated status of what lies beneath it.
    pub fn get_status(&self, path: &str, is_dir: bool) -> (r: GitStatus)
        ensures
            r == (match assoc_lookup(self.statuses@, path@) {
                Some(s) => s,
                None => {
                    if is_dir {
                        match assoc_lookup(self.dir_status_cache@, path@) {
                            Some(s) => s,
                            None => GitStatus::Clean,
                        }
                    } else {
                        GitStatus::Clean
                    }
                },
            }),
    {
        match assoc_find(&self.statuses, path) {
            Some(s) => s,
            None => {
                if is_dir {
                    match assoc_find(&self.dir_status_cache, path) {
                        Some(s) => s,
                        None => GitStatus::Clean,
                    }
                } else {
                    GitStatus::Clean
                }
            },
        }
    }

    pub fn is_inside_repo(&self) -> (r: bool)
        ensures
            r == (self.root is Some),
    {
        self.root.is_some()
    }
}

fn is_modifying_exec(s: GitStatus) -> (r: bool)
    ensures
        r == is_modifying(s),
{
    matches!(
        s,
        GitStatus::Modified | GitStatus::Added | GitStatus::Deleted | GitStatus::Renamed
            | GitStatus::Conflict
    )
}

} // verus!
