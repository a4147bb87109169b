//! The directory tree and its derived flat display list.
//!
//! A [`FileNode`] owns its children outright; a [`FileTree`] pairs the root
//! node with a rebuilt-on-every-change flat list of node summaries in
//! depth-first, expansion-aware order. All indices handed to the tree refer
//! to that flat list, and the central invariant [`FileTree::wf`] says the
//! list mirrors the tree exactly.

use vstd::prelude::*;

use crate::OpError;
use crate::fs::{EntryInfo, FsSnapshot};
use crate::paths::{
    is_hidden_name, is_hidden_seq, join_path, join_seq, lemma_lex_le_total, lemma_lex_le_trans,
    lex_le, name_of, name_seq, path_is_under, str_eq, str_lex_le,
};

verus! {

/// One filesystem entry in the tree. `expanded` is only meaningful for
/// directories; children stay loaded when a directory is collapsed.
#[derive(Debug)]
#[verifier::ext_equal]
pub struct FileNode {
    pub path: String,
    pub name: String,
    pub is_dir: bool,
    pub expanded: bool,
    pub depth: usize,
    pub children: Vec<FileNode>,
}

/// The nodes visible under `n`: `n` itself, then the visible nodes of each
/// child in order, but only when `n` is expanded.
pub open spec fn flatten_seq(n: FileNode) -> Seq<FileNode>
    decreases n, 1int,
{
    if n.expanded {
        seq![n] + flatten_list(n.children@)
    } else {
        seq![n]
    }
}

pub open spec fn flatten_list(cs: Seq<FileNode>) -> Seq<FileNode>
    decreases cs, 0int,
{
    if cs.len() == 0 {
        Seq::empty()
    } else {
        flatten_list(cs.drop_last()) + flatten_seq(cs.last())
    }
}

/// The number of nodes whose whole ancestor chain is expanded (the root's
/// chain is empty, so the root always counts).
pub open spec fn visible_count(n: FileNode) -> nat
    decreases n, 1int,
{
    if n.expanded {
        1 + visible_count_list(n.children@)
    } else {
        1
    }
}

pub open spec fn visible_count_list(cs: Seq<FileNode>) -> nat
    decreases cs, 0int,
{
    if cs.len() == 0 {
        0nat
    } else {
        visible_count_list(cs.drop_last()) + visible_count(cs.last())
    }
}

/// The flat list has exactly one slot per node whose ancestor chain
/// (excluding the node itself) is fully expanded, the root included.
pub proof fn lemma_flatten_len_is_visible_count(n: FileNode)
    ensures
        flatten_seq(n).len() == visible_count(n),
    decreases n, 1int,
{
    if n.expanded {
        lemma_flatten_list_len(n.children@);
    }
}

pub proof fn lemma_flatten_list_len(cs: Seq<FileNode>)
    ensures
        flatten_list(cs).len() == visible_count_list(cs),
    decreases cs, 0int,
{
    if cs.len() > 0 {
        lemma_flatten_list_len(cs.drop_last());
        lemma_flatten_len_is_visible_count(cs.last());
    }
}

/// A non-directory never has children and never counts as expanded.
pub open spec fn wf_node(n: FileNode) -> bool
    decreases n, 1int,
{
    (!n.is_dir ==> n.children@.len() == 0 && !n.expanded) && wf_node_list(n.children@)
}

pub open spec fn wf_node_list(cs: Seq<FileNode>) -> bool
    decreases cs, 0int,
{
    if cs.len() == 0 {
        true
    } else {
        wf_node_list(cs.drop_last()) && wf_node(cs.last())
    }
}

proof fn lemma_wf_node_list_index(cs: Seq<FileNode>, i: int)
    requires
        wf_node_list(cs),
        0 <= i < cs.len(),
    ensures
        wf_node(cs[i]),
    decreases cs,
{
    if i < cs.len() - 1 {
        lemma_wf_node_list_index(cs.drop_last(), i);
    }
}

proof fn lemma_wf_node_list_update(cs: Seq<FileNode>, i: int, c: FileNode)
    requires
        wf_node_list(cs),
        wf_node(c),
        0 <= i < cs.len(),
    ensures
        wf_node_list(cs.update(i, c)),
    decreases cs,
{
    if cs.len() > 0 {
        if i == cs.len() - 1 {
            assert(cs.update(i, c).drop_last() =~= cs.drop_last());
            assert(cs.update(i, c).last() == c);
        } else {
            lemma_wf_node_list_update(cs.drop_last(), i, c);
            assert(cs.update(i, c).drop_last() =~= cs.drop_last().update(i, c));
            assert(cs.update(i, c).last() == cs.last());
        }
    }
}

/// The sort key of a child entry: directories first, then name order.
pub open spec fn child_le(a: FileNode, b: FileNode) -> bool {
    if a.is_dir != b.is_dir {
        a.is_dir
    } else {
        lex_le(a.name@, b.name@)
    }
}

pub open spec fn sorted_children(cs: Seq<FileNode>) -> bool {
    forall|i: int, j: int| 0 <= i < j < cs.len() ==> child_le(#[trigger] cs[i], #[trigger] cs[j])
}

proof fn lemma_child_le_total(a: FileNode, b: FileNode)
    ensures
        child_le(a, b) || child_le(b, a),
{
    lemma_lex_le_total(a.name@, b.name@);
}

proof fn lemma_child_le_trans(a: FileNode, b: FileNode, c: FileNode)
    requires
        child_le(a, b),
        child_le(b, c),
    ensures
        child_le(a, c),
{
    if a.is_dir == b.is_dir && b.is_dir == c.is_dir {
        lemma_lex_le_trans(a.name@, b.name@, c.name@);
    }
}

/// How many children carry this (name, is-directory) key.
pub open spec fn child_key_count(cs: Seq<FileNode>, name: Seq<char>, is_dir: bool) -> nat
    decreases cs.len(),
{
    if cs.len() == 0 {
        0nat
    } else {
        child_key_count(cs.drop_last(), name, is_dir) + if cs.last().name@ == name
            && cs.last().is_dir == is_dir {
            1nat
        } else {
            0nat
        }
    }
}

proof fn lemma_child_key_count_insert(cs: Seq<FileNode>, k: int, c: FileNode, name: Seq<char>, is_dir: bool)
    requires
        0 <= k <= cs.len(),
    ensures
        child_key_count(cs.insert(k, c), name, is_dir) == child_key_count(cs, name, is_dir) + if c.name@
            == name && c.is_dir == is_dir {
            1int
        } else {
            0int
        },
    decreases cs.len(),
{
    if k == cs.len() {
        assert(cs.insert(k, c).drop_last() =~= cs);
        assert(cs.insert(k, c).last() == c);
    } else {
        lemma_child_key_count_insert(cs.drop_last(), k, c, name, is_dir);
        assert(cs.insert(k, c).drop_last() =~= cs.drop_last().insert(k, c));
        assert(cs.insert(k, c).last() == cs.last());
    }
}

/// How many scanned entries pass the hidden filter and carry this key.
pub open spec fn entry_key_count(
    es: Seq<EntryInfo>,
    show_hidden: bool,
    name: Seq<char>,
    is_dir: bool,
) -> nat
    decreases es.len(),
{
    if es.len() == 0 {
        0nat
    } else {
        entry_key_count(es.drop_last(), show_hidden, name, is_dir) + if (show_hidden
            || !is_hidden_seq(es.last().name@)) && es.last().name@ == name && es.last().is_dir
            == is_dir {
            1nat
        } else {
            0nat
        }
    }
}

/// Every child is a freshly scanned leaf of `parent` at depth `d`.
pub open spec fn fresh_child(c: FileNode, parent: Seq<char>, d: int) -> bool {
    &&& c.path@ == join_seq(parent, c.name@)
    &&& !c.expanded
    &&& c.children@.len() == 0
    &&& c.depth == d
}

impl FileNode {
    /// A bare, collapsed node; its display name is the path's last component.
    pub fn new(path: String, is_dir: bool, depth: usize) -> (r: FileNode)
        ensures
            r.path == path,
            r.name@ == name_seq(path@),
            r.is_dir == is_dir,
            !r.expanded,
            r.depth == depth,
            r.children@.len() == 0,
            wf_node(r),
    {
        let name = name_of(path.as_str());
        FileNode { path, name, is_dir, expanded: false, depth, children: Vec::new() }
    }

    /// Flip this directory's expansion, loading children from the given
    /// scan on the first expansion; they are kept on collapse. Does nothing
    /// on a non-directory.
    pub fn toggle_expand(&mut self, entries: &Vec<EntryInfo>, show_hidden: bool)
        ensures
            !old(self).is_dir ==> *final(self) == *old(self),
            final(self).path == old(self).path,
            final(self).name == old(self).name,
            final(self).is_dir == old(self).is_dir,
            final(self).depth == old(self).depth,
            old(self).is_dir ==> final(self).expanded == !old(self).expanded,
            old(self).is_dir && (old(self).expanded || old(self).children@.len() > 0) ==> final(self).children == old(self).children,
            old(self).is_dir && !old(self).expanded && old(self).children@.len() == 0 ==> (
            sorted_children(final(self).children@) && forall|name: Seq<char>, d: bool|
                child_key_count(final(self).children@, name, d) == entry_key_count(
                    entries@,
                    show_hidden,
                    name,
                    d,
                )),
            wf_node(*old(self)) ==> wf_node(*final(self)),
    {
        if !self.is_dir {
            return ;
        }
        self.expanded = !self.expanded;
        if self.expanded && self.children.len() == 0 {
            self.load_children(entries, show_hidden);
        }
    }

    /// Replace this directory's children with the given scan, hidden entries
    /// filtered out unless asked for, directories first and names in
    /// lexicographic order. Does nothing on a non-directory.
    pub fn load_children(&mut self, entries: &Vec<EntryInfo>, show_hidden: bool)
        ensures
            !old(self).is_dir ==> *final(self) == *old(self),
            final(self).path == old(self).path,
            final(self).name == old(self).name,
            final(self).is_dir == old(self).is_dir,
            final(self).expanded == old(self).expanded,
            final(self).depth == old(self).depth,
            old(self).is_dir ==> sorted_children(final(self).children@),
            old(self).is_dir ==> forall|name: Seq<char>, d: bool|
                child_key_count(final(self).children@, name, d) == entry_key_count(
                    entries@,
                    show_hidden,
                    name,
                    d,
                ),
            old(self).is_dir && old(self).depth < usize::MAX ==> forall|i: int|
                0 <= i < final(self).children@.len() ==> fresh_child(
                    #[trigger] final(self).children@[i],
                    old(self).path@,
                    old(self).depth + 1,
                ),
            old(self).is_dir ==> wf_node_list(final(self).children@),
            wf_node(*old(self)) ==> wf_node(*final(self)),
    {
        if !self.is_dir {
            return ;
        }
        let child_depth: usize = if self.depth < usize::MAX {
            self.depth + 1
        } else {
            self.depth
        };
        let mut fresh: Vec<FileNode> = Vec::new();
        let n = entries.len();
        let mut i: usize = 0;
        while i < n
            invariant
                n == entries@.len(),
                i <= n,
                self.is_dir,
                child_depth as int == if self.depth < usize::MAX {
                    self.depth + 1
                } else {
                    self.depth as int
                },
                sorted_children(fresh@),
                wf_node_list(fresh@),
                forall|name: Seq<char>, d: bool|
                    child_key_count(fresh@, name, d) == entry_key_count(
                        entries@.take(i as int),
                        show_hidden,
                        name,
                        d,
                    ),
                forall|j: int|
                    0 <= j < fresh@.len() ==> fresh_child(
                        #[trigger] fresh@[j],
                        self.path@,
                        child_depth as int,
                    ),
            decreases n - i,
        {
            let ghost prev = fresh@;
            let entry_name = &entries[i].name;
            if show_hidden || !is_hidden_name(entry_name.as_str()) {
                let child = FileNode {
                    path: join_path(self.path.as_str(), entry_name.as_str()),
                    name: entry_name.clone(),
                    is_dir: entries[i].is_dir,
                    expanded: false,
                    depth: child_depth,
                    children: Vec::new(),
                };
                let ghost child_spec = child;
                insert_child_sorted(&mut fresh, child);
                proof {
                    assert forall|j: int|
                        0 <= j < fresh@.len() implies fresh_child(
                        #[trigger] fresh@[j],
                        self.path@,
                        child_depth as int,
                    ) by {
                        if fresh@[j] != child_spec {
                            assert(prev.contains(fresh@[j]));
                            let m = choose|m: int| 0 <= m < prev.len() && prev[m] == fresh@[j];
                            assert(fresh_child(prev[m], self.path@, child_depth as int));
                        }
                    }
                }
            }
            proof {
                assert(entries@.take(i + 1).drop_last() =~= entries@.take(i as int));
                assert(entries@.take(i + 1).last() == entries@[i as int]);
            }
            i += 1;
        }
        proof {
            assert(entries@.take(n as int) =~= entries@);
        }
        self.children = fresh;
    }
}

/// Insert `c` into a sorted child list, keeping it sorted.
fn insert_child_sorted(cs: &mut Vec<FileNode>, c: FileNode)
    requires
        sorted_children(old(cs)@),
    ensures
        exists|k: int| 0 <= k <= old(cs)@.len() && final(cs)@ == old(cs)@.insert(k, c),
        sorted_children(final(cs)@),
        wf_node_list(old(cs)@) && wf_node(c) ==> wf_node_list(final(cs)@),
        forall|name: Seq<char>, d: bool|
            child_key_count(final(cs)@, name, d) == child_key_count(old(cs)@, name, d) + if c.name@
                == name && c.is_dir == d {
                1int
            } else {
                0int
            },
        forall|i: int|
            0 <= i < final(cs)@.len() ==> final(cs)@[i] == c || old(cs)@.contains(
                #[trigger] final(cs)@[i],
            ),
{
    let n = cs.len();
    let mut k: usize = 0;
    while k < n && str_lex_le_entry(&cs[k], &c)
        invariant
            n == cs@.len(),
            k <= n,
            sorted_children(cs@),
            forall|i: int| 0 <= i < k ==> child_le(#[trigger] cs@[i], c),
        decreases n - k,
    {
        k += 1;
    }
    proof {
        if k < n {
            lemma_child_le_total(cs@[k as int], c);
        }
        assert forall|j: int| k <= j < cs@.len() implies child_le(c, #[trigger] cs@[j]) by {
            lemma_child_le_total(cs@[k as int], c);
            if j > k {
                lemma_child_le_trans(c, cs@[k as int], cs@[j]);
            }
        }
    }
    let ghost before = cs@;
    cs.insert(k, c);
    proof {
        assert(cs@ == before.insert(k as int, c));
        assert forall|i: int, j: int| 0 <= i < j < cs@.len() implies child_le(
            #[trigger] cs@[i],
            #[trigger] cs@[j],
        ) by {
            assert(cs@[i] == if i < k {
                before[i]
            } else if i == k {
                c
            } else {
                before[i - 1]
            });
            assert(cs@[j] == if j < k {
                before[j]
            } else if j == k {
                c
            } else {
                before[j - 1]
            });
        }
        lemma_child_key_count_insert_all(before, k as int, c);
        if wf_node_list(before) && wf_node(c) {
            lemma_wf_node_list_insert(before, k as int, c);
        }
    }
}

proof fn lemma_child_key_count_insert_all(cs: Seq<FileNode>, k: int, c: FileNode)
    requires
        0 <= k <= cs.len(),
    ensures
        forall|name: Seq<char>, d: bool|
            child_key_count(#[trigger] cs.insert(k, c), name, d) == child_key_count(cs, name, d)
                + if c.name@ == name && c.is_dir == d {
                1int
            } else {
                0int
            },
{
    assert forall|name: Seq<char>, d: bool|
        child_key_count(#[trigger] cs.insert(k, c), name, d) == child_key_count(cs, name, d) + if (
    c.name@ == name && c.is_dir == d) {
        1int
    } else {
        0int
    } by {
        lemma_child_key_count_insert(cs, k, c, name, d);
    }
}

proof fn lemma_wf_node_list_insert(cs: Seq<FileNode>, k: int, c: FileNode)
    requires
        0 <= k <= cs.len(),
        wf_node_list(cs),
        wf_node(c),
    ensures
        wf_node_list(cs.insert(k, c)),
    decreases cs.len(),
{
    if k == cs.len() {
        assert(cs.insert(k, c).drop_last() =~= cs);
        assert(cs.insert(k, c).last() == c);
    } else {
        lemma_wf_node_list_insert(cs.drop_last(), k, c);
        assert(cs.insert(k, c).drop_last() =~= cs.drop_last().insert(k, c));
        assert(cs.insert(k, c).last() == cs.last());
    }
}

/// Executable decision of the child order.
fn str_lex_le_entry(a: &FileNode, b: &FileNode) -> (r: bool)
    ensures
        r == child_le(*a, *b),
{
    if a.is_dir != b.is_dir {
        a.is_dir
    } else {
        str_lex_le(a.name.as_str(), b.name.as_str())
    }
}

/// `e` records the display fields of `n` and carries no subtree of its own.
pub open spec fn matches_entry(e: FileNode, n: FileNode) -> bool {
    &&& e.path@ == n.path@
    &&& e.name@ == n.name@
    &&& e.is_dir == n.is_dir
    &&& e.expanded == n.expanded
    &&& e.depth == n.depth
    &&& e.children@.len() == 0
}

/// The tree: a root node plus the flat list derived from it. The flat list
/// is rebuilt after every structural change, never patched.
#[derive(Debug)]
pub struct FileTree {
    pub root: FileNode,
    pub flat_list: Vec<usize>,
    pub nodes: Vec<FileNode>,
    pub show_hidden: bool,
}

impl FileTree {
    /// The flat list mirrors the depth-first, expansion-aware traversal of
    /// the root, entry by entry.
    pub open spec fn wf(self) -> bool {
        &&& self.root.is_dir
        &&& wf_node(self.root)
        &&& self.nodes@.len() == flatten_seq(self.root).len()
        &&& forall|i: int|
            0 <= i < self.nodes@.len() ==> matches_entry(
                #[trigger] self.nodes@[i],
                flatten_seq(self.root)[i],
            )
        &&& self.flat_list@.len() == self.nodes@.len()
        &&& forall|i: int| 0 <= i < self.flat_list@.len() ==> self.flat_list@[i] == i
    }

    pub open spec fn spec_len(self) -> nat {
        self.nodes@.len()
    }

    /// The summary stored at flat index `i`.
    pub open spec fn node_at(self, i: int) -> FileNode {
        self.nodes@[i]
    }

    /// Some visible node carries this path.
    pub open spec fn has_path(self, p: Seq<char>) -> bool {
        exists|i: int| 0 <= i < self.nodes@.len() && (#[trigger] self.nodes@[i]).path@ == p
    }

    /// Rebuild the flat list from the root. The library calls this after
    /// every structural mutation; it is the sole source of flat indices.
    pub fn rebuild_flat_list(&mut self)
        ensures
            final(self).root == old(self).root,
            final(self).show_hidden == old(self).show_hidden,
            wf_node(old(self).root) && old(self).root.is_dir ==> final(self).wf(),
            final(self).nodes@.len() == flatten_seq(old(self).root).len(),
            forall|i: int|
                0 <= i < final(self).nodes@.len() ==> matches_entry(
                    #[trigger] final(self).nodes@[i],
                    flatten_seq(old(self).root)[i],
                ),
    {
        self.nodes.clear();
        push_flat(&self.root, &mut self.nodes);
        proof {
            assert forall|j: int|
                0 <= j < self.nodes@.len() implies matches_entry(
                #[trigger] self.nodes@[j],
                flatten_seq(self.root)[j],
            ) by {
                assert(self.nodes@[0 + j] == self.nodes@[j]);
            }
        }
        self.flat_list.clear();
        let n = self.nodes.len();
        let mut i: usize = 0;
        while i < n
            invariant
                self.flat_list@.len() == i,
                i <= n,
                forall|j: int| 0 <= j < i ==> self.flat_list@[j] == j,
                self.nodes@.len() == n,
                self.root == old(self).root,
                self.show_hidden == old(self).show_hidden,
                forall|j: int|
                    0 <= j < n ==> matches_entry(
                        #[trigger] self.nodes@[j],
                        flatten_seq(self.root)[j],
                    ),
            decreases n - i,
        {
            self.flat_list.push(i);
            i += 1;
        }
    }

    /// Number of visible nodes.
    pub fn len(&self) -> (r: usize)
        ensures
            r == self.spec_len(),
    {
        self.nodes.len()
    }

    pub fn is_empty(&self) -> (r: bool)
        ensures
            r == (self.spec_len() == 0),
    {
        self.nodes.is_empty()
    }

    /// The node summary at a flat index; absent when the index is stale.
    pub fn get_node(&self, index: usize) -> (r: Option<&FileNode>)
        ensures
            r is Some <==> index < self.spec_len(),
            r matches Some(e) ==> *e == self.node_at(index as int),
    {
        if index < self.nodes.len() {
            Some(&self.nodes[index])
        } else {
            None
        }
    }

    /// Linear scan resolving a path back to its current flat index: the
    /// smallest index carrying the path.
    pub fn find_index_by_path(&self, path: &str) -> (r: Option<usize>)
        ensures
            r matches Some(i) ==> i < self.spec_len() && self.node_at(i as int).path@ == path@ && (
            forall|j: int| 0 <= j < i ==> (#[trigger] self.nodes@[j]).path@ != path@),
            r is None ==> !self.has_path(path@),
    {
        let n = self.nodes.len();
        let mut i: usize = 0;
        while i < n
            invariant
                n == self.nodes@.len(),
                i <= n,
                forall|j: int| 0 <= j < i ==> (#[trigger] self.nodes@[j]).path@ != path@,
            decreases n - i,
        {
            if str_eq(self.nodes[i].path.as_str(), path) {
                return Some(i);
            }
            i += 1;
        }
        None
    }

    /// The paths of every visible, expanded directory, in flat order.
    pub fn collect_expanded_paths(&self) -> (r: Vec<String>)
        ensures
            r@.map_values(|s: String| s@) == expanded_dir_paths(self.nodes@),
    {
        let n = self.nodes.len();
        let mut out: Vec<String> = Vec::new();
        let mut i: usize = 0;
        while i < n
            invariant
                n == self.nodes@.len(),
                i <= n,
                out@.map_values(|s: String| s@) == expanded_dir_paths(self.nodes@.take(i as int)),
            decreases n - i,
        {
            let ghost prev = out@;
            if self.nodes[i].is_dir && self.nodes[i].expanded {
                out.push(self.nodes[i].path.clone());
                proof {
                    assert(out@.map_values(|s: String| s@) =~= prev.map_values(|s: String| s@)
                        + seq![self.nodes@[i as int].path@]);
                }
            }
            proof {
                assert(self.nodes@.take(i + 1).drop_last() =~= self.nodes@.take(i as int));
                assert(self.nodes@.take(i + 1).last() == self.nodes@[i as int]);
                if !(self.nodes@[i as int].is_dir && self.nodes@[i as int].expanded) {
                    assert(out@.map_values(|s: String| s@) =~= expanded_dir_paths(
                        self.nodes@.take(i + 1),
                    ));
                }
            }
            i += 1;
        }
        proof {
            assert(self.nodes@.take(n as int) =~= self.nodes@);
        }
        out
    }
}

/// The paths of the expanded directories among `ns`, in order.
pub open spec fn expanded_dir_paths(ns: Seq<FileNode>) -> Seq<Seq<char>>
    decreases ns.len(),
{
    if ns.len() == 0 {
        Seq::empty()
    } else {
        expanded_dir_paths(ns.drop_last()) + if ns.last().is_dir && ns.last().expanded {
            seq![ns.last().path@]
        } else {
            Seq::empty()
        }
    }
}

/// The first visible node under `n` carrying path `p`, in depth-first order:
/// the node every path-addressed operation acts on.
pub open spec fn visible_node(n: FileNode, p: Seq<char>) -> Option<FileNode>
    decreases n, 1int,
{
    if n.path@ == p {
        Some(n)
    } else if n.expanded {
        visible_node_list(n.children@, p)
    } else {
        None
    }
}

pub open spec fn visible_node_list(cs: Seq<FileNode>, p: Seq<char>) -> Option<FileNode>
    decreases cs, 0int,
{
    if cs.len() == 0 {
        None
    } else if visible_node(cs.first(), p) is Some {
        visible_node(cs.first(), p)
    } else {
        visible_node_list(cs.drop_first(), p)
    }
}

proof fn lemma_visible_node_list_or(cs: Seq<FileNode>, p: Seq<char>, j: int)
    requires
        0 <= j < cs.len(),
        visible_node(cs[j], p) is Some,
    ensures
        visible_node_list(cs, p) is Some,
    decreases cs.len(),
{
    if j > 0 && visible_node(cs.first(), p) is None {
        lemma_visible_node_list_or(cs.drop_first(), p, j - 1);
    }
}

/// Every slot of the flat traversal is reachable by its path.
proof fn lemma_flatten_visible(n: FileNode, i: int)
    requires
        0 <= i < flatten_seq(n).len(),
    ensures
        visible_node(n, flatten_seq(n)[i].path@) is Some,
    decreases n, 1int,
{
    if flatten_seq(n)[i].path@ != n.path@ {
        assert(n.expanded && i >= 1);
        lemma_flatten_list_index_decompose(n.children@, i - 1);
        let p = flatten_seq(n)[i].path@;
        let (j, k) = choose|j: int, k: int|
            #![trigger flatten_seq(n.children@[j])[k]]
            0 <= j < n.children@.len() && 0 <= k < flatten_seq(n.children@[j]).len()
                && flatten_list(n.children@)[i - 1] == flatten_seq(n.children@[j])[k];
        assert(decreases_to!(n => n.children@[j]));
        lemma_flatten_visible(n.children@[j], k);
        lemma_visible_node_list_or(n.children@, p, j);
    }
}

/// An element of the flattened child list lies in some child's own traversal.
proof fn lemma_flatten_list_index_decompose(cs: Seq<FileNode>, i: int)
    requires
        0 <= i < flatten_list(cs).len(),
    ensures
        exists|j: int, k: int|
            #![trigger flatten_seq(cs[j])[k]]
            0 <= j < cs.len() && 0 <= k < flatten_seq(cs[j]).len() && flatten_list(cs)[i]
                == flatten_seq(cs[j])[k],
    decreases cs.len(),
{
    let head = flatten_list(cs.drop_last());
    if i < head.len() {
        lemma_flatten_list_index_decompose(cs.drop_last(), i);
        let (j, k) = choose|j: int, k: int|
            #![trigger flatten_seq(cs.drop_last()[j])[k]]
            0 <= j < cs.drop_last().len() && 0 <= k < flatten_seq(cs.drop_last()[j]).len()
                && head[i] == flatten_seq(cs.drop_last()[j])[k];
        assert(cs.drop_last()[j] == cs[j]);
        assert(flatten_list(cs)[i] == flatten_seq(cs[j])[k]);
    } else {
        let j = cs.len() - 1;
        let k = i - head.len();
        assert(cs.last() == cs[j]);
        assert(flatten_list(cs)[i] == flatten_seq(cs[j])[k]);
    }
}

/// A list of collapsed nodes flattens to itself.
proof fn lemma_flatten_list_all_collapsed(cs: Seq<FileNode>)
    requires
        forall|i: int| 0 <= i < cs.len() ==> !(#[trigger] cs[i]).expanded,
    ensures
        flatten_list(cs) =~= cs,
    decreases cs.len(),
{
    if cs.len() > 0 {
        lemma_flatten_list_all_collapsed(cs.drop_last());
        assert(flatten_seq(cs.last()) =~= seq![cs.last()]);
    }
}

/// Lists whose entries agree on name and kind slot for slot carry the same
/// key counts.
proof fn lemma_child_key_count_pointwise(a: Seq<FileNode>, b: Seq<FileNode>)
    requires
        a.len() == b.len(),
        forall|i: int|
            0 <= i < a.len() ==> (#[trigger] a[i]).name@ == b[i].name@ && a[i].is_dir
                == b[i].is_dir,
    ensures
        forall|name: Seq<char>, d: bool|
            #[trigger] child_key_count(a, name, d) == child_key_count(b, name, d),
    decreases a.len(),
{
    if a.len() > 0 {
        assert(forall|i: int|
            0 <= i < a.drop_last().len() ==> #[trigger] a.drop_last()[i] == a[i]);
        assert(forall|i: int|
            0 <= i < b.drop_last().len() ==> #[trigger] b.drop_last()[i] == b[i]);
        lemma_child_key_count_pointwise(a.drop_last(), b.drop_last());
        assert(a.last() == a[a.len() - 1]);
        assert(b.last() == b[b.len() - 1]);
        assert forall|name: Seq<char>, d: bool| #[trigger]
            child_key_count(a, name, d) == child_key_count(b, name, d) by {
            assert(child_key_count(a.drop_last(), name, d) == child_key_count(
                b.drop_last(),
                name,
                d,
            ));
        }
    }
}

/// Deep, view-level equality of two subtrees: the same shape with the same
/// display fields everywhere. Two trees that compare equal here are
/// indistinguishable to every reader of this library.
pub open spec fn same_tree(a: FileNode, b: FileNode) -> bool
    decreases a, 1int,
{
    &&& a.path@ == b.path@
    &&& a.name@ == b.name@
    &&& a.is_dir == b.is_dir
    &&& a.expanded == b.expanded
    &&& a.depth == b.depth
    &&& same_tree_list(a.children@, b.children@)
}

pub open spec fn same_tree_list(xs: Seq<FileNode>, ys: Seq<FileNode>) -> bool
    decreases xs, 0int,
{
    &&& xs.len() == ys.len()
    &&& xs.len() > 0 ==> same_tree(xs.first(), ys.first()) && same_tree_list(
        xs.drop_first(),
        ys.drop_first(),
    )
}

pub proof fn lemma_same_tree_refl(a: FileNode)
    ensures
        same_tree(a, a),
    decreases a, 1int,
{
    lemma_same_tree_list_refl(a.children@);
}

pub proof fn lemma_same_tree_list_refl(xs: Seq<FileNode>)
    ensures
        same_tree_list(xs, xs),
    decreases xs, 0int,
{
    if xs.len() > 0 {
        assert(decreases_to!(xs => xs[0]));
        assert(xs.first() == xs[0]);
        lemma_same_tree_refl(xs.first());
        assert(xs.drop_first() == xs.subrange(1, xs.len() as int));
        assert(decreases_to!(xs => xs.subrange(1, xs.len() as int)));
        lemma_same_tree_list_refl(xs.drop_first());
    }
}

/// Display fields agree; subtrees are not compared.
pub open spec fn entry_eq(x: FileNode, y: FileNode) -> bool {
    &&& x.path@ == y.path@
    &&& x.name@ == y.name@
    &&& x.is_dir == y.is_dir
    &&& x.expanded == y.expanded
    &&& x.depth == y.depth
}

/// Trees equal under `same_tree` produce display-identical flat traversals.
pub proof fn lemma_same_tree_flatten(a: FileNode, b: FileNode)
    requires
        same_tree(a, b),
    ensures
        flatten_seq(a).len() == flatten_seq(b).len(),
        forall|i: int|
            0 <= i < flatten_seq(a).len() ==> entry_eq(
                #[trigger] flatten_seq(a)[i],
                flatten_seq(b)[i],
            ),
    decreases a, 1int,
{
    if a.expanded {
        lemma_same_tree_flatten_list(a.children@, b.children@);
    }
}

proof fn lemma_same_tree_flatten_list(xs: Seq<FileNode>, ys: Seq<FileNode>)
    requires
        same_tree_list(xs, ys),
    ensures
        flatten_list(xs).len() == flatten_list(ys).len(),
        forall|i: int|
            0 <= i < flatten_list(xs).len() ==> entry_eq(
                #[trigger] flatten_list(xs)[i],
                flatten_list(ys)[i],
            ),
    decreases xs, 0int,
{
    if xs.len() > 0 {
        assert(decreases_to!(xs => xs[0]));
        assert(xs.first() == xs[0]);
        lemma_same_tree_flatten(xs.first(), ys.first());
        assert(xs.drop_first() == xs.subrange(1, xs.len() as int));
        assert(decreases_to!(xs => xs.subrange(1, xs.len() as int)));
        lemma_same_tree_flatten_list(xs.drop_first(), ys.drop_first());
        lemma_flatten_list_concat_front(xs);
        lemma_flatten_list_concat_front(ys);
        assert forall|i: int|
            0 <= i < flatten_list(xs).len() implies entry_eq(
            #[trigger] flatten_list(xs)[i],
            flatten_list(ys)[i],
        ) by {
            let ha = flatten_seq(xs.first());
            if i < ha.len() {
                assert(flatten_list(xs)[i] == ha[i]);
                assert(flatten_list(ys)[i] == flatten_seq(ys.first())[i]);
            } else {
                assert(flatten_list(xs)[i] == flatten_list(xs.drop_first())[i - ha.len()]);
                assert(flatten_list(ys)[i] == flatten_list(ys.drop_first())[i - ha.len()]);
            }
        }
    }
}

/// `flatten_list` also decomposes at the front.
proof fn lemma_flatten_list_concat_front(cs: Seq<FileNode>)
    requires
        cs.len() > 0,
    ensures
        flatten_list(cs) == flatten_seq(cs.first()) + flatten_list(cs.drop_first()),
    decreases cs.len(),
{
    if cs.len() == 1 {
        assert(cs.drop_last() =~= Seq::<FileNode>::empty());
        assert(cs.drop_first() =~= Seq::<FileNode>::empty());
        assert(cs.last() == cs.first());
        assert(flatten_seq(cs.first()) + flatten_list(cs.drop_first()) =~= flatten_seq(
            cs.first(),
        ));
        assert(flatten_list(cs) =~= flatten_seq(cs.first()));
    } else {
        lemma_flatten_list_concat_front(cs.drop_last());
        assert(cs.drop_last().first() == cs.first());
        assert(cs.drop_last().drop_first() =~= cs.drop_first().drop_last());
        assert(cs.drop_first().last() == cs.last());
        assert(flatten_list(cs) == flatten_list(cs.drop_last()) + flatten_seq(cs.last()));
        assert(flatten_list(cs.drop_first()) == flatten_list(cs.drop_first().drop_last())
            + flatten_seq(cs.drop_first().last()));
        assert(flatten_list(cs) =~= flatten_seq(cs.first()) + flatten_list(cs.drop_first()));
    }
}

/// `b` is `a` with exactly the first visible node at `p` collapsed: that
/// node keeps its loaded children and loses its expansion flag; every other
/// node is unchanged (up to `same_tree`, which preserves every observable).
pub open spec fn collapse_at(a: FileNode, b: FileNode, p: Seq<char>) -> bool
    decreases a, 1int,
{
    if a.path@ == p {
        &&& b.path == a.path
        &&& b.name == a.name
        &&& b.is_dir == a.is_dir
        &&& b.depth == a.depth
        &&& (a.is_dir && a.expanded ==> !b.expanded && b.children == a.children)
        &&& (!(a.is_dir && a.expanded) ==> same_tree(b, a))
    } else if a.expanded {
        &&& b.path == a.path
        &&& b.name == a.name
        &&& b.is_dir == a.is_dir
        &&& b.depth == a.depth
        &&& b.expanded == a.expanded
        &&& collapse_at_list(a.children@, b.children@, p)
    } else {
        same_tree(b, a)
    }
}

pub open spec fn collapse_at_list(xs: Seq<FileNode>, ys: Seq<FileNode>, p: Seq<char>) -> bool
    decreases xs, 0int,
{
    &&& ys.len() == xs.len()
    &&& xs.len() > 0 ==> (if visible_node(xs.first(), p) is Some {
        collapse_at(xs.first(), ys.first(), p) && same_tree_list(
            ys.drop_first(),
            xs.drop_first(),
        )
    } else {
        same_tree(ys.first(), xs.first()) && collapse_at_list(
            xs.drop_first(),
            ys.drop_first(),
            p,
        )
    })
}

/// `b` is `a` with exactly the first visible node at `p` expanded: that node
/// gains its expansion flag, keeping its children when they were already
/// loaded and loading them from the listing otherwise; every other node is
/// unchanged (up to `same_tree`).
pub open spec fn expand_at(
    a: FileNode,
    b: FileNode,
    p: Seq<char>,
    fs: FsSnapshot,
    show_hidden: bool,
) -> bool
    decreases a, 1int,
{
    if a.path@ == p {
        &&& b.path == a.path
        &&& b.name == a.name
        &&& b.is_dir == a.is_dir
        &&& b.depth == a.depth
        &&& (a.is_dir && !a.expanded && a.children@.len() > 0 ==> b.expanded && b.children
            == a.children)
        &&& (a.is_dir && !a.expanded && a.children@.len() == 0 ==> b.expanded && sorted_children(
            b.children@,
        ) && (forall|name: Seq<char>, d: bool|
            child_key_count(b.children@, name, d) == entry_key_count(
                fs.listing_seq(p),
                show_hidden,
                name,
                d,
            )))
        &&& (!(a.is_dir && !a.expanded) ==> same_tree(b, a))
    } else if a.expanded {
        &&& b.path == a.path
        &&& b.name == a.name
        &&& b.is_dir == a.is_dir
        &&& b.depth == a.depth
        &&& b.expanded == a.expanded
        &&& expand_at_list(a.children@, b.children@, p, fs, show_hidden)
    } else {
        same_tree(b, a)
    }
}

pub open spec fn expand_at_list(
    xs: Seq<FileNode>,
    ys: Seq<FileNode>,
    p: Seq<char>,
    fs: FsSnapshot,
    show_hidden: bool,
) -> bool
    decreases xs, 0int,
{
    &&& ys.len() == xs.len()
    &&& xs.len() > 0 ==> (if visible_node(xs.first(), p) is Some {
        expand_at(xs.first(), ys.first(), p, fs, show_hidden) && same_tree_list(
            ys.drop_first(),
            xs.drop_first(),
        )
    } else {
        same_tree(ys.first(), xs.first()) && expand_at_list(
            xs.drop_first(),
            ys.drop_first(),
            p,
            fs,
            show_hidden,
        )
    })
}

/// Expand the first visible node at `target`, loading its children from `fs`
/// when they were never loaded. Returns the new subtree, whether the target
/// was found, and whether loading succeeded.
fn expand_in(n: FileNode, target: &str, fs: &FsSnapshot, show_hidden: bool) -> (r: (
    FileNode,
    bool,
    bool,
))
    ensures
        r.0.path == n.path && r.0.name == n.name && r.0.is_dir == n.is_dir && r.0.depth == n.depth,
        wf_node(n) ==> wf_node(r.0),
        r.1 == (visible_node(n, target@) is Some),
        !r.1 ==> same_tree(r.0, n) && r.2,
        !r.2 ==> same_tree(r.0, n),
        r.1 ==> (visible_node(n, target@) matches Some(tn) && {
            &&& !(tn.is_dir && !tn.expanded) ==> same_tree(r.0, n) && r.2
            &&& (tn.is_dir && !tn.expanded && tn.children@.len() > 0) ==> r.2
            &&& (tn.is_dir && !tn.expanded && tn.children@.len() == 0) ==> (r.2
                == fs.has_listing(tn.path@))
            &&& (r.2 && tn.is_dir && !tn.expanded) ==> (visible_node(r.0, target@) matches Some(u)
                && u.is_dir && u.expanded && u.path@ == target@ && flatten_seq(r.0).len()
                == flatten_seq(n).len() + flatten_list(u.children@).len())
            &&& r.2 ==> expand_at(n, r.0, target@, *fs, show_hidden)
        }),
    decreases n, 1int,
{
    if str_eq(n.path.as_str(), target) {
        if n.is_dir && !n.expanded {
            if n.children.len() == 0 {
                match fs.listing(n.path.as_str()) {
                    Some(entries) => {
                        let mut m = n;
                        m.load_children(entries, show_hidden);
                        m.expanded = true;
                        proof {
                            assert(visible_node(m, target@) == Some(m));
                            assert(wf_node(m));
                            assert(flatten_seq(n) =~= seq![n]);
                            assert(flatten_seq(m) =~= seq![m] + flatten_list(m.children@));
                        }
                        (m, true, true)
                    },
                    None => {
                        proof {
                            lemma_same_tree_refl(n);
                        }
                        (n, true, false)
                    },
                }
            } else {
                let mut m = n;
                m.expanded = true;
                proof {
                    assert(visible_node(m, target@) == Some(m));
                    if wf_node(n) {
                        assert(wf_node(m));
                    }
                    assert(flatten_seq(n) =~= seq![n]);
                    assert(flatten_seq(m) =~= seq![m] + flatten_list(m.children@));
                }
                (m, true, true)
            }
        } else {
            proof {
                lemma_same_tree_refl(n);
            }
            (n, true, true)
        }
    } else if n.expanded {
        let ghost n0 = n;
        let mut m = n;
        let mut cs: Vec<FileNode> = Vec::new();
        core::mem::swap(&mut m.children, &mut cs);
        proof {
            assert(cs@ == n0.children@);
            assert(decreases_to!(n0 => n0.children));
            assert(decreases_to!(n0.children => n0.children@));
        }
        let (cs2, found, ok) = expand_in_list(cs, target, fs, show_hidden);
        m.children = cs2;
        proof {
            assert(visible_node(n0, target@) == visible_node_list(n0.children@, target@));
            assert(visible_node(m, target@) == visible_node_list(m.children@, target@));
            if !found || !ok {
                assert(same_tree(m, n0));
            }
            if found {
                let tn = visible_node_list(n0.children@, target@)->0;
                if !(tn.is_dir && !tn.expanded) {
                    assert(same_tree(m, n0));
                }
                if ok && tn.is_dir && !tn.expanded {
                    assert(flatten_seq(n0) =~= seq![n0] + flatten_list(n0.children@));
                    assert(flatten_seq(m) =~= seq![m] + flatten_list(m.children@));
                }
            }
            if wf_node(n0) {
                assert(wf_node(m));
            }
        }
        (m, found, ok)
    } else {
        proof {
            lemma_same_tree_refl(n);
        }
        (n, false, true)
    }
}

/// Whatever `visible_node` finds carries the searched path.
pub proof fn lemma_visible_node_path(n: FileNode, p: Seq<char>)
    ensures
        visible_node(n, p) matches Some(v) ==> v.path@ == p,
    decreases n, 1int,
{
    if n.path@ != p && n.expanded {
        lemma_visible_node_list_path(n.children@, p);
    }
}

proof fn lemma_visible_node_list_path(cs: Seq<FileNode>, p: Seq<char>)
    ensures
        visible_node_list(cs, p) matches Some(v) ==> v.path@ == p,
    decreases cs, 0int,
{
    if cs.len() > 0 {
        assert(decreases_to!(cs => cs[0]));
        assert(cs.first() == cs[0]);
        lemma_visible_node_path(cs.first(), p);
        assert(cs.drop_first() == cs.subrange(1, cs.len() as int));
        assert(decreases_to!(cs => cs.subrange(1, cs.len() as int)));
        lemma_visible_node_list_path(cs.drop_first(), p);
    }
}

/// `same_tree` keeps a path invisible: the relation preserves every display
/// field along the traversal.
proof fn lemma_same_tree_visible_none(a: FileNode, b: FileNode, p: Seq<char>)
    requires
        same_tree(a, b),
        visible_node(b, p) is None,
    ensures
        visible_node(a, p) is None,
    decreases a, 1int,
{
    if a.path@ != p && a.expanded {
        lemma_same_tree_visible_none_list(a.children@, b.children@, p);
    }
}

proof fn lemma_same_tree_visible_none_list(xs: Seq<FileNode>, ys: Seq<FileNode>, p: Seq<char>)
    requires
        same_tree_list(xs, ys),
        visible_node_list(ys, p) is None,
    ensures
        visible_node_list(xs, p) is None,
    decreases xs, 0int,
{
    if xs.len() > 0 {
        assert(decreases_to!(xs => xs[0]));
        assert(xs.first() == xs[0]);
        lemma_same_tree_visible_none(xs.first(), ys.first(), p);
        assert(xs.drop_first() == xs.subrange(1, xs.len() as int));
        assert(decreases_to!(xs => xs.subrange(1, xs.len() as int)));
        lemma_same_tree_visible_none_list(xs.drop_first(), ys.drop_first(), p);
    }
}

/// `expand_in` over a child list, front to back, first match only.
fn expand_in_list(cs: Vec<FileNode>, target: &str, fs: &FsSnapshot, show_hidden: bool) -> (r: (
    Vec<FileNode>,
    bool,
    bool,
))
    ensures
        r.0@.len() == cs@.len(),
        forall|i: int|
            0 <= i < cs@.len() ==> (#[trigger] r.0@[i]).path == cs@[i].path && r.0@[i].name
                == cs@[i].name && r.0@[i].is_dir == cs@[i].is_dir && r.0@[i].depth == cs@[i].depth,
        wf_node_list(cs@) ==> wf_node_list(r.0@),
        r.1 == (visible_node_list(cs@, target@) is Some),
        !r.1 ==> same_tree_list(r.0@, cs@) && r.2,
        !r.2 ==> same_tree_list(r.0@, cs@),
        r.1 ==> (visible_node_list(cs@, target@) matches Some(tn) && {
            &&& !(tn.is_dir && !tn.expanded) ==> same_tree_list(r.0@, cs@) && r.2
            &&& (tn.is_dir && !tn.expanded && tn.children@.len() > 0) ==> r.2
            &&& (tn.is_dir && !tn.expanded && tn.children@.len() == 0) ==> (r.2
                == fs.has_listing(tn.path@))
            &&& (r.2 && tn.is_dir && !tn.expanded) ==> (visible_node_list(r.0@, target@)
                matches Some(u) && u.is_dir && u.expanded && u.path@ == target@ && flatten_list(
                r.0@,
            ).len() == flatten_list(cs@).len() + flatten_list(u.children@).len())
            &&& r.2 ==> expand_at_list(cs@, r.0@, target@, *fs, show_hidden)
        }),
    decreases cs@, 0int,
{
    let mut cs = cs;
    if cs.len() == 0 {
        proof {
            lemma_same_tree_list_refl(cs@);
        }
        (cs, false, true)
    } else {
        let ghost cs0 = cs@;
        proof {
            assert(decreases_to!(cs0 => cs0[0]));
            assert(cs0.first() == cs0[0]);
            assert(cs0.drop_first() == cs0.subrange(1, cs0.len() as int));
            assert(decreases_to!(cs0 => cs0.subrange(1, cs0.len() as int)));
        }
        let first = cs.remove(0);
        let (f2, found, ok) = expand_in(first, target, fs, show_hidden);
        if found {
            let mut out = cs;
            out.insert(0, f2);
            proof {
                assert(out@ =~= seq![f2] + cs0.drop_first());
                assert(out@.first() == f2);
                assert(out@.drop_first() =~= cs0.drop_first());
                lemma_same_tree_list_refl(cs0.drop_first());
                if same_tree(f2, first) {
                    assert(same_tree_list(out@, cs0));
                }
                if wf_node_list(cs0) {
                    lemma_wf_head_tail(cs0);
                    lemma_wf_from_parts(out@);
                }
                if visible_node(f2, target@) is Some {
                    assert(visible_node_list(out@, target@) == visible_node(f2, target@));
                }
                if visible_node(first, target@) matches Some(tn) && !(tn.is_dir && !tn.expanded) {
                    assert(same_tree_list(out@, cs0));
                }
                if visible_node(first, target@) matches Some(tn) && ok && tn.is_dir
                    && !tn.expanded {
                    lemma_flatten_list_concat_front(out@);
                    lemma_flatten_list_concat_front(cs0);
                    assert(flatten_list(out@.drop_first()) == flatten_list(cs0.drop_first()));
                }
            }
            (out, true, ok)
        } else {
            proof {
                assert(same_tree(f2, first));
                assert(cs@ =~= cs0.drop_first());
            }
            let (rest, found2, ok2) = expand_in_list(cs, target, fs, show_hidden);
            let mut out = rest;
            out.insert(0, f2);
            proof {
                assert(out@ =~= seq![f2] + rest@);
                assert(out@.first() == f2);
                assert(out@.drop_first() =~= rest@);
                assert(visible_node(first, target@) is None);
                lemma_same_tree_visible_none(f2, first, target@);
                assert(visible_node_list(out@, target@) == visible_node_list(rest@, target@));
                if same_tree_list(rest@, cs0.drop_first()) {
                    assert(same_tree_list(out@, cs0));
                }
                if wf_node_list(cs0) {
                    lemma_wf_head_tail(cs0);
                    lemma_wf_from_parts(out@);
                }
                if visible_node_list(cs0.drop_first(), target@) matches Some(tn) && ok2
                    && tn.is_dir && !tn.expanded {
                    lemma_flatten_list_concat_front(out@);
                    lemma_flatten_list_concat_front(cs0);
                    lemma_same_tree_flatten(f2, first);
                }
            }
            (out, found2, ok2)
        }
    }
}

/// Well-formedness of a rebuilt list whose head is well-formed and whose tail
/// is well-formed.
proof fn lemma_wf_from_parts(out: Seq<FileNode>)
    requires
        out.len() >= 1,
        wf_node(out.first()),
        wf_node_list(out.drop_first()),
    ensures
        wf_node_list(out),
{
    assert forall|i: int| 0 <= i < out.len() implies wf_node(#[trigger] out[i]) by {
        if i == 0 {
            assert(out[0] == out.first());
        } else {
            lemma_wf_node_list_index(out.drop_first(), i - 1);
            assert(out.drop_first()[i - 1] == out[i]);
        }
    }
    lemma_wf_list_from_all(out);
}

/// The mirror image of `lemma_wf_from_parts`: peeling the head off.
proof fn lemma_wf_head_tail(cs: Seq<FileNode>)
    requires
        wf_node_list(cs),
        cs.len() >= 1,
    ensures
        wf_node(cs.first()),
        wf_node_list(cs.drop_first()),
    decreases cs.len(),
{
    lemma_wf_node_list_index(cs, 0);
    assert forall|i: int| 0 <= i < cs.drop_first().len() implies wf_node(
        #[trigger] cs.drop_first()[i],
    ) by {
        lemma_wf_node_list_index(cs, i + 1);
    }
    lemma_wf_list_from_all(cs.drop_first());
}

proof fn lemma_wf_list_from_all(cs: Seq<FileNode>)
    requires
        forall|i: int| 0 <= i < cs.len() ==> wf_node(#[trigger] cs[i]),
    ensures
        wf_node_list(cs),
    decreases cs.len(),
{
    if cs.len() > 0 {
        lemma_wf_list_from_all(cs.drop_last());
    }
}

/// Append the summaries of every node visible under `node` to `out`.
fn push_flat(node: &FileNode, out: &mut Vec<FileNode>)
    ensures
        final(out)@.len() == old(out)@.len() + flatten_seq(*node).len(),
        forall|j: int| 0 <= j < old(out)@.len() ==> final(out)@[j] == old(out)@[j],
        forall|j: int|
            0 <= j < flatten_seq(*node).len() ==> matches_entry(
                #[trigger] final(out)@[old(out)@.len() + j],
                flatten_seq(*node)[j],
            ),
    decreases *node,
{
    let summary = FileNode {
        path: node.path.clone(),
        name: node.name.clone(),
        is_dir: node.is_dir,
        expanded: node.expanded,
        depth: node.depth,
        children: Vec::new(),
    };
    let ghost base = out@.len() as int;
    out.push(summary);
    if node.expanded {
        let n = node.children.len();
        let mut i: usize = 0;
        while i < n
            invariant
                n == node.children@.len(),
                i <= n,
                node.expanded,
                base == old(out)@.len(),
                out@.len() == base + 1 + flatten_list(node.children@.take(i as int)).len(),
                forall|j: int| 0 <= j < base ==> out@[j] == old(out)@[j],
                forall|j: int|
                    0 <= j < 1 + flatten_list(node.children@.take(i as int)).len()
                        ==> matches_entry(
                        #[trigger] out@[base + j],
                        (seq![*node] + flatten_list(node.children@.take(i as int)))[j],
                    ),
            decreases n - i,
        {
            let ghost taken = node.children@.take(i as int);
            let ghost before_call = out@;
            proof {
                assert(decreases_to!(*node => node.children));
                assert(decreases_to!(node.children => node.children@));
                assert(decreases_to!(node.children@ => node.children@[i as int]));
            }
            push_flat(&node.children[i], out);
            proof {
                let cs = node.children@;
                assert(cs.take(i + 1).drop_last() =~= taken);
                assert(cs.take(i + 1).last() == cs[i as int]);
                assert(flatten_list(cs.take(i + 1)) == flatten_list(taken) + flatten_seq(
                    cs[i as int],
                ));
                let head = 1 + flatten_list(taken).len();
                assert forall|j: int|
                    0 <= j < 1 + flatten_list(cs.take(i + 1)).len() implies matches_entry(
                    #[trigger] out@[base + j],
                    (seq![*node] + flatten_list(cs.take(i + 1)))[j],
                ) by {
                    if j < head {
                        assert(before_call.len() == base + head);
                        assert(0 <= base + j < before_call.len());
                        assert(out@[base + j] == before_call[base + j]);
                        assert((seq![*node] + flatten_list(cs.take(i + 1)))[j] == (seq![*node]
                            + flatten_list(taken))[j]);
                    } else {
                        let jj = j - head;
                        assert(before_call.len() + jj == base + j);
                        assert(matches_entry(
                            out@[before_call.len() + jj],
                            flatten_seq(cs[i as int])[jj],
                        ));
                        assert((seq![*node] + flatten_list(cs.take(i + 1)))[j] == flatten_seq(
                            cs[i as int],
                        )[jj]);
                    }
                }
            }
            i += 1;
        }
        proof {
            assert(node.children@.take(n as int) =~= node.children@);
            assert(flatten_seq(*node) =~= seq![*node] + flatten_list(node.children@));
        }
    } else {
        proof {
            assert(flatten_seq(*node) =~= seq![*node]);
        }
    }
}

/// Collapse the first visible node at `target`; its children stay loaded.
fn collapse_in(n: FileNode, target: &str) -> (r: (FileNode, bool))
    ensures
        r.0.path == n.path && r.0.name == n.name && r.0.is_dir == n.is_dir && r.0.depth == n.depth,
        wf_node(n) ==> wf_node(r.0),
        r.1 == (visible_node(n, target@) is Some),
        !r.1 ==> same_tree(r.0, n),
        r.1 ==> (visible_node(n, target@) matches Some(tn) && {
            &&& !(tn.is_dir && tn.expanded) ==> same_tree(r.0, n)
            &&& (tn.is_dir && tn.expanded) ==> (visible_node(r.0, target@) matches Some(u)
                && u.is_dir && !u.expanded && u.children@ == tn.children@ && flatten_seq(
                r.0,
            ).len() + flatten_list(tn.children@).len() == flatten_seq(n).len())
            &&& collapse_at(n, r.0, target@)
        }),
    decreases n, 1int,
{
    if str_eq(n.path.as_str(), target) {
        if n.is_dir && n.expanded {
            let mut m = n;
            m.expanded = false;
            proof {
                assert(visible_node(m, target@) == Some(m));
                if wf_node(n) {
                    assert(wf_node(m));
                }
                assert(flatten_seq(n) =~= seq![n] + flatten_list(n.children@));
                assert(flatten_seq(m) =~= seq![m]);
            }
            (m, true)
        } else {
            proof {
                lemma_same_tree_refl(n);
            }
            (n, true)
        }
    } else if n.expanded {
        let ghost n0 = n;
        let mut m = n;
        let mut cs: Vec<FileNode> = Vec::new();
        core::mem::swap(&mut m.children, &mut cs);
        proof {
            assert(cs@ == n0.children@);
            assert(decreases_to!(n0 => n0.children));
            assert(decreases_to!(n0.children => n0.children@));
        }
        let (cs2, found) = collapse_in_list(cs, target);
        m.children = cs2;
        proof {
            assert(visible_node(n0, target@) == visible_node_list(n0.children@, target@));
            assert(visible_node(m, target@) == visible_node_list(m.children@, target@));
            if !found {
                assert(same_tree(m, n0));
            }
            if found {
                let tn = visible_node_list(n0.children@, target@)->0;
                if !(tn.is_dir && tn.expanded) {
                    assert(same_tree(m, n0));
                }
                if tn.is_dir && tn.expanded {
                    assert(flatten_seq(n0) =~= seq![n0] + flatten_list(n0.children@));
                    assert(flatten_seq(m) =~= seq![m] + flatten_list(m.children@));
                }
            }
            if wf_node(n0) {
                assert(wf_node(m));
            }
        }
        (m, found)
    } else {
        proof {
            lemma_same_tree_refl(n);
        }
        (n, false)
    }
}

fn collapse_in_list(cs: Vec<FileNode>, target: &str) -> (r: (Vec<FileNode>, bool))
    ensures
        r.0@.len() == cs@.len(),
        wf_node_list(cs@) ==> wf_node_list(r.0@),
        r.1 == (visible_node_list(cs@, target@) is Some),
        !r.1 ==> same_tree_list(r.0@, cs@),
        r.1 ==> (visible_node_list(cs@, target@) matches Some(tn) && {
            &&& !(tn.is_dir && tn.expanded) ==> same_tree_list(r.0@, cs@)
            &&& (tn.is_dir && tn.expanded) ==> (visible_node_list(r.0@, target@) matches Some(u)
                && u.is_dir && !u.expanded && u.children@ == tn.children@ && flatten_list(
                r.0@,
            ).len() + flatten_list(tn.children@).len() == flatten_list(cs@).len())
            &&& collapse_at_list(cs@, r.0@, target@)
        }),
    decreases cs@, 0int,
{
    let mut cs = cs;
    if cs.len() == 0 {
        proof {
            lemma_same_tree_list_refl(cs@);
        }
        (cs, false)
    } else {
        let ghost cs0 = cs@;
        proof {
            assert(decreases_to!(cs0 => cs0[0]));
            assert(cs0.first() == cs0[0]);
            assert(cs0.drop_first() == cs0.subrange(1, cs0.len() as int));
            assert(decreases_to!(cs0 => cs0.subrange(1, cs0.len() as int)));
        }
        let first = cs.remove(0);
        let (f2, found) = collapse_in(first, target);
        if found {
            let mut out = cs;
            out.insert(0, f2);
            proof {
                assert(out@ =~= seq![f2] + cs0.drop_first());
                assert(out@.first() == f2);
                assert(out@.drop_first() =~= cs0.drop_first());
                lemma_same_tree_list_refl(cs0.drop_first());
                if same_tree(f2, first) {
                    assert(same_tree_list(out@, cs0));
                }
                if wf_node_list(cs0) {
                    lemma_wf_head_tail(cs0);
                    lemma_wf_from_parts(out@);
                }
                if visible_node(f2, target@) is Some {
                    assert(visible_node_list(out@, target@) == visible_node(f2, target@));
                }
                if visible_node(first, target@) matches Some(tn) && !(tn.is_dir && tn.expanded) {
                    assert(same_tree_list(out@, cs0));
                }
                if visible_node(first, target@) matches Some(tn) && tn.is_dir && tn.expanded {
                    lemma_flatten_list_concat_front(out@);
                    lemma_flatten_list_concat_front(cs0);
                    assert(flatten_list(out@.drop_first()) == flatten_list(cs0.drop_first()));
                }
            }
            (out, true)
        } else {
            proof {
                assert(same_tree(f2, first));
                assert(cs@ =~= cs0.drop_first());
            }
            let (rest, found2) = collapse_in_list(cs, target);
            let mut out = rest;
            out.insert(0, f2);
            proof {
                assert(out@ =~= seq![f2] + rest@);
                assert(out@.first() == f2);
                assert(out@.drop_first() =~= rest@);
                assert(visible_node(first, target@) is None);
                lemma_same_tree_visible_none(f2, first, target@);
                assert(visible_node_list(out@, target@) == visible_node_list(rest@, target@));
                if same_tree_list(rest@, cs0.drop_first()) {
                    assert(same_tree_list(out@, cs0));
                }
                if wf_node_list(cs0) {
                    lemma_wf_head_tail(cs0);
                    lemma_wf_from_parts(out@);
                }
                if visible_node_list(cs0.drop_first(), target@) matches Some(tn) && tn.is_dir
                    && tn.expanded {
                    lemma_flatten_list_concat_front(out@);
                    lemma_flatten_list_concat_front(cs0);
                    lemma_same_tree_flatten(f2, first);
                }
            }
            (out, found2)
        }
    }
}

/// `b` is `a` with every expansion flag cleared and nothing else changed:
/// the same shape, display fields and loaded children throughout.
pub open spec fn collapsed_tree(a: FileNode, b: FileNode) -> bool
    decreases a, 1int,
{
    &&& b.path == a.path
    &&& b.name == a.name
    &&& b.is_dir == a.is_dir
    &&& b.depth == a.depth
    &&& !b.expanded
    &&& collapsed_tree_list(a.children@, b.children@)
}

pub open spec fn collapsed_tree_list(xs: Seq<FileNode>, ys: Seq<FileNode>) -> bool
    decreases xs, 0int,
{
    &&& ys.len() == xs.len()
    &&& xs.len() > 0 ==> collapsed_tree(xs.first(), ys.first()) && collapsed_tree_list(
        xs.drop_first(),
        ys.drop_first(),
    )
}

pub proof fn lemma_collapsed_tree_list_index(xs: Seq<FileNode>, ys: Seq<FileNode>, i: int)
    requires
        collapsed_tree_list(xs, ys),
        0 <= i < xs.len(),
    ensures
        collapsed_tree(xs[i], ys[i]),
    decreases i,
{
    if i == 0 {
        assert(xs.first() == xs[0]);
        assert(ys.first() == ys[0]);
    } else {
        lemma_collapsed_tree_list_index(xs.drop_first(), ys.drop_first(), i - 1);
        assert(xs.drop_first()[i - 1] == xs[i]);
        assert(ys.drop_first()[i - 1] == ys[i]);
    }
}

/// Collapse every node of the subtree.
fn collapse_all_in(n: FileNode) -> (r: FileNode)
    ensures
        r.path == n.path && r.name == n.name && r.is_dir == n.is_dir && r.depth == n.depth,
        !r.expanded,
        r.children@.len() == n.children@.len(),
        forall|i: int| 0 <= i < r.children@.len() ==> !(#[trigger] r.children@[i]).expanded,
        collapsed_tree(n, r),
        wf_node(n) ==> wf_node(r),
    decreases n, 1int,
{
    let ghost n0 = n;
    let mut m = n;
    m.expanded = false;
    let mut cs: Vec<FileNode> = Vec::new();
    core::mem::swap(&mut m.children, &mut cs);
    proof {
        assert(cs@ == n0.children@);
        assert(decreases_to!(n0 => n0.children));
        assert(decreases_to!(n0.children => n0.children@));
    }
    let cs2 = collapse_all_list(cs);
    m.children = cs2;
    proof {
        if wf_node(n0) {
            assert(wf_node(m));
        }
    }
    m
}

fn collapse_all_list(cs: Vec<FileNode>) -> (r: Vec<FileNode>)
    ensures
        r@.len() == cs@.len(),
        forall|i: int| 0 <= i < r@.len() ==> !(#[trigger] r@[i]).expanded,
        collapsed_tree_list(cs@, r@),
        wf_node_list(cs@) ==> wf_node_list(r@),
    decreases cs@, 0int,
{
    let mut cs = cs;
    if cs.len() == 0 {
        cs
    } else {
        let ghost cs0 = cs@;
        proof {
            assert(decreases_to!(cs0 => cs0[0]));
            assert(cs0.first() == cs0[0]);
            assert(cs0.drop_first() == cs0.subrange(1, cs0.len() as int));
            assert(decreases_to!(cs0 => cs0.subrange(1, cs0.len() as int)));
        }
        let first = cs.remove(0);
        let f2 = collapse_all_in(first);
        proof {
            assert(cs@ =~= cs0.drop_first());
        }
        let rest = collapse_all_list(cs);
        let mut out = rest;
        out.insert(0, f2);
        proof {
            assert(out@ =~= seq![f2] + rest@);
            assert(out@.first() == f2);
            assert(out@.drop_first() =~= rest@);
            if wf_node_list(cs0) {
                lemma_wf_head_tail(cs0);
                lemma_wf_from_parts(out@);
            }
        }
        out
    }
}

/// Every directory on the visible traversal is expanded.
pub open spec fn all_visible_dirs_expanded(n: FileNode) -> bool {
    forall|i: int|
        0 <= i < flatten_seq(n).len() ==> ((#[trigger] flatten_seq(n)[i]).is_dir ==> flatten_seq(
            n,
        )[i].expanded)
}

spec fn all_visible_dirs_expanded_list(cs: Seq<FileNode>) -> bool {
    forall|j: int|
        0 <= j < flatten_list(cs).len() ==> ((#[trigger] flatten_list(cs)[j]).is_dir
            ==> flatten_list(cs)[j].expanded)
}

/// Expand every directory of the subtree, loading children where a listing
/// exists; load failures are swallowed. Walking structure that is already
/// loaded is free; `fuel` only bounds how many levels of fresh listings may
/// be loaded along one descent.
fn expand_all_in(n: FileNode, fs: &FsSnapshot, show_hidden: bool, fuel: usize) -> (r: FileNode)
    ensures
        r.path == n.path && r.name == n.name && r.is_dir == n.is_dir && r.depth == n.depth,
        n.expanded ==> r.expanded,
        r.is_dir ==> r.expanded,
        !n.is_dir ==> r == n,
        wf_node(n) ==> wf_node(r),
        wf_node(n) ==> all_visible_dirs_expanded(r),
    decreases fuel, n,
{
    if !n.is_dir {
        proof {
            if wf_node(n) {
                assert(flatten_seq(n) =~= seq![n]);
            }
        }
        return n;
    }
    let ghost n0 = n;
    let mut m = n;
    m.expanded = true;
    if m.children.len() == 0 {
        if fuel > 0 {
            match fs.listing(m.path.as_str()) {
                Some(entries) => {
                    m.load_children(entries, show_hidden);
                    let ghost loaded = m.children@;
                    let mut cs: Vec<FileNode> = Vec::new();
                    core::mem::swap(&mut m.children, &mut cs);
                    let cs2 = expand_all_list(cs, fs, show_hidden, fuel - 1);
                    m.children = cs2;
                    proof {
                        assert(wf_node_list(loaded));
                        assert(wf_node(m));
                    }
                },
                None => {},
            }
        }
    } else {
        let mut cs: Vec<FileNode> = Vec::new();
        core::mem::swap(&mut m.children, &mut cs);
        proof {
            assert(cs@ == n0.children@);
            assert(decreases_to!(n0 => n0.children));
            assert(decreases_to!(n0.children => n0.children@));
        }
        let cs2 = expand_all_list(cs, fs, show_hidden, fuel);
        m.children = cs2;
        proof {
            if wf_node(n0) {
                assert(wf_node(m));
            }
        }
    }
    proof {
        if wf_node(n0) {
            assert(flatten_seq(m) =~= seq![m] + flatten_list(m.children@));
            assert forall|i: int|
                0 <= i < flatten_seq(m).len() implies ((#[trigger] flatten_seq(m)[i]).is_dir
                ==> flatten_seq(m)[i].expanded) by {
                if i > 0 {
                    assert(flatten_seq(m)[i] == flatten_list(m.children@)[i - 1]);
                }
            }
        }
    }
    m
}

fn expand_all_list(cs: Vec<FileNode>, fs: &FsSnapshot, show_hidden: bool, fuel: usize) -> (r: Vec<
    FileNode,
>)
    ensures
        r@.len() == cs@.len(),
        wf_node_list(cs@) ==> wf_node_list(r@),
        wf_node_list(cs@) ==> all_visible_dirs_expanded_list(r@),
    decreases fuel, cs@,
{
    let mut cs = cs;
    if cs.len() == 0 {
        cs
    } else {
        let ghost cs0 = cs@;
        proof {
            assert(decreases_to!(cs0 => cs0[0]));
            assert(cs0.first() == cs0[0]);
            assert(cs0.drop_first() == cs0.subrange(1, cs0.len() as int));
            assert(decreases_to!(cs0 => cs0.subrange(1, cs0.len() as int)));
        }
        let first = cs.remove(0);
        let f2 = expand_all_in(first, fs, show_hidden, fuel);
        proof {
            assert(cs@ =~= cs0.drop_first());
        }
        let rest = expand_all_list(cs, fs, show_hidden, fuel);
        let mut out = rest;
        out.insert(0, f2);
        proof {
            assert(out@ =~= seq![f2] + rest@);
            assert(out@.first() == f2);
            assert(out@.drop_first() =~= rest@);
            if wf_node_list(cs0) {
                lemma_wf_head_tail(cs0);
                assert(cs0.first() == cs0[0]);
                lemma_wf_from_parts(out@);
                lemma_flatten_list_concat_front(out@);
                let h = flatten_seq(f2).len() as int;
                assert forall|j: int|
                    0 <= j < flatten_list(out@).len() implies ((#[trigger] flatten_list(
                    out@,
                )[j]).is_dir ==> flatten_list(out@)[j].expanded) by {
                    if j < h {
                        assert(flatten_list(out@)[j] == flatten_seq(f2)[j]);
                    } else {
                        assert(flatten_list(out@)[j] == flatten_list(rest@)[j - h]);
                    }
                }
            }
        }
        out
    }
}

/// Re-expand `target` after a rebuild, expanding and loading the directories
/// on the way down to it. Failures are swallowed: this is reconciliation,
/// not a transaction. `fuel` bounds the descent.
fn restore_expanded_in(
    n: FileNode,
    target: &str,
    fs: &FsSnapshot,
    show_hidden: bool,
    fuel: usize,
) -> (r: FileNode)
    ensures
        r.path == n.path && r.name == n.name && r.is_dir == n.is_dir && r.depth == n.depth,
        n.expanded ==> r.expanded,
        n.children@.len() > 0 ==> r.children@.len() == n.children@.len() && (forall|i: int|
            0 <= i < n.children@.len() ==> (#[trigger] r.children@[i]).path == n.children@[i].path
                && r.children@[i].name == n.children@[i].name && r.children@[i].is_dir
                == n.children@[i].is_dir && r.children@[i].depth == n.children@[i].depth),
        n.children@.len() == 0 ==> (r.children@.len() == 0 || (fs.has_listing(n.path@) && forall|
            name: Seq<char>,
            d: bool,
        |
            child_key_count(r.children@, name, d) == entry_key_count(
                fs.listing_seq(n.path@),
                show_hidden,
                name,
                d,
            ))),
        wf_node(n) ==> wf_node(r),
    decreases fuel, 0int,
{
    if fuel == 0 || !n.is_dir {
        return n;
    }
    let ghost n0 = n;
    if str_eq(n.path.as_str(), target) {
        let mut m = n;
        m.expanded = true;
        if m.children.len() == 0 {
            match fs.listing(m.path.as_str()) {
                Some(entries) => {
                    m.load_children(entries, show_hidden);
                },
                None => {},
            }
        }
        proof {
            if wf_node(n0) {
                assert(wf_node(m));
            }
        }
        m
    } else if path_is_under(target, n.path.as_str()) {
        let mut m = n;
        if !m.expanded {
            m.expanded = true;
            if m.children.len() == 0 {
                match fs.listing(m.path.as_str()) {
                    Some(entries) => {
                        m.load_children(entries, show_hidden);
                    },
                    None => {},
                }
            }
        }
        let ghost loaded = m.children@;
        let mut cs: Vec<FileNode> = Vec::new();
        core::mem::swap(&mut m.children, &mut cs);
        let cs2 = restore_expanded_list(cs, target, fs, show_hidden, fuel - 1);
        m.children = cs2;
        proof {
            if wf_node(n0) {
                assert(wf_node_list(loaded));
                assert(wf_node(m));
            }
            if n0.children@.len() == 0 && m.children@.len() > 0 {
                lemma_child_key_count_pointwise(m.children@, loaded);
            }
        }
        m
    } else {
        n
    }
}

fn restore_expanded_list(
    cs: Vec<FileNode>,
    target: &str,
    fs: &FsSnapshot,
    show_hidden: bool,
    fuel: usize,
) -> (r: Vec<FileNode>)
    ensures
        r@.len() == cs@.len(),
        forall|i: int|
            0 <= i < cs@.len() ==> (#[trigger] r@[i]).path == cs@[i].path && r@[i].name
                == cs@[i].name && r@[i].is_dir == cs@[i].is_dir && r@[i].depth == cs@[i].depth,
        wf_node_list(cs@) ==> wf_node_list(r@),
    decreases fuel, cs@.len() + 1,
{
    let mut cs = cs;
    if cs.len() == 0 {
        cs
    } else {
        let ghost cs0 = cs@;
        let first = cs.remove(0);
        let f2 = restore_expanded_in(first, target, fs, show_hidden, fuel);
        proof {
            assert(cs@ =~= cs0.drop_first());
        }
        let rest = restore_expanded_list(cs, target, fs, show_hidden, fuel);
        let mut out = rest;
        out.insert(0, f2);
        proof {
            assert(out@ =~= seq![f2] + rest@);
            assert(out@.first() == f2);
            assert(out@.drop_first() =~= rest@);
            if wf_node_list(cs0) {
                lemma_wf_head_tail(cs0);
                assert(cs0.first() == cs0[0]);
                lemma_wf_from_parts(out@);
            }
        }
        out
    }
}

impl FileTree {
    /// Build the tree: the root starts expanded with its children loaded.
    /// Fails exactly when the root directory has no listing in `fs`.
    pub fn new(path: String, show_hidden: bool, fs: &FsSnapshot) -> (r: Result<FileTree, OpError>)
        ensures
            r is Ok <==> fs.has_listing(path@),
            r matches Ok(t) ==> {
                &&& t.wf()
                &&& t.show_hidden == show_hidden
                &&& t.root.path@ == path@
                &&& t.root.is_dir
                &&& t.root.expanded
                &&& t.spec_len() >= 1
                &&& t.node_at(0).path@ == path@
                &&& sorted_children(t.root.children@)
                &&& forall|name: Seq<char>, d: bool|
                    child_key_count(t.root.children@, name, d) == entry_key_count(
                        fs.listing_seq(path@),
                        show_hidden,
                        name,
                        d,
                    )
                &&& forall|i: int|
                    0 <= i < t.root.children@.len() ==> fresh_child(
                        #[trigger] t.root.children@[i],
                        path@,
                        1,
                    )
                &&& flatten_seq(t.root) == seq![t.root] + t.root.children@
                &&& t.spec_len() == 1 + t.root.children@.len()
            },
    {
        match fs.listing(path.as_str()) {
            None => Err(OpError::IoError),
            Some(entries) => {
                let mut root = FileNode::new(path, true, 0);
                root.load_children(entries, show_hidden);
                root.expanded = true;
                proof {
                    assert(wf_node(root));
                }
                let mut tree = FileTree {
                    root,
                    flat_list: Vec::new(),
                    nodes: Vec::new(),
                    show_hidden,
                };
                tree.rebuild_flat_list();
                proof {
                    assert(flatten_seq(tree.root)[0] == tree.root);
                    assert forall|i: int|
                        0 <= i < tree.root.children@.len() implies !(
                    #[trigger] tree.root.children@[i]).expanded by {}
                    lemma_flatten_list_all_collapsed(tree.root.children@);
                    assert(flatten_seq(tree.root) =~= seq![tree.root] + tree.root.children@);
                }
                Ok(tree)
            },
        }
    }

    /// Expand the directory at a flat index, loading its children on first
    /// use. Stale indices and non-directories are ignored. Fails exactly
    /// when children must be loaded and the directory has no listing.
    pub fn expand_node(&mut self, index: usize, fs: &FsSnapshot) -> (r: Result<(), OpError>)
        requires
            old(self).wf(),
        ensures
            final(self).wf(),
            final(self).show_hidden == old(self).show_hidden,
            final(self).root.path@ == old(self).root.path@,
            index >= old(self).spec_len() ==> *final(self) == *old(self) && r is Ok,
            index < old(self).spec_len() && !(old(self).node_at(index as int).is_dir && !old(self).node_at(index as int).expanded) ==> *final(self) == *old(self) && r is Ok,
            index < old(self).spec_len() && old(self).node_at(index as int).is_dir && !old(self).node_at(index as int).expanded ==> (visible_node(
                old(self).root,
                old(self).node_at(index as int).path@,
            ) matches Some(tn) && {
                &&& !(tn.is_dir && !tn.expanded) ==> r is Ok
                &&& tn.is_dir && !tn.expanded && tn.children@.len() > 0 ==> r is Ok
                &&& tn.is_dir && !tn.expanded && tn.children@.len() == 0 ==> (r is Ok
                    <==> fs.has_listing(tn.path@))
                &&& r is Err ==> final(self).nodes == old(self).nodes && same_tree(
                    final(self).root,
                    old(self).root,
                )
                &&& r is Ok && tn.is_dir && !tn.expanded ==> (visible_node(
                    final(self).root,
                    tn.path@,
                ) matches Some(u) && u.is_dir && u.expanded && final(self).spec_len() == old(self).spec_len() + flatten_list(u.children@).len())
                &&& r is Ok ==> expand_at(
                    old(self).root,
                    final(self).root,
                    old(self).node_at(index as int).path@,
                    *fs,
                    old(self).show_hidden,
                )
            }),
    {
        let ghost self0 = *self;
        let n = self.nodes.len();
        if index >= n {
            return Ok(());
        }
        if !(self.nodes[index].is_dir && !self.nodes[index].expanded) {
            return Ok(());
        }
        let target = self.nodes[index].path.clone();
        proof {
            assert(flatten_seq(self.root)[index as int].path@ == target@);
            lemma_flatten_visible(self.root, index as int);
            lemma_visible_node_path(self.root, target@);
        }
        let mut root = FileNode::new(String::new(), false, 0);
        core::mem::swap(&mut self.root, &mut root);
        let (root2, found, ok) = expand_in(root, target.as_str(), fs, self.show_hidden);
        self.root = root2;
        if ok {
            self.rebuild_flat_list();
            Ok(())
        } else {
            proof {
                lemma_same_tree_flatten(self.root, self0.root);
                assert forall|i: int|
                    0 <= i < self.nodes@.len() implies matches_entry(
                    #[trigger] self.nodes@[i],
                    flatten_seq(self.root)[i],
                ) by {
                    assert(matches_entry(self.nodes@[i], flatten_seq(self0.root)[i]));
                    assert(entry_eq(flatten_seq(self.root)[i], flatten_seq(self0.root)[i]));
                }
            }
            Err(OpError::IoError)
        }
    }

    /// Collapse the directory at a flat index. Its children stay loaded, so
    /// a later expand is free. Never fails.
    pub fn collapse_node(&mut self, index: usize) -> (r: Result<(), OpError>)
        requires
            old(self).wf(),
        ensures
            r is Ok,
            final(self).wf(),
            final(self).show_hidden == old(self).show_hidden,
            final(self).root.path@ == old(self).root.path@,
            index >= old(self).spec_len() ==> *final(self) == *old(self),
            index < old(self).spec_len() && !(old(self).node_at(index as int).is_dir && old(self).node_at(index as int).expanded) ==> *final(self) == *old(self),
            index < old(self).spec_len() && old(self).node_at(index as int).is_dir && old(self).node_at(index as int).expanded ==> (visible_node(
                old(self).root,
                old(self).node_at(index as int).path@,
            ) matches Some(tn) && (tn.is_dir && tn.expanded ==> (visible_node(
                final(self).root,
                tn.path@,
            ) matches Some(u) && u.is_dir && !u.expanded && u.children@ == tn.children@ && final(self).spec_len() + flatten_list(tn.children@).len() == old(self).spec_len())) && collapse_at(
                old(self).root,
                final(self).root,
                old(self).node_at(index as int).path@,
            )),
    {
        let n = self.nodes.len();
        if index >= n {
            return Ok(());
        }
        if !(self.nodes[index].is_dir && self.nodes[index].expanded) {
            return Ok(());
        }
        let target = self.nodes[index].path.clone();
        proof {
            assert(flatten_seq(self.root)[index as int].path@ == target@);
            lemma_flatten_visible(self.root, index as int);
            lemma_visible_node_path(self.root, target@);
        }
        let mut root = FileNode::new(String::new(), false, 0);
        core::mem::swap(&mut self.root, &mut root);
        let (root2, _found) = collapse_in(root, target.as_str());
        self.root = root2;
        self.rebuild_flat_list();
        Ok(())
    }

    /// Expand a collapsed directory or collapse an expanded one.
    pub fn toggle_expand(&mut self, index: usize, fs: &FsSnapshot) -> (r: Result<(), OpError>)
        requires
            old(self).wf(),
        ensures
            final(self).wf(),
            final(self).show_hidden == old(self).show_hidden,
            final(self).root.path@ == old(self).root.path@,
            index >= old(self).spec_len() ==> *final(self) == *old(self) && r is Ok,
            index < old(self).spec_len() && !old(self).node_at(index as int).is_dir ==> *final(self) == *old(self) && r is Ok,
            index < old(self).spec_len() && old(self).node_at(index as int).is_dir && old(self).node_at(index as int).expanded ==> r is Ok,
            r is Err ==> final(self).nodes == old(self).nodes && same_tree(
                final(self).root,
                old(self).root,
            ),
    {
        let ghost self0 = *self;
        let n = self.nodes.len();
        if index >= n {
            return Ok(());
        }
        if !self.nodes[index].is_dir {
            return Ok(());
        }
        if self.nodes[index].expanded {
            let r = self.collapse_node(index);
            proof {
                assert(r is Ok);
            }
            r
        } else {
            self.expand_node(index, fs)
        }
    }

    /// Collapse everything below the root; the root itself stays expanded.
    pub fn collapse_all(&mut self)
        requires
            old(self).wf(),
        ensures
            final(self).wf(),
            final(self).show_hidden == old(self).show_hidden,
            final(self).root.path@ == old(self).root.path@,
            final(self).root.expanded,
            forall|i: int|
                1 <= i < final(self).spec_len() ==> !(#[trigger] final(self).node_at(i)).expanded,
            final(self).root.children@.len() == old(self).root.children@.len(),
            forall|i: int|
                0 <= i < old(self).root.children@.len() ==> collapsed_tree(
                    old(self).root.children@[i],
                    #[trigger] final(self).root.children@[i],
                ),
    {
        let ghost root0 = self.root;
        let mut root = FileNode::new(String::new(), false, 0);
        core::mem::swap(&mut self.root, &mut root);
        let mut m = collapse_all_in(root);
        m.expanded = true;
        proof {
            assert forall|i: int|
                0 <= i < root0.children@.len() implies collapsed_tree(
                root0.children@[i],
                #[trigger] m.children@[i],
            ) by {
                lemma_collapsed_tree_list_index(root0.children@, m.children@, i);
            }
        }
        proof {
            assert(wf_node(m));
        }
        self.root = m;
        self.rebuild_flat_list();
        proof {
            lemma_flatten_list_all_collapsed(self.root.children@);
            assert(flatten_seq(self.root) =~= seq![self.root] + self.root.children@);
            assert forall|i: int|
                1 <= i < self.spec_len() implies !(#[trigger] self.node_at(i)).expanded by {
                assert(flatten_seq(self.root)[i] == self.root.children@[i - 1]);
                assert(matches_entry(self.nodes@[i], flatten_seq(self.root)[i]));
            }
        }
    }

    /// Expand every directory reachable under the root, loading listings
    /// from `fs` where they exist; individual failures are swallowed.
    pub fn expand_all(&mut self, fs: &FsSnapshot) -> (r: Result<(), OpError>)
        requires
            old(self).wf(),
        ensures
            r is Ok,
            final(self).wf(),
            final(self).show_hidden == old(self).show_hidden,
            final(self).root.path@ == old(self).root.path@,
            final(self).root.expanded,
            forall|i: int|
                0 <= i < final(self).spec_len() ==> ((#[trigger] final(self).node_at(i)).is_dir
                    ==> final(self).node_at(i).expanded),
    {
        let na = self.nodes.len();
        let nb = fs.dirs.len();
        let fuel: usize = if usize::MAX - na >= nb {
            if usize::MAX - (na + nb) >= 64 {
                na + nb + 64
            } else {
                usize::MAX
            }
        } else {
            usize::MAX
        };
        let mut root = FileNode::new(String::new(), false, 0);
        core::mem::swap(&mut self.root, &mut root);
        let m = expand_all_in(root, fs, self.show_hidden, fuel);
        self.root = m;
        self.rebuild_flat_list();
        proof {
            assert forall|i: int|
                0 <= i < self.spec_len() implies ((#[trigger] self.node_at(i)).is_dir
                ==> self.node_at(i).expanded) by {
                assert(matches_entry(self.nodes@[i], flatten_seq(self.root)[i]));
            }
        }
        Ok(())
    }

    /// Rebuild the whole tree from `fs`, then re-expand every directory that
    /// was expanded before and still exists. Entries that appeared or
    /// vanished on disk appear or vanish here; expansion state of vanished
    /// paths is dropped. Fails, leaving the tree untouched, exactly when the
    /// root itself has no listing.
    pub fn refresh(&mut self, fs: &FsSnapshot) -> (r: Result<(), OpError>)
        requires
            old(self).wf(),
        ensures
            final(self).wf(),
            final(self).show_hidden == old(self).show_hidden,
            final(self).root.path@ == old(self).root.path@,
            r is Err <==> !fs.has_listing(old(self).root.path@),
            r is Err ==> *final(self) == *old(self),
            r is Ok ==> final(self).root.expanded,
            r is Ok ==> forall|name: Seq<char>, d: bool|
                child_key_count(final(self).root.children@, name, d) == entry_key_count(
                    fs.listing_seq(old(self).root.path@),
                    old(self).show_hidden,
                    name,
                    d,
                ),
    {
        let expanded = self.collect_expanded_paths();
        match fs.listing(self.root.path.as_str()) {
            None => Err(OpError::IoError),
            Some(entries) => {
                let mut root = FileNode::new(self.root.path.clone(), true, 0);
                root.load_children(entries, self.show_hidden);
                root.expanded = true;
                proof {
                    assert(wf_node(root));
                }
                let n = expanded.len();
                let mut i: usize = 0;
                while i < n
                    invariant
                        n == expanded@.len(),
                        i <= n,
                        *self == *old(self),
                        root.path@ == old(self).root.path@,
                        root.is_dir,
                        root.expanded,
                        wf_node(root),
                        fs.has_listing(old(self).root.path@),
                        forall|name: Seq<char>, d: bool|
                            child_key_count(root.children@, name, d) == entry_key_count(
                                fs.listing_seq(old(self).root.path@),
                                old(self).show_hidden,
                                name,
                                d,
                            ),
                    decreases n - i,
                {
                    let len_i = expanded[i].as_str().unicode_len();
                    let fuel: usize = if len_i < usize::MAX - 2 {
                        len_i + 2
                    } else {
                        usize::MAX
                    };
                    let target = &expanded[i];
                    let ghost before = root;
                    let mut tmp = FileNode::new(String::new(), false, 0);
                    core::mem::swap(&mut root, &mut tmp);
                    root = restore_expanded_in(tmp, target.as_str(), fs, self.show_hidden, fuel);
                    proof {
                        if before.children@.len() > 0 {
                            lemma_child_key_count_pointwise(root.children@, before.children@);
                        } else {
                            assert forall|name: Seq<char>, d: bool|
                                child_key_count(root.children@, name, d) == entry_key_count(
                                    fs.listing_seq(self.root.path@),
                                    self.show_hidden,
                                    name,
                                    d,
                                ) by {
                                assert(child_key_count(before.children@, name, d) == 0);
                                if root.children@.len() == 0 {
                                    assert(child_key_count(root.children@, name, d) == 0);
                                }
                            }
                        }
                    }
                    i += 1;
                }
                self.root = root;
                self.rebuild_flat_list();
                Ok(())
            },
        }
    }

    /// Switch the hidden-entry filter and rescan. On failure the flag is
    /// switched but the tree keeps its last good state.
    pub fn set_show_hidden(&mut self, show_hidden: bool, fs: &FsSnapshot) -> (r: Result<
        (),
        OpError,
    >)
        requires
            old(self).wf(),
        ensures
            final(self).wf(),
            final(self).show_hidden == show_hidden,
            final(self).root.path@ == old(self).root.path@,
            r is Err <==> !fs.has_listing(old(self).root.path@),
            r is Err ==> final(self).root == old(self).root && final(self).nodes == old(self).nodes
                && final(self).flat_list == old(self).flat_list,
            r is Ok ==> final(self).root.expanded,
            r is Ok ==> forall|name: Seq<char>, d: bool|
                child_key_count(final(self).root.children@, name, d) == entry_key_count(
                    fs.listing_seq(old(self).root.path@),
                    show_hidden,
                    name,
                    d,
                ),
    {
        self.show_hidden = show_hidden;
        self.refresh(fs)
    }
}

/// However the tree was manipulated, the flat list has exactly one entry per
/// node whose full ancestor chain (excluding the node itself) is expanded,
/// the root included.
pub proof fn lemma_flat_list_counts_visible(t: FileTree)
    requires
        t.wf(),
    ensures
        t.spec_len() == visible_count(t.root),
        t.flat_list@.len() == visible_count(t.root),
{
    lemma_flatten_len_is_visible_count(t.root);
}

/// A traversal always holds at least the subtree's own root.
pub proof fn lemma_flatten_nonempty(n: FileNode)
    ensures
        flatten_seq(n).len() >= 1,
        flatten_seq(n)[0] == n,
{
}

} // verus!
